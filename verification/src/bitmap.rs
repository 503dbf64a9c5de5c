//! Bitmap pages: one bit for each page that the bitmap governs, most
//! significant bit first within each byte.

use vstd::prelude::*;
use crate::page::{zero_page, PAGE_SIZE, Page, PageType};

verus! {

/// The number of bits in a bitmap page.
pub const BITMAP_MANAGED_SIZE: usize = 32768;

/// Whether bit `b` of `byte` is set, counting from the most significant bit.
pub open spec fn byte_bit(byte: u8, b: u8) -> bool {
    byte & (0x80u8 >> b) != 0
}

/// Whether bit `p` of a bitmap image is set.
pub open spec fn bit_at(bits: Seq<u8>, p: int) -> bool {
    byte_bit(bits[p / 8], (p % 8) as u8)
}

/// A bitmap image with bit `p` set.
pub open spec fn with_bit_set(bits: Seq<u8>, p: int) -> Seq<u8> {
    bits.update(p / 8, bits[p / 8] | (0x80u8 >> ((p % 8) as u8)))
}

/// A bitmap image with bit `p` cleared.
pub open spec fn with_bit_clear(bits: Seq<u8>, p: int) -> Seq<u8> {
    bits.update(p / 8, bits[p / 8] & !(0x80u8 >> ((p % 8) as u8)))
}

/// Setting one bit of a byte leaves the other seven as they were.
pub proof fn lemma_byte_set(byte: u8, b: u8, c: u8)
    requires
        b < 8,
        c < 8,
    ensures
        byte_bit(byte | (0x80u8 >> b), c) == (c == b || byte_bit(byte, c)),
{
    assert((byte | (0x80u8 >> b)) & (0x80u8 >> c) != 0 <==> (c == b || byte & (0x80u8 >> c) != 0))
        by (bit_vector)
        requires
            b < 8,
            c < 8,
    ;
}

/// Clearing one bit of a byte leaves the other seven as they were.
pub proof fn lemma_byte_clear(byte: u8, b: u8, c: u8)
    requires
        b < 8,
        c < 8,
    ensures
        byte_bit(byte & !(0x80u8 >> b), c) == (c != b && byte_bit(byte, c)),
{
    assert((byte & !(0x80u8 >> b)) & (0x80u8 >> c) != 0 <==> (c != b && byte & (0x80u8 >> c) != 0))
        by (bit_vector)
        requires
            b < 8,
            c < 8,
    ;
}

/// A byte is 255 exactly when all of its eight bits are set.
pub proof fn lemma_byte_full(byte: u8)
    ensures
        byte == 255 <==> (forall|b: u8| b < 8 ==> byte_bit(byte, b)),
        byte == 0 ==> (forall|b: u8| b < 8 ==> !byte_bit(byte, b)),
{
    assert(byte == 255 <==> (byte & (0x80u8 >> 0u8) != 0 && byte & (0x80u8 >> 1u8) != 0 && byte & (
    0x80u8 >> 2u8) != 0 && byte & (0x80u8 >> 3u8) != 0 && byte & (0x80u8 >> 4u8) != 0 && byte & (
    0x80u8 >> 5u8) != 0 && byte & (0x80u8 >> 6u8) != 0 && byte & (0x80u8 >> 7u8) != 0))
        by (bit_vector);
    assert(forall|b: u8| b < 8 ==> 0u8 & (0x80u8 >> b) == 0) by (bit_vector);
    if byte == 255 {
        assert forall|b: u8| b < 8 implies byte_bit(byte, b) by {
            assert(b == 0 || b == 1 || b == 2 || b == 3 || b == 4 || b == 5 || b == 6 || b == 7);
        }
    }
    if forall|b: u8| b < 8 ==> byte_bit(byte, b) {
        assert(byte_bit(byte, 0u8) && byte_bit(byte, 1u8) && byte_bit(byte, 2u8) && byte_bit(
            byte,
            3u8,
        ));
        assert(byte_bit(byte, 4u8) && byte_bit(byte, 5u8) && byte_bit(byte, 6u8) && byte_bit(
            byte,
            7u8,
        ));
    }
}

/// Setting bit `p` of an image sets it and changes no other bit.
pub proof fn lemma_with_bit_set(bits: Seq<u8>, p: int, q: int)
    requires
        0 <= p < bits.len() * 8,
        0 <= q < bits.len() * 8,
    ensures
        with_bit_set(bits, p).len() == bits.len(),
        bit_at(with_bit_set(bits, p), q) == (q == p || bit_at(bits, q)),
{
    if q / 8 == p / 8 {
        lemma_byte_set(bits[p / 8], (p % 8) as u8, (q % 8) as u8);
    }
}

/// Clearing bit `p` of an image clears it and changes no other bit.
pub proof fn lemma_with_bit_clear(bits: Seq<u8>, p: int, q: int)
    requires
        0 <= p < bits.len() * 8,
        0 <= q < bits.len() * 8,
    ensures
        with_bit_clear(bits, p).len() == bits.len(),
        bit_at(with_bit_clear(bits, p), q) == (q != p && bit_at(bits, q)),
{
    if q / 8 == p / 8 {
        lemma_byte_clear(bits[p / 8], (p % 8) as u8, (q % 8) as u8);
    }
}

/// No bit of a zero page is set.
pub proof fn lemma_zero_page_bits(p: int)
    requires
        0 <= p < BITMAP_MANAGED_SIZE,
    ensures
        !bit_at(zero_page(), p),
{
    lemma_byte_full(0u8);
}

/// A page read as a bitmap.
pub struct BitmapPage {
    pub page: Page,
}

impl BitmapPage {
    /// Whether bit `p` is set.
    pub open spec fn used(&self, p: int) -> bool {
        bit_at(self.page.data@, p)
    }

    /// An empty bitmap for page `count`.
    pub fn new(count: u64) -> (bitmap: BitmapPage)
        ensures
            bitmap.page.count == count,
            bitmap.page.page_type == PageType::BitmapPage,
            !bitmap.page.syncd,
            bitmap.page.data@ == zero_page(),
            forall|p: int| 0 <= p < BITMAP_MANAGED_SIZE ==> !bitmap.used(p),
    {
        let bitmap = BitmapPage { page: Page::new(count, PageType::BitmapPage) };
        proof {
            assert forall|p: int| 0 <= p < BITMAP_MANAGED_SIZE implies !bitmap.used(p) by {
                lemma_zero_page_bits(p);
            }
        }
        bitmap
    }

    /// Whether the page at position `count` of this bitmap is in use.
    pub fn get_used(&self, count: u64) -> (b: bool)
        requires
            count < BITMAP_MANAGED_SIZE,
        ensures
            b == self.used(count as int),
    {
        let byte: usize = (count / 8) as usize;
        let bit: u8 = (count % 8) as u8;
        self.page.data[byte] & (0x80u8 >> bit) != 0
    }

    /// Marks the page at position `count` as in use.
    pub fn set_used(&mut self, count: u64)
        requires
            count < BITMAP_MANAGED_SIZE,
        ensures
            final(self).page.data@ == with_bit_set(old(self).page.data@, count as int),
            final(self).page.count == old(self).page.count,
            final(self).page.page_type == old(self).page.page_type,
            final(self).page.syncd == old(self).page.syncd,
            forall|p: int|
                0 <= p < BITMAP_MANAGED_SIZE ==> final(self).used(p) == (p == count || old(self).used(p)),
    {
        let byte: usize = (count / 8) as usize;
        let bit: u8 = (count % 8) as u8;
        let value: u8 = self.page.data[byte] | (0x80u8 >> bit);
        self.page.data[byte] = value;
        proof {
            assert(self.page.data@ =~= with_bit_set(old(self).page.data@, count as int));
            assert forall|p: int| 0 <= p < BITMAP_MANAGED_SIZE implies self.used(p) == (p == count
                || old(self).used(p)) by {
                lemma_with_bit_set(old(self).page.data@, count as int, p);
            }
        }
    }

    /// Marks the page at position `count` as free.
    pub fn set_unused(&mut self, count: u64)
        requires
            count < BITMAP_MANAGED_SIZE,
        ensures
            final(self).page.data@ == with_bit_clear(old(self).page.data@, count as int),
            final(self).page.count == old(self).page.count,
            final(self).page.page_type == old(self).page.page_type,
            final(self).page.syncd == old(self).page.syncd,
            forall|p: int|
                0 <= p < BITMAP_MANAGED_SIZE ==> final(self).used(p) == (p != count && old(self).used(p)),
    {
        let byte: usize = (count / 8) as usize;
        let bit: u8 = (count % 8) as u8;
        let value: u8 = self.page.data[byte] & !(0x80u8 >> bit);
        self.page.data[byte] = value;
        proof {
            assert(self.page.data@ =~= with_bit_clear(old(self).page.data@, count as int));
            assert forall|p: int| 0 <= p < BITMAP_MANAGED_SIZE implies self.used(p) == (p != count
                && old(self).used(p)) by {
                lemma_with_bit_clear(old(self).page.data@, count as int, p);
            }
        }
    }

    /// The lowest position that is free, if there is one.
    pub fn find_unused(&self) -> (r: Option<u64>)
        ensures
            match r {
                Some(p) => p < BITMAP_MANAGED_SIZE && !self.used(p as int) && forall|q: int|
                    0 <= q < p ==> self.used(q),
                None => forall|q: int| 0 <= q < BITMAP_MANAGED_SIZE ==> self.used(q),
            },
    {
        let mut i: usize = 0;
        while i < PAGE_SIZE
            invariant
                i <= PAGE_SIZE,
                forall|q: int| 0 <= q < i * 8 ==> self.used(q),
            decreases PAGE_SIZE - i,
        {
            let byte: u8 = self.page.data[i];
            if byte != 255 {
                let mut j: u8 = 0;
                while j < 8
                    invariant
                        j <= 8,
                        i < PAGE_SIZE,
                        byte == self.page.data@[i as int],
                        forall|q: int| 0 <= q < i * 8 + j ==> self.used(q),
                    decreases 8 - j,
                {
                    let position: u64 = (i * 8 + j as usize) as u64;
                    if !self.get_used(position) {
                        return Some(position);
                    }
                    j += 1;
                }
                proof {
                    lemma_byte_full(byte);
                    assert forall|b: u8| b < 8 implies byte_bit(byte, b) by {
                        assert(self.used(i * 8 + b));
                        assert((i * 8 + b) / 8 == i as int);
                        assert((i * 8 + b) % 8 == b as int);
                    }
                    assert(false);
                }
            } else {
                proof {
                    lemma_byte_full(byte);
                    assert forall|q: int| 0 <= q < (i + 1) * 8 implies self.used(q) by {
                        if q >= i * 8 {
                            assert(q / 8 == i as int);
                            assert(byte_bit(byte, (q % 8) as u8));
                        }
                    }
                }
            }
            i += 1;
        }
        None
    }
}

} // verus!
