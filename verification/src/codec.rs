//! Big-endian integers inside byte buffers, stated with plain arithmetic.

use vstd::prelude::*;

verus! {

/// `s` with the bytes of `d` written over it from offset `off` on.
pub open spec fn splice(s: Seq<u8>, off: int, d: Seq<u8>) -> Seq<u8> {
    Seq::new(s.len(), |i: int| if off <= i < off + d.len() { d[i - off] } else { s[i] })
}

/// The number that two bytes denote, most significant byte first.
pub closed spec fn spec_u16_from_be(s: Seq<u8>) -> u16 {
    (s[0] as int * 256 + s[1] as int) as u16
}

/// The two bytes of a 16-bit number, most significant first.
pub closed spec fn spec_u16_to_be(x: u16) -> Seq<u8> {
    seq![(x as int / 256) as u8, (x as int % 256) as u8]
}

/// The number that eight bytes denote, most significant byte first.
pub closed spec fn spec_u64_from_be(s: Seq<u8>) -> u64 {
    (((((((s[0] as int * 256 + s[1] as int) * 256 + s[2] as int) * 256 + s[3] as int) * 256
        + s[4] as int) * 256 + s[5] as int) * 256 + s[6] as int) * 256 + s[7] as int) as u64
}

/// The eight bytes of a 64-bit number, most significant first.
pub closed spec fn spec_u64_to_be(x: u64) -> Seq<u8> {
    let x1 = x as int / 256;
    let x2 = x1 / 256;
    let x3 = x2 / 256;
    let x4 = x3 / 256;
    let x5 = x4 / 256;
    let x6 = x5 / 256;
    let x7 = x6 / 256;
    seq![
        (x7 % 256) as u8,
        (x6 % 256) as u8,
        (x5 % 256) as u8,
        (x4 % 256) as u8,
        (x3 % 256) as u8,
        (x2 % 256) as u8,
        (x1 % 256) as u8,
        (x as int % 256) as u8,
    ]
}

/// Decoding the encoding of a 16-bit number gives the number back.
pub proof fn lemma_u16_round_trip(x: u16)
    ensures
        spec_u16_to_be(x).len() == 2,
        spec_u16_from_be(spec_u16_to_be(x)) == x,
{
}

/// Decoding the encoding of a 64-bit number gives the number back.
pub proof fn lemma_u64_round_trip(x: u64)
    ensures
        spec_u64_to_be(x).len() == 8,
        spec_u64_from_be(spec_u64_to_be(x)) == x,
{
}

/// The bytes of a 16-bit number, each by its value.
pub proof fn law_u16_bytes(x: u16)
    ensures
        spec_u16_to_be(x) == seq![(x as int / 256) as u8, (x as int % 256) as u8],
{
}

/// The number that two bytes denote, by its value.
pub proof fn law_u16_value(s: Seq<u8>)
    ensures
        spec_u16_from_be(s) == (s[0] as int * 256 + s[1] as int) as u16,
{
}

/// The bytes of a 64-bit number, each by its value.
pub proof fn law_u64_bytes(x: u64)
    ensures
        spec_u64_to_be(x) == seq![
            (x as int / 0x100_0000_0000_0000 % 256) as u8,
            (x as int / 0x1_0000_0000_0000 % 256) as u8,
            (x as int / 0x100_0000_0000 % 256) as u8,
            (x as int / 0x1_0000_0000 % 256) as u8,
            (x as int / 0x100_0000 % 256) as u8,
            (x as int / 0x1_0000 % 256) as u8,
            (x as int / 0x100 % 256) as u8,
            (x as int % 256) as u8,
        ],
{
    let x1 = x as int / 256;
    let x2 = x1 / 256;
    let x3 = x2 / 256;
    let x4 = x3 / 256;
    let x5 = x4 / 256;
    let x6 = x5 / 256;
    let x7 = x6 / 256;
    assert(x2 == x as int / 0x1_0000);
    assert(x3 == x as int / 0x100_0000);
    assert(x4 == x as int / 0x1_0000_0000);
    assert(x5 == x as int / 0x100_0000_0000);
    assert(x6 == x as int / 0x1_0000_0000_0000);
    assert(x7 == x as int / 0x100_0000_0000_0000);
    assert(spec_u64_to_be(x) =~= seq![
        (x7 % 256) as u8,
        (x6 % 256) as u8,
        (x5 % 256) as u8,
        (x4 % 256) as u8,
        (x3 % 256) as u8,
        (x2 % 256) as u8,
        (x1 % 256) as u8,
        (x as int % 256) as u8,
    ]);
}

/// The number that eight bytes denote, by its value.
pub proof fn law_u64_value(s: Seq<u8>)
    ensures
        spec_u64_from_be(s) == (((((((s[0] as int * 256 + s[1] as int) * 256 + s[2] as int) * 256
            + s[3] as int) * 256 + s[4] as int) * 256 + s[5] as int) * 256 + s[6] as int) * 256
            + s[7] as int) as u64,
{
}

/// Reads the 16-bit number stored at `off`.
pub fn u16_from_be(s: &[u8], off: usize) -> (x: u16)
    requires
        off + 2 <= s@.len(),
    ensures
        x == spec_u16_from_be(s@.subrange(off as int, off + 2)),
{
    let hi: u16 = s[off] as u16;
    let lo: u16 = s[off + 1] as u16;
    hi * 256 + lo
}

/// The two bytes of `x`, most significant first.
pub fn u16_to_be(x: u16) -> (b: [u8; 2])
    ensures
        b@ == spec_u16_to_be(x),
{
    let b: [u8; 2] = [(x / 256) as u8, (x % 256) as u8];
    assert(b@ =~= spec_u16_to_be(x));
    b
}

/// Reads the 64-bit number stored at `off`.
pub fn u64_from_be(s: &[u8], off: usize) -> (x: u64)
    requires
        off + 8 <= s@.len(),
    ensures
        x == spec_u64_from_be(s@.subrange(off as int, off + 8)),
{
    let mut x: u64 = s[off] as u64;
    x = x * 256 + s[off + 1] as u64;
    x = x * 256 + s[off + 2] as u64;
    x = x * 256 + s[off + 3] as u64;
    x = x * 256 + s[off + 4] as u64;
    x = x * 256 + s[off + 5] as u64;
    x = x * 256 + s[off + 6] as u64;
    x = x * 256 + s[off + 7] as u64;
    x
}

/// The eight bytes of `x`, most significant first.
pub fn u64_to_be(x: u64) -> (b: [u8; 8])
    ensures
        b@ == spec_u64_to_be(x),
{
    let x1: u64 = x / 256;
    let x2: u64 = x1 / 256;
    let x3: u64 = x2 / 256;
    let x4: u64 = x3 / 256;
    let x5: u64 = x4 / 256;
    let x6: u64 = x5 / 256;
    let x7: u64 = x6 / 256;
    let b: [u8; 8] = [
        (x7 % 256) as u8,
        (x6 % 256) as u8,
        (x5 % 256) as u8,
        (x4 % 256) as u8,
        (x3 % 256) as u8,
        (x2 % 256) as u8,
        (x1 % 256) as u8,
        (x % 256) as u8,
    ];
    assert(b@ =~= spec_u64_to_be(x));
    b
}

/// Copies `src` over `dst` from offset `off` on.
pub fn write_bytes(dst: &mut [u8], off: usize, src: &[u8])
    requires
        off + src@.len() <= old(dst)@.len(),
    ensures
        final(dst)@ == splice(old(dst)@, off as int, src@),
{
    let mut i: usize = 0;
    while i < src.len()
        invariant
            i <= src@.len(),
            off + src@.len() <= dst.len(),
            dst@.len() == old(dst)@.len(),
            forall|j: int|
                0 <= j < dst@.len() ==> dst@[j] == (if off <= j < off + i {
                    src@[j - off]
                } else {
                    old(dst)@[j]
                }),
        decreases src@.len() - i,
    {
        dst[off + i] = src[i];
        i += 1;
    }
    assert(dst@ =~= splice(old(dst)@, off as int, src@));
}

/// A fresh vector holding `src[from..to]`.
pub fn copy_range(src: &[u8], from: usize, to: usize) -> (out: Vec<u8>)
    requires
        from <= to <= src@.len(),
    ensures
        out@ == src@.subrange(from as int, to as int),
{
    let mut out: Vec<u8> = Vec::new();
    let mut i: usize = from;
    while i < to
        invariant
            from <= i <= to <= src@.len(),
            out@ == src@.subrange(from as int, i as int),
        decreases to - i,
    {
        out.push(src[i]);
        proof {
            assert(out@ =~= src@.subrange(from as int, i + 1));
        }
        i += 1;
    }
    out
}

} // verus!
