//! Content pages: variable-length entries packed one after another.
//!
//! Layout of a page: byte 0 is the type tag, byte 1 the number of entries,
//! then the entries. An entry starts with two bytes that hold the length of
//! its inline data, with 32768 added where the payload goes on in an overflow
//! chain; then, for such an entry, the eight bytes of the chain's first page
//! count; then the inline data.

use vstd::prelude::*;
use crate::codec::{
    copy_range, lemma_u16_round_trip, lemma_u64_round_trip, spec_u16_from_be, spec_u16_to_be,
    spec_u64_from_be, spec_u64_to_be, u16_from_be, u16_to_be, u64_from_be, u64_to_be, write_bytes,
};
use crate::page::{PAGE_SIZE, PAGE_TYPEID_CONTENT};

verus! {

/// The most entries that a content page holds.
pub const CONTENT_MAX_ENTRIES: usize = 255;

/// One entry of a content page: the inline part of a payload, and where the
/// rest of it starts.
#[derive(Default, Clone, Debug)]
pub struct ContentEntry {
    pub data: Vec<u8>,
    pub overflow_page: Option<u64>,
}

/// What a content entry holds.
pub struct EntryView {
    pub data: Seq<u8>,
    pub overflow_page: Option<u64>,
}

impl View for ContentEntry {
    type V = EntryView;

    open spec fn view(&self) -> EntryView {
        EntryView { data: self.data@, overflow_page: self.overflow_page }
    }
}

impl EntryView {
    /// The bytes of the header: 2, or 10 with an overflow chain.
    pub open spec fn header_size(self) -> int {
        if self.overflow_page is Some {
            10
        } else {
            2
        }
    }

    /// The bytes that the entry takes in its page.
    pub open spec fn size(self) -> int {
        self.header_size() + self.data.len()
    }

    /// The length field: the inline length, plus 32768 with an overflow chain.
    pub open spec fn header(self) -> u16 {
        if self.overflow_page is Some {
            (self.data.len() + 32768) as u16
        } else {
            self.data.len() as u16
        }
    }

    /// The bytes of the entry in its page.
    pub open spec fn encode(self) -> Seq<u8> {
        match self.overflow_page {
            Some(first) => spec_u16_to_be(self.header()) + spec_u64_to_be(first) + self.data,
            None => spec_u16_to_be(self.header()) + self.data,
        }
    }
}

/// The bytes that the entries take together.
pub open spec fn entries_size(es: Seq<EntryView>) -> int
    decreases es.len(),
{
    if es.len() == 0 {
        0
    } else {
        entries_size(es.drop_last()) + es.last().size()
    }
}

/// The bytes of the entries, one after another.
pub open spec fn encode_entries(es: Seq<EntryView>) -> Seq<u8>
    decreases es.len(),
{
    if es.len() == 0 {
        Seq::empty()
    } else {
        encode_entries(es.drop_last()) + es.last().encode()
    }
}

/// Whether the entries make a legal page: at most 255 of them, and with the
/// page header no more than a page of bytes.
pub open spec fn entries_fit(es: Seq<EntryView>) -> bool {
    es.len() <= CONTENT_MAX_ENTRIES && 2 + entries_size(es) <= PAGE_SIZE
}

/// The image of a content page with the given entries.
pub open spec fn content_dump(es: Seq<EntryView>) -> Seq<u8> {
    let body = encode_entries(es);
    Seq::new(
        PAGE_SIZE as nat,
        |i: int|
            if i == 0 {
                PAGE_TYPEID_CONTENT
            } else if i == 1 {
                es.len() as u8
            } else if i < 2 + body.len() {
                body[i - 2]
            } else {
                0u8
            },
    )
}

/// The entry that starts at `ptr`, and where the next one starts; `None`
/// where the entry would run past the end of the page.
pub open spec fn parse_entry(bytes: Seq<u8>, ptr: int) -> Option<(EntryView, int)> {
    if ptr + 2 > PAGE_SIZE {
        None
    } else {
        let size = spec_u16_from_be(bytes.subrange(ptr, ptr + 2)) as int;
        if size >= 32768 {
            let len = size - 32768;
            if ptr + 10 + len > PAGE_SIZE {
                None
            } else {
                Some(
                    (
                        EntryView {
                            data: bytes.subrange(ptr + 10, ptr + 10 + len),
                            overflow_page: Some(
                                spec_u64_from_be(bytes.subrange(ptr + 2, ptr + 10)),
                            ),
                        },
                        ptr + 10 + len,
                    ),
                )
            }
        } else {
            if ptr + 2 + size > PAGE_SIZE {
                None
            } else {
                Some(
                    (
                        EntryView {
                            data: bytes.subrange(ptr + 2, ptr + 2 + size),
                            overflow_page: None,
                        },
                        ptr + 2 + size,
                    ),
                )
            }
        }
    }
}

/// Up to `k` entries from `ptr` on; the sequence ends early at an entry that
/// would run past the end of the page.
pub open spec fn parse_entries(bytes: Seq<u8>, ptr: int, k: nat) -> Seq<EntryView>
    decreases k,
{
    if k == 0 {
        Seq::empty()
    } else {
        match parse_entry(bytes, ptr) {
            Some((entry, next)) => seq![entry] + parse_entries(bytes, next, (k - 1) as nat),
            None => Seq::empty(),
        }
    }
}

/// The entries that a page image holds.
pub open spec fn content_load(bytes: Seq<u8>) -> Seq<EntryView> {
    parse_entries(bytes, 2, bytes[1] as nat)
}

/// The encoding of an entry is as long as its size says.
pub proof fn lemma_encode_len(e: EntryView)
    ensures
        e.encode().len() == e.size(),
{
    lemma_u16_round_trip(e.header());
    if e.overflow_page is Some {
        lemma_u64_round_trip(e.overflow_page.unwrap());
    }
}

/// The encoding of entries is as long as their sizes say, and no size is
/// negative.
pub proof fn lemma_entries_size(es: Seq<EntryView>)
    ensures
        encode_entries(es).len() == entries_size(es),
        entries_size(es) >= 2 * es.len(),
        forall|i: int| 0 <= i < es.len() ==> (#[trigger] es[i]).size() <= entries_size(es),
    decreases es.len(),
{
    if es.len() > 0 {
        lemma_entries_size(es.drop_last());
        lemma_encode_len(es.last());
        assert forall|i: int| 0 <= i < es.len() implies (#[trigger] es[i]).size() <= entries_size(
            es,
        ) by {
            if i < es.len() - 1 {
                assert(es.drop_last()[i] == es[i]);
            }
        }
    }
}

/// One more entry adds its size and its bytes at the end.
pub proof fn lemma_entries_push(es: Seq<EntryView>, e: EntryView)
    ensures
        entries_size(es.push(e)) == entries_size(es) + e.size(),
        encode_entries(es.push(e)) == encode_entries(es) + e.encode(),
{
    assert(es.push(e).drop_last() =~= es);
}

/// The sizes of a prefix of the entries.
pub proof fn lemma_entries_take(es: Seq<EntryView>, i: int)
    requires
        0 <= i < es.len(),
    ensures
        entries_size(es.take(i + 1)) == entries_size(es.take(i)) + es[i].size(),
        encode_entries(es.take(i + 1)) == encode_entries(es.take(i)) + es[i].encode(),
        entries_size(es.take(i + 1)) <= entries_size(es),
        encode_entries(es).subrange(entries_size(es.take(i)), entries_size(es.take(i + 1)))
            == es[i].encode(),
    decreases es.len(),
{
    assert(es.take(i + 1).drop_last() =~= es.take(i));
    assert(es.take(i + 1).last() == es[i]);
    lemma_entries_size(es.take(i));
    lemma_entries_size(es.take(i + 1));
    lemma_entries_size(es);
    if i == es.len() - 1 {
        assert(es.take(i + 1) =~= es);
        assert(es.take(i) =~= es.drop_last());
        assert(encode_entries(es).subrange(
            entries_size(es.take(i)),
            entries_size(es.take(i + 1)),
        ) =~= es[i].encode());
    } else {
        let front = es.drop_last();
        lemma_entries_take(front, i);
        assert(front.take(i) =~= es.take(i));
        assert(front.take(i + 1) =~= es.take(i + 1));
        lemma_entries_size(front);
        assert(encode_entries(es).subrange(
            entries_size(es.take(i)),
            entries_size(es.take(i + 1)),
        ) =~= encode_entries(front).subrange(
            entries_size(es.take(i)),
            entries_size(es.take(i + 1)),
        ));
    }
}

/// Entries take as many bytes together after one of them was replaced by an
/// entry of the same size.
pub proof fn lemma_entries_update(es: Seq<EntryView>, i: int, e: EntryView)
    requires
        0 <= i < es.len(),
        e.size() == es[i].size(),
    ensures
        entries_size(es.update(i, e)) == entries_size(es),
    decreases es.len(),
{
    let us = es.update(i, e);
    if i == es.len() - 1 {
        assert(us.drop_last() =~= es.drop_last());
    } else {
        lemma_entries_update(es.drop_last(), i, e);
        assert(us.drop_last() =~= es.drop_last().update(i, e));
    }
}

/// An entry that is encoded at `ptr` is the entry that parsing finds there.
pub proof fn lemma_parse_entry(bytes: Seq<u8>, ptr: int, e: EntryView)
    requires
        bytes.len() == PAGE_SIZE,
        0 <= ptr,
        ptr + e.size() <= PAGE_SIZE,
        bytes.subrange(ptr, ptr + e.size()) == e.encode(),
    ensures
        parse_entry(bytes, ptr) == Some((e, ptr + e.size())),
{
    let enc = e.encode();
    lemma_u16_round_trip(e.header());
    assert(bytes.subrange(ptr, ptr + 2) =~= spec_u16_to_be(e.header())) by {
        assert forall|j: int| 0 <= j < 2 implies bytes.subrange(ptr, ptr + 2)[j] == spec_u16_to_be(
            e.header(),
        )[j] by {
            assert(bytes.subrange(ptr, ptr + e.size())[j] == enc[j]);
        }
    }
    match e.overflow_page {
        Some(first) => {
            lemma_u64_round_trip(first);
            assert(bytes.subrange(ptr + 2, ptr + 10) =~= spec_u64_to_be(first)) by {
                assert forall|j: int| 0 <= j < 8 implies bytes.subrange(ptr + 2, ptr + 10)[j]
                    == spec_u64_to_be(first)[j] by {
                    assert(bytes.subrange(ptr, ptr + e.size())[j + 2] == enc[j + 2]);
                }
            }
            assert(bytes.subrange(ptr + 10, ptr + 10 + e.data.len()) =~= e.data) by {
                assert forall|j: int| 0 <= j < e.data.len() implies bytes.subrange(
                    ptr + 10,
                    ptr + 10 + e.data.len(),
                )[j] == e.data[j] by {
                    assert(bytes.subrange(ptr, ptr + e.size())[j + 10] == enc[j + 10]);
                }
            }
        },
        None => {
            assert(bytes.subrange(ptr + 2, ptr + 2 + e.data.len()) =~= e.data) by {
                assert forall|j: int| 0 <= j < e.data.len() implies bytes.subrange(
                    ptr + 2,
                    ptr + 2 + e.data.len(),
                )[j] == e.data[j] by {
                    assert(bytes.subrange(ptr, ptr + e.size())[j + 2] == enc[j + 2]);
                }
            }
        },
    }
}

/// Parsing the image of legal entries from the `i`-th on gives the entries
/// from the `i`-th on.
pub proof fn lemma_parse_dump(es: Seq<EntryView>, i: int)
    requires
        entries_fit(es),
        0 <= i <= es.len(),
    ensures
        parse_entries(content_dump(es), 2 + entries_size(es.take(i)), (es.len() - i) as nat)
            == es.skip(i),
    decreases es.len() - i,
{
    let bytes = content_dump(es);
    if i == es.len() {
        assert(es.skip(i) =~= Seq::<EntryView>::empty());
    } else {
        lemma_entries_take(es, i);
        lemma_entries_size(es);
        lemma_entries_size(es.take(i));
        let ptr = 2 + entries_size(es.take(i));
        let e = es[i];
        assert(bytes.subrange(ptr, ptr + e.size()) =~= e.encode()) by {
            let body = encode_entries(es);
            assert forall|j: int| 0 <= j < e.size() implies bytes.subrange(ptr, ptr + e.size())[j]
                == e.encode()[j] by {
                assert(body.subrange(ptr - 2, ptr - 2 + e.size())[j] == body[ptr - 2 + j]);
            }
        }
        lemma_parse_entry(bytes, ptr, e);
        lemma_parse_dump(es, i + 1);
        assert(es.skip(i) =~= seq![e] + es.skip(i + 1));
    }
}

/// Loading the image of legal entries gives the entries back.
pub proof fn lemma_content_round_trip(es: Seq<EntryView>)
    requires
        entries_fit(es),
    ensures
        content_dump(es).len() == PAGE_SIZE,
        content_dump(es)[0] == PAGE_TYPEID_CONTENT,
        content_load(content_dump(es)) == es,
{
    lemma_parse_dump(es, 0);
    assert(es.take(0) =~= Seq::<EntryView>::empty());
    assert(es.skip(0) =~= es);
}

impl ContentEntry {
    /// The bytes that the entry takes in its page, the overflowed part of the
    /// payload not counted.
    pub fn total_size(&self) -> (n: usize)
        requires
            self@.size() <= usize::MAX,
        ensures
            n == self@.size(),
    {
        if self.overflow_page.is_none() {
            2 + self.data.len()
        } else {
            2 + 8 + self.data.len()
        }
    }

    /// The bytes that an entry with `size` bytes of inline data takes.
    pub fn precalculate_size(size: usize, overflowed: bool) -> (n: usize)
        requires
            size + (if overflowed {
                10int
            } else {
                2int
            }) <= usize::MAX,
        ensures
            n == size + (if overflowed {
                10int
            } else {
                2int
            }),
    {
        if overflowed {
            size + 2 + 8
        } else {
            size + 2
        }
    }
}

/// A content page in memory.
#[derive(Default, Debug)]
pub struct ContentPage {
    pub entries: Vec<ContentEntry>,
}

impl View for ContentPage {
    type V = Seq<EntryView>;

    open spec fn view(&self) -> Seq<EntryView> {
        Seq::new(self.entries@.len(), |i: int| self.entries@[i]@)
    }
}

impl ContentPage {
    /// Whether the entries make a legal page.
    pub open spec fn wf(&self) -> bool {
        entries_fit(self@)
    }

    /// Reads the entries that a page image holds.
    pub fn load(page_data: &[u8; PAGE_SIZE]) -> (page: ContentPage)
        ensures
            page@ == content_load(page_data@),
            page.wf(),
    {
        let mut page = ContentPage { entries: Vec::new() };
        let entries_len: usize = page_data[1] as usize;
        let mut ptr: usize = 2;
        let mut i: usize = 0;
        let mut complete: bool = true;
        proof {
            assert(page@ =~= Seq::<EntryView>::empty());
        }
        while i < entries_len && complete
            invariant
                i <= entries_len <= 255,
                2 <= ptr <= PAGE_SIZE,
                page@.len() <= i,
                ptr == 2 + entries_size(page@),
                complete ==> content_load(page_data@) == page@ + parse_entries(
                    page_data@,
                    ptr as int,
                    (entries_len - i) as nat,
                ),
                !complete ==> content_load(page_data@) == page@,
            decreases entries_len - i + (if complete { 1int } else { 0int }),
        {
            let ghost rest = parse_entries(page_data@, ptr as int, (entries_len - i) as nat);
            if ptr + 2 > PAGE_SIZE {
                complete = false;
            } else {
                let size: u16 = u16_from_be(page_data, ptr);
                let overflowed: bool = size >= 32768;
                let len: usize = if overflowed {
                    (size - 32768) as usize
                } else {
                    size as usize
                };
                let start: usize = if overflowed {
                    ptr + 10
                } else {
                    ptr + 2
                };
                if start + len > PAGE_SIZE {
                    complete = false;
                } else {
                    let overflow_page: Option<u64> = if overflowed {
                        Some(u64_from_be(page_data, ptr + 2))
                    } else {
                        None
                    };
                    let entry = ContentEntry {
                        data: copy_range(page_data, start, start + len),
                        overflow_page,
                    };
                    let ghost before = page@;
                    proof {
                        lemma_entries_push(before, entry@);
                        assert(parse_entry(page_data@, ptr as int) == Some(
                            (entry@, start + len),
                        ));
                        assert(before + (seq![entry@] + parse_entries(
                            page_data@,
                            start + len,
                            (entries_len - i - 1) as nat,
                        )) =~= before.push(entry@) + parse_entries(
                            page_data@,
                            start + len,
                            (entries_len - i - 1) as nat,
                        ));
                    }
                    page.entries.push(entry);
                    proof {
                        assert(page@ =~= before.push(entry@));
                    }
                    ptr = start + len;
                    i += 1;
                }
            }
            proof {
                if !complete {
                    assert(parse_entry(page_data@, ptr as int) is None);
                    assert(rest =~= Seq::<EntryView>::empty());
                    assert(page@ + Seq::<EntryView>::empty() =~= page@);
                }
            }
        }
        proof {
            if complete {
                assert(parse_entries(page_data@, ptr as int, (entries_len - i) as nat)
                    =~= Seq::<EntryView>::empty());
                assert(page@ + Seq::<EntryView>::empty() =~= page@);
            }
        }
        page
    }

    /// The page image of the entries.
    pub fn dump(&self) -> (page_data: [u8; PAGE_SIZE])
        requires
            self.wf(),
        ensures
            page_data@ == content_dump(self@),
    {
        let mut page_data: [u8; PAGE_SIZE] = [0u8; PAGE_SIZE];
        page_data[0] = PAGE_TYPEID_CONTENT;
        page_data[1] = self.entries.len() as u8;
        let mut ptr: usize = 2;
        let mut i: usize = 0;
        proof {
            assert(self@.take(0) =~= Seq::<EntryView>::empty());
            lemma_entries_size(self@);
        }
        while i < self.entries.len()
            invariant
                self.wf(),
                i <= self.entries@.len(),
                ptr == 2 + entries_size(self@.take(i as int)),
                ptr <= PAGE_SIZE,
                page_data@[0] == PAGE_TYPEID_CONTENT,
                page_data@[1] == self@.len() as u8,
                page_data@.subrange(2, ptr as int) == encode_entries(self@.take(i as int)),
                forall|j: int| ptr <= j < PAGE_SIZE ==> page_data@[j] == 0,
            decreases self.entries@.len() - i,
        {
            let entry = &self.entries[i];
            proof {
                lemma_entries_take(self@, i as int);
                lemma_entries_size(self@);
                assert(self@[i as int] == entry@);
            }
            let ghost before = page_data@;
            let ghost old_ptr = ptr;
            match entry.overflow_page {
                Some(first) => {
                    let header: u16 = entry.data.len() as u16 + 32768;
                    write_bytes(&mut page_data, ptr, &u16_to_be(header));
                    write_bytes(&mut page_data, ptr + 2, &u64_to_be(first));
                    write_bytes(&mut page_data, ptr + 10, &entry.data);
                    ptr = ptr + 10 + entry.data.len();
                },
                None => {
                    let header: u16 = entry.data.len() as u16;
                    write_bytes(&mut page_data, ptr, &u16_to_be(header));
                    write_bytes(&mut page_data, ptr + 2, &entry.data);
                    ptr = ptr + 2 + entry.data.len();
                },
            }
            proof {
                assert(page_data@.subrange(2, ptr as int) =~= before.subrange(2, old_ptr as int)
                    + entry@.encode());
            }
            i += 1;
        }
        proof {
            assert(self@.take(i as int) =~= self@);
            lemma_entries_size(self@);
            assert(page_data@ =~= content_dump(self@)) by {
                let body = encode_entries(self@);
                assert forall|j: int| 2 <= j < 2 + body.len() implies page_data@[j] == body[j
                    - 2] by {
                    assert(page_data@.subrange(2, ptr as int)[j - 2] == page_data@[j]);
                }
            }
        }
        page_data
    }

    /// The bytes that the page header and the entries take.
    pub fn total_size(&self) -> (n: usize)
        requires
            2 + entries_size(self@) <= usize::MAX,
        ensures
            n == 2 + entries_size(self@),
    {
        let mut size: usize = 2;
        let mut i: usize = 0;
        proof {
            assert(self@.take(0) =~= Seq::<EntryView>::empty());
            lemma_entries_size(self@);
        }
        while i < self.entries.len()
            invariant
                2 + entries_size(self@) <= usize::MAX,
                i <= self.entries@.len(),
                size == 2 + entries_size(self@.take(i as int)),
                size <= 2 + entries_size(self@),
            decreases self.entries@.len() - i,
        {
            proof {
                lemma_entries_take(self@, i as int);
                lemma_entries_size(self@);
                assert(self@[i as int] == self.entries@[i as int]@);
            }
            size += self.entries[i].total_size();
            i += 1;
        }
        proof {
            assert(self@.take(i as int) =~= self@);
        }
        size
    }

    /// Whether one more entry fits: fewer than 255 entries so far, and the
    /// sizes together no more than a page.
    pub open spec fn accepts(&self, entry: EntryView) -> bool {
        self@.len() < CONTENT_MAX_ENTRIES && 2 + entries_size(self@) + entry.size() <= PAGE_SIZE
    }

    /// Whether `push` would take the entry.
    pub fn can_push(&self, entry: &ContentEntry) -> (b: bool)
        requires
            self.wf(),
        ensures
            b == self.accepts(entry@),
    {
        proof {
            lemma_entries_size(self@);
        }
        if self.entries.len() >= CONTENT_MAX_ENTRIES || entry.data.len() > PAGE_SIZE {
            return false;
        }
        self.total_size() + entry.total_size() <= PAGE_SIZE
    }

    /// Appends the entry where it fits; reports the page as full where not.
    pub fn push(&mut self, entry: ContentEntry) -> (r: Result<(), ()>)
        requires
            old(self).wf(),
        ensures
            final(self).wf(),
            old(self).accepts(entry@) ==> r is Ok && final(self)@ == old(self)@.push(entry@),
            !old(self).accepts(entry@) ==> r is Err && final(self)@ == old(self)@,
    {
        if self.can_push(&entry) {
            proof {
                lemma_entries_push(self@, entry@);
            }
            self.entries.push(entry);
            proof {
                assert(self@ =~= old(self)@.push(entry@));
            }
            Ok(())
        } else {
            Err(())
        }
    }
}

} // verus!
