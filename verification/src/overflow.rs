//! Overflow pages: the links of the chain that holds what of a payload does
//! not fit into its content entry.
//!
//! Layout: byte 0 is the type tag; bytes 1..3 hold the length of the data,
//! with 32768 added where another link follows; with a successor, bytes 3..11
//! hold its page count and the data starts at byte 11, else at byte 3.

use vstd::prelude::*;
use crate::codec::{
    copy_range, lemma_u16_round_trip, lemma_u64_round_trip, spec_u16_from_be, spec_u16_to_be,
    spec_u64_from_be, spec_u64_to_be, u16_from_be, u16_to_be, u64_from_be, u64_to_be, write_bytes,
};
use crate::page::{PAGE_SIZE, PAGE_TYPEID_OVERFLOW};

verus! {

/// The most bytes that the last link of a chain holds.
pub const OVERFLOWPAGE_AVAILABLE_SIZE: usize = 4093;

/// The most bytes that a link with a successor holds.
pub const OVERFLOWED_OVERFLOWPAGE_AVAILABLE_SIZE: usize = 4085;

/// One link of an overflow chain.
#[derive(Clone, Default, Debug)]
pub struct OverflowPage {
    pub data: Vec<u8>,
    pub next: Option<u64>,
}

/// What an overflow page holds.
pub struct OverflowView {
    pub data: Seq<u8>,
    pub next: Option<u64>,
}

impl View for OverflowPage {
    type V = OverflowView;

    open spec fn view(&self) -> OverflowView {
        OverflowView { data: self.data@, next: self.next }
    }
}

impl OverflowView {
    /// Whether the data fits into one page beside the header.
    pub open spec fn fits(self) -> bool {
        match self.next {
            Some(_) => self.data.len() <= OVERFLOWED_OVERFLOWPAGE_AVAILABLE_SIZE,
            None => self.data.len() <= OVERFLOWPAGE_AVAILABLE_SIZE,
        }
    }

    /// The length field: the length of the data, plus 32768 with a successor.
    pub open spec fn header(self) -> u16 {
        match self.next {
            Some(_) => (self.data.len() + 32768) as u16,
            None => self.data.len() as u16,
        }
    }

    /// The offset at which the data starts.
    pub open spec fn data_start(self) -> int {
        match self.next {
            Some(_) => 11,
            None => 3,
        }
    }

    /// The page image of a link that fits.
    pub open spec fn dump(self) -> Seq<u8> {
        Seq::new(
            PAGE_SIZE as nat,
            |i: int|
                if i == 0 {
                    PAGE_TYPEID_OVERFLOW
                } else if i < 3 {
                    spec_u16_to_be(self.header())[i - 1]
                } else if self.next is Some && i < 11 {
                    spec_u64_to_be(self.next.unwrap())[i - 3]
                } else if self.data_start() <= i < self.data_start() + self.data.len() {
                    self.data[i - self.data_start()]
                } else {
                    0u8
                },
        )
    }

    /// The link that a page image holds. A length that runs past the end of
    /// the page is cut at the end.
    pub open spec fn load(bytes: Seq<u8>) -> OverflowView {
        let size = spec_u16_from_be(bytes.subrange(1, 3)) as int;
        if size >= 32768 {
            let len = if size - 32768 <= OVERFLOWED_OVERFLOWPAGE_AVAILABLE_SIZE {
                size - 32768
            } else {
                OVERFLOWED_OVERFLOWPAGE_AVAILABLE_SIZE as int
            };
            OverflowView {
                data: bytes.subrange(11, 11 + len),
                next: Some(spec_u64_from_be(bytes.subrange(3, 11))),
            }
        } else {
            let len = if size <= OVERFLOWPAGE_AVAILABLE_SIZE {
                size
            } else {
                OVERFLOWPAGE_AVAILABLE_SIZE as int
            };
            OverflowView { data: bytes.subrange(3, 3 + len), next: None }
        }
    }

    /// Loading the image of a link that fits gives the link back.
    pub proof fn lemma_round_trip(self)
        requires
            self.fits(),
        ensures
            self.dump().len() == PAGE_SIZE,
            self.dump()[0] == PAGE_TYPEID_OVERFLOW,
            OverflowView::load(self.dump()) == self,
    {
        let bytes = self.dump();
        lemma_u16_round_trip(self.header());
        assert(bytes.subrange(1, 3) =~= spec_u16_to_be(self.header()));
        match self.next {
            Some(next) => {
                lemma_u64_round_trip(next);
                assert(bytes.subrange(3, 11) =~= spec_u64_to_be(next));
                assert(bytes.subrange(11, 11 + self.data.len() as int) =~= self.data);
            },
            None => {
                assert(bytes.subrange(3, 3 + self.data.len() as int) =~= self.data);
            },
        }
    }
}

impl OverflowPage {
    /// Reads the link that a page image holds.
    pub fn load(data: &[u8; PAGE_SIZE]) -> (page: OverflowPage)
        ensures
            page@ == OverflowView::load(data@),
            page@.fits(),
    {
        let size: u16 = u16_from_be(data, 1);
        if size >= 32768 {
            let stated: usize = (size - 32768) as usize;
            let len: usize = if stated <= OVERFLOWED_OVERFLOWPAGE_AVAILABLE_SIZE {
                stated
            } else {
                OVERFLOWED_OVERFLOWPAGE_AVAILABLE_SIZE
            };
            OverflowPage { data: copy_range(data, 11, 11 + len), next: Some(u64_from_be(data, 3)) }
        } else {
            let stated: usize = size as usize;
            let len: usize = if stated <= OVERFLOWPAGE_AVAILABLE_SIZE {
                stated
            } else {
                OVERFLOWPAGE_AVAILABLE_SIZE
            };
            OverflowPage { data: copy_range(data, 3, 3 + len), next: None }
        }
    }

    /// The page image of the link.
    pub fn dump(&self) -> (data: [u8; PAGE_SIZE])
        requires
            self@.fits(),
        ensures
            data@ == self@.dump(),
    {
        let mut data: [u8; PAGE_SIZE] = [0u8; PAGE_SIZE];
        data[0] = PAGE_TYPEID_OVERFLOW;
        match self.next {
            Some(next) => {
                let header: u16 = self.data.len() as u16 + 32768;
                write_bytes(&mut data, 1, &u16_to_be(header));
                write_bytes(&mut data, 3, &u64_to_be(next));
                write_bytes(&mut data, 11, &self.data);
            },
            None => {
                let header: u16 = self.data.len() as u16;
                write_bytes(&mut data, 1, &u16_to_be(header));
                write_bytes(&mut data, 3, &self.data);
            },
        }
        assert(data@ =~= self@.dump());
        data
    }

    /// Takes from `data` what this link is to hold: all of it where it fits
    /// into a last link, else as much as a link with a successor holds.
    pub fn put_data(&mut self, data: &[u8])
        ensures
            final(self).next == old(self).next,
            data@.len() <= OVERFLOWPAGE_AVAILABLE_SIZE ==> final(self).data@ == data@,
            data@.len() > OVERFLOWPAGE_AVAILABLE_SIZE ==> final(self).data@ == data@.take(
                OVERFLOWED_OVERFLOWPAGE_AVAILABLE_SIZE as int,
            ),
    {
        if data.len() > OVERFLOWPAGE_AVAILABLE_SIZE {
            self.data = copy_range(data, 0, OVERFLOWED_OVERFLOWPAGE_AVAILABLE_SIZE);
        } else {
            self.data = copy_range(data, 0, data.len());
            proof {
                assert(data@.subrange(0, data@.len() as int) =~= data@);
            }
        }
    }
}

} // verus!
