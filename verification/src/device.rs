//! The backing store: a dense array of pages that grows on demand, up to a
//! limit that is fixed when the device is made.

use vstd::prelude::*;
use crate::error::Error;
use crate::page::{zero_page, PAGE_SIZE};

verus! {

/// A seekable store of whole pages, held in memory.
///
/// Reading a page beyond the end fails; writing one beyond the end fills the
/// gap with zero pages, as a file does. A write at or beyond the limit fails.
pub struct Device {
    pages: Vec<[u8; PAGE_SIZE]>,
    limit: usize,
}

impl View for Device {
    type V = Seq<Seq<u8>>;

    /// The images of the pages on the device, by page count.
    closed spec fn view(&self) -> Seq<Seq<u8>> {
        Seq::new(self.pages@.len(), |i: int| self.pages@[i]@)
    }
}

/// The pages of a device after page `count` has been written with `data`.
pub open spec fn written_pages(pages: Seq<Seq<u8>>, count: int, data: Seq<u8>) -> Seq<Seq<u8>> {
    Seq::new(
        if count < pages.len() { pages.len() } else { (count + 1) as nat },
        |i: int|
            if i == count {
                data
            } else if i < pages.len() {
                pages[i]
            } else {
                zero_page()
            },
    )
}

/// The most pages that any device holds: the page counts that fit into a
/// packed location.
pub const DEVICE_MAX_PAGES: u64 = 0x100_0000_0000_0000;

impl Device {
    /// The number of pages that the device will hold at most.
    pub closed spec fn limit(&self) -> int {
        self.limit as int
    }

    /// The device never holds more pages than its limit, and its limit is no
    /// more than any device holds.
    pub closed spec fn wf(&self) -> bool {
        self.pages@.len() <= self.limit && self.limit <= DEVICE_MAX_PAGES
    }

    /// Whether page `count` can be read.
    pub open spec fn has_page(&self, count: u64) -> bool {
        count < self@.len()
    }

    /// The stored page `count` as an array.
    pub closed spec fn page_array(&self, count: u64) -> [u8; PAGE_SIZE] {
        self.pages@[count as int]
    }

    /// The view after page `count` has been written with `data`.
    pub open spec fn written(&self, count: u64, data: Seq<u8>) -> Seq<Seq<u8>> {
        written_pages(self@, count as int, data)
    }

    /// Every page image on a device has the size of a page, and the device
    /// stays within its limit.
    pub proof fn lemma_pages(&self)
        requires
            self.wf(),
        ensures
            self@.len() <= self.limit(),
            self.limit() <= usize::MAX,
            self.limit() <= DEVICE_MAX_PAGES,
            forall|c: u64| #[trigger] self.has_page(c) ==> self@[c as int].len() == PAGE_SIZE,
            forall|c: u64| #[trigger]
                self.has_page(c) ==> self.page_array(c)@ == self@[c as int],
    {
    }

    /// An empty device without a limit of its own.
    pub fn new() -> (dev: Device)
        ensures
            dev.wf(),
            dev@.len() == 0,
            dev.limit() == (if usize::MAX <= DEVICE_MAX_PAGES {
                usize::MAX as int
            } else {
                DEVICE_MAX_PAGES as int
            }),
    {
        Self::with_limit(usize::MAX)
    }

    /// An empty device that holds at most `limit` pages, and no more than
    /// any device holds.
    pub fn with_limit(limit: usize) -> (dev: Device)
        ensures
            dev.wf(),
            dev@.len() == 0,
            dev.limit() == (if limit <= DEVICE_MAX_PAGES {
                limit as int
            } else {
                DEVICE_MAX_PAGES as int
            }),
    {
        if limit as u64 <= DEVICE_MAX_PAGES {
            Device { pages: Vec::new(), limit }
        } else {
            Device { pages: Vec::new(), limit: DEVICE_MAX_PAGES as usize }
        }
    }

    /// A device that holds the whole pages of `bytes`; what is left over
    /// after the last whole page is dropped.
    pub fn from_bytes(bytes: &[u8]) -> (dev: Device)
        ensures
            dev.wf(),
            dev.limit() == (if usize::MAX <= DEVICE_MAX_PAGES {
                usize::MAX as int
            } else {
                DEVICE_MAX_PAGES as int
            }),
            dev@.len() == bytes@.len() as int / PAGE_SIZE as int,
            forall|c: int|
                0 <= c < dev@.len() ==> #[trigger] dev@[c] == bytes@.subrange(
                    c * PAGE_SIZE,
                    (c + 1) * PAGE_SIZE,
                ),
    {
        let mut dev = Self::new();
        let count: usize = bytes.len() / PAGE_SIZE;
        let mut c: usize = 0;
        while c < count
            invariant
                count == bytes@.len() as int / PAGE_SIZE as int,
                bytes@.len() == bytes.len(),
                c <= count,
                dev.wf(),
                dev.limit() == (if usize::MAX <= DEVICE_MAX_PAGES {
                    usize::MAX as int
                } else {
                    DEVICE_MAX_PAGES as int
                }),
                dev.pages@.len() == c,
                forall|i: int|
                    0 <= i < c ==> (#[trigger] dev.pages@[i])@ == bytes@.subrange(
                        i * PAGE_SIZE,
                        (i + 1) * PAGE_SIZE,
                    ),
            decreases count - c,
        {
            let mut page: [u8; PAGE_SIZE] = [0u8; PAGE_SIZE];
            proof {
                assert((c + 1) * PAGE_SIZE <= count * PAGE_SIZE) by (nonlinear_arith)
                    requires
                        c < count,
                ;
                assert(count * PAGE_SIZE <= bytes@.len());
            }
            let base: usize = c * PAGE_SIZE;
            let mut i: usize = 0;
            while i < PAGE_SIZE
                invariant
                    i <= PAGE_SIZE,
                    base == c * PAGE_SIZE,
                    base + PAGE_SIZE <= bytes@.len(),
                    forall|j: int| 0 <= j < i ==> page@[j] == bytes@[base + j],
                decreases PAGE_SIZE - i,
            {
                page[i] = bytes[base + i];
                i += 1;
            }
            proof {
                assert(page@ =~= bytes@.subrange(c * PAGE_SIZE, (c + 1) * PAGE_SIZE));
            }
            dev.pages.push(page);
            c += 1;
        }
        proof {
            assert(count <= DEVICE_MAX_PAGES);
        }
        dev
    }

    /// The pages of the device, one after another.
    pub fn to_bytes(&self) -> (bytes: Vec<u8>)
        ensures
            bytes@.len() == self@.len() * PAGE_SIZE,
            forall|c: int|
                0 <= c < self@.len() ==> #[trigger] self@[c] == bytes@.subrange(
                    c * PAGE_SIZE,
                    (c + 1) * PAGE_SIZE,
                ),
    {
        let mut bytes: Vec<u8> = Vec::new();
        let mut c: usize = 0;
        while c < self.pages.len()
            invariant
                c <= self.pages@.len(),
                bytes@.len() == c * PAGE_SIZE,
                forall|i: int|
                    0 <= i < c ==> (#[trigger] self.pages@[i])@ == bytes@.subrange(
                        i * PAGE_SIZE,
                        (i + 1) * PAGE_SIZE,
                    ),
            decreases self.pages@.len() - c,
        {
            let ghost before = bytes@;
            let mut i: usize = 0;
            while i < PAGE_SIZE
                invariant
                    i <= PAGE_SIZE,
                    c < self.pages@.len(),
                    bytes@.len() == c * PAGE_SIZE + i,
                    bytes@.subrange(0, c * PAGE_SIZE) == before,
                    before.len() == c * PAGE_SIZE,
                    forall|j: int| 0 <= j < i ==> bytes@[c * PAGE_SIZE + j] == self.pages@[c as int]@[j],
                decreases PAGE_SIZE - i,
            {
                bytes.push(self.pages[c][i]);
                proof {
                    assert(bytes@.subrange(0, c * PAGE_SIZE) =~= before);
                }
                i += 1;
            }
            proof {
                assert(self.pages@[c as int]@ =~= bytes@.subrange(
                    c * PAGE_SIZE,
                    (c + 1) * PAGE_SIZE,
                ));
                assert forall|k: int| 0 <= k < c implies (#[trigger] self.pages@[k])@
                    == bytes@.subrange(k * PAGE_SIZE, (k + 1) * PAGE_SIZE) by {
                    assert(before.subrange(k * PAGE_SIZE, (k + 1) * PAGE_SIZE) =~= bytes@.subrange(
                        k * PAGE_SIZE,
                        (k + 1) * PAGE_SIZE,
                    ));
                }
            }
            c += 1;
        }
        bytes
    }

    /// The number of pages on the device.
    pub fn page_count(&self) -> (n: usize)
        ensures
            n == self@.len(),
    {
        self.pages.len()
    }

    /// The most pages that the device will hold.
    pub fn page_limit(&self) -> (n: usize)
        ensures
            n == self.limit(),
    {
        self.limit
    }

    /// Reads page `count`, if the device holds it.
    pub fn read_page(&self, count: u64) -> (r: Option<[u8; PAGE_SIZE]>)
        ensures
            self.has_page(count) ==> r == Some(self.page_array(count)) && r.unwrap()@
                == self@[count as int],
            !self.has_page(count) ==> r is None,
    {
        if count < self.pages.len() as u64 {
            Some(self.pages[count as usize])
        } else {
            None
        }
    }

    /// Writes page `count`, growing the device with zero pages where needed.
    /// Fails, and changes nothing, where `count` is not below the limit.
    pub fn write_page(&mut self, count: u64, data: &[u8; PAGE_SIZE]) -> (r: Result<(), Error>)
        requires
            old(self).wf(),
        ensures
            final(self).wf(),
            final(self).limit() == old(self).limit(),
            count < old(self).limit() ==> r is Ok && final(self)@ == old(self).written(
                count,
                data@,
            ),
            count >= old(self).limit() ==> r == Err::<(), Error>(Error::Io) && *final(self)
                == *old(self),
    {
        if count >= self.limit as u64 {
            return Err(Error::Io);
        }
        let index: usize = count as usize;
        while self.pages.len() <= index
            invariant
                index < self.limit,
                self.limit == old(self).limit,
                self.pages@.len() <= self.limit,
                old(self).pages@.len() <= self.pages@.len(),
                self.pages@.len() <= old(self).pages@.len() || self.pages@.len() <= index + 1,
                forall|i: int|
                    0 <= i < self.pages@.len() ==> (#[trigger] self.pages@[i])@ == (if i < old(self).pages@.len() {
                        old(self).pages@[i]@
                    } else {
                        zero_page()
                    }),
            decreases index + 1 - self.pages@.len(),
        {
            let blank: [u8; PAGE_SIZE] = [0u8; PAGE_SIZE];
            assert(blank@ =~= zero_page());
            self.pages.push(blank);
        }
        self.pages[index] = *data;
        assert(self@ =~= old(self).written(count, data@));
        Ok(())
    }
}

} // verus!
