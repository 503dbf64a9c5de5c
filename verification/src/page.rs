//! The page: the unit in which the device is read and written.

use vstd::prelude::*;
use crate::device::Device;
use crate::error::Error;

verus! {

/// Bytes in a page.
pub const PAGE_SIZE: usize = 4096;

/// Type tag of a B-tree node with children.
pub const PAGE_TYPEID_BTREE_INTERNAL: u8 = 1;

/// Type tag of a B-tree node with payloads.
pub const PAGE_TYPEID_BTREE_LEAF: u8 = 2;

/// Type tag of a page of content entries.
pub const PAGE_TYPEID_CONTENT: u8 = 3;

/// Type tag of a link in an overflow chain.
pub const PAGE_TYPEID_OVERFLOW: u8 = 4;

/// What a page was created for. The tag lives in memory only; on the device a
/// page is told apart by its first byte.
#[derive(Clone, Copy, Debug, PartialEq, Eq, Structural)]
pub enum PageType {
    General,
    BtreePage,
    BitmapPage,
    ContentPage,
    OverflowPage,
}

/// A page held in memory.
#[derive(Clone, Copy)]
pub struct Page {
    pub page_type: PageType,
    pub count: u64,
    /// Whether the device holds the same bytes.
    pub syncd: bool,
    pub data: [u8; PAGE_SIZE],
}

/// The image of a page that has never been written to: all zero.
pub open spec fn zero_page() -> Seq<u8> {
    Seq::new(PAGE_SIZE as nat, |i: int| 0u8)
}

impl Page {
    /// A zero-filled page that is not yet on the device.
    pub fn new(count: u64, page_type: PageType) -> (page: Page)
        ensures
            page.page_type == page_type,
            page.count == count,
            !page.syncd,
            page.data@ == zero_page(),
    {
        let page = Page { page_type, count, syncd: false, data: [0u8; PAGE_SIZE] };
        assert(page.data@ =~= zero_page());
        page
    }

    /// Reads page `count` from the device. A page beyond the end of the device
    /// is reported as not found.
    pub fn load(reader: &Device, count: u64) -> (r: Result<Page, Error>)
        ensures
            reader.has_page(count) ==> r == Ok::<Page, Error>(
                Page {
                    page_type: PageType::General,
                    count,
                    syncd: true,
                    data: reader.page_array(count),
                },
            ),
            !reader.has_page(count) ==> r == Err::<Page, Error>(Error::NotFound),
    {
        match reader.read_page(count) {
            Some(data) => Ok(Page { page_type: PageType::General, count, syncd: true, data }),
            None => Err(Error::NotFound),
        }
    }

    /// Writes the page to the device unless the device already holds it.
    pub fn sync(&mut self, writer: &mut Device) -> (r: Result<(), Error>)
        requires
            old(writer).wf(),
        ensures
            final(writer).wf(),
            final(writer).limit() == old(writer).limit(),
            final(self).page_type == old(self).page_type,
            final(self).count == old(self).count,
            final(self).data == old(self).data,
            old(self).syncd ==> r is Ok && *final(self) == *old(self) && *final(writer) == *old(writer),
            !old(self).syncd && old(self).count < old(writer).limit() ==> r is Ok && final(self).syncd && final(writer)@ == old(writer).written(old(self).count, old(self).data@),
            !old(self).syncd && old(self).count >= old(writer).limit() ==> r == Err::<(), Error>(
                Error::Io,
            ) && *final(self) == *old(self) && *final(writer) == *old(writer),
    {
        if !self.syncd {
            match writer.write_page(self.count, &self.data) {
                Ok(()) => {
                    self.syncd = true;
                },
                Err(e) => {
                    return Err(e);
                },
            }
        }
        Ok(())
    }

    /// Replaces the bytes of the page; the device no longer holds the same.
    pub fn modify(&mut self, data: &[u8; PAGE_SIZE])
        ensures
            final(self).data == *data,
            final(self).count == old(self).count,
            final(self).page_type == old(self).page_type,
            !final(self).syncd,
    {
        self.data = *data;
        self.syncd = false;
    }
}

} // verus!
