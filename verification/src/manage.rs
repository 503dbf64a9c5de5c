//! The page manager: a bounded first-in first-out cache over the device, with
//! write-back on eviction, and page allocation through bitmap pages.
//!
//! The contracts speak of the *store*: the map from page counts to page images
//! that the cache and the device hold together. A cached page stands for its
//! count, whatever the device holds there; an uncached page is what the device
//! holds. Eviction writes a page back before dropping it, so it never changes
//! an image of the store; it may make pages appear, zero-filled, where the
//! device had to grow.

use vstd::prelude::*;
use crate::bitmap::{lemma_zero_page_bits, bit_at, with_bit_clear, with_bit_set, BITMAP_MANAGED_SIZE, BitmapPage};
use crate::bitmap::{lemma_with_bit_clear, lemma_with_bit_set};
use crate::device::{written_pages, DEVICE_MAX_PAGES, Device};
use crate::error::Error;
use crate::page::{zero_page, PAGE_SIZE, Page, PageType};

verus! {

/// The distance between one bitmap page and the next.
pub const BITMAP_STRIDE: u64 = 32769;

/// The store: page images by page count.
pub type Store = Map<u64, Seq<u8>>;

/// The image of page `c`, where a page that was never written reads as zeros.
pub open spec fn image(s: Store, c: u64) -> Seq<u8> {
    if s.contains_key(c) {
        s[c]
    } else {
        zero_page()
    }
}

/// The count of the bitmap page that governs page `c`.
pub open spec fn governing(c: u64) -> u64 {
    (c / BITMAP_STRIDE * BITMAP_STRIDE) as u64
}

/// The position of page `c` within its bitmap page.
pub open spec fn slot_of(c: u64) -> int {
    c as int % BITMAP_STRIDE as int
}

/// Whether `c` is the count of a bitmap page, or of the one slot after each
/// bitmap's span that no bitmap governs. Such a page is never handed out.
pub open spec fn is_reserved(c: u64) -> bool {
    slot_of(c) == 0 || slot_of(c) == BITMAP_MANAGED_SIZE
}

/// Whether the governing bitmap marks page `c` as allocated.
pub open spec fn page_used(s: Store, c: u64) -> bool {
    bit_at(image(s, governing(c)), slot_of(c))
}

/// Outside `touched`, `t` holds every page of `s` with the same image, and
/// whatever else it holds is zero-filled.
pub open spec fn same_except(s: Store, t: Store, touched: Set<u64>) -> bool {
    forall|c: u64|
        #![trigger s.contains_key(c)]
        #![trigger t.contains_key(c)]
        !touched.contains(c) ==> (s.contains_key(c) ==> t.contains_key(c)) && image(t, c) == image(
            s,
            c,
        )
}

/// Page `p` is in `t` what it was in `s`: still there if it was, with the same
/// image, and allocated.
pub open spec fn untouched(s: Store, t: Store, p: u64) -> bool {
    &&& s.contains_key(p) ==> t.contains_key(p)
    &&& image(t, p) == image(s, p)
    &&& page_used(t, p)
}

/// Every page that was allocated in `s`, reserved pages and those in `except`
/// aside, is in `t` what it was in `s`.
pub open spec fn kept(s: Store, t: Store, except: Set<u64>) -> bool {
    forall|p: u64|
        #![trigger untouched(s, t, p)]
        !is_reserved(p) && page_used(s, p) && !except.contains(p) ==> untouched(s, t, p)
}

/// A change of pages that are not bitmap pages keeps every other allocated
/// page.
pub proof fn lemma_kept(s: Store, t: Store, touched: Set<u64>)
    requires
        same_except(s, t, touched),
        forall|c: u64| touched.contains(c) ==> slot_of(c) != 0,
    ensures
        kept(s, t, touched),
        forall|p: u64| #[trigger] page_used(t, p) == page_used(s, p),
{
    assert forall|p: u64| #[trigger] page_used(t, p) == page_used(s, p) by {
        let b = governing(p);
        assert(slot_of(b) == 0);
        assert(!touched.contains(b));
        assert(s.contains_key(b) ==> t.contains_key(b));
        assert(image(t, b) == image(s, b));
    }
    assert forall|p: u64|
        #![trigger untouched(s, t, p)]
        !is_reserved(p) && page_used(s, p) && !touched.contains(p) implies untouched(s, t, p) by {
        assert(s.contains_key(p) ==> t.contains_key(p));
        assert(page_used(t, p) == page_used(s, p));
    }
}

/// Keeping composes: what two steps keep, one after the other, both keep
/// outside either exception.
pub proof fn lemma_kept_trans(s: Store, t: Store, u: Store, a: Set<u64>, b: Set<u64>)
    requires
        kept(s, t, a),
        kept(t, u, b),
    ensures
        kept(s, u, a.union(b)),
{
    assert forall|p: u64|
        #![trigger untouched(s, u, p)]
        !is_reserved(p) && page_used(s, p) && !a.union(b).contains(p) implies untouched(
        s,
        u,
        p,
    ) by {
        assert(untouched(s, t, p));
        assert(untouched(t, u, p));
    }
}

/// Whether every position of a bitmap image but the first is marked.
pub open spec fn bitmap_full(bits: Seq<u8>) -> bool {
    forall|p: int| 1 <= p < BITMAP_MANAGED_SIZE ==> bit_at(bits, p)
}

/// Whether `p` is the lowest unmarked position of a bitmap image, the first
/// position aside.
pub open spec fn is_lowest_clear(bits: Seq<u8>, p: int) -> bool {
    &&& 1 <= p < BITMAP_MANAGED_SIZE
    &&& !bit_at(bits, p)
    &&& forall|q: int| 1 <= q < p ==> bit_at(bits, q)
}

/// The lowest unmarked position of a bitmap image that is not full.
pub open spec fn lowest_clear(bits: Seq<u8>) -> int {
    choose|p: int| is_lowest_clear(bits, p)
}

/// The page count that allocation hands out: the lowest unmarked position of
/// the first bitmap, from `base` on, that is not full, provided that both the
/// bitmap and the page lie below `limit`.
pub open spec fn first_free(s: Store, limit: int, base: int) -> Option<u64>
    decreases limit - base + BITMAP_STRIDE,
{
    if base < 0 || base >= limit || base > u64::MAX {
        None
    } else if !bitmap_full(image(s, base as u64)) {
        let c = base + lowest_clear(image(s, base as u64));
        if c < limit && c <= u64::MAX {
            Some(c as u64)
        } else {
            None
        }
    } else {
        first_free(s, limit, base + BITMAP_STRIDE as int)
    }
}

/// The page count that a search by type ends at: from `start` on, the first
/// count that is not reserved and is either unallocated or allocated with
/// `tag` as the first byte of its image.
pub open spec fn first_of_type(s: Store, start: int, tag: u8, limit: int) -> Option<u64>
    decreases limit - start,
{
    if start < 0 || start >= limit || start > u64::MAX {
        None
    } else if is_reserved(start as u64) {
        first_of_type(s, start + 1, tag, limit)
    } else if !page_used(s, start as u64) {
        Some(start as u64)
    } else if image(s, start as u64)[0] == tag {
        Some(start as u64)
    } else {
        first_of_type(s, start + 1, tag, limit)
    }
}

/// How many of the oldest pages leave a cache of `len` pages before one more
/// page is admitted under capacity `cap`.
pub open spec fn victims(len: int, cap: int) -> int {
    if len < cap {
        0
    } else if cap <= 0 {
        len
    } else {
        len - cap + 1
    }
}

/// The pages of the device after the dirty ones among `pages` have been
/// written back, in order.
pub open spec fn flushed(dev: Seq<Seq<u8>>, pages: Seq<Page>) -> Seq<Seq<u8>>
    decreases pages.len(),
{
    if pages.len() == 0 {
        dev
    } else {
        let before = flushed(dev, pages.drop_last());
        let page = pages.last();
        if page.syncd {
            before
        } else {
            written_pages(before, page.count as int, page.data@)
        }
    }
}

/// The cache after `page` has been admitted under capacity `cap`.
pub open spec fn admitted(cache: Seq<Page>, cap: int, page: Page) -> Seq<Page> {
    cache.skip(victims(cache.len() as int, cap)).push(page)
}

/// The cache with every page marked as written back.
pub open spec fn all_syncd(cache: Seq<Page>) -> Seq<Page> {
    Seq::new(
        cache.len(),
        |i: int|
            Page {
                page_type: cache[i].page_type,
                count: cache[i].count,
                syncd: true,
                data: cache[i].data,
            },
    )
}

/// The cache and the allocator over one device.
pub struct PageManage {
    /// The cached pages, oldest first.
    pages: Vec<Page>,
    /// How many pages the cache holds at most (never fewer than one).
    pub cache_size: usize,
}

impl PageManage {
    /// The cached pages, oldest first.
    pub closed spec fn cache(&self) -> Seq<Page> {
        self.pages@
    }

    /// How many pages the cache is to hold at most.
    pub closed spec fn capacity(&self) -> int {
        self.cache_size as int
    }

    /// Whether page `c` is in the cache.
    pub open spec fn cached(&self, c: u64) -> bool {
        exists|i: int| 0 <= i < self.cache().len() && #[trigger] self.cache()[i].count == c
    }

    /// Where in the cache page `c` is.
    pub open spec fn slot(&self, c: u64) -> int {
        choose|i: int| 0 <= i < self.cache().len() && #[trigger] self.cache()[i].count == c
    }

    /// No page is cached twice, every cached page can be written back, and a
    /// page that counts as written back is on the device with the same bytes.
    pub open spec fn wf(&self, dev: &Device) -> bool {
        &&& dev.wf()
        &&& forall|i: int, j: int|
            0 <= i < j < self.cache().len() ==> #[trigger] self.cache()[i].count
                != #[trigger] self.cache()[j].count
        &&& forall|i: int|
            0 <= i < self.cache().len() ==> {
                let page = #[trigger] self.cache()[i];
                &&& page.count < dev.limit()
                &&& page.syncd ==> dev.has_page(page.count) && dev@[page.count as int]
                    == page.data@
            }
    }

    /// The store that the cache and the device hold together.
    pub closed spec fn store(&self, dev: &Device) -> Store {
        Map::new(
            |c: u64| self.cached(c) || dev.has_page(c),
            |c: u64|
                if self.cached(c) {
                    self.cache()[self.slot(c)].data@
                } else {
                    dev@[c as int]
                },
        )
    }

    /// What the store is, in terms of the cache and the device.
    pub proof fn lemma_store(&self, dev: &Device)
        requires
            self.wf(dev),
        ensures
            forall|c: u64|
                #![trigger self.store(dev).contains_key(c)]
                self.store(dev).contains_key(c) <==> self.cached(c) || dev.has_page(c),
            forall|i: int|
                0 <= i < self.cache().len() ==> self.store(dev)[(#[trigger] self.cache()[i]).count]
                    == self.cache()[i].data@,
            forall|c: u64|
                #![trigger self.store(dev)[c]]
                !self.cached(c) && dev.has_page(c) ==> self.store(dev)[c] == dev@[c as int],
            forall|c: u64|
                #![trigger self.store(dev)[c]]
                self.store(dev).contains_key(c) ==> self.store(dev)[c].len() == PAGE_SIZE,
            forall|c: u64|
                #![trigger self.store(dev).contains_key(c)]
                self.store(dev).contains_key(c) ==> c < dev.limit(),
            dev.limit() <= DEVICE_MAX_PAGES,
    {
        dev.lemma_pages();
        assert forall|i: int| 0 <= i < self.cache().len() implies self.store(dev)[(
        #[trigger] self.cache()[i]).count] == self.cache()[i].data@ by {
            let c = self.cache()[i].count;
            assert(self.cached(c));
            assert(self.slot(c) == i);
        }
        assert forall|c: u64| #![trigger self.store(dev)[c]] self.store(dev).contains_key(c)
            implies self.store(dev)[c].len() == PAGE_SIZE by {
            if self.cached(c) {
                let i = self.slot(c);
                assert(self.cache()[i].data@.len() == PAGE_SIZE);
            } else {
                assert(dev.has_page(c));
            }
        }
    }

    /// With nothing cached, the store is what the device holds.
    pub proof fn law_empty_cache(&self, dev: &Device)
        requires
            self.cache().len() == 0,
            dev.wf(),
        ensures
            self.wf(dev),
            forall|c: u64|
                #![trigger self.store(dev).contains_key(c)]
                self.store(dev).contains_key(c) <==> dev.has_page(c),
            forall|c: u64|
                #![trigger self.store(dev)[c]]
                dev.has_page(c) ==> self.store(dev)[c] == dev@[c as int],
    {
    }

    /// An empty cache that holds at most `cache_size` pages.
    pub fn new(cache_size: usize) -> (mgr: PageManage)
        ensures
            mgr.capacity() == cache_size,
            mgr.cache().len() == 0,
            forall|dev: &Device| dev.wf() ==> #[trigger] mgr.wf(dev),
    {
        PageManage { pages: Vec::new(), cache_size }
    }

    /// The index of page `c` in the cache.
    fn find_index(&self, c: u64) -> (r: Option<usize>)
        ensures
            match r {
                Some(i) => i < self.cache().len() && self.cache()[i as int].count == c,
                None => !self.cached(c),
            },
    {
        let mut i: usize = 0;
        while i < self.pages.len()
            invariant
                i <= self.pages@.len(),
                forall|j: int| 0 <= j < i ==> self.pages@[j].count != c,
            decreases self.pages@.len() - i,
        {
            if self.pages[i].count == c {
                return Some(i);
            }
            i += 1;
        }
        None
    }

    /// Makes room for one more page: while the cache is not below its
    /// capacity, the oldest page is written back, if dirty, and dropped.
    fn limit_cache(&mut self, device: &mut Device)
        requires
            old(self).wf(old(device)),
        ensures
            final(self).wf(final(device)),
            final(self).capacity() == old(self).capacity(),
            final(device).limit() == old(device).limit(),
            final(self).cache() == old(self).cache().skip(
                victims(old(self).cache().len() as int, old(self).capacity()),
            ),
            final(device)@ == flushed(
                old(device)@,
                old(self).cache().take(
                    victims(old(self).cache().len() as int, old(self).capacity()),
                ),
            ),
            same_except(
                old(self).store(old(device)),
                final(self).store(final(device)),
                Set::empty(),
            ),
    {
        let ghost mut n: int = 0;
        proof {
            assert(self.cache().skip(0) =~= self.cache());
            assert(self.cache().take(0) =~= Seq::<Page>::empty());
        }
        while self.pages.len() > 0 && self.pages.len() >= self.cache_size
            invariant
                self.wf(device),
                self.capacity() == old(self).capacity(),
                device.limit() == old(device).limit(),
                0 <= n <= old(self).cache().len(),
                self.cache() == old(self).cache().skip(n),
                n > 0 ==> self.cache().len() + 1 >= self.capacity(),
                device@ == flushed(old(device)@, old(self).cache().take(n)),
                same_except(old(self).store(old(device)), self.store(device), Set::empty()),
            decreases self.pages@.len(),
        {
            let ghost before = *self;
            let ghost dev_before = *device;
            let mut page = self.pages.remove(0);
            let ghost victim = page;
            let result = page.sync(device);
            proof {
                assert(before.cache()[0] == victim);
                assert(result is Ok);
                Self::lemma_evict(before, dev_before, *self, *device);
                assert(old(self).cache().skip(n)[0] == old(self).cache()[n]);
                assert(old(self).cache().take(n + 1).drop_last() =~= old(self).cache().take(n));
                assert(self.cache() =~= old(self).cache().skip(n + 1));
                n = n + 1;
            }
        }
    }

    /// Dropping the oldest page after writing it back keeps every image.
    proof fn lemma_evict(m0: PageManage, d0: Device, m1: PageManage, d1: Device)
        requires
            m0.wf(&d0),
            m0.cache().len() > 0,
            m1.cache() == m0.cache().skip(1),
            d1.wf(),
            d1.limit() == d0.limit(),
            d1@ == (if m0.cache()[0].syncd {
                d0@
            } else {
                written_pages(d0@, m0.cache()[0].count as int, m0.cache()[0].data@)
            }),
        ensures
            m1.wf(&d1),
            same_except(m0.store(&d0), m1.store(&d1), Set::empty()),
    {
        let victim = m0.cache()[0];
        d0.lemma_pages();
        d1.lemma_pages();
        m0.lemma_store(&d0);
        assert forall|i: int| 0 <= i < m1.cache().len() implies ({
            let page = #[trigger] m1.cache()[i];
            &&& page.count < d1.limit()
            &&& page.syncd ==> d1.has_page(page.count) && d1@[page.count as int] == page.data@
        }) by {
            assert(m1.cache()[i] == m0.cache()[i + 1]);
            assert(m0.cache()[i + 1].count != m0.cache()[0].count);
        }
        assert forall|i: int, j: int| 0 <= i < j < m1.cache().len() implies #[trigger] m1.cache()[i].count
            != #[trigger] m1.cache()[j].count by {
            assert(m1.cache()[i] == m0.cache()[i + 1]);
            assert(m1.cache()[j] == m0.cache()[j + 1]);
        }
        m1.lemma_store(&d1);
        let s = m0.store(&d0);
        let t = m1.store(&d1);
        assert forall|c: u64|
            #![trigger s.contains_key(c)]
            #![trigger t.contains_key(c)]
            (s.contains_key(c) ==> t.contains_key(c)) && image(t, c) == image(s, c) by {
            if m1.cached(c) {
                let i = m1.slot(c);
                assert(m1.cache()[i] == m0.cache()[i + 1]);
                assert(m0.cached(c));
            } else if c == victim.count {
                assert(m0.cached(c));
                assert(d1.has_page(c));
                assert(d1@[c as int] == victim.data@);
            } else {
                if m0.cached(c) {
                    let i = m0.slot(c);
                    assert(i > 0);
                    assert(m1.cache()[i - 1] == m0.cache()[i]);
                    assert(false);
                }
                if d1.has_page(c) && !d0.has_page(c) {
                    assert(d1@[c as int] == zero_page());
                }
            }
        }
    }

    /// Returns page `page_count`, from the cache or else from the device, which
    /// admits it to the cache. A page that is in neither is not found.
    pub fn get(&mut self, device: &mut Device, page_count: u64) -> (r: Result<Page, Error>)
        requires
            old(self).wf(old(device)),
        ensures
            final(self).wf(final(device)),
            final(self).capacity() == old(self).capacity(),
            final(device).limit() == old(device).limit(),
            same_except(
                old(self).store(old(device)),
                final(self).store(final(device)),
                Set::empty(),
            ),
            match r {
                Ok(page) => {
                    &&& old(self).store(old(device)).contains_key(page_count)
                    &&& page.count == page_count
                    &&& page.data@ == old(self).store(old(device))[page_count]
                    &&& final(self).cached(page_count)
                    &&& final(self).cache()[final(self).slot(page_count)] == page
                },
                Err(e) => {
                    &&& e == Error::NotFound
                    &&& !old(self).store(old(device)).contains_key(page_count)
                    &&& *final(self) == *old(self)
                    &&& *final(device) == *old(device)
                },
            },
            old(self).cached(page_count) ==> *final(self) == *old(self) && *final(device) == *old(device) && r == Ok::<Page, Error>(old(self).cache()[old(self).slot(page_count)]),
            !old(self).cached(page_count) && old(device).has_page(page_count) ==> {
                let page = Page {
                    page_type: PageType::General,
                    count: page_count,
                    syncd: true,
                    data: old(device).page_array(page_count),
                };
                let k = victims(old(self).cache().len() as int, old(self).capacity());
                &&& r == Ok::<Page, Error>(page)
                &&& final(self).cache() == admitted(
                    old(self).cache(),
                    old(self).capacity(),
                    page,
                )
                &&& final(device)@ == flushed(old(device)@, old(self).cache().take(k))
            },
    {
        proof {
            self.lemma_store(device);
        }
        match self.find_index(page_count) {
            Some(i) => {
                let page = self.pages[i];
                proof {
                    assert(self.slot(page_count) == i);
                }
                return Ok(page);
            },
            None => {},
        }
        let page = match Page::load(device, page_count) {
            Ok(page) => page,
            Err(e) => {
                return Err(e);
            },
        };
        let ghost s = self.store(device);
        self.limit_cache(device);
        let ghost m1 = *self;
        self.pages.push(page);
        proof {
            old(device).lemma_pages();
            device.lemma_pages();
            m1.lemma_store(device);
            if m1.cached(page_count) {
                let i = m1.slot(page_count);
                let k = victims(old(self).cache().len() as int, old(self).capacity());
                assert(m1.cache()[i] == old(self).cache()[i + k]);
                assert(false);
            }
            assert(s.contains_key(page_count));
            assert(m1.store(device).contains_key(page_count));
            assert(image(m1.store(device), page_count) == image(s, page_count));
            Self::lemma_admit(m1, *self, *device, page);
            assert(same_except(m1.store(device), self.store(device), Set::empty()));
            let last = self.cache().len() - 1;
            assert(self.cache()[last].count == page_count);
            assert(self.slot(page_count) == last);
        }
        Ok(page)
    }

    /// Appending a page that the cache does not hold changes the store at that
    /// page alone.
    proof fn lemma_admit(m0: PageManage, m1: PageManage, dev: Device, page: Page)
        requires
            m0.wf(&dev),
            !m0.cached(page.count),
            m1.cache() == m0.cache().push(page),
            page.count < dev.limit(),
            page.syncd ==> dev.has_page(page.count) && dev@[page.count as int] == page.data@,
        ensures
            m1.wf(&dev),
            m1.cached(page.count),
            m1.store(&dev).contains_key(page.count),
            m1.store(&dev)[page.count] == page.data@,
            same_except(m0.store(&dev), m1.store(&dev), set![page.count]),
            page.syncd ==> same_except(m0.store(&dev), m1.store(&dev), Set::empty()),
    {
        let n = m0.cache().len() as int;
        assert(m1.cache()[n] == page);
        assert forall|i: int, j: int| 0 <= i < j < m1.cache().len() implies #[trigger] m1.cache()[i].count
            != #[trigger] m1.cache()[j].count by {
            if j == n {
                assert(m1.cache()[i] == m0.cache()[i]);
            } else {
                assert(m1.cache()[i] == m0.cache()[i]);
                assert(m1.cache()[j] == m0.cache()[j]);
            }
        }
        assert forall|i: int| 0 <= i < m1.cache().len() implies ({
            let p = #[trigger] m1.cache()[i];
            &&& p.count < dev.limit()
            &&& p.syncd ==> dev.has_page(p.count) && dev@[p.count as int] == p.data@
        }) by {
            if i < n {
                assert(m1.cache()[i] == m0.cache()[i]);
            }
        }
        m0.lemma_store(&dev);
        m1.lemma_store(&dev);
        let s = m0.store(&dev);
        let t = m1.store(&dev);
        assert(m1.cached(page.count));
        assert forall|c: u64|
            #![trigger s.contains_key(c)]
            #![trigger t.contains_key(c)]
            c != page.count implies (s.contains_key(c) ==> t.contains_key(c)) && image(t, c)
            == image(s, c) by {
            if m0.cached(c) {
                let i = m0.slot(c);
                assert(m1.cache()[i] == m0.cache()[i]);
                assert(m1.cached(c));
            } else if m1.cached(c) {
                let i = m1.slot(c);
                assert(i < n);
                assert(m1.cache()[i] == m0.cache()[i]);
                assert(false);
            }
        }
    }

    /// Changing the bytes of one cached page changes the store at that page
    /// alone.
    proof fn lemma_replace(m0: PageManage, m1: PageManage, dev: Device, i: int, page: Page)
        requires
            m0.wf(&dev),
            0 <= i < m0.cache().len(),
            m1.cache() == m0.cache().update(i, page),
            page.count == m0.cache()[i].count,
            page.syncd ==> dev.has_page(page.count) && dev@[page.count as int] == page.data@,
        ensures
            m1.wf(&dev),
            m1.cached(page.count),
            m1.slot(page.count) == i,
            m1.store(&dev).contains_key(page.count),
            m1.store(&dev)[page.count] == page.data@,
            same_except(m0.store(&dev), m1.store(&dev), set![page.count]),
            page.data@ == m0.cache()[i].data@ ==> same_except(
                m0.store(&dev),
                m1.store(&dev),
                Set::empty(),
            ),
    {
        assert(m1.cache()[i] == page);
        assert forall|a: int, b: int| 0 <= a < b < m1.cache().len() implies #[trigger] m1.cache()[a].count
            != #[trigger] m1.cache()[b].count by {
            assert(m1.cache()[a].count == m0.cache()[a].count);
            assert(m1.cache()[b].count == m0.cache()[b].count);
        }
        assert forall|a: int| 0 <= a < m1.cache().len() implies ({
            let p = #[trigger] m1.cache()[a];
            &&& p.count < dev.limit()
            &&& p.syncd ==> dev.has_page(p.count) && dev@[p.count as int] == p.data@
        }) by {
            if a != i {
                assert(m1.cache()[a] == m0.cache()[a]);
            }
        }
        m0.lemma_store(&dev);
        m1.lemma_store(&dev);
        let s = m0.store(&dev);
        let t = m1.store(&dev);
        assert(m1.cached(page.count));
        assert(m0.cached(page.count));
        assert forall|c: u64|
            #![trigger s.contains_key(c)]
            #![trigger t.contains_key(c)]
            c != page.count implies (s.contains_key(c) ==> t.contains_key(c)) && image(t, c)
            == image(s, c) by {
            if m0.cached(c) {
                let a = m0.slot(c);
                assert(m1.cache()[a] == m0.cache()[a]);
                assert(m1.cached(c));
            } else if m1.cached(c) {
                let a = m1.slot(c);
                assert(m1.cache()[a].count == m0.cache()[a].count);
                assert(false);
            }
        }
    }

    /// Dropping one cached page without writing it back changes the store at
    /// that page alone.
    proof fn lemma_forget(m0: PageManage, m1: PageManage, dev: Device, i: int)
        requires
            m0.wf(&dev),
            0 <= i < m0.cache().len(),
            m1.cache() == m0.cache().remove(i),
        ensures
            m1.wf(&dev),
            !m1.cached(m0.cache()[i].count),
            same_except(m0.store(&dev), m1.store(&dev), set![m0.cache()[i].count]),
            forall|c: u64| c != m0.cache()[i].count ==> (m1.cached(c) <==> m0.cached(c)),
    {
        let gone = m0.cache()[i].count;
        assert forall|a: int| 0 <= a < m1.cache().len() implies #[trigger] m1.cache()[a] == m0.cache()[if a
            < i {
            a
        } else {
            a + 1
        }] by {}
        assert forall|a: int, b: int| 0 <= a < b < m1.cache().len() implies #[trigger] m1.cache()[a].count
            != #[trigger] m1.cache()[b].count by {
            assert(m1.cache()[a] == m0.cache()[if a < i { a } else { a + 1 }]);
            assert(m1.cache()[b] == m0.cache()[if b < i { b } else { b + 1 }]);
        }
        assert forall|a: int| 0 <= a < m1.cache().len() implies ({
            let p = #[trigger] m1.cache()[a];
            &&& p.count < dev.limit()
            &&& p.syncd ==> dev.has_page(p.count) && dev@[p.count as int] == p.data@
        }) by {
            assert(m1.cache()[a] == m0.cache()[if a < i { a } else { a + 1 }]);
        }
        assert forall|c: u64| c != gone implies (m1.cached(c) <==> m0.cached(c)) by {
            if m0.cached(c) {
                let a = m0.slot(c);
                let b = if a < i { a } else { a - 1 };
                assert(m1.cache()[b] == m0.cache()[a]);
            }
            if m1.cached(c) {
                let a = m1.slot(c);
                assert(m1.cache()[a] == m0.cache()[if a < i { a } else { a + 1 }]);
            }
        }
        if m1.cached(gone) {
            let a = m1.slot(gone);
            assert(m1.cache()[a] == m0.cache()[if a < i { a } else { a + 1 }]);
            assert(false);
        }
        m0.lemma_store(&dev);
        m1.lemma_store(&dev);
        let s = m0.store(&dev);
        let t = m1.store(&dev);
        assert forall|c: u64|
            #![trigger s.contains_key(c)]
            #![trigger t.contains_key(c)]
            c != gone implies (s.contains_key(c) ==> t.contains_key(c)) && image(t, c) == image(
            s,
            c,
        ) by {
            if m0.cached(c) {
                let a = m0.slot(c);
                let b = if a < i { a } else { a - 1 };
                assert(m1.cache()[b] == m0.cache()[a]);
                assert(m1.cached(c));
                assert(m1.slot(c) == b);
            }
        }
    }

    /// The bytes of page `page_count`.
    pub fn get_data(&mut self, device: &mut Device, page_count: u64) -> (r: Result<
        [u8; PAGE_SIZE],
        Error,
    >)
        requires
            old(self).wf(old(device)),
        ensures
            final(self).wf(final(device)),
            final(self).capacity() == old(self).capacity(),
            final(device).limit() == old(device).limit(),
            same_except(
                old(self).store(old(device)),
                final(self).store(final(device)),
                Set::empty(),
            ),
            match r {
                Ok(data) => {
                    &&& old(self).store(old(device)).contains_key(page_count)
                    &&& data@ == old(self).store(old(device))[page_count]
                    &&& final(self).cached(page_count)
                },
                Err(e) => {
                    &&& e == Error::NotFound
                    &&& !old(self).store(old(device)).contains_key(page_count)
                    &&& *final(self) == *old(self)
                    &&& *final(device) == *old(device)
                },
            },
            old(self).cached(page_count) ==> *final(self) == *old(self) && *final(device) == *old(
                device,
            ),
            !old(self).cached(page_count) && old(device).has_page(page_count) ==> {
                let page = Page {
                    page_type: PageType::General,
                    count: page_count,
                    syncd: true,
                    data: old(device).page_array(page_count),
                };
                let k = victims(old(self).cache().len() as int, old(self).capacity());
                &&& final(self).cache() == admitted(old(self).cache(), old(self).capacity(), page)
                &&& final(device)@ == flushed(old(device)@, old(self).cache().take(k))
            },
    {
        match self.get(device, page_count) {
            Ok(page) => Ok(page.data),
            Err(e) => Err(e),
        }
    }

    /// Replaces the bytes of page `page_count` and marks it dirty. A page that
    /// is neither cached nor on the device is not found.
    pub fn modify(&mut self, device: &mut Device, page_count: u64, data: &[u8; PAGE_SIZE]) -> (r:
        Result<(), Error>)
        requires
            old(self).wf(old(device)),
        ensures
            final(self).wf(final(device)),
            final(self).capacity() == old(self).capacity(),
            final(device).limit() == old(device).limit(),
            match r {
                Ok(()) => {
                    &&& old(self).store(old(device)).contains_key(page_count)
                    &&& final(self).store(final(device)).contains_key(page_count)
                    &&& final(self).store(final(device))[page_count] == data@
                    &&& same_except(
                        old(self).store(old(device)),
                        final(self).store(final(device)),
                        set![page_count],
                    )
                    &&& final(self).cached(page_count)
                    &&& !final(self).cache()[final(self).slot(page_count)].syncd
                },
                Err(e) => {
                    &&& e == Error::NotFound
                    &&& !old(self).store(old(device)).contains_key(page_count)
                    &&& *final(self) == *old(self)
                    &&& *final(device) == *old(device)
                },
            },
            old(self).cached(page_count) ==> {
                let i = old(self).slot(page_count);
                &&& *final(device) == *old(device)
                &&& final(self).cache() == old(self).cache().update(
                    i,
                    Page {
                        page_type: old(self).cache()[i].page_type,
                        count: page_count,
                        syncd: false,
                        data: *data,
                    },
                )
            },
            !old(self).cached(page_count) && old(device).has_page(page_count) ==> {
                let page = Page {
                    page_type: PageType::General,
                    count: page_count,
                    syncd: false,
                    data: *data,
                };
                let k = victims(old(self).cache().len() as int, old(self).capacity());
                &&& final(self).cache() == admitted(old(self).cache(), old(self).capacity(), page)
                &&& final(device)@ == flushed(old(device)@, old(self).cache().take(k))
            },
    {
        match self.get(device, page_count) {
            Ok(_) => {},
            Err(e) => {
                return Err(e);
            },
        }
        match self.find_index(page_count) {
            Some(i) => {
                let ghost m1 = *self;
                let mut page = self.pages[i];
                page.modify(data);
                self.pages[i] = page;
                proof {
                    Self::lemma_replace(m1, *self, *device, i as int, page);
                    if old(self).cached(page_count) {
                        assert(m1.slot(page_count) == i);
                    } else {
                        assert(m1.slot(page_count) == i);
                        assert(self.cache() =~= admitted(
                            old(self).cache(),
                            old(self).capacity(),
                            page,
                        ));
                    }
                }
                Ok(())
            },
            None => {
                proof {
                    assert(false);
                }
                Err(Error::NotFound)
            },
        }
    }

    /// Puts a zero-filled page `count` into the cache without consulting the
    /// bitmaps, in place of whatever the store held there. A page that the
    /// device could never take is refused.
    pub fn alloc_with_count(&mut self, device: &mut Device, count: u64, page_type: PageType) -> (r:
        Result<Page, Error>)
        requires
            old(self).wf(old(device)),
        ensures
            final(self).wf(final(device)),
            final(self).capacity() == old(self).capacity(),
            final(device).limit() == old(device).limit(),
            count >= old(device).limit() ==> r == Err::<Page, Error>(Error::Io) && *final(self)
                == *old(self) && *final(device) == *old(device),
            count < old(device).limit() ==> {
                &&& r is Ok
                &&& r.unwrap().page_type == page_type
                &&& r.unwrap().count == count
                &&& !r.unwrap().syncd
                &&& r.unwrap().data@ == zero_page()
                &&& final(self).store(final(device)).contains_key(count)
                &&& final(self).store(final(device))[count] == zero_page()
                &&& same_except(
                    old(self).store(old(device)),
                    final(self).store(final(device)),
                    set![count],
                )
                &&& final(self).cached(count)
                &&& final(self).cache() == admitted(
                    if old(self).cached(count) {
                        old(self).cache().remove(old(self).slot(count))
                    } else {
                        old(self).cache()
                    },
                    old(self).capacity(),
                    r.unwrap(),
                )
            },
    {
        if count >= device.page_limit() as u64 {
            return Err(Error::Io);
        }
        let ghost s0 = self.store(device);
        match self.find_index(count) {
            Some(i) => {
                let ghost m0 = *self;
                self.pages.remove(i);
                proof {
                    assert(m0.slot(count) == i);
                    Self::lemma_forget(m0, *self, *device, i as int);
                }
            },
            None => {},
        }
        let ghost s1 = self.store(device);
        let ghost m1 = *self;
        self.limit_cache(device);
        let ghost m2 = *self;
        let page = Page::new(count, page_type);
        self.pages.push(page);
        proof {
            if m2.cached(count) {
                let i = m2.slot(count);
                let k = victims(m1.cache().len() as int, m1.capacity());
                assert(m2.cache()[i] == m1.cache()[i + k]);
                assert(false);
            }
            Self::lemma_admit(m2, *self, *device, page);
        }
        Ok(page)
    }

    /// Writes every dirty page of the cache back and marks it clean. After it,
    /// the device alone holds the whole store.
    pub fn sync_all(&mut self, writer: &mut Device) -> (r: Result<(), Error>)
        requires
            old(self).wf(old(writer)),
        ensures
            r is Ok,
            final(self).wf(final(writer)),
            final(self).capacity() == old(self).capacity(),
            final(writer).limit() == old(writer).limit(),
            final(self).cache() == all_syncd(old(self).cache()),
            final(writer)@ == flushed(old(writer)@, old(self).cache()),
            same_except(
                old(self).store(old(writer)),
                final(self).store(final(writer)),
                Set::empty(),
            ),
            forall|c: u64|
                #![trigger final(writer).has_page(c)]
                final(self).store(final(writer)).contains_key(c) ==> final(writer).has_page(c)
                    && final(writer)@[c as int] == final(self).store(final(writer))[c],
    {
        let mut i: usize = 0;
        proof {
            assert(self.cache().take(0) =~= Seq::<Page>::empty());
        }
        while i < self.pages.len()
            invariant
                self.wf(writer),
                self.capacity() == old(self).capacity(),
                writer.limit() == old(writer).limit(),
                i <= self.cache().len(),
                self.cache().len() == old(self).cache().len(),
                forall|j: int| 0 <= j < i ==> #[trigger] self.cache()[j] == all_syncd(
                    old(self).cache(),
                )[j],
                forall|j: int|
                    i <= j < self.cache().len() ==> #[trigger] self.cache()[j] == old(self).cache()[j],
                writer@ == flushed(old(writer)@, old(self).cache().take(i as int)),
                same_except(old(self).store(old(writer)), self.store(writer), Set::empty()),
            decreases self.cache().len() - i,
        {
            let ghost m0 = *self;
            let ghost d0 = *writer;
            let mut page = self.pages[i];
            let result = page.sync(writer);
            self.pages[i] = page;
            proof {
                assert(result is Ok);
                Self::lemma_written_back(m0, d0, *self, *writer, i as int);
                assert(old(self).cache().take(i + 1).drop_last() =~= old(self).cache().take(
                    i as int,
                ));
                assert(old(self).cache().take(i + 1).last() == old(self).cache()[i as int]);
            }
            i += 1;
        }
        proof {
            assert(old(self).cache().take(i as int) =~= old(self).cache());
            assert(self.cache() =~= all_syncd(old(self).cache()));
            self.lemma_store(writer);
            writer.lemma_pages();
            assert forall|c: u64|
                #![trigger writer.has_page(c)]
                self.store(writer).contains_key(c) implies writer.has_page(c) && writer@[c as int]
                == self.store(writer)[c] by {
                if self.cached(c) {
                    let j = self.slot(c);
                    assert(self.cache()[j] == all_syncd(old(self).cache())[j]);
                }
            }
        }
        Ok(())
    }

    /// Writing one cached page back keeps every image.
    proof fn lemma_written_back(m0: PageManage, d0: Device, m1: PageManage, d1: Device, i: int)
        requires
            m0.wf(&d0),
            0 <= i < m0.cache().len(),
            d1.wf(),
            d1.limit() == d0.limit(),
            m1.cache() == m0.cache().update(
                i,
                Page {
                    page_type: m0.cache()[i].page_type,
                    count: m0.cache()[i].count,
                    syncd: true,
                    data: m0.cache()[i].data,
                },
            ),
            d1@ == (if m0.cache()[i].syncd {
                d0@
            } else {
                written_pages(d0@, m0.cache()[i].count as int, m0.cache()[i].data@)
            }),
        ensures
            m1.wf(&d1),
            same_except(m0.store(&d0), m1.store(&d1), Set::empty()),
    {
        let target = m0.cache()[i];
        d0.lemma_pages();
        d1.lemma_pages();
        assert forall|a: int, b: int| 0 <= a < b < m1.cache().len() implies #[trigger] m1.cache()[a].count
            != #[trigger] m1.cache()[b].count by {
            assert(m1.cache()[a].count == m0.cache()[a].count);
            assert(m1.cache()[b].count == m0.cache()[b].count);
        }
        assert forall|a: int| 0 <= a < m1.cache().len() implies ({
            let p = #[trigger] m1.cache()[a];
            &&& p.count < d1.limit()
            &&& p.syncd ==> d1.has_page(p.count) && d1@[p.count as int] == p.data@
        }) by {
            if a != i {
                assert(m1.cache()[a] == m0.cache()[a]);
                assert(m0.cache()[a].count != target.count);
            }
        }
        m0.lemma_store(&d0);
        m1.lemma_store(&d1);
        let s = m0.store(&d0);
        let t = m1.store(&d1);
        assert forall|c: u64|
            #![trigger s.contains_key(c)]
            #![trigger t.contains_key(c)]
            (s.contains_key(c) ==> t.contains_key(c)) && image(t, c) == image(s, c) by {
            if m0.cached(c) {
                let a = m0.slot(c);
                assert(m1.cache()[a].count == c);
                assert(m1.cache()[a].data == m0.cache()[a].data);
                assert(m1.cached(c));
            } else if m1.cached(c) {
                let a = m1.slot(c);
                assert(m1.cache()[a].count == m0.cache()[a].count);
                assert(false);
            } else {
                if d1.has_page(c) && !d0.has_page(c) {
                    assert(d1@[c as int] == zero_page());
                }
            }
        }
    }

    /// Loads the bitmap page at `base`, making a blank one where the store has
    /// none.
    fn load_bitmap(&mut self, device: &mut Device, base: u64) -> (bitmap: BitmapPage)
        requires
            old(self).wf(old(device)),
            base < old(device).limit(),
        ensures
            final(self).wf(final(device)),
            final(self).capacity() == old(self).capacity(),
            final(device).limit() == old(device).limit(),
            same_except(
                old(self).store(old(device)),
                final(self).store(final(device)),
                Set::empty(),
            ),
            final(self).store(final(device)).contains_key(base),
            bitmap.page.data@ == image(old(self).store(old(device)), base),
    {
        match self.get(device, base) {
            Ok(page) => BitmapPage { page },
            Err(_) => {
                match self.alloc_with_count(device, base, PageType::BitmapPage) {
                    Ok(page) => BitmapPage { page },
                    Err(_) => BitmapPage::new(base),
                }
            },
        }
    }

    /// Finds the lowest free page count and marks it in its bitmap.
    fn find_unused_page(&mut self, device: &mut Device) -> (r: Result<u64, Error>)
        requires
            old(self).wf(old(device)),
        ensures
            final(self).wf(final(device)),
            final(self).capacity() == old(self).capacity(),
            final(device).limit() == old(device).limit(),
            match r {
                Ok(c) => {
                    let s = old(self).store(old(device));
                    let t = final(self).store(final(device));
                    let b = governing(c);
                    &&& first_free(s, old(device).limit(), 0) == Some(c)
                    &&& c < old(device).limit()
                    &&& !is_reserved(c)
                    &&& !page_used(s, c)
                    &&& t.contains_key(b)
                    &&& t[b] == with_bit_set(with_bit_set(image(s, b), 0), slot_of(c))
                    &&& same_except(s, t, set![b])
                },
                Err(e) => {
                    &&& e == Error::Io
                    &&& first_free(old(self).store(old(device)), old(device).limit(), 0) is None
                    &&& same_except(
                        old(self).store(old(device)),
                        final(self).store(final(device)),
                        Set::empty(),
                    )
                },
            },
    {
        let mut base: u64 = 0;
        let limit: usize = device.page_limit();
        let ghost s0 = self.store(device);
        let ghost mut k: int = 0;
        loop
            invariant
                self.wf(device),
                self.capacity() == old(self).capacity(),
                device.limit() == old(device).limit(),
                limit == device.limit(),
                s0 == old(self).store(old(device)),
                same_except(s0, self.store(device), Set::empty()),
                k >= 0,
                base == k * BITMAP_STRIDE,
                first_free(s0, limit as int, 0) == first_free(s0, limit as int, base as int),
            decreases limit - base + BITMAP_STRIDE,
        {
            if base >= limit as u64 {
                return Err(Error::Io);
            }
            let mut bitmap = self.load_bitmap(device, base);
            let ghost bits = image(s0, base);
            bitmap.set_used(0);
            match bitmap.find_unused() {
                Some(p) => {
                    proof {
                        assert(p != 0);
                        assert(is_lowest_clear(bits, p as int)) by {
                            assert forall|q: int| 1 <= q < p implies bit_at(bits, q) by {
                                assert(bitmap.used(q));
                            }
                        }
                        lemma_lowest_clear(bits, p as int);
                    }
                    if p >= limit as u64 - base {
                        return Err(Error::Io);
                    }
                    let count: u64 = base + p;
                    bitmap.set_used(p);
                    let ghost s1 = self.store(device);
                    let r = self.modify(device, base, &bitmap.page.data);
                    proof {
                        assert(r is Ok);
                        assert(count / BITMAP_STRIDE == k && count % BITMAP_STRIDE == p) by {
                            assert(count == k * BITMAP_STRIDE + p);
                            lemma_stride(k, p as int);
                        }
                        assert(governing(count) == base);
                        assert(self.store(device)[base] == with_bit_set(
                            with_bit_set(bits, 0),
                            p as int,
                        ));
                    }
                    return Ok(count);
                },
                None => {
                    proof {
                        assert(bitmap_full(bits)) by {
                            assert forall|q: int| 1 <= q < BITMAP_MANAGED_SIZE implies bit_at(
                                bits,
                                q,
                            ) by {
                                assert(bitmap.used(q));
                            }
                        }
                    }
                    if base > u64::MAX - BITMAP_STRIDE {
                        return Err(Error::Io);
                    }
                    base += BITMAP_STRIDE;
                    proof {
                        k = k + 1;
                    }
                },
            }
        }
    }

    /// Allocates the lowest free page: marks it in its bitmap and puts a
    /// zero-filled page for it into the cache. Fails where no page below the
    /// device's limit is free.
    pub fn allocate(&mut self, device: &mut Device, page_type: PageType) -> (r: Result<Page, Error>)
        requires
            old(self).wf(old(device)),
        ensures
            final(self).wf(final(device)),
            final(self).capacity() == old(self).capacity(),
            final(device).limit() == old(device).limit(),
            match r {
                Ok(page) => {
                    let s = old(self).store(old(device));
                    let t = final(self).store(final(device));
                    let c = page.count;
                    let b = governing(c);
                    &&& first_free(s, old(device).limit(), 0) == Some(c)
                    &&& page.page_type == page_type
                    &&& !page.syncd
                    &&& page.data@ == zero_page()
                    &&& !is_reserved(c)
                    &&& !page_used(s, c)
                    &&& page_used(t, c)
                    &&& t.contains_key(b)
                    &&& t[b] == with_bit_set(with_bit_set(image(s, b), 0), slot_of(c))
                    &&& t.contains_key(c)
                    &&& t[c] == zero_page()
                    &&& final(self).cached(c)
                    &&& same_except(s, t, set![b, c])
                    &&& forall|d: u64|
                        d != c && !is_reserved(d) ==> #[trigger] page_used(t, d) == page_used(s, d)
                    &&& kept(s, t, Set::empty())
                },
                Err(e) => {
                    &&& e == Error::Io
                    &&& first_free(old(self).store(old(device)), old(device).limit(), 0) is None
                    &&& first_free(final(self).store(final(device)), old(device).limit(), 0) is None
                    &&& same_except(
                        old(self).store(old(device)),
                        final(self).store(final(device)),
                        Set::empty(),
                    )
                },
            },
    {
        let ghost s = self.store(device);
        proof {
            self.lemma_store(device);
        }
        let count = match self.find_unused_page(device) {
            Ok(count) => count,
            Err(e) => {
                proof {
                    lemma_first_free_same(s, self.store(device), device.limit(), 0);
                }
                return Err(e);
            },
        };
        let ghost s1 = self.store(device);
        let r = self.alloc_with_count(device, count, page_type);
        proof {
            let t = self.store(device);
            lemma_marked(s, t, count);
            assert forall|p: u64|
                #![trigger untouched(s, t, p)]
                !is_reserved(p) && page_used(s, p) implies untouched(s, t, p) by {
                assert(s.contains_key(p) ==> t.contains_key(p));
                assert(page_used(t, p) == page_used(s, p));
            }
        }
        r
    }

    /// Releases page `page_count`: forgets its cached copy without writing it
    /// back, and clears its bit in the governing bitmap. The device keeps its
    /// size. A reserved count is refused; a page whose bitmap was never
    /// written is not found.
    pub fn release(&mut self, device: &mut Device, page_count: u64) -> (r: Result<(), Error>)
        requires
            old(self).wf(old(device)),
        ensures
            final(self).wf(final(device)),
            final(self).capacity() == old(self).capacity(),
            final(device).limit() == old(device).limit(),
            is_reserved(page_count) ==> r == Err::<(), Error>(Error::Reserved) && *final(self)
                == *old(self) && *final(device) == *old(device),
            !is_reserved(page_count) && !old(self).store(old(device)).contains_key(
                governing(page_count),
            ) ==> r == Err::<(), Error>(Error::NotFound) && *final(self) == *old(self) && *final(device) == *old(device),
            !is_reserved(page_count) && old(self).store(old(device)).contains_key(
                governing(page_count),
            ) ==> {
                let s = old(self).store(old(device));
                let t = final(self).store(final(device));
                let b = governing(page_count);
                &&& r is Ok
                &&& !final(self).cached(page_count)
                &&& !page_used(t, page_count)
                &&& t.contains_key(b)
                &&& t[b] == with_bit_clear(s[b], slot_of(page_count))
                &&& same_except(s, t, set![b, page_count])
                &&& forall|d: u64|
                    d != page_count && !is_reserved(d) ==> #[trigger] page_used(t, d) == page_used(
                        s,
                        d,
                    )
                &&& kept(s, t, set![page_count])
            },
    {
        let slot: u64 = page_count % BITMAP_STRIDE;
        if slot == 0 || slot == BITMAP_MANAGED_SIZE as u64 {
            return Err(Error::Reserved);
        }
        let base: u64 = page_count - slot;
        let ghost s = self.store(device);
        let mut bitmap = match self.get(device, base) {
            Ok(page) => BitmapPage { page },
            Err(e) => {
                return Err(e);
            },
        };
        match self.find_index(page_count) {
            Some(i) => {
                let ghost m0 = *self;
                self.pages.remove(i);
                proof {
                    Self::lemma_forget(m0, *self, *device, i as int);
                }
            },
            None => {},
        }
        bitmap.set_unused(slot);
        let ghost m1 = *self;
        let r = self.modify(device, base, &bitmap.page.data);
        proof {
            assert(r is Ok);
            assert(m1.cached(base));
            if self.cached(page_count) {
                let i = self.slot(page_count);
                assert(m1.cache()[i].count == page_count);
                assert(false);
            }
            assert(s[base].len() == PAGE_SIZE) by {
                old(self).lemma_store(old(device));
            }
            lemma_cleared(s, self.store(device), page_count);
        }
        Ok(())
    }

    /// Searches from `start` on for a page whose first byte is `page_type`,
    /// passing over reserved counts and over allocated pages of another type.
    /// Where the search comes to an unallocated count first, it allocates the
    /// page at that count, stamps the type into its first byte, and returns
    /// it. Fails where it reaches the device's limit.
    pub fn find_page_by_type(&mut self, device: &mut Device, start: u64, page_type: u8) -> (r:
        Result<u64, Error>)
        requires
            old(self).wf(old(device)),
        ensures
            final(self).wf(final(device)),
            final(self).capacity() == old(self).capacity(),
            final(device).limit() == old(device).limit(),
            match r {
                Ok(c) => {
                    let s = old(self).store(old(device));
                    let t = final(self).store(final(device));
                    let b = governing(c);
                    &&& first_of_type(s, start as int, page_type, old(device).limit()) == Some(c)
                    &&& c >= start
                    &&& !is_reserved(c)
                    &&& t.contains_key(c)
                    &&& t[c][0] == page_type
                    &&& page_used(t, c)
                    &&& kept(s, t, Set::empty())
                    &&& page_used(s, c) ==> same_except(s, t, Set::empty())
                    &&& !page_used(s, c) ==> {
                        &&& t.contains_key(b)
                        &&& t[b] == with_bit_set(with_bit_set(image(s, b), 0), slot_of(c))
                        &&& t[c] == zero_page().update(0, page_type)
                        &&& same_except(s, t, set![b, c])
                        &&& forall|d: u64|
                            d != c && !is_reserved(d) ==> #[trigger] page_used(t, d) == page_used(
                                s,
                                d,
                            )
                    }
                },
                Err(e) => {
                    &&& e == Error::Io
                    &&& first_of_type(
                        old(self).store(old(device)),
                        start as int,
                        page_type,
                        old(device).limit(),
                    ) is None
                    &&& same_except(
                        old(self).store(old(device)),
                        final(self).store(final(device)),
                        Set::empty(),
                    )
                },
            },
    {
        let mut page_count: u64 = start;
        let limit: usize = device.page_limit();
        let ghost s0 = self.store(device);
        loop
            invariant
                self.wf(device),
                self.capacity() == old(self).capacity(),
                device.limit() == old(device).limit(),
                limit == device.limit(),
                s0 == old(self).store(old(device)),
                same_except(s0, self.store(device), Set::empty()),
                page_count >= start,
                first_of_type(s0, start as int, page_type, limit as int) == first_of_type(
                    s0,
                    page_count as int,
                    page_type,
                    limit as int,
                ),
            decreases limit - page_count,
        {
            if page_count >= limit as u64 {
                return Err(Error::Io);
            }
            let slot: u64 = page_count % BITMAP_STRIDE;
            if slot == 0 || slot == BITMAP_MANAGED_SIZE as u64 {
                page_count += 1;
                continue ;
            }
            let base: u64 = page_count - slot;
            let mut bitmap = self.load_bitmap(device, base);
            let ghost bits = image(s0, base);
            if !bitmap.get_used(slot) {
                bitmap.set_used(0);
                bitmap.set_used(slot);
                let marked = self.modify(device, base, &bitmap.page.data);
                let ghost s1 = self.store(device);
                let made = self.alloc_with_count(device, page_count, PageType::General);
                let mut page = match made {
                    Ok(page) => page,
                    Err(e) => {
                        proof {
                            assert(false);
                        }
                        return Err(e);
                    },
                };
                page.data[0] = page_type;
                let stamped = self.modify(device, page_count, &page.data);
                proof {
                    assert(marked is Ok);
                    assert(stamped is Ok);
                    assert(s1[base] == with_bit_set(with_bit_set(bits, 0), slot as int));
                    let t = self.store(device);
                    lemma_marked(s0, t, page_count);
                    assert forall|p: u64|
                        #![trigger untouched(s0, t, p)]
                        !is_reserved(p) && page_used(s0, p) implies untouched(s0, t, p) by {
                        assert(s0.contains_key(p) ==> t.contains_key(p));
                        assert(page_used(t, p) == page_used(s0, p));
                    }
                }
                return Ok(page_count);
            }
            let ghost s1 = self.store(device);
            proof {
                assert(page_used(s0, page_count));
            }
            match self.get(device, page_count) {
                Ok(page) => {
                    if page.data[0] == page_type {
                        proof {
                            self.lemma_store(device);
                            assert(image(s0, page_count) == page.data@);
                            lemma_kept(s0, self.store(device), Set::empty());
                        }
                        return Ok(page_count);
                    }
                    proof {
                        assert(image(s0, page_count) == page.data@);
                    }
                },
                Err(_) => {
                    proof {
                        assert(image(s0, page_count) == zero_page());
                    }
                    if page_type == 0 {
                        let made = self.alloc_with_count(device, page_count, PageType::General);
                        proof {
                            assert(made is Ok);
                            let t = self.store(device);
                            assert(image(t, page_count) == image(s1, page_count));
                            assert(same_except(s1, t, Set::empty()));
                            lemma_kept(s0, t, Set::empty());
                        }
                        return Ok(page_count);
                    }
                },
            }
            page_count += 1;
        }
    }
}

impl Default for PageManage {
    /// An empty cache of capacity zero, which holds one page at a time.
    fn default() -> (mgr: PageManage)
        ensures
            mgr.capacity() == 0,
            mgr.cache().len() == 0,
            forall|dev: &Device| dev.wf() ==> #[trigger] mgr.wf(dev),
    {
        PageManage::new(0)
    }
}

/// Allocation hands out the same page from two stores that hold the same
/// images.
pub proof fn lemma_first_free_same(s: Store, t: Store, limit: int, base: int)
    requires
        same_except(s, t, Set::empty()),
    ensures
        first_free(t, limit, base) == first_free(s, limit, base),
    decreases limit - base + BITMAP_STRIDE,
{
    if !(base < 0 || base >= limit || base > u64::MAX) {
        let b = base as u64;
        assert(s.contains_key(b) ==> t.contains_key(b));
        assert(image(t, b) == image(s, b));
        if bitmap_full(image(s, b)) {
            lemma_first_free_same(s, t, limit, base + BITMAP_STRIDE as int);
        }
    }
}

/// On a store whose first bitmap page was never written, allocation hands
/// out page 1, provided that the device takes two pages.
pub proof fn law_first_free_fresh(s: Store, limit: int)
    requires
        !s.contains_key(0),
        limit >= 2,
    ensures
        first_free(s, limit, 0) == Some(1u64),
{
    let bits = image(s, 0);
    lemma_zero_page_bits(1);
    assert(is_lowest_clear(bits, 1));
    lemma_lowest_clear(bits, 1);
}

/// The one lowest unmarked position is the one that `lowest_clear` names.
pub proof fn lemma_lowest_clear(bits: Seq<u8>, p: int)
    requires
        is_lowest_clear(bits, p),
    ensures
        !bitmap_full(bits),
        lowest_clear(bits) == p,
{
    let q = lowest_clear(bits);
    assert(is_lowest_clear(bits, q));
    if q < p {
        assert(bit_at(bits, q));
    }
    if p < q {
        assert(bit_at(bits, p));
    }
}

/// The bitmap count and the position of the page `p` places after the `k`-th
/// bitmap page.
pub proof fn lemma_stride(k: int, p: int)
    requires
        0 <= k,
        0 <= p < BITMAP_STRIDE,
    ensures
        (k * BITMAP_STRIDE + p) / (BITMAP_STRIDE as int) == k,
        (k * BITMAP_STRIDE + p) % (BITMAP_STRIDE as int) == p,
{
    vstd::arithmetic::div_mod::lemma_fundamental_div_mod_converse(
        k * BITMAP_STRIDE + p,
        BITMAP_STRIDE as int,
        k,
        p,
    );
}

/// After the bit of page `c` has been cleared in the governing bitmap, `c` is
/// free and every other page is as before.
pub proof fn lemma_cleared(s: Store, t: Store, c: u64)
    requires
        !is_reserved(c),
        s.contains_key(governing(c)),
        s[governing(c)].len() == PAGE_SIZE,
        t.contains_key(governing(c)),
        t[governing(c)] == with_bit_clear(s[governing(c)], slot_of(c)),
        same_except(s, t, set![governing(c), c]),
    ensures
        !page_used(t, c),
        forall|d: u64| d != c && !is_reserved(d) ==> #[trigger] page_used(t, d) == page_used(s, d),
        kept(s, t, set![c]),
{
    let b = governing(c);
    let bits = s[b];
    lemma_with_bit_clear(bits, slot_of(c), slot_of(c));
    assert forall|d: u64| d != c && !is_reserved(d) implies #[trigger] page_used(t, d)
        == page_used(s, d) by {
        if governing(d) == b {
            lemma_with_bit_clear(bits, slot_of(c), slot_of(d));
        } else {
            assert(governing(d) != c);
            assert(!set![b, c].contains(governing(d)));
        }
    }
    assert forall|p: u64|
        #![trigger untouched(s, t, p)]
        !is_reserved(p) && page_used(s, p) && p != c implies untouched(s, t, p) by {
        assert(p != b);
        assert(!set![b, c].contains(p));
        assert(s.contains_key(p) ==> t.contains_key(p));
        assert(page_used(t, p) == page_used(s, p));
    }
}

/// After the bit of page `c` and the bitmap's own have been set in the
/// governing bitmap, `c` is allocated and every other page is as before.
pub proof fn lemma_marked(s: Store, t: Store, c: u64)
    requires
        !is_reserved(c),
        image(s, governing(c)).len() == PAGE_SIZE,
        t.contains_key(governing(c)),
        t[governing(c)] == with_bit_set(with_bit_set(image(s, governing(c)), 0), slot_of(c)),
        same_except(s, t, set![governing(c), c]),
    ensures
        page_used(t, c),
        forall|d: u64| d != c && !is_reserved(d) ==> #[trigger] page_used(t, d) == page_used(s, d),
{
    let b = governing(c);
    let bits = image(s, b);
    let once = with_bit_set(bits, 0);
    lemma_with_bit_set(bits, 0, slot_of(c));
    lemma_with_bit_set(once, slot_of(c), slot_of(c));
    assert forall|d: u64| d != c && !is_reserved(d) implies #[trigger] page_used(t, d)
        == page_used(s, d) by {
        if governing(d) == b {
            lemma_with_bit_set(bits, 0, slot_of(d));
            lemma_with_bit_set(once, slot_of(c), slot_of(d));
        } else {
            assert(governing(d) != c);
            assert(!set![b, c].contains(governing(d)));
        }
    }
}

/// The store once page `c` has been handed out of `s`: the page's bit, and
/// the bitmap's own, are set in the governing bitmap, and the page itself is
/// zero-filled.
pub open spec fn taken(s: Store, c: u64) -> Store {
    s.insert(
        governing(c),
        with_bit_set(with_bit_set(image(s, governing(c)), 0), slot_of(c)),
    ).insert(c, zero_page())
}

/// Whether `n` pages can be handed out of `s` one after the other.
pub open spec fn room(s: Store, limit: int, n: nat) -> bool
    decreases n,
{
    n == 0 || match first_free(s, limit, 0) {
        Some(c) => room(taken(s, c), limit, (n - 1) as nat),
        None => false,
    }
}

/// What an allocation of page `c` leaves reads as `taken` says.
pub proof fn lemma_taken(s: Store, t: Store, c: u64)
    requires
        !is_reserved(c),
        t.contains_key(governing(c)),
        t[governing(c)] == with_bit_set(with_bit_set(image(s, governing(c)), 0), slot_of(c)),
        t.contains_key(c),
        t[c] == zero_page(),
        same_except(s, t, set![governing(c), c]),
    ensures
        same_except(taken(s, c), t, Set::empty()),
{
    let b = governing(c);
    let u = taken(s, c);
    assert(slot_of(b) == 0);
    assert(b != c);
    assert forall|d: u64|
        #![trigger u.contains_key(d)]
        #![trigger t.contains_key(d)]
        (u.contains_key(d) ==> t.contains_key(d)) && image(t, d) == image(u, d) by {
        if d != b && d != c {
            assert(!set![b, c].contains(d));
            assert(s.contains_key(d) ==> t.contains_key(d));
            assert(image(t, d) == image(s, d));
        }
    }
}

/// Stores that read alike have room for the same number of pages.
pub proof fn lemma_room_same(s: Store, t: Store, limit: int, n: nat)
    requires
        same_except(s, t, Set::empty()),
    ensures
        room(t, limit, n) == room(s, limit, n),
    decreases n,
{
    lemma_first_free_same(s, t, limit, 0);
    if n > 0 {
        match first_free(s, limit, 0) {
            Some(c) => {
                let b = governing(c);
                let u = taken(s, c);
                let w = taken(t, c);
                assert(s.contains_key(b) ==> t.contains_key(b));
                assert(image(t, b) == image(s, b));
                assert forall|d: u64|
                    #![trigger u.contains_key(d)]
                    #![trigger w.contains_key(d)]
                    (u.contains_key(d) ==> w.contains_key(d)) && image(w, d) == image(u, d) by {
                    if d != b && d != c {
                        assert(s.contains_key(d) ==> t.contains_key(d));
                        assert(image(t, d) == image(s, d));
                    }
                }
                lemma_room_same(u, w, limit, (n - 1) as nat);
            },
            None => {},
        }
    }
}

/// Two changes, one after the other, leave alone what both leave alone.
pub proof fn lemma_same_trans(s: Store, t: Store, u: Store, a: Set<u64>, b: Set<u64>)
    requires
        same_except(s, t, a),
        same_except(t, u, b),
    ensures
        same_except(s, u, a.union(b)),
{
    assert forall|c: u64|
        #![trigger s.contains_key(c)]
        #![trigger u.contains_key(c)]
        !a.union(b).contains(c) implies (s.contains_key(c) ==> u.contains_key(c)) && image(u, c)
        == image(s, c) by {
        assert(!a.contains(c) && !b.contains(c));
        assert(s.contains_key(c) ==> t.contains_key(c));
        assert(t.contains_key(c) ==> u.contains_key(c));
    }
}

/// The pages that `n` allocations hand out of `s`, one after the other, as
/// far as there are pages to hand out.
pub open spec fn handed(s: Store, limit: int, n: nat) -> Seq<u64>
    decreases n,
{
    if n == 0 {
        Seq::empty()
    } else {
        match first_free(s, limit, 0) {
            Some(c) => seq![c] + handed(taken(s, c), limit, (n - 1) as nat),
            None => Seq::empty(),
        }
    }
}

/// Stores that read alike hand out the same pages.
pub proof fn lemma_handed_same(s: Store, t: Store, limit: int, n: nat)
    requires
        same_except(s, t, Set::empty()),
    ensures
        handed(t, limit, n) == handed(s, limit, n),
    decreases n,
{
    lemma_first_free_same(s, t, limit, 0);
    if n > 0 {
        match first_free(s, limit, 0) {
            Some(c) => {
                let b = governing(c);
                let u = taken(s, c);
                let w = taken(t, c);
                assert(s.contains_key(b) ==> t.contains_key(b));
                assert(image(t, b) == image(s, b));
                assert forall|d: u64|
                    #![trigger u.contains_key(d)]
                    #![trigger w.contains_key(d)]
                    (u.contains_key(d) ==> w.contains_key(d)) && image(w, d) == image(u, d) by {
                    if d != b && d != c {
                        assert(s.contains_key(d) ==> t.contains_key(d));
                        assert(image(t, d) == image(s, d));
                    }
                }
                lemma_handed_same(u, w, limit, (n - 1) as nat);
            },
            None => {},
        }
    }
}

} // verus!
