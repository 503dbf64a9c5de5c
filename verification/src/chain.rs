//! Payloads that do not fit into one content entry: the entry keeps the
//! first part inline, and a chain of overflow pages holds the rest.

use vstd::prelude::*;
use crate::codec::copy_range;
use crate::content::{ContentEntry, EntryView};
use crate::device::Device;
use crate::error::Error;
use crate::manage::{
    first_free, handed, image, is_reserved, kept, lemma_handed_same, lemma_kept, lemma_kept_trans,
    lemma_room_same, lemma_taken, page_used, room, same_except, taken, untouched, PageManage,
    Store,
};
use crate::overflow::{
    OVERFLOWED_OVERFLOWPAGE_AVAILABLE_SIZE, OVERFLOWPAGE_AVAILABLE_SIZE, OverflowPage, OverflowView,
};
use crate::page::{zero_page, PAGE_TYPEID_OVERFLOW, PageType};
use crate::room::{
    lemma_spare_trans, lemma_spent, lemma_unspent, one_more, same_used, sized, spare,
};
use crate::tree::used_kept;

verus! {

/// The longest payload that stays inline as a whole.
pub const INLINE_MAX: usize = 4091;

/// The inline part of a payload that goes on in an overflow chain.
pub const INLINE_PREFIX: usize = 4084;

/// Whether page `c` is an allocated overflow page.
pub open spec fn link_ok(s: Store, c: u64) -> bool {
    &&& s.contains_key(c)
    &&& !is_reserved(c)
    &&& page_used(s, c)
    &&& s[c][0] == PAGE_TYPEID_OVERFLOW
}

/// The link that page `c` holds.
pub open spec fn link_at(s: Store, c: u64) -> OverflowView {
    OverflowView::load(image(s, c))
}

/// Whether the chain that starts at page `first` holds exactly `rest`: each
/// link holds the next bytes, a link with a successor holds at least one
/// byte, and the chain ends with the last byte.
pub open spec fn chain_holds(s: Store, first: u64, rest: Seq<u8>) -> bool
    decreases rest.len(),
{
    let page = link_at(s, first);
    &&& link_ok(s, first)
    &&& page.data.len() <= rest.len()
    &&& rest.take(page.data.len() as int) == page.data
    &&& match page.next {
        None => page.data.len() == rest.len(),
        Some(next) => page.data.len() > 0 && chain_holds(
            s,
            next,
            rest.skip(page.data.len() as int),
        ),
    }
}

/// Whether the chain that starts at page `first` holds `rest` in the layout
/// in which chains are written: every link but the last holds as much as a
/// link with a successor can, and the last holds what is left, which is no
/// more than a last link can hold.
pub open spec fn chain_canonical(s: Store, first: u64, rest: Seq<u8>) -> bool
    decreases rest.len(),
{
    let page = link_at(s, first);
    &&& link_ok(s, first)
    &&& if rest.len() <= OVERFLOWPAGE_AVAILABLE_SIZE {
        page.data == rest && page.next is None
    } else {
        &&& page.data == rest.take(OVERFLOWED_OVERFLOWPAGE_AVAILABLE_SIZE as int)
        &&& page.next is Some
        &&& chain_canonical(
            s,
            page.next.unwrap(),
            rest.skip(OVERFLOWED_OVERFLOWPAGE_AVAILABLE_SIZE as int),
        )
    }
}

/// Every allocated page whose first byte is `tag` is in `t` what it was in `s`.
pub open spec fn tagged_kept(s: Store, t: Store, tag: u8) -> bool {
    forall|p: u64|
        #![trigger untouched(s, t, p)]
        !is_reserved(p) && page_used(s, p) && image(s, p)[0] == tag ==> untouched(s, t, p)
}

/// Whether an entry, with its chain, holds `value`.
pub open spec fn holds_value(s: Store, e: EntryView, value: Seq<u8>) -> bool {
    match e.overflow_page {
        None => value == e.data,
        Some(first) => {
            &&& e.data.len() <= value.len()
            &&& value.take(e.data.len() as int) == e.data
            &&& chain_holds(s, first, value.skip(e.data.len() as int))
        },
    }
}

/// A chain in the written layout holds its bytes.
pub proof fn lemma_canonical_holds(s: Store, first: u64, rest: Seq<u8>)
    requires
        chain_canonical(s, first, rest),
    ensures
        chain_holds(s, first, rest),
    decreases rest.len(),
{
    let page = link_at(s, first);
    if rest.len() <= OVERFLOWPAGE_AVAILABLE_SIZE {
        assert(rest.take(rest.len() as int) =~= rest);
    } else {
        lemma_canonical_holds(
            s,
            page.next.unwrap(),
            rest.skip(OVERFLOWED_OVERFLOWPAGE_AVAILABLE_SIZE as int),
        );
    }
}

/// A chain holds one sequence of bytes only.
pub proof fn lemma_chain_unique(s: Store, first: u64, a: Seq<u8>, b: Seq<u8>)
    requires
        chain_holds(s, first, a),
        chain_holds(s, first, b),
    ensures
        a == b,
    decreases a.len(),
{
    let page = link_at(s, first);
    let k = page.data.len() as int;
    match page.next {
        None => {
            assert(a.take(k) =~= a);
            assert(b.take(k) =~= b);
        },
        Some(next) => {
            lemma_chain_unique(s, next, a.skip(k), b.skip(k));
            assert(a =~= a.take(k) + a.skip(k));
            assert(b =~= b.take(k) + b.skip(k));
        },
    }
}

/// An entry holds one value only.
pub proof fn lemma_value_unique(s: Store, e: EntryView, a: Seq<u8>, b: Seq<u8>)
    requires
        holds_value(s, e, a),
        holds_value(s, e, b),
    ensures
        a == b,
{
    match e.overflow_page {
        None => {},
        Some(first) => {
            let k = e.data.len() as int;
            lemma_chain_unique(s, first, a.skip(k), b.skip(k));
            assert(a =~= a.take(k) + a.skip(k));
            assert(b =~= b.take(k) + b.skip(k));
        },
    }
}

/// A chain holds its bytes for as long as the overflow pages are kept.
pub proof fn lemma_chain_kept(s: Store, t: Store, first: u64, rest: Seq<u8>)
    requires
        chain_holds(s, first, rest),
        tagged_kept(s, t, PAGE_TYPEID_OVERFLOW),
    ensures
        chain_holds(t, first, rest),
    decreases rest.len(),
{
    assert(untouched(s, t, first));
    let page = link_at(s, first);
    match page.next {
        None => {},
        Some(next) => {
            lemma_chain_kept(s, t, next, rest.skip(page.data.len() as int));
        },
    }
}

/// A chain in the written layout stays one for as long as the overflow pages
/// are kept.
pub proof fn lemma_canonical_kept(s: Store, t: Store, first: u64, rest: Seq<u8>)
    requires
        chain_canonical(s, first, rest),
        tagged_kept(s, t, PAGE_TYPEID_OVERFLOW),
    ensures
        chain_canonical(t, first, rest),
    decreases rest.len(),
{
    assert(untouched(s, t, first));
    if rest.len() > OVERFLOWPAGE_AVAILABLE_SIZE {
        lemma_canonical_kept(
            s,
            t,
            link_at(s, first).next.unwrap(),
            rest.skip(OVERFLOWED_OVERFLOWPAGE_AVAILABLE_SIZE as int),
        );
    }
}

/// An entry holds its value for as long as the overflow pages are kept.
pub proof fn lemma_value_kept(s: Store, t: Store, e: EntryView, value: Seq<u8>)
    requires
        holds_value(s, e, value),
        tagged_kept(s, t, PAGE_TYPEID_OVERFLOW),
    ensures
        holds_value(t, e, value),
{
    match e.overflow_page {
        None => {},
        Some(first) => {
            lemma_chain_kept(s, t, first, value.skip(e.data.len() as int));
        },
    }
}

/// What `from_bytes` makes of a payload: the entry and, for a payload that
/// overflows, the chain in the store.
pub open spec fn placed(s: Store, t: Store, data: Seq<u8>, e: EntryView) -> bool {
    &&& stored(t, data, e)
    &&& if data.len() <= INLINE_MAX {
        t == s
    } else {
        &&& !page_used(s, e.overflow_page.unwrap())
        &&& kept(s, t, Set::empty())
        &&& used_kept(s, t)
        &&& forall|p: u64|
            !is_reserved(p) && #[trigger] page_used(t, p) && !page_used(s, p) ==> chain_pages(
                t,
                e.overflow_page.unwrap(),
                data.skip(INLINE_PREFIX as int),
            ).contains(p)
    }
}

/// Whether `e` is the entry that a payload is written as: the whole payload
/// inline where it is no longer than 4091 bytes, and else its first 4084
/// bytes inline and the rest in a chain in the written layout.
pub open spec fn stored(t: Store, data: Seq<u8>, e: EntryView) -> bool {
    if data.len() <= INLINE_MAX {
        &&& e.data == data
        &&& e.overflow_page is None
    } else {
        &&& e.data == data.take(INLINE_PREFIX as int)
        &&& e.overflow_page is Some
        &&& chain_canonical(t, e.overflow_page.unwrap(), data.skip(INLINE_PREFIX as int))
    }
}

/// An entry stays what its payload was written as for as long as the
/// overflow pages are kept.
pub proof fn lemma_stored_kept(s: Store, t: Store, data: Seq<u8>, e: EntryView)
    requires
        stored(s, data, e),
        tagged_kept(s, t, PAGE_TYPEID_OVERFLOW),
    ensures
        stored(t, data, e),
{
    if data.len() > INLINE_MAX {
        lemma_canonical_kept(s, t, e.overflow_page.unwrap(), data.skip(INLINE_PREFIX as int));
    }
}

/// The pages of the chain that starts at page `first` and holds `rest` in
/// the written layout, in the order of the links.
pub open spec fn chain_pages(s: Store, first: u64, rest: Seq<u8>) -> Seq<u64>
    decreases rest.len(),
{
    if rest.len() <= OVERFLOWPAGE_AVAILABLE_SIZE {
        seq![first]
    } else {
        match link_at(s, first).next {
            Some(next) => seq![first] + chain_pages(
                s,
                next,
                rest.skip(OVERFLOWED_OVERFLOWPAGE_AVAILABLE_SIZE as int),
            ),
            None => seq![first],
        }
    }
}

/// The number of links that a chain for `len` bytes has.
pub open spec fn links_needed(len: int) -> nat {
    if len <= OVERFLOWPAGE_AVAILABLE_SIZE {
        1
    } else {
        ((len - OVERFLOWPAGE_AVAILABLE_SIZE + OVERFLOWED_OVERFLOWPAGE_AVAILABLE_SIZE - 1)
            / OVERFLOWED_OVERFLOWPAGE_AVAILABLE_SIZE as int + 1) as nat
    }
}

/// A chain of as many links as `len` bytes take has `links_needed(len)`.
pub proof fn lemma_links_needed(len: int, count: int)
    requires
        len > 0,
        links_for(len, count),
    ensures
        count == links_needed(len),
{
}

/// The pages of a chain in the written layout stay its pages for as long as
/// the overflow pages are kept.
pub proof fn lemma_pages_kept(s: Store, t: Store, first: u64, rest: Seq<u8>)
    requires
        chain_canonical(s, first, rest),
        tagged_kept(s, t, PAGE_TYPEID_OVERFLOW),
    ensures
        chain_pages(t, first, rest) == chain_pages(s, first, rest),
    decreases rest.len(),
{
    assert(untouched(s, t, first));
    if rest.len() > OVERFLOWPAGE_AVAILABLE_SIZE {
        lemma_pages_kept(
            s,
            t,
            link_at(s, first).next.unwrap(),
            rest.skip(OVERFLOWED_OVERFLOWPAGE_AVAILABLE_SIZE as int),
        );
    }
}

impl ContentEntry {
    /// Makes the content entry for a payload. A payload of up to 4091 bytes
    /// stays inline. Of a longer one the first 4084 bytes stay inline, and
    /// the rest goes to a chain of newly allocated overflow pages: 4085
    /// bytes to every link but the last, and to the last what is left, up to
    /// 4093 bytes. Fails exactly where the store cannot hand out a page for
    /// every link; pages that were taken for links before the failure stay
    /// allocated. The links take the pages that allocation hands out one
    /// after the other, and no other page is taken.
    pub fn from_bytes(device: &mut Device, mgr: &mut PageManage, data: &[u8]) -> (r: Result<
        ContentEntry,
        Error,
    >)
        requires
            old(mgr).wf(old(device)),
        ensures
            final(mgr).wf(final(device)),
            final(mgr).capacity() == old(mgr).capacity(),
            final(device).limit() == old(device).limit(),
            data@.len() > INLINE_MAX ==> (r is Ok <==> room(
                old(mgr).store(old(device)),
                old(device).limit(),
                links_needed(data@.len() - INLINE_PREFIX),
            )),
            data@.len() > INLINE_MAX && r is Ok ==> chain_pages(
                final(mgr).store(final(device)),
                r.unwrap().overflow_page.unwrap(),
                data@.skip(INLINE_PREFIX as int),
            ) == handed(
                old(mgr).store(old(device)),
                old(device).limit(),
                links_needed(data@.len() - INLINE_PREFIX),
            ),
            data@.len() > INLINE_MAX && r is Ok ==> spare(
                old(mgr).store(old(device)),
                final(mgr).store(final(device)),
                old(device).limit(),
                links_needed(data@.len() - INLINE_PREFIX),
            ),
            match r {
                Ok(entry) => {
                    &&& placed(
                        old(mgr).store(old(device)),
                        final(mgr).store(final(device)),
                        data@,
                        entry@,
                    )
                    &&& data@.len() > INLINE_MAX ==> entry.overflow_page == first_free(
                        old(mgr).store(old(device)),
                        old(device).limit(),
                        0,
                    )
                    &&& holds_value(final(mgr).store(final(device)), entry@, data@)
                },
                Err(e) => {
                    &&& e == Error::Io
                    &&& data@.len() > INLINE_MAX
                    &&& !room(
                        old(mgr).store(old(device)),
                        old(device).limit(),
                        links_needed(data@.len() - INLINE_PREFIX),
                    )
                    &&& first_free(final(mgr).store(final(device)), final(device).limit(), 0)
                        is None
                    &&& kept(
                        old(mgr).store(old(device)),
                        final(mgr).store(final(device)),
                        Set::empty(),
                    )
                    &&& used_kept(old(mgr).store(old(device)), final(mgr).store(final(device)))
                },
            },
    {
        let ghost s = mgr.store(device);
        let total: usize = data.len();
        if total <= INLINE_MAX {
            let entry = ContentEntry { data: copy_range(data, 0, total), overflow_page: None };
            proof {
                assert(data@.subrange(0, total as int) =~= data@);
            }
            return Ok(entry);
        }
        let ghost rest = data@.skip(INLINE_PREFIX as int);
        let pages = match Self::reserve_links(device, mgr, total - INLINE_PREFIX) {
            Ok(pages) => pages,
            Err(e) => {
                return Err(e);
            },
        };
        let ghost reserved_store = mgr.store(device);
        proof {
            mgr.lemma_store(device);
        }
        Self::write_links(device, mgr, data, &pages, Ghost(s));
        proof {
            let t = mgr.store(device);
            mgr.lemma_store(device);
            assert(sized(reserved_store) && sized(t));
            assert(same_used(reserved_store, t));
            lemma_unspent(reserved_store, t, device.limit() as int);
            lemma_spare_trans(
                s,
                reserved_store,
                t,
                device.limit() as int,
                pages@.len(),
                0,
            );
        }
        let entry = ContentEntry {
            data: copy_range(data, 0, INLINE_PREFIX),
            overflow_page: Some(pages[0]),
        };
        proof {
            let t = mgr.store(device);
            assert(rest.len() == total - INLINE_PREFIX);
            lemma_canonical_holds(t, pages@[0], rest);
            assert(data@.take(INLINE_PREFIX as int) =~= data@.subrange(0, INLINE_PREFIX as int));
        }
        Ok(entry)
    }

    /// Allocates the pages of a chain for `len` bytes, in the order of the
    /// links.
    fn reserve_links(device: &mut Device, mgr: &mut PageManage, len: usize) -> (r: Result<
        Vec<u64>,
        Error,
    >)
        requires
            old(mgr).wf(old(device)),
            len > 0,
        ensures
            final(mgr).wf(final(device)),
            final(mgr).capacity() == old(mgr).capacity(),
            final(device).limit() == old(device).limit(),
            kept(old(mgr).store(old(device)), final(mgr).store(final(device)), Set::empty()),
            used_kept(old(mgr).store(old(device)), final(mgr).store(final(device))),
            r is Ok <==> room(
                old(mgr).store(old(device)),
                old(device).limit(),
                links_needed(len as int),
            ),
            r is Ok ==> spare(
                old(mgr).store(old(device)),
                final(mgr).store(final(device)),
                old(device).limit(),
                links_needed(len as int),
            ),
            r is Ok ==> r.unwrap()@ == handed(
                old(mgr).store(old(device)),
                old(device).limit(),
                links_needed(len as int),
            ),
            match r {
                Ok(pages) => (forall|p: u64|
                    !is_reserved(p) && #[trigger] page_used(final(mgr).store(final(device)), p)
                        && !page_used(old(mgr).store(old(device)), p) ==> pages@.contains(p))
                    && reserved(
                    old(mgr).store(old(device)),
                    final(mgr).store(final(device)),
                    pages@,
                    pages@.len() as int,
                ) && links_for(len as int, pages@.len() as int) && first_free(
                    old(mgr).store(old(device)),
                    old(device).limit(),
                    0,
                ) == Some(pages@[0]),
                Err(e) => e == Error::Io && first_free(
                    final(mgr).store(final(device)),
                    final(device).limit(),
                    0,
                ) is None,
            },
    {
        let ghost s = mgr.store(device);
        let mut pages: Vec<u64> = Vec::new();
        let mut remaining: usize = len;
        let mut more: bool = true;
        let ghost need = links_needed(len as int);
        proof {
            assert(kept(s, s, Set::empty()));
            assert(spare(s, s, device.limit() as int, 0));
            assert(Seq::<u64>::empty() + handed(s, device.limit() as int, need) =~= handed(
                s,
                device.limit() as int,
                need,
            ));
        }
        while more
            invariant
                spare(s, mgr.store(device), device.limit() as int, pages@.len()),
                handed(s, device.limit() as int, need) == pages@ + handed(
                    mgr.store(device),
                    device.limit() as int,
                    (need - pages@.len()) as nat,
                ),
                need == links_needed(len as int),
                pages@.len() <= need,
                more ==> pages@.len() < need,
                room(s, device.limit(), need) == room(
                    mgr.store(device),
                    device.limit(),
                    (need - pages@.len()) as nat,
                ),
                forall|p: u64|
                    !is_reserved(p) && #[trigger] page_used(mgr.store(device), p) && !page_used(
                        s,
                        p,
                    ) ==> pages@.contains(p),
                mgr.wf(device),
                mgr.capacity() == old(mgr).capacity(),
                device.limit() == old(device).limit(),
                s == old(mgr).store(old(device)),
                kept(s, mgr.store(device), Set::empty()),
                used_kept(s, mgr.store(device)),
                reserved(s, mgr.store(device), pages@, pages@.len() as int),
                pages@.len() == 0 ==> mgr.store(device) == s,
                pages@.len() >= 1 ==> first_free(s, device.limit(), 0) == Some(pages@[0]),
                pages@.len() == 0 ==> more,
                more ==> remaining == len - pages@.len() * OVERFLOWED_OVERFLOWPAGE_AVAILABLE_SIZE,
                more ==> remaining > 0,
                more && pages@.len() >= 1 ==> len - (pages@.len() - 1)
                    * OVERFLOWED_OVERFLOWPAGE_AVAILABLE_SIZE > OVERFLOWPAGE_AVAILABLE_SIZE,
                !more ==> links_for(len as int, pages@.len() as int),
            decreases remaining + (if more { 1int } else { 0int }),
        {
            let ghost cur = mgr.store(device);
            proof {
                mgr.lemma_store(device);
            }
            let page = match mgr.allocate(device, PageType::OverflowPage) {
                Ok(page) => page,
                Err(e) => {
                    proof {
                        lemma_kept(cur, mgr.store(device), Set::empty());
                        lemma_kept_trans(
                            s,
                            cur,
                            mgr.store(device),
                            Set::empty(),
                            Set::empty(),
                        );
                        assert(Set::<u64>::empty().union(Set::<u64>::empty()) =~= Set::<
                            u64,
                        >::empty());
                        assert(!room(cur, device.limit(), (need - pages@.len()) as nat));
                    }
                    return Err(e);
                },
            };
            let ghost before = pages@;
            pages.push(page.count);
            proof {
                let t = mgr.store(device);
                lemma_kept_trans(s, cur, t, Set::empty(), Set::empty());
                assert(Set::<u64>::empty().union(Set::<u64>::empty()) =~= Set::<u64>::empty());
                mgr.lemma_store(device);
                assert(sized(cur) && sized(t));
                assert(one_more(cur, t, page.count));
                lemma_spent(cur, t, device.limit() as int, page.count);
                lemma_spare_trans(s, cur, t, device.limit() as int, before.len(), 1);
                lemma_taken(cur, t, page.count);
                lemma_handed_same(
                    taken(cur, page.count),
                    t,
                    device.limit() as int,
                    (need - pages@.len()) as nat,
                );
                assert(handed(cur, device.limit() as int, (need - before.len()) as nat) == seq![
                    page.count,
                ] + handed(t, device.limit() as int, (need - pages@.len()) as nat));
                assert(pages@ + handed(t, device.limit() as int, (need - pages@.len()) as nat)
                    =~= before + (seq![page.count] + handed(
                    t,
                    device.limit() as int,
                    (need - pages@.len()) as nat,
                )));
                lemma_room_same(
                    taken(cur, page.count),
                    t,
                    device.limit() as int,
                    (need - pages@.len()) as nat,
                );
                assert(room(cur, device.limit() as int, (need - before.len()) as nat) == room(
                    taken(cur, page.count),
                    device.limit() as int,
                    (need - pages@.len()) as nat,
                ));
                assert forall|p: u64|
                    !is_reserved(p) && #[trigger] page_used(t, p) && !page_used(
                        s,
                        p,
                    ) implies pages@.contains(p) by {
                    if p == page.count {
                        assert(pages@[before.len() as int] == p);
                    } else {
                        assert(page_used(cur, p));
                        let j = choose|j: int| 0 <= j < before.len() && before[j] == p;
                        assert(pages@[j] == p);
                    }
                }
                assert forall|j: int| 0 <= j < pages@.len() implies {
                    &&& t.contains_key(#[trigger] pages@[j])
                    &&& !is_reserved(pages@[j])
                    &&& page_used(t, pages@[j])
                    &&& !page_used(s, pages@[j])
                    &&& t[pages@[j]] == zero_page()
                } by {
                    if j < before.len() {
                        assert(pages@[j] == before[j]);
                        assert(untouched(cur, t, before[j]));
                    }
                }
                assert forall|i: int, j: int| 0 <= i < j < pages@.len() implies pages@[i]
                    != pages@[j] by {
                    if j == before.len() {
                        assert(pages@[i] == before[i]);
                        assert(page_used(cur, before[i]));
                    } else {
                        assert(before[i] != before[j]);
                    }
                }
            }
            if remaining <= OVERFLOWPAGE_AVAILABLE_SIZE {
                more = false;
                proof {
                    lemma_links_needed(len as int, pages@.len() as int);
                }
            } else {
                remaining -= OVERFLOWED_OVERFLOWPAGE_AVAILABLE_SIZE;
            }
        }
        proof {
            lemma_links_needed(len as int, pages@.len() as int);
            assert(pages@ + Seq::<u64>::empty() =~= pages@);
        }
        Ok(pages)
    }

    /// Writes the links of the chain for `data[4084..]` to their pages, the
    /// last link first.
    fn write_links(
        device: &mut Device,
        mgr: &mut PageManage,
        data: &[u8],
        pages: &Vec<u64>,
        Ghost(s): Ghost<Store>,
    )
        requires
            old(mgr).wf(old(device)),
            data@.len() > INLINE_MAX,
            reserved(s, old(mgr).store(old(device)), pages@, pages@.len() as int),
            links_for(data@.len() - INLINE_PREFIX, pages@.len() as int),
            kept(s, old(mgr).store(old(device)), Set::empty()),
            used_kept(s, old(mgr).store(old(device))),
        ensures
            final(mgr).wf(final(device)),
            final(mgr).capacity() == old(mgr).capacity(),
            final(device).limit() == old(device).limit(),
            kept(s, final(mgr).store(final(device)), Set::empty()),
            used_kept(s, final(mgr).store(final(device))),
            !page_used(s, pages@[0]),
            chain_canonical(
                final(mgr).store(final(device)),
                pages@[0],
                data@.skip(INLINE_PREFIX as int),
            ),
            chain_pages(
                final(mgr).store(final(device)),
                pages@[0],
                data@.skip(INLINE_PREFIX as int),
            ) == pages@,
            forall|p: u64|
                #[trigger] page_used(final(mgr).store(final(device)), p) == page_used(
                    old(mgr).store(old(device)),
                    p,
                ),
    {
        let count: usize = pages.len();
        let total: usize = data.len();
        let ghost rest = data@.skip(INLINE_PREFIX as int);
        let mut i: usize = count;
        while i > 0
            invariant
                mgr.wf(device),
                mgr.capacity() == old(mgr).capacity(),
                device.limit() == old(device).limit(),
                count == pages@.len(),
                total == data@.len(),
                total > INLINE_MAX,
                rest == data@.skip(INLINE_PREFIX as int),
                i <= count,
                links_for(total - INLINE_PREFIX, count as int),
                reserved(s, mgr.store(device), pages@, i as int),
                kept(s, mgr.store(device), Set::empty()),
                used_kept(s, mgr.store(device)),
                forall|j: int|
                    0 <= j < count ==> {
                        &&& mgr.store(device).contains_key(#[trigger] pages@[j])
                        &&& !is_reserved(pages@[j])
                        &&& page_used(mgr.store(device), pages@[j])
                        &&& !page_used(s, pages@[j])
                    },
                forall|a: int, b: int| 0 <= a < b < count ==> pages@[a] != pages@[b],
                i < count ==> chain_canonical(
                    mgr.store(device),
                    pages@[i as int],
                    rest.skip(i * OVERFLOWED_OVERFLOWPAGE_AVAILABLE_SIZE),
                ),
                i < count ==> chain_pages(
                    mgr.store(device),
                    pages@[i as int],
                    rest.skip(i * OVERFLOWED_OVERFLOWPAGE_AVAILABLE_SIZE),
                ) == pages@.skip(i as int),
                forall|p: u64|
                    #[trigger] page_used(mgr.store(device), p) == page_used(
                        old(mgr).store(old(device)),
                        p,
                    ),
            decreases i,
        {
            let idx: usize = i - 1;
            let ghost cur = mgr.store(device);
            proof {
                assert(rest.len() - idx * OVERFLOWED_OVERFLOWPAGE_AVAILABLE_SIZE > 0);
                assert(idx * OVERFLOWED_OVERFLOWPAGE_AVAILABLE_SIZE < rest.len()) by (nonlinear_arith)
                    requires
                        rest.len() - idx * OVERFLOWED_OVERFLOWPAGE_AVAILABLE_SIZE > 0,
                ;
            }
            let start: usize = INLINE_PREFIX + idx * OVERFLOWED_OVERFLOWPAGE_AVAILABLE_SIZE;
            let last: bool = idx + 1 == count;
            let end: usize = if last {
                total
            } else {
                start + OVERFLOWED_OVERFLOWPAGE_AVAILABLE_SIZE
            };
            let link = OverflowPage {
                data: copy_range(data, start, end),
                next: if last {
                    None
                } else {
                    Some(pages[idx + 1])
                },
            };
            let ghost piece = rest.skip(idx * OVERFLOWED_OVERFLOWPAGE_AVAILABLE_SIZE);
            proof {
                assert(link@.fits());
                link@.lemma_round_trip();
                if last {
                    assert(link@.data =~= piece);
                } else {
                    assert(link@.data =~= piece.take(OVERFLOWED_OVERFLOWPAGE_AVAILABLE_SIZE as int));
                    assert(piece.skip(OVERFLOWED_OVERFLOWPAGE_AVAILABLE_SIZE as int) =~= rest.skip(
                        i * OVERFLOWED_OVERFLOWPAGE_AVAILABLE_SIZE,
                    ));
                }
            }
            let image = link.dump();
            let written = mgr.modify(device, pages[idx], &image);
            proof {
                let t = mgr.store(device);
                let c = pages@[idx as int];
                assert(written is Ok);
                lemma_kept(cur, t, set![c]);
                assert(tagged_kept(cur, t, PAGE_TYPEID_OVERFLOW)) by {
                    assert(cur[c] == zero_page());
                }
                if !last {
                    lemma_canonical_kept(
                        cur,
                        t,
                        pages@[i as int],
                        rest.skip(i * OVERFLOWED_OVERFLOWPAGE_AVAILABLE_SIZE),
                    );
                    lemma_pages_kept(
                        cur,
                        t,
                        pages@[i as int],
                        rest.skip(i * OVERFLOWED_OVERFLOWPAGE_AVAILABLE_SIZE),
                    );
                }
                assert(link_at(t, c) == link@);
                assert(chain_canonical(t, c, piece));
                assert(chain_pages(t, c, piece) =~= pages@.skip(idx as int));
                assert forall|p: u64|
                    #![trigger untouched(s, t, p)]
                    !is_reserved(p) && page_used(s, p) implies untouched(s, t, p) by {
                    assert(untouched(s, cur, p));
                    assert(p != c);
                    assert(untouched(cur, t, p));
                }
                assert forall|j: int| 0 <= j < idx implies {
                    &&& t.contains_key(#[trigger] pages@[j])
                    &&& !is_reserved(pages@[j])
                    &&& page_used(t, pages@[j])
                    &&& !page_used(s, pages@[j])
                    &&& t[pages@[j]] == zero_page()
                } by {
                    assert(pages@[j] != c);
                    assert(cur.contains_key(pages@[j]));
                }
            }
            i = idx;
        }
        proof {
            assert(rest.skip(0) =~= rest);
            assert(pages@.skip(0) =~= pages@);
        }
    }

    /// The whole value of the entry: the inline bytes and, where the entry
    /// overflows, the bytes of each link of its chain in order, up to the
    /// link that names no successor.
    pub fn read(&self, device: &mut Device, mgr: &mut PageManage) -> (r: Vec<u8>)
        requires
            old(mgr).wf(old(device)),
            exists|value: Seq<u8>| holds_value(old(mgr).store(old(device)), self@, value),
        ensures
            final(mgr).wf(final(device)),
            final(mgr).capacity() == old(mgr).capacity(),
            final(device).limit() == old(device).limit(),
            same_except(
                old(mgr).store(old(device)),
                final(mgr).store(final(device)),
                Set::empty(),
            ),
            holds_value(old(mgr).store(old(device)), self@, r@),
    {
        let ghost value = choose|value: Seq<u8>|
            holds_value(mgr.store(device), self@, value);
        self.payload(device, mgr, Ghost(value))
    }

    /// The value of the entry, which the caller names.
    pub(crate) fn payload(&self, device: &mut Device, mgr: &mut PageManage, Ghost(value): Ghost<
        Seq<u8>,
    >) -> (r: Vec<u8>)
        requires
            old(mgr).wf(old(device)),
            holds_value(old(mgr).store(old(device)), self@, value),
        ensures
            final(mgr).wf(final(device)),
            final(mgr).capacity() == old(mgr).capacity(),
            final(device).limit() == old(device).limit(),
            same_except(
                old(mgr).store(old(device)),
                final(mgr).store(final(device)),
                Set::empty(),
            ),
            r@ == value,
    {
        let ghost s = mgr.store(device);
        let mut out: Vec<u8> = copy_range(&self.data, 0, self.data.len());
        let mut cur: Option<u64> = self.overflow_page;
        let ghost mut rest: Seq<u8> = value.skip(self.data@.len() as int);
        proof {
            assert(self.data@.subrange(0, self.data@.len() as int) =~= self.data@);
            if self.overflow_page is None {
                assert(rest =~= Seq::<u8>::empty());
                assert(out@ + rest =~= value);
            } else {
                assert(value =~= value.take(self.data@.len() as int) + rest);
            }
        }
        while cur.is_some()
            invariant
                mgr.wf(device),
                mgr.capacity() == old(mgr).capacity(),
                device.limit() == old(device).limit(),
                s == old(mgr).store(old(device)),
                same_except(s, mgr.store(device), Set::empty()),
                out@ + rest == value,
                cur is Some ==> chain_holds(mgr.store(device), cur.unwrap(), rest),
                cur is None ==> rest.len() == 0,
            decreases rest.len() + (if cur is Some { 1int } else { 0int }),
        {
            let count: u64 = cur.unwrap();
            let ghost before = mgr.store(device);
            let link = match mgr.get_data(device, count) {
                Ok(bytes) => OverflowPage::load(&bytes),
                Err(_) => {
                    proof {
                        assert(false);
                    }
                    OverflowPage { data: Vec::new(), next: None }
                },
            };
            proof {
                let t = mgr.store(device);
                lemma_kept(before, t, Set::empty());
                assert(tagged_kept(before, t, PAGE_TYPEID_OVERFLOW));
                lemma_chain_kept(before, t, count, rest);
                assert(link@ == link_at(t, count));
            }
            let mut piece = link.data;
            let ghost taken = piece@;
            out.append(&mut piece);
            proof {
                let k = taken.len() as int;
                assert(rest =~= rest.take(k) + rest.skip(k));
                assert(out@ + rest.skip(k) =~= value);
                rest = rest.skip(k);
            }
            cur = link.next;
        }
        proof {
            assert(out@ + rest =~= out@);
        }
        out
    }
}

/// Whether `pages` are newly allocated pages, no two the same, of which the
/// first `unwritten` are still zero-filled.
pub open spec fn reserved(s: Store, t: Store, pages: Seq<u64>, unwritten: int) -> bool {
    &&& forall|j: int|
        0 <= j < unwritten ==> {
            &&& t.contains_key(#[trigger] pages[j])
            &&& !is_reserved(pages[j])
            &&& page_used(t, pages[j])
            &&& !page_used(s, pages[j])
            &&& t[pages[j]] == zero_page()
        }
    &&& forall|a: int, b: int| 0 <= a < b < unwritten ==> pages[a] != pages[b]
}

/// Whether a chain of `count` links is what `len` bytes take: the link
/// before the last, and so every link before it, has more ahead of it than a
/// last link holds, and the last has not.
pub open spec fn links_for(len: int, count: int) -> bool {
    &&& count >= 1
    &&& count >= 2 ==> len - (count - 2) * OVERFLOWED_OVERFLOWPAGE_AVAILABLE_SIZE
        > OVERFLOWPAGE_AVAILABLE_SIZE
    &&& 0 < len - (count - 1) * OVERFLOWED_OVERFLOWPAGE_AVAILABLE_SIZE
        <= OVERFLOWPAGE_AVAILABLE_SIZE
}

} // verus!
