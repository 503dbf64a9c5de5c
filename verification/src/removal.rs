//! Removal from the B-tree: the descent, and what is done on the way back
//! where a child has been left without entries or short of them.

use vstd::prelude::*;
use crate::btree::{BtreeNode, MAX_IDS, NodeView};
use crate::device::Device;
use crate::manage::{
    image, is_reserved, kept, lemma_kept, lemma_kept_trans, lemma_same_trans, page_used,
    same_except, untouched, PageManage, Store,
};
use crate::page::{PAGE_TYPEID_BTREE_INTERNAL, PAGE_TYPEID_BTREE_LEAF};
use crate::shrink::{
    lemma_case_drop, lemma_case_merge, lemma_case_shift, lemma_distinct, lemma_kept_node,
    lemma_not_below_any, lemma_slot_bounds, lemma_used_governed, loose_ok, none_below,
};
use crate::tree::{
    child_ok, is_node_image, key_end, keyed_in, lemma_concat, lemma_grown, lemma_height,
    lemma_leaf_remove, lemma_may_hold, lemma_not_below, lemma_others_grown, lemma_outside_kept,
    lemma_same_page, lemma_selected, lemma_sibling, lemma_split, lemma_widen, may_hold, node_at,
    node_body, node_has, node_ok, others_kept, outside_kept, selects, upper, used_kept,
};

verus! {

/// What holds before a child that is short of entries is settled with a
/// sibling: the parent is in order, and the child is the subtree at `slot`,
/// held in memory as it is on its page.
pub open spec fn short_child(
    t: Store,
    n: NodeView,
    child: BtreeNode,
    h: nat,
    g: nat,
    lo: int,
    hi: int,
    slot: int,
) -> bool {
    &&& h > 0
    &&& g == h - 1
    &&& node_ok(t, n, h, lo, hi)
    &&& 0 <= slot < n.ids.len()
    &&& child.page_count == n.ptrs[slot]
    &&& child@ == node_at(t, n.ptrs[slot])
    &&& child@.ids.len() < MAX_IDS / 2
}

/// The node `n` without the entry at `i`.
pub open spec fn cut(n: NodeView, i: int) -> NodeView {
    NodeView { node_type: n.node_type, ids: n.ids.remove(i), ptrs: n.ptrs.remove(i) }
}

/// The node `n` with `key` as the key at `i`.
pub open spec fn rekeyed(n: NodeView, i: int, key: u64) -> NodeView {
    NodeView { node_type: n.node_type, ids: n.ids.update(i, key), ptrs: n.ptrs }
}

/// The node of type `kind` that holds the entries of `a` and then those of
/// `b`.
pub open spec fn joined(kind: u8, a: NodeView, b: NodeView) -> NodeView {
    NodeView { node_type: kind, ids: a.ids + b.ids, ptrs: a.ptrs + b.ptrs }
}

/// What a merge leaves in the store: the sibling's page `sp` holds `whole`,
/// the child's page `c` is released, and no other page is taken or released.
pub open spec fn merged_into(t: Store, u: Store, c: u64, sp: u64, whole: NodeView) -> bool {
    &&& node_at(u, sp) == whole
    &&& !page_used(u, c)
    &&& forall|d: u64| d != c && !is_reserved(d) ==> #[trigger] page_used(u, d) == page_used(t, d)
}

/// What a shift of one entry leaves in the store: the child's page `c` and
/// the sibling's page `sp` hold the two nodes as they now are, and no page
/// is taken or released.
pub open spec fn shifted(
    t: Store,
    u: Store,
    c: u64,
    sp: u64,
    child: NodeView,
    sibling: NodeView,
) -> bool {
    &&& node_at(u, c) == child
    &&& node_at(u, sp) == sibling
    &&& forall|d: u64| #[trigger] page_used(u, d) == page_used(t, d)
}

/// What settling the child at `slot` makes of the parent `n` and the store
/// `t`. A child without entries loses its slot, and no page changes. A child
/// with fewer than half the fanout is settled with its left sibling, or, if
/// it is the first child, with its right: where the two fit into one node,
/// the sibling's page takes the entries of both in order, the child's page
/// is released, and the parent gives up the child's pointer, and the key of
/// whichever of the two stands to the right; where they do not fit, one entry
/// moves from the sibling to the child, and the key of the node to the right
/// becomes that node's new first key. Any other child is left alone.
pub open spec fn mend_step(t: Store, u: Store, n: NodeView, m: NodeView, slot: int) -> bool {
    let c = n.ptrs[slot];
    let child = node_at(t, c);
    if child.ids.len() == 0 {
        m == cut(n, slot) && u == t
    } else if child.ids.len() < MAX_IDS / 2 && slot > 0 {
        let sp = n.ptrs[slot - 1];
        let prev = node_at(t, sp);
        if prev.ids.len() + child.ids.len() <= MAX_IDS {
            m == cut(n, slot) && merged_into(t, u, c, sp, joined(prev.node_type, prev, child))
        } else {
            let k = prev.ids.len() - 1;
            &&& m == rekeyed(n, slot, prev.ids[k])
            &&& shifted(
                t,
                u,
                c,
                sp,
                NodeView {
                    node_type: child.node_type,
                    ids: child.ids.insert(0, prev.ids[k]),
                    ptrs: child.ptrs.insert(0, prev.ptrs[k]),
                },
                NodeView { node_type: prev.node_type, ids: prev.ids.take(k), ptrs: prev.ptrs.take(k) },
            )
        }
    } else if child.ids.len() < MAX_IDS / 2 && slot + 1 < n.ids.len() {
        let sp = n.ptrs[slot + 1];
        let next = node_at(t, sp);
        if next.ids.len() + child.ids.len() <= MAX_IDS {
            &&& m == (NodeView {
                node_type: n.node_type,
                ids: n.ids.remove(slot + 1),
                ptrs: n.ptrs.remove(slot),
            })
            &&& merged_into(t, u, c, sp, joined(child.node_type, child, next))
        } else {
            &&& m == rekeyed(n, slot + 1, next.ids[1])
            &&& shifted(
                t,
                u,
                c,
                sp,
                NodeView {
                    node_type: child.node_type,
                    ids: child.ids.push(next.ids[0]),
                    ptrs: child.ptrs.push(next.ptrs[0]),
                },
                cut(next, 0),
            )
        }
    } else {
        m == n && u == t
    }
}

/// Whether `m` is the leaf `n` without the entry of key `id`, or `n` itself
/// where it has no such entry.
pub open spec fn leaf_cut(n: NodeView, m: NodeView, id: u64) -> bool {
    if n.ids.contains(id) {
        exists|i: int| 0 <= i < n.ids.len() && n.ids[i] == id && m == cut(n, i)
    } else {
        m == n
    }
}

/// What a removal of key `id` below the internal node `n` on page `pc` does,
/// told by the stores that it goes through. The search goes below `slot`.
/// The removal below that child leaves the store `t2` and takes no page; if
/// the child is a leaf, its page then holds it without the key, and no other
/// page has changed. Settling the child makes `m` of `n`, and leaves the
/// store `u1`. At the end the node's own page is written: it holds `r`, which
/// is `m`, or an empty leaf where `m` was left without entries at the root.
pub open spec fn descended(
    s: Store,
    t2: Store,
    u1: Store,
    u: Store,
    n: NodeView,
    m: NodeView,
    r: NodeView,
    pc: u64,
    slot: int,
    id: u64,
) -> bool {
    let c = n.ptrs[slot];
    &&& selects(n.ids, id, slot)
    &&& node_at(s, c).node_type != PAGE_TYPEID_BTREE_INTERNAL ==> {
        &&& leaf_cut(node_at(s, c), node_at(t2, c), id)
        &&& same_except(s, t2, set![c])
        &&& forall|p: u64| #[trigger] page_used(t2, p) == page_used(s, p)
    }
    &&& used_kept(t2, s)
    &&& mend_step(t2, u1, n, m, slot)
    &&& same_except(u1, u, set![pc])
    &&& node_at(u, pc) == r
    &&& r == m || (m.ids.len() == 0 && r == (NodeView {
        node_type: PAGE_TYPEID_BTREE_LEAF,
        ids: Seq::empty(),
        ptrs: Seq::empty(),
    }))
}

/// What a removal of key `id` at the node `n` on page `pc` does: at a leaf,
/// the entry goes and only the leaf's page changes; at an internal node, the
/// removal goes below a child, which is then settled.
pub open spec fn removal_step(s: Store, u: Store, n: NodeView, r: NodeView, pc: u64, id: u64) -> bool {
    if n.node_type != PAGE_TYPEID_BTREE_INTERNAL {
        &&& leaf_cut(n, r, id)
        &&& same_except(s, u, set![pc])
        &&& forall|p: u64| #[trigger] page_used(u, p) == page_used(s, p)
    } else {
        exists|t2: Store, u1: Store, m: NodeView, slot: int| #[trigger]
            descended(s, t2, u1, u, n, m, r, pc, slot, id)
    }
}

/// What holds after a short child was settled with a sibling: the parent is
/// in order again, stores what it stored, and only the pages of the child and
/// the sibling were written.
pub open spec fn settled(
    t: Store,
    u: Store,
    n: NodeView,
    m: NodeView,
    h: nat,
    lo: int,
    hi: int,
    c: u64,
    sp: u64,
) -> bool {
    &&& node_ok(u, m, h, lo, hi)
    &&& m.ids.len() >= 1
    &&& m.node_type == n.node_type
    &&& forall|k: u64, v: u64| node_has(u, m, h, k, v) == node_has(t, n, h, k, v)
    &&& kept(t, u, set![c, sp])
    &&& used_kept(u, t)
    &&& m.ptrs[0] == n.ptrs[0] || (n.ptrs.len() > 1 && m.ptrs[0] == n.ptrs[1])
}

/// What the pages of the child at `slot` and of a sibling are to the tree:
/// neither could stand below the children's height, and no other child lies
/// on either.
pub proof fn lemma_two_pages(
    t: Store,
    n: NodeView,
    h: nat,
    g: nat,
    lo: int,
    hi: int,
    a: int,
    b: int,
)
    requires
        h > 0,
        g == h - 1,
        node_ok(t, n, h, lo, hi),
        0 <= a < n.ids.len(),
        0 <= b < n.ids.len(),
    ensures
        none_below(t, set![n.ptrs[a], n.ptrs[b]], g, lo, hi),
        forall|i: int|
            0 <= i < n.ids.len() && i != a && i != b ==> !set![n.ptrs[a], n.ptrs[b]].contains(
                #[trigger] n.ptrs[i],
            ),
{
    assert(child_ok(t, n.ptrs[a], g, n.ids[a] as int, upper(n.ids, a, hi)));
    assert(child_ok(t, n.ptrs[b], g, n.ids[b] as int, upper(n.ids, b, hi)));
    if g > 0 {
        lemma_not_below(
            t,
            n.ptrs[a],
            g,
            n.ids[a] as int,
            upper(n.ids, a, hi),
            (g - 1) as nat,
            lo,
            hi,
        );
        lemma_not_below(
            t,
            n.ptrs[b],
            g,
            n.ids[b] as int,
            upper(n.ids, b, hi),
            (g - 1) as nat,
            lo,
            hi,
        );
    }
    assert forall|i: int| 0 <= i < n.ids.len() && i != a && i != b implies !set![
        n.ptrs[a],
        n.ptrs[b],
    ].contains(#[trigger] n.ptrs[i]) by {
        assert(child_ok(t, n.ptrs[i], g, n.ids[i] as int, upper(n.ids, i, hi)));
        lemma_distinct(t, n, g, hi, i, a);
        lemma_distinct(t, n, g, hi, i, b);
    }
}

/// What a removal below a node leaves behind: the node, unless it is left
/// without entries, is the root of a subtree again; it stores what it stored
/// but for the key; its page holds it; and every allocated page outside the
/// subtree is as it was.
pub open spec fn removed(
    s: Store,
    t: Store,
    n: NodeView,
    m: NodeView,
    pc: u64,
    h: nat,
    lo: int,
    hi: int,
    id: u64,
) -> bool {
    &&& m.ids.len() >= 1 ==> node_ok(t, m, h, lo, hi)
    &&& m.ids.len() == m.ptrs.len()
    &&& m.ids.len() <= MAX_IDS
    &&& m.node_type == n.node_type
    &&& forall|k: u64, v: u64| node_has(t, m, h, k, v) == (node_has(s, n, h, k, v) && k != id)
    &&& t.contains_key(pc)
    &&& page_used(t, pc)
    &&& node_at(t, pc) == m
    &&& others_kept(s, t, pc, h, lo, hi)
    &&& used_kept(t, s)
}

/// What the parent knows after a removal below the child that the search
/// went to: its other children are as they were, the child is short or in
/// order, and together they store what was stored but for the key.
pub proof fn lemma_after_removal(
    s: Store,
    t1: Store,
    t2: Store,
    n: NodeView,
    pc: u64,
    h: nat,
    g: nat,
    lo: int,
    hi: int,
    slot: int,
    id: u64,
    child_before: NodeView,
    child_after: NodeView,
)
    requires
        h > 0,
        g == h - 1,
        node_ok(s, n, h, lo, hi),
        s.contains_key(pc),
        !is_reserved(pc),
        page_used(s, pc),
        node_at(s, pc) == n,
        selects(n.ids, id, slot),
        same_except(s, t1, Set::empty()),
        child_before == node_at(s, n.ptrs[slot]),
        removed(
            t1,
            t2,
            child_before,
            child_after,
            n.ptrs[slot],
            g,
            n.ids[slot] as int,
            upper(n.ids, slot, hi),
            id,
        ),
    ensures
        loose_ok(t2, n, h, g, lo, hi, slot),
        node_at(t2, n.ptrs[slot]) == child_after,
        forall|k: u64, v: u64| node_has(t2, n, h, k, v) == (node_has(s, n, h, k, v) && k != id),
        untouched(s, t2, pc),
        !may_hold(t2, pc, g, lo, hi),
        others_kept(s, t2, n.ptrs[slot], g, n.ids[slot] as int, upper(n.ids, slot, hi)),
        forall|i: int| 0 <= i < n.ids.len() ==> may_hold(s, #[trigger] n.ptrs[i], h, lo, hi),
        forall|i: int| 0 <= i < n.ids.len() ==> pc != #[trigger] n.ptrs[i],
{
    let c = n.ptrs[slot];
    let clo = n.ids[slot] as int;
    let chi = upper(n.ids, slot, hi);
    lemma_slot_bounds(n, slot, lo, hi);
    assert(child_ok(s, c, g, clo, chi));
    lemma_others_grown(s, t1, t2, c, g, clo, chi);
    lemma_grown(s, t1, child_before, g, clo, chi);
    assert(keyed_in(s, c, clo, chi));
    assert forall|i: int| 0 <= i < n.ids.len() && i != slot implies child_ok(
        t2,
        #[trigger] n.ptrs[i],
        g,
        n.ids[i] as int,
        upper(n.ids, i, hi),
    ) && (forall|k: u64, v: u64|
        node_has(t2, node_at(t2, n.ptrs[i]), g, k, v) == node_has(
            s,
            node_at(s, n.ptrs[i]),
            g,
            k,
            v,
        )) by {
        assert(child_ok(s, n.ptrs[i], g, n.ids[i] as int, upper(n.ids, i, hi)));
        if i < slot {
            assert(i + 1 == slot || n.ids[i + 1] < n.ids[slot]);
        } else {
            assert(slot + 1 == i || n.ids[slot + 1] < n.ids[i]);
        }
        lemma_sibling(s, t2, n.ptrs[i], g, n.ids[i] as int, upper(n.ids, i, hi), c, g, clo, chi);
    }
    assert forall|i: int| 0 <= i < n.ids.len() implies may_hold(
        s,
        #[trigger] n.ptrs[i],
        h,
        lo,
        hi,
    ) && pc != n.ptrs[i] by {
        lemma_slot_bounds(n, i, lo, hi);
        assert(child_ok(s, n.ptrs[i], g, n.ids[i] as int, upper(n.ids, i, hi)));
        lemma_widen(s, node_at(s, n.ptrs[i]), g, n.ids[i] as int, upper(n.ids, i, hi), lo, hi);
        assert(node_body(s, node_at(s, n.ptrs[i]), g, lo, hi));
        if pc == n.ptrs[i] {
            lemma_height(s, n, h, lo, hi, g, lo, hi);
        }
    }
    lemma_not_below(s, pc, h, lo, hi, g, clo, chi);
    assert(untouched(s, t2, pc));
    assert(node_at(t2, pc) == n);
    lemma_not_below_any(t2, pc, g, slot, clo, chi, lo, hi);
    assert forall|k: u64, v: u64|
        node_has(t2, n, h, k, v) == (node_has(s, n, h, k, v) && k != id) by {
        if node_has(t2, n, h, k, v) {
            let i = choose|i: int|
                0 <= i < n.ids.len() && node_has(t2, node_at(t2, #[trigger] n.ptrs[i]), g, k, v);
            if i != slot {
                assert(node_has(s, node_at(s, n.ptrs[i]), g, k, v));
                if k == id {
                    lemma_selected(s, n, h, g, lo, hi, id, v, slot, i);
                }
            } else {
                assert(node_has(s, node_at(s, n.ptrs[slot]), g, k, v));
            }
        }
        if node_has(s, n, h, k, v) && k != id {
            let i = choose|i: int|
                0 <= i < n.ids.len() && node_has(s, node_at(s, #[trigger] n.ptrs[i]), g, k, v);
            if i != slot {
                assert(node_has(t2, node_at(t2, n.ptrs[i]), g, k, v));
            } else {
                assert(node_has(t2, node_at(t2, n.ptrs[slot]), g, k, v));
            }
        }
    }
}

/// What a parent is, after the child below which a removal was made has been
/// settled and before the parent's own page is written.
pub open spec fn mended(
    t: Store,
    u: Store,
    n: NodeView,
    m: NodeView,
    h: nat,
    lo: int,
    hi: int,
    w: Set<u64>,
) -> bool {
    &&& m.ids.len() >= 1 ==> node_ok(u, m, h, lo, hi)
    &&& m.ids.len() == m.ptrs.len()
    &&& m.ids.len() <= MAX_IDS
    &&& m.node_type == n.node_type
    &&& forall|k: u64, v: u64| node_has(u, m, h, k, v) == node_has(t, n, h, k, v)
    &&& kept(t, u, w)
    &&& used_kept(u, t)
    &&& forall|p: u64| w.contains(p) ==> exists|i: int| 0 <= i < n.ptrs.len() && n.ptrs[i] == p
}

impl BtreeNode {
    /// Merges the child at `slot` into its left sibling: the sibling takes
    /// the child's entries after its own, the child's page is released, and
    /// the parent gives up the child's slot.
    fn merge_left(
        parent: &mut BtreeNode,
        child: BtreeNode,
        prev: BtreeNode,
        slot: usize,
        device: &mut Device,
        mgr: &mut PageManage,
        Ghost(t): Ghost<Store>,
        Ghost(h): Ghost<nat>,
        Ghost(g): Ghost<nat>,
        Ghost(lo): Ghost<int>,
        Ghost(hi): Ghost<int>,
    )
        requires
            old(mgr).wf(old(device)),
            same_except(t, old(mgr).store(old(device)), Set::empty()),
            short_child(t, old(parent)@, child, h, g, lo, hi, slot as int),
            slot > 0,
            prev.page_count == old(parent).ptrs@[slot - 1],
            prev@ == node_at(t, old(parent).ptrs@[slot - 1]),
            prev@.ids.len() + child@.ids.len() <= MAX_IDS,
        ensures
            final(mgr).wf(final(device)),
            final(mgr).capacity() == old(mgr).capacity(),
            final(device).limit() == old(device).limit(),
            final(parent).page_count == old(parent).page_count,
            settled(
                t,
                final(mgr).store(final(device)),
                old(parent)@,
                final(parent)@,
                h,
                lo,
                hi,
                old(parent).ptrs@[slot as int],
                old(parent).ptrs@[slot - 1],
            ),
            final(parent).ids@.len() == old(parent).ids@.len() - 1,
            final(parent).ptrs@.len() == old(parent).ptrs@.len() - 1,
            !page_used(final(mgr).store(final(device)), old(parent).ptrs@[slot as int]),
            page_used(final(mgr).store(final(device)), old(parent).ptrs@[slot - 1]),
            final(parent)@ == cut(old(parent)@, slot as int),
            merged_into(
                t,
                final(mgr).store(final(device)),
                old(parent).ptrs@[slot as int],
                old(parent).ptrs@[slot - 1],
                joined(prev@.node_type, prev@, child@),
            ),
    {
        let ghost n = parent@;
        let ghost t1 = mgr.store(device);
        let ghost c = n.ptrs[slot as int];
        let ghost sp = n.ptrs[slot - 1];
        let ghost left = prev@;
        let ghost right = child@;
        let mut child = child;
        let mut prev = prev;
        proof {
            lemma_slot_bounds(n, slot as int, lo, hi);
            lemma_slot_bounds(n, slot - 1, lo, hi);
            assert(child_ok(t, c, g, n.ids[slot as int] as int, upper(n.ids, slot as int, hi)));
            assert(child_ok(t, sp, g, n.ids[slot - 1] as int, upper(n.ids, slot - 1, hi)));
            lemma_kept(t, t1, Set::empty());
            lemma_same_page(t, t1, c);
            lemma_same_page(t, t1, sp);
            lemma_used_governed(t1, c);
        }
        prev.ids.append(&mut child.ids);
        prev.ptrs.append(&mut child.ptrs);
        let ghost merged = prev@;
        proof {
            lemma_concat(
                t,
                left,
                right,
                merged,
                g,
                n.ids[slot - 1] as int,
                n.ids[slot as int] as int,
                upper(n.ids, slot as int, hi),
            );
        }
        let released = mgr.release(device, child.page_count);
        let ghost t2 = mgr.store(device);
        proof {
            assert(released is Ok);
            lemma_distinct(t, n, g, hi, slot as int, slot - 1);
            assert(untouched(t1, t2, sp));
        }
        prev.store(device, mgr);
        parent.remove(slot);
        proof {
            let u = mgr.store(device);
            let m = parent@;
            lemma_kept_trans(t, t1, t2, Set::empty(), set![c]);
            lemma_kept_trans(t, t2, u, Set::<u64>::empty().union(set![c]), set![sp]);
            assert(kept(t, u, set![c, sp])) by {
                assert forall|p: u64|
                    #![trigger untouched(t, u, p)]
                    !is_reserved(p) && page_used(t, p) && !set![c, sp].contains(p)
                    implies untouched(t, u, p) by {
                    assert(!Set::<u64>::empty().union(set![c]).union(set![sp]).contains(p));
                }
            }
            lemma_two_pages(t, n, h, g, lo, hi, slot as int, slot - 1);
            assert(m.ptrs[slot - 1] == sp);
            lemma_case_merge(t, u, n, m, h, g, lo, hi, slot - 1, merged, true, set![c, sp]);
            assert(m.ptrs[0] == n.ptrs[0]);
        }
    }

    /// Gives the child at `slot` the last entry of its left sibling, and
    /// makes that entry's key the child's key in the parent.
    fn borrow_left(
        parent: &mut BtreeNode,
        child: BtreeNode,
        prev: BtreeNode,
        slot: usize,
        device: &mut Device,
        mgr: &mut PageManage,
        Ghost(t): Ghost<Store>,
        Ghost(h): Ghost<nat>,
        Ghost(g): Ghost<nat>,
        Ghost(lo): Ghost<int>,
        Ghost(hi): Ghost<int>,
    )
        requires
            old(mgr).wf(old(device)),
            same_except(t, old(mgr).store(old(device)), Set::empty()),
            short_child(t, old(parent)@, child, h, g, lo, hi, slot as int),
            slot > 0,
            prev.page_count == old(parent).ptrs@[slot - 1],
            prev@ == node_at(t, old(parent).ptrs@[slot - 1]),
            prev@.ids.len() + child@.ids.len() > MAX_IDS,
        ensures
            final(mgr).wf(final(device)),
            final(mgr).capacity() == old(mgr).capacity(),
            final(device).limit() == old(device).limit(),
            final(parent).page_count == old(parent).page_count,
            settled(
                t,
                final(mgr).store(final(device)),
                old(parent)@,
                final(parent)@,
                h,
                lo,
                hi,
                old(parent).ptrs@[slot as int],
                old(parent).ptrs@[slot - 1],
            ),
            final(parent)@ == rekeyed(
                old(parent)@,
                slot as int,
                prev@.ids[prev@.ids.len() - 1],
            ),
            shifted(
                t,
                final(mgr).store(final(device)),
                old(parent).ptrs@[slot as int],
                old(parent).ptrs@[slot - 1],
                (NodeView {
                    node_type: child@.node_type,
                    ids: child@.ids.insert(0, prev@.ids[prev@.ids.len() - 1]),
                    ptrs: child@.ptrs.insert(0, prev@.ptrs[prev@.ids.len() - 1]),
                }),
                (NodeView {
                    node_type: prev@.node_type,
                    ids: prev@.ids.take(prev@.ids.len() - 1),
                    ptrs: prev@.ptrs.take(prev@.ids.len() - 1),
                }),
            ),
    {
        let ghost n = parent@;
        let ghost t1 = mgr.store(device);
        let ghost c = n.ptrs[slot as int];
        let ghost sp = n.ptrs[slot - 1];
        let ghost left = prev@;
        let ghost right = child@;
        let mut child = child;
        let mut prev = prev;
        proof {
            lemma_slot_bounds(n, slot as int, lo, hi);
            lemma_slot_bounds(n, slot - 1, lo, hi);
            assert(child_ok(t, c, g, n.ids[slot as int] as int, upper(n.ids, slot as int, hi)));
            assert(child_ok(t, sp, g, n.ids[slot - 1] as int, upper(n.ids, slot - 1, hi)));
            lemma_kept(t, t1, Set::empty());
            lemma_same_page(t, t1, c);
            lemma_same_page(t, t1, sp);
            lemma_distinct(t, n, g, hi, slot as int, slot - 1);
        }
        let keep: usize = prev.ids.len() - 1;
        let id: u64 = prev.ids[keep];
        let ptr: u64 = prev.ptrs[keep];
        prev.ids.truncate(keep);
        prev.ptrs.truncate(keep);
        child.insert(0, id, ptr);
        let ghost rest = prev@;
        let ghost grown = child@;
        proof {
            let last = NodeView {
                node_type: left.node_type,
                ids: left.ids.skip(keep as int),
                ptrs: left.ptrs.skip(keep as int),
            };
            assert(rest.ids =~= left.ids.take(keep as int));
            assert(rest.ptrs =~= left.ptrs.take(keep as int));
            lemma_split(
                t,
                left,
                rest,
                last,
                g,
                n.ids[slot - 1] as int,
                n.ids[slot as int] as int,
                keep as int,
            );
            assert(grown.ids =~= last.ids + right.ids);
            assert(grown.ptrs =~= last.ptrs + right.ptrs);
            lemma_concat(
                t,
                last,
                right,
                grown,
                g,
                id as int,
                n.ids[slot as int] as int,
                upper(n.ids, slot as int, hi),
            );
        }
        child.store(device, mgr);
        let ghost t2 = mgr.store(device);
        proof {
            assert(untouched(t1, t2, sp));
        }
        prev.store(device, mgr);
        parent.ids[slot] = id;
        proof {
            let u = mgr.store(device);
            let m = parent@;
            lemma_kept_trans(t, t1, t2, Set::empty(), set![c]);
            lemma_kept_trans(t, t2, u, Set::<u64>::empty().union(set![c]), set![sp]);
            assert(kept(t, u, set![c, sp])) by {
                assert forall|p: u64|
                    #![trigger untouched(t, u, p)]
                    !is_reserved(p) && page_used(t, p) && !set![c, sp].contains(p)
                    implies untouched(t, u, p) by {
                    assert(!Set::<u64>::empty().union(set![c]).union(set![sp]).contains(p));
                }
            }
            lemma_two_pages(t, n, h, g, lo, hi, slot as int, slot - 1);
            assert(m.ids =~= n.ids.update(slot - 1 + 1, id));
            lemma_case_shift(t, u, n, m, h, g, lo, hi, slot - 1, rest, grown, id, set![c, sp]);
        }
    }

    /// Merges the child at `slot` into its right sibling: the sibling takes
    /// the child's entries before its own, the child's page is released, and
    /// the parent keeps the child's key for the sibling's page.
    fn merge_right(
        parent: &mut BtreeNode,
        child: BtreeNode,
        next: BtreeNode,
        slot: usize,
        device: &mut Device,
        mgr: &mut PageManage,
        Ghost(t): Ghost<Store>,
        Ghost(h): Ghost<nat>,
        Ghost(g): Ghost<nat>,
        Ghost(lo): Ghost<int>,
        Ghost(hi): Ghost<int>,
    )
        requires
            old(mgr).wf(old(device)),
            same_except(t, old(mgr).store(old(device)), Set::empty()),
            short_child(t, old(parent)@, child, h, g, lo, hi, slot as int),
            slot == 0,
            slot + 1 < old(parent).ids@.len(),
            next.page_count == old(parent).ptrs@[slot + 1],
            next@ == node_at(t, old(parent).ptrs@[slot + 1]),
            next@.ids.len() + child@.ids.len() <= MAX_IDS,
        ensures
            final(mgr).wf(final(device)),
            final(mgr).capacity() == old(mgr).capacity(),
            final(device).limit() == old(device).limit(),
            final(parent).page_count == old(parent).page_count,
            settled(
                t,
                final(mgr).store(final(device)),
                old(parent)@,
                final(parent)@,
                h,
                lo,
                hi,
                old(parent).ptrs@[slot as int],
                old(parent).ptrs@[slot + 1],
            ),
            final(parent).ids@.len() == old(parent).ids@.len() - 1,
            final(parent).ptrs@.len() == old(parent).ptrs@.len() - 1,
            !page_used(final(mgr).store(final(device)), old(parent).ptrs@[slot as int]),
            page_used(final(mgr).store(final(device)), old(parent).ptrs@[slot + 1]),
            final(parent)@ == (NodeView {
                node_type: old(parent)@.node_type,
                ids: old(parent)@.ids.remove(slot + 1),
                ptrs: old(parent)@.ptrs.remove(slot as int),
            }),
            merged_into(
                t,
                final(mgr).store(final(device)),
                old(parent).ptrs@[slot as int],
                old(parent).ptrs@[slot + 1],
                joined(child@.node_type, child@, next@),
            ),
    {
        let ghost n = parent@;
        let ghost t1 = mgr.store(device);
        let ghost c = n.ptrs[slot as int];
        let ghost sp = n.ptrs[slot + 1];
        let ghost left = child@;
        let ghost right = next@;
        let mut child = child;
        let mut next = next;
        proof {
            lemma_slot_bounds(n, slot as int, lo, hi);
            lemma_slot_bounds(n, slot + 1, lo, hi);
            assert(child_ok(t, c, g, n.ids[slot as int] as int, upper(n.ids, slot as int, hi)));
            assert(child_ok(t, sp, g, n.ids[slot + 1] as int, upper(n.ids, slot + 1, hi)));
            lemma_kept(t, t1, Set::empty());
            lemma_same_page(t, t1, c);
            lemma_same_page(t, t1, sp);
            lemma_used_governed(t1, c);
            lemma_distinct(t, n, g, hi, slot as int, slot + 1);
        }
        let released = mgr.release(device, child.page_count);
        let ghost t2 = mgr.store(device);
        child.ids.append(&mut next.ids);
        child.ptrs.append(&mut next.ptrs);
        child.page_count = next.page_count;
        let ghost merged = child@;
        proof {
            assert(released is Ok);
            lemma_concat(
                t,
                left,
                right,
                merged,
                g,
                n.ids[slot as int] as int,
                n.ids[slot + 1] as int,
                upper(n.ids, slot + 1, hi),
            );
            assert(untouched(t1, t2, sp));
        }
        child.store(device, mgr);
        parent.ids.remove(slot + 1);
        parent.ptrs.remove(slot);
        proof {
            let u = mgr.store(device);
            let m = parent@;
            lemma_kept_trans(t, t1, t2, Set::empty(), set![c]);
            lemma_kept_trans(t, t2, u, Set::<u64>::empty().union(set![c]), set![sp]);
            assert(kept(t, u, set![c, sp])) by {
                assert forall|p: u64|
                    #![trigger untouched(t, u, p)]
                    !is_reserved(p) && page_used(t, p) && !set![c, sp].contains(p)
                    implies untouched(t, u, p) by {
                    assert(!Set::<u64>::empty().union(set![c]).union(set![sp]).contains(p));
                }
            }
            lemma_two_pages(t, n, h, g, lo, hi, slot as int, slot + 1);
            assert(m.ptrs[0] == sp);
            lemma_case_merge(t, u, n, m, h, g, lo, hi, slot as int, merged, false, set![c, sp]);
        }
    }

    /// Gives the child at `slot` the first entry of its right sibling, and
    /// makes the sibling's new first key its key in the parent.
    fn borrow_right(
        parent: &mut BtreeNode,
        child: BtreeNode,
        next: BtreeNode,
        slot: usize,
        device: &mut Device,
        mgr: &mut PageManage,
        Ghost(t): Ghost<Store>,
        Ghost(h): Ghost<nat>,
        Ghost(g): Ghost<nat>,
        Ghost(lo): Ghost<int>,
        Ghost(hi): Ghost<int>,
    )
        requires
            old(mgr).wf(old(device)),
            same_except(t, old(mgr).store(old(device)), Set::empty()),
            short_child(t, old(parent)@, child, h, g, lo, hi, slot as int),
            slot == 0,
            slot + 1 < old(parent).ids@.len(),
            next.page_count == old(parent).ptrs@[slot + 1],
            next@ == node_at(t, old(parent).ptrs@[slot + 1]),
            next@.ids.len() + child@.ids.len() > MAX_IDS,
        ensures
            final(mgr).wf(final(device)),
            final(mgr).capacity() == old(mgr).capacity(),
            final(device).limit() == old(device).limit(),
            final(parent).page_count == old(parent).page_count,
            settled(
                t,
                final(mgr).store(final(device)),
                old(parent)@,
                final(parent)@,
                h,
                lo,
                hi,
                old(parent).ptrs@[slot as int],
                old(parent).ptrs@[slot + 1],
            ),
            final(parent)@ == rekeyed(old(parent)@, slot + 1, next@.ids[1]),
            shifted(
                t,
                final(mgr).store(final(device)),
                old(parent).ptrs@[slot as int],
                old(parent).ptrs@[slot + 1],
                (NodeView {
                    node_type: child@.node_type,
                    ids: child@.ids.push(next@.ids[0]),
                    ptrs: child@.ptrs.push(next@.ptrs[0]),
                }),
                cut(next@, 0),
            ),
    {
        let ghost n = parent@;
        let ghost t1 = mgr.store(device);
        let ghost c = n.ptrs[slot as int];
        let ghost sp = n.ptrs[slot + 1];
        let ghost left = child@;
        let ghost right = next@;
        let mut child = child;
        let mut next = next;
        proof {
            lemma_slot_bounds(n, slot as int, lo, hi);
            lemma_slot_bounds(n, slot + 1, lo, hi);
            assert(child_ok(t, c, g, n.ids[slot as int] as int, upper(n.ids, slot as int, hi)));
            assert(child_ok(t, sp, g, n.ids[slot + 1] as int, upper(n.ids, slot + 1, hi)));
            lemma_kept(t, t1, Set::empty());
            lemma_same_page(t, t1, c);
            lemma_same_page(t, t1, sp);
            lemma_distinct(t, n, g, hi, slot as int, slot + 1);
        }
        let id: u64 = next.ids.remove(0);
        let ptr: u64 = next.ptrs.remove(0);
        child.push(id, ptr);
        let ghost rest = next@;
        let ghost grown = child@;
        let key: u64 = next.ids[0];
        proof {
            let first = NodeView {
                node_type: right.node_type,
                ids: right.ids.take(1),
                ptrs: right.ptrs.take(1),
            };
            assert(rest.ids =~= right.ids.skip(1));
            assert(rest.ptrs =~= right.ptrs.skip(1));
            lemma_split(
                t,
                right,
                first,
                rest,
                g,
                n.ids[slot + 1] as int,
                upper(n.ids, slot + 1, hi),
                1,
            );
            assert(grown.ids =~= left.ids + first.ids);
            assert(grown.ptrs =~= left.ptrs + first.ptrs);
            lemma_concat(
                t,
                left,
                first,
                grown,
                g,
                n.ids[slot as int] as int,
                n.ids[slot + 1] as int,
                key as int,
            );
        }
        child.store(device, mgr);
        let ghost t2 = mgr.store(device);
        proof {
            assert(untouched(t1, t2, sp));
        }
        next.store(device, mgr);
        parent.ids[slot + 1] = key;
        proof {
            let u = mgr.store(device);
            let m = parent@;
            lemma_kept_trans(t, t1, t2, Set::empty(), set![c]);
            lemma_kept_trans(t, t2, u, Set::<u64>::empty().union(set![c]), set![sp]);
            assert(kept(t, u, set![c, sp])) by {
                assert forall|p: u64|
                    #![trigger untouched(t, u, p)]
                    !is_reserved(p) && page_used(t, p) && !set![c, sp].contains(p)
                    implies untouched(t, u, p) by {
                    assert(!Set::<u64>::empty().union(set![c]).union(set![sp]).contains(p));
                }
            }
            lemma_two_pages(t, n, h, g, lo, hi, slot as int, slot + 1);
            assert(m.ids =~= n.ids.update(slot + 1, key));
            lemma_case_shift(t, u, n, m, h, g, lo, hi, slot as int, grown, rest, key, set![c, sp]);
        }
    }

    /// Removes the entry of key `id` from a leaf, if it has one.
    fn remove_leaf(
        node: &mut BtreeNode,
        device: &mut Device,
        mgr: &mut PageManage,
        id: u64,
        Ghost(lo): Ghost<int>,
        Ghost(hi): Ghost<int>,
    )
        requires
            old(mgr).wf(old(device)),
            node_ok(old(mgr).store(old(device)), old(node)@, 0, lo, hi),
            old(mgr).store(old(device)).contains_key(old(node).page_count),
            !is_reserved(old(node).page_count),
            page_used(old(mgr).store(old(device)), old(node).page_count),
            node_at(old(mgr).store(old(device)), old(node).page_count) == old(node)@,
        ensures
            final(mgr).wf(final(device)),
            final(mgr).capacity() == old(mgr).capacity(),
            final(device).limit() == old(device).limit(),
            final(node).page_count == old(node).page_count,
            removed(
                old(mgr).store(old(device)),
                final(mgr).store(final(device)),
                old(node)@,
                final(node)@,
                old(node).page_count,
                0,
                lo,
                hi,
                id,
            ),
            leaf_cut(old(node)@, final(node)@, id),
            same_except(
                old(mgr).store(old(device)),
                final(mgr).store(final(device)),
                set![old(node).page_count],
            ),
            forall|p: u64|
                #[trigger] page_used(final(mgr).store(final(device)), p) == page_used(
                    old(mgr).store(old(device)),
                    p,
                ),
    {
        let ghost s = mgr.store(device);
        let ghost n = node@;
        let mut i: usize = 0;
        let mut found: bool = false;
        while i < node.ids.len() && !found
            invariant
                n == node@,
                i <= n.ids.len(),
                forall|j: int| 0 <= j < i ==> n.ids[j] != id,
                found ==> i < n.ids.len() && n.ids[i as int] == id,
            decreases n.ids.len() - i + (if found { 0int } else { 1int }),
        {
            if node.ids[i] == id {
                found = true;
            } else {
                i += 1;
            }
        }
        if found {
            node.remove(i);
            proof {
                lemma_leaf_remove(s, n, node@, lo, hi, i as int);
                assert(n.ids[i as int] == id);
                assert(n.ids.contains(id));
                assert(node@ == cut(n, i as int));
            }
            node.store(device, mgr);
            proof {
                let t = mgr.store(device);
                assert(others_kept(s, t, node.page_count, 0, lo, hi));
            }
        } else {
            proof {
                assert forall|k: u64, v: u64|
                    node_has(s, n, 0, k, v) == (node_has(s, n, 0, k, v) && k != id) by {
                    if node_has(s, n, 0, k, v) && k == id {
                        let j = choose|j: int|
                            0 <= j < n.ids.len() && #[trigger] n.ids[j] == k && n.ptrs[j] == v;
                        assert(n.ids[j] != id);
                    }
                }
                assert(forall|p: u64| untouched(s, s, p) || !page_used(s, p));
                assert(!n.ids.contains(id));
            }
        }
    }

    /// Settles the child at `slot` after a removal below it: a child without
    /// entries loses its slot; a child with fewer than half the fanout is
    /// merged into its left sibling, or else its right, where the two fit
    /// into one node, and else takes one entry from that sibling. The pages
    /// of the child and the sibling are written; the parent changes in
    /// memory, and writing its page is left to the caller.
    pub fn mend(
        parent: &mut BtreeNode,
        child: BtreeNode,
        slot: usize,
        device: &mut Device,
        mgr: &mut PageManage,
        Ghost(h): Ghost<nat>,
        Ghost(g): Ghost<nat>,
        Ghost(lo): Ghost<int>,
        Ghost(hi): Ghost<int>,
    )
        requires
            old(mgr).wf(old(device)),
            loose_ok(old(mgr).store(old(device)), old(parent)@, h, g, lo, hi, slot as int),
            child.page_count == old(parent).ptrs@[slot as int],
            child@ == node_at(old(mgr).store(old(device)), old(parent).ptrs@[slot as int]),
        ensures
            final(mgr).wf(final(device)),
            final(mgr).capacity() == old(mgr).capacity(),
            final(device).limit() == old(device).limit(),
            final(parent).page_count == old(parent).page_count,
            exists|w: Set<u64>|
                mended(
                    old(mgr).store(old(device)),
                    final(mgr).store(final(device)),
                    old(parent)@,
                    final(parent)@,
                    h,
                    lo,
                    hi,
                    w,
                ),
            final(parent)@.ids.len() >= 1 ==> exists|j: int|
                0 <= j < old(parent)@.ptrs.len() && final(parent)@.ptrs[0] == old(
                    parent,
                )@.ptrs[j],
            mend_step(
                old(mgr).store(old(device)),
                final(mgr).store(final(device)),
                old(parent)@,
                final(parent)@,
                slot as int,
            ),
    {
        let ghost t = mgr.store(device);
        let ghost n = parent@;
        let ghost c = n.ptrs[slot as int];
        if child.is_empty() {
            parent.remove(slot);
            proof {
                let m = parent@;
                let w = Set::<u64>::empty();
                lemma_case_drop(t, t, n, m, h, g, lo, hi, slot as int, w);
                assert(mended(t, t, n, m, h, lo, hi, w));
                if m.ids.len() >= 1 {
                    assert(m.ptrs[0] == n.ptrs[if 0 < slot { 0int } else { 1int }]);
                }
            }
            return ;
        }
        proof {
            assert forall|i: int| 0 <= i < n.ids.len() implies child_ok(
                t,
                #[trigger] n.ptrs[i],
                g,
                n.ids[i] as int,
                upper(n.ids, i, hi),
            ) by {}
            assert(node_ok(t, n, h, lo, hi));
        }
        if child.len() < MAX_IDS / 2 {
            if slot > 0 {
                let prev = parent.load_child(device, mgr, slot - 1, Ghost(h), Ghost(lo), Ghost(hi));
                if prev.len() + child.len() <= MAX_IDS {
                    Self::merge_left(
                        parent,
                        child,
                        prev,
                        slot,
                        device,
                        mgr,
                        Ghost(t),
                        Ghost(h),
                        Ghost(g),
                        Ghost(lo),
                        Ghost(hi),
                    );
                } else {
                    Self::borrow_left(
                        parent,
                        child,
                        prev,
                        slot,
                        device,
                        mgr,
                        Ghost(t),
                        Ghost(h),
                        Ghost(g),
                        Ghost(lo),
                        Ghost(hi),
                    );
                }
                proof {
                    let u = mgr.store(device);
                    let w = set![c, n.ptrs[slot - 1]];
                    assert(n.ptrs[slot as int] == c);
                    assert(mended(t, u, n, parent@, h, lo, hi, w));
                }
                return ;
            } else if slot + 1 < parent.len() {
                let next = parent.load_child(device, mgr, slot + 1, Ghost(h), Ghost(lo), Ghost(hi));
                if next.len() + child.len() <= MAX_IDS {
                    Self::merge_right(
                        parent,
                        child,
                        next,
                        slot,
                        device,
                        mgr,
                        Ghost(t),
                        Ghost(h),
                        Ghost(g),
                        Ghost(lo),
                        Ghost(hi),
                    );
                } else {
                    Self::borrow_right(
                        parent,
                        child,
                        next,
                        slot,
                        device,
                        mgr,
                        Ghost(t),
                        Ghost(h),
                        Ghost(g),
                        Ghost(lo),
                        Ghost(hi),
                    );
                }
                proof {
                    let u = mgr.store(device);
                    let w = set![c, n.ptrs[slot + 1]];
                    assert(n.ptrs[slot as int] == c);
                    assert(mended(t, u, n, parent@, h, lo, hi, w));
                }
                return ;
            }
        }
        proof {
            let w = Set::<u64>::empty();
            assert(kept(t, t, w));
            assert(mended(t, t, n, n, h, lo, hi, w));
            assert(parent@.ptrs[0] == n.ptrs[0]);
        }
    }

    /// Removes key `id` from the subtree below `node`.
    fn remove_in(
        node: &mut BtreeNode,
        device: &mut Device,
        mgr: &mut PageManage,
        id: u64,
        Ghost(h): Ghost<nat>,
        Ghost(lo): Ghost<int>,
        Ghost(hi): Ghost<int>,
    )
        requires
            old(mgr).wf(old(device)),
            node_ok(old(mgr).store(old(device)), old(node)@, h, lo, hi),
            old(mgr).store(old(device)).contains_key(old(node).page_count),
            !is_reserved(old(node).page_count),
            page_used(old(mgr).store(old(device)), old(node).page_count),
            node_at(old(mgr).store(old(device)), old(node).page_count) == old(node)@,
        ensures
            final(mgr).wf(final(device)),
            final(mgr).capacity() == old(mgr).capacity(),
            final(device).limit() == old(device).limit(),
            final(node).page_count == old(node).page_count,
            removed(
                old(mgr).store(old(device)),
                final(mgr).store(final(device)),
                old(node)@,
                final(node)@,
                old(node).page_count,
                h,
                lo,
                hi,
                id,
            ),
            removal_step(
                old(mgr).store(old(device)),
                final(mgr).store(final(device)),
                old(node)@,
                final(node)@,
                old(node).page_count,
                id,
            ),
        decreases h,
    {
        if !node.is_internal() {
            Self::remove_leaf(node, device, mgr, id, Ghost(lo), Ghost(hi));
            return ;
        }
        let ghost s = mgr.store(device);
        let ghost n = node@;
        let ghost pc = node.page_count;
        let ghost g = (h - 1) as nat;
        let slot = node.select(id);
        let ghost c = n.ptrs[slot as int];
        let ghost clo = n.ids[slot as int] as int;
        let ghost chi = upper(n.ids, slot as int, hi);
        let mut child = node.load_child(device, mgr, slot, Ghost(h), Ghost(lo), Ghost(hi));
        let ghost t1 = mgr.store(device);
        let ghost child_before = child@;
        proof {
            assert(child_ok(s, c, g, clo, chi));
            lemma_same_page(s, t1, c);
            lemma_grown(s, t1, child@, g, clo, chi);
        }
        Self::remove_in(&mut child, device, mgr, id, Ghost(g), Ghost(clo), Ghost(chi));
        let ghost t2 = mgr.store(device);
        proof {
            lemma_after_removal(s, t1, t2, n, pc, h, g, lo, hi, slot as int, id, child_before, child@);
        }
        Self::mend(node, child, slot, device, mgr, Ghost(h), Ghost(g), Ghost(lo), Ghost(hi));
        let ghost u1 = mgr.store(device);
        let ghost m = node@;
        let ghost w = choose|w: Set<u64>| mended(t2, u1, n, m, h, lo, hi, w);
        proof {
            assert(mended(t2, u1, n, m, h, lo, hi, w));
            assert(!w.contains(pc));
            assert(untouched(t2, u1, pc));
            assert(node_at(u1, pc) == n);
            if m.ids.len() >= 1 {
                let j = choose|j: int| 0 <= j < n.ptrs.len() && m.ptrs[0] == n.ptrs[j];
                assert(child_ok(u1, m.ptrs[0], g, m.ids[0] as int, upper(m.ids, 0, hi)));
                lemma_not_below_any(u1, pc, g, j, m.ids[0] as int, upper(m.ids, 0, hi), lo, hi);
            }
        }
        node.store(device, mgr);
        proof {
            let u = mgr.store(device);
            assert(descended(s, t2, u1, u, n, m, m, pc, slot as int, id)) by {
                lemma_kept(s, t1, Set::empty());
                if child_before.node_type != PAGE_TYPEID_BTREE_INTERNAL {
                    lemma_same_trans(s, t1, t2, Set::empty(), set![c]);
                    assert(Set::<u64>::empty().union(set![c]) =~= set![c]);
                }
            }
        }
        proof {
            let u = mgr.store(device);
            if m.ids.len() >= 1 {
                assert(none_below(u1, set![pc], h, lo, hi));
                lemma_kept_node(u1, u, m, h, lo, hi, set![pc], lo, hi);
            } else {
                assert forall|k: u64, v: u64| node_has(u, m, h, k, v) == node_has(
                    u1,
                    m,
                    h,
                    k,
                    v,
                ) by {}
            }
            assert forall|p: u64|
                #![trigger untouched(s, u, p)]
                !is_reserved(p) && page_used(s, p) && p != pc && !may_hold(s, p, h, lo, hi)
                implies untouched(s, u, p) by {
                if may_hold(s, p, g, clo, chi) {
                    lemma_slot_bounds(n, slot as int, lo, hi);
                    lemma_may_hold(s, p, g, clo, chi, h, lo, hi);
                }
                assert(p != c);
                assert(untouched(s, t2, p));
                if w.contains(p) {
                    let i = choose|i: int| 0 <= i < n.ptrs.len() && n.ptrs[i] == p;
                    assert(may_hold(s, n.ptrs[i], h, lo, hi));
                }
                assert(untouched(t2, u1, p));
                assert(untouched(u1, u, p));
            }
        }
    }

    /// Removes key `id`, if it is stored. On the way back from the leaf, a
    /// child that was left without entries loses its slot in its parent; a
    /// child with fewer than half the fanout is merged into its left sibling,
    /// or else its right, where the two fit into one node, releasing the
    /// child's page, and else takes one entry from that sibling. A root that
    /// is left without children becomes an empty leaf. A removal takes no
    /// page.
    pub fn remove_id(&mut self, device: &mut Device, mgr: &mut PageManage, id: u64)
        requires
            old(mgr).wf(old(device)),
            old(self).is_tree(old(mgr).store(old(device))),
        ensures
            final(mgr).wf(final(device)),
            final(mgr).capacity() == old(mgr).capacity(),
            final(device).limit() == old(device).limit(),
            final(self).page_count == old(self).page_count,
            final(self).is_tree(final(mgr).store(final(device))),
            final(self).entries(final(mgr).store(final(device))) == old(self).entries(
                old(mgr).store(old(device)),
            ).remove(id),
            outside_kept(old(mgr).store(old(device)), final(mgr).store(final(device))),
            used_kept(final(mgr).store(final(device)), old(mgr).store(old(device))),
            removal_step(
                old(mgr).store(old(device)),
                final(mgr).store(final(device)),
                old(self)@,
                final(self)@,
                old(self).page_count,
                id,
            ),
    {
        let ghost s = mgr.store(device);
        let ghost h = self.height(s);
        let ghost n = self@;
        let ghost pc = self.page_count;
        proof {
            self.lemma_entries(s, h);
            n.lemma_round_trip();
        }
        Self::remove_in(self, device, mgr, id, Ghost(h), Ghost(0), Ghost(key_end()));
        let ghost t = mgr.store(device);
        let ghost m = self@;
        proof {
            lemma_outside_kept(s, t, pc, h, 0, key_end());
        }
        if self.is_internal() && self.is_empty() {
            self.node_type = PAGE_TYPEID_BTREE_LEAF;
            self.store(device, mgr);
            proof {
                let u = mgr.store(device);
                let (t2, u1, m1, slot) = choose|t2: Store, u1: Store, m1: NodeView, slot: int|
                    #[trigger] descended(s, t2, u1, t, n, m1, m, pc, slot, id);
                assert(m1 == m);
                lemma_same_trans(u1, t, u, set![pc], set![pc]);
                assert(set![pc].union(set![pc]) =~= set![pc]);
                assert(self@.ids =~= Seq::<u64>::empty());
                assert(self@.ptrs =~= Seq::<u64>::empty());
                assert(descended(s, t2, u1, u, n, m, self@, pc, slot, id));
            }
            proof {
                let u = mgr.store(device);
                assert(self.tree_at(u, 0));
                assert forall|k: u64, v: u64|
                    node_has(u, self@, 0, k, v) == (node_has(s, n, h, k, v) && k != id) by {
                    assert(!node_has(t, m, h, k, v));
                }
                lemma_entries_remove(*old(self), s, h, *self, u, 0, id);
                self.lemma_entries(u, 0);
                assert forall|p: u64|
                    #![trigger untouched(s, u, p)]
                    !is_reserved(p) && page_used(s, p) && !is_node_image(
                        image(s, p),
                    ) implies untouched(s, u, p) by {
                    assert(untouched(s, t, p));
                    assert(untouched(t, u, p));
                }
            }
        } else {
            proof {
                assert(self.tree_at(t, h));
                lemma_entries_remove(*old(self), s, h, *self, t, h, id);
                self.lemma_entries(t, h);
            }
        }
    }
}

/// The contents of a tree after a removal, told from what its root stores.
pub proof fn lemma_entries_remove(
    before: BtreeNode,
    s: Store,
    h: nat,
    after: BtreeNode,
    t: Store,
    g: nat,
    id: u64,
)
    requires
        before.tree_at(s, h),
        after.tree_at(t, g),
        forall|k: u64, v: u64|
            node_has(t, after@, g, k, v) == (node_has(s, before@, h, k, v) && k != id),
    ensures
        after.entries(t) == before.entries(s).remove(id),
{
    before.lemma_entries(s, h);
    after.lemma_entries(t, g);
    let a = after.entries(t);
    let b = before.entries(s).remove(id);
    assert forall|k: u64| a.contains_key(k) implies b.contains_key(k) && b[k] == a[k] by {
        let v = a[k];
        assert(node_has(t, after@, g, k, v));
        assert(node_has(s, before@, h, k, v));
    }
    assert forall|k: u64| b.contains_key(k) implies a.contains_key(k) by {
        let v = before.entries(s)[k];
        assert(node_has(s, before@, h, k, v));
        assert(node_has(t, after@, g, k, v));
    }
    assert(a =~= b);
}

} // verus!
