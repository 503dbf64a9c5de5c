//! How a B-tree stays in order where a removal has left a child short of
//! entries: the child is dropped, merged into a sibling, or given an entry of
//! a sibling's.

use vstd::prelude::*;
use crate::bitmap::lemma_zero_page_bits;
use crate::btree::{MAX_IDS, NodeView};
use crate::manage::{governing, is_reserved, kept, page_used, slot_of, untouched, Store};
use crate::page::PAGE_TYPEID_BTREE_INTERNAL;
use crate::tree::{
    child_ok, lemma_child_widen, lemma_frame, lemma_height, lemma_may_hold, may_hold, node_at,
    node_body, node_has, node_ok, sorted, subtree_kept, upper,
};

verus! {

/// What holds of an internal node after a removal below the child at `slot`
/// and before the node is brought in order again: every other child is the
/// subtree that it was, and the child at `slot` is either left without an
/// entry or still a subtree within its range.
pub open spec fn loose_ok(t: Store, n: NodeView, h: nat, g: nat, lo: int, hi: int, slot: int) -> bool {
    &&& h > 0
    &&& g == h - 1
    &&& n.ids.len() == n.ptrs.len()
    &&& 1 <= n.ids.len() <= MAX_IDS
    &&& n.node_type == PAGE_TYPEID_BTREE_INTERNAL
    &&& sorted(n.ids)
    &&& forall|i: int| 0 <= i < n.ids.len() ==> lo <= #[trigger] n.ids[i] < hi
    &&& 0 <= slot < n.ids.len()
    &&& forall|i: int|
        0 <= i < n.ids.len() && i != slot ==> child_ok(
            t,
            #[trigger] n.ptrs[i],
            g,
            n.ids[i] as int,
            upper(n.ids, i, hi),
        )
    &&& t.contains_key(n.ptrs[slot])
    &&& !is_reserved(n.ptrs[slot])
    &&& page_used(t, n.ptrs[slot])
    &&& node_at(t, n.ptrs[slot]).ids.len() == 0 || node_ok(
        t,
        node_at(t, n.ptrs[slot]),
        g,
        n.ids[slot] as int,
        upper(n.ids, slot, hi),
    )
}

/// No page of `w` could stand in a subtree below height `g` with keys in
/// `lo..hi`.
pub open spec fn none_below(t: Store, w: Set<u64>, g: nat, lo: int, hi: int) -> bool {
    g > 0 ==> forall|p: u64| #[trigger] w.contains(p) ==> !may_hold(t, p, (g - 1) as nat, lo, hi)
}

/// A node whose subtrees lie outside the written pages is the same node
/// afterwards.
pub proof fn lemma_kept_node(
    t: Store,
    u: Store,
    n: NodeView,
    g: nat,
    a: int,
    b: int,
    w: Set<u64>,
    lo: int,
    hi: int,
)
    requires
        node_body(t, n, g, a, b),
        kept(t, u, w),
        none_below(t, w, g, lo, hi),
        lo <= a,
        b <= hi,
    ensures
        node_body(u, n, g, a, b),
        forall|k: u64, v: u64| node_has(u, n, g, k, v) == node_has(t, n, g, k, v),
{
    if g > 0 {
        assert forall|p: u64|
            #![trigger untouched(t, u, p)]
            !is_reserved(p) && page_used(t, p) && may_hold(t, p, (g - 1) as nat, a, b)
            implies untouched(t, u, p) by {
            lemma_may_hold(t, p, (g - 1) as nat, a, b, (g - 1) as nat, lo, hi);
            assert(!w.contains(p));
        }
        assert(subtree_kept(t, u, (g - 1) as nat, a, b));
    }
    lemma_frame(t, u, n, g, a, b);
}

/// A subtree on a page that is not written, whose subtrees lie outside the
/// written pages, is the same subtree afterwards.
pub proof fn lemma_kept_child(
    t: Store,
    u: Store,
    c: u64,
    g: nat,
    a: int,
    b: int,
    w: Set<u64>,
    lo: int,
    hi: int,
)
    requires
        child_ok(t, c, g, a, b),
        kept(t, u, w),
        !w.contains(c),
        none_below(t, w, g, lo, hi),
        lo <= a,
        b <= hi,
    ensures
        child_ok(u, c, g, a, b),
        node_at(u, c) == node_at(t, c),
        forall|k: u64, v: u64|
            node_has(u, node_at(u, c), g, k, v) == node_has(t, node_at(t, c), g, k, v),
{
    assert(untouched(t, u, c));
    lemma_kept_node(t, u, node_at(t, c), g, a, b, w, lo, hi);
}

/// The bounds of the keys below a slot lie within the bounds of the node.
pub proof fn lemma_slot_bounds(n: NodeView, i: int, lo: int, hi: int)
    requires
        sorted(n.ids),
        forall|j: int| 0 <= j < n.ids.len() ==> lo <= #[trigger] n.ids[j] < hi,
        0 <= i < n.ids.len(),
    ensures
        lo <= n.ids[i],
        n.ids[i] < upper(n.ids, i, hi) <= hi,
{
    assert(lo <= n.ids[i] < hi);
    if i + 1 < n.ids.len() {
        assert(n.ids[i] < n.ids[i + 1]);
        assert(n.ids[i + 1] < hi);
    }
}

/// The node is in order again after the slot of a child without entries was
/// taken out, unless it is then without entries itself; it stores what it
/// stored.
pub proof fn lemma_case_drop(
    t: Store,
    u: Store,
    n: NodeView,
    m: NodeView,
    h: nat,
    g: nat,
    lo: int,
    hi: int,
    slot: int,
    w: Set<u64>,
)
    requires
        loose_ok(t, n, h, g, lo, hi, slot),
        node_at(t, n.ptrs[slot]).ids.len() == 0,
        m.node_type == n.node_type,
        m.ids == n.ids.remove(slot),
        m.ptrs == n.ptrs.remove(slot),
        kept(t, u, w),
        none_below(t, w, g, lo, hi),
        forall|i: int| 0 <= i < n.ids.len() && i != slot ==> !w.contains(#[trigger] n.ptrs[i]),
    ensures
        m.ids.len() >= 1 ==> node_body(u, m, h, lo, hi),
        forall|k: u64, v: u64| node_has(u, m, h, k, v) == node_has(t, n, h, k, v),
{
    assert forall|i: int| 0 <= i < m.ids.len() implies #[trigger] m.ids[i] == (if i < slot {
        n.ids[i]
    } else {
        n.ids[i + 1]
    }) && m.ptrs[i] == (if i < slot {
        n.ptrs[i]
    } else {
        n.ptrs[i + 1]
    }) by {}
    assert forall|i: int| 0 <= i < n.ids.len() && i != slot implies child_ok(
        u,
        #[trigger] n.ptrs[i],
        g,
        n.ids[i] as int,
        upper(n.ids, i, hi),
    ) && (forall|k: u64, v: u64|
        node_has(u, node_at(u, n.ptrs[i]), g, k, v) == node_has(t, node_at(t, n.ptrs[i]), g, k, v))
    by {
        lemma_slot_bounds(n, i, lo, hi);
        lemma_kept_child(t, u, n.ptrs[i], g, n.ids[i] as int, upper(n.ids, i, hi), w, lo, hi);
    }
    if m.ids.len() >= 1 {
        assert forall|i: int, j: int| 0 <= i < j < m.ids.len() implies m.ids[i] < m.ids[j] by {
            let a = if i < slot { i } else { i + 1 };
            let b = if j < slot { j } else { j + 1 };
            assert(n.ids[a] < n.ids[b]);
        }
        assert forall|i: int| 0 <= i < m.ids.len() implies lo <= #[trigger] m.ids[i] < hi by {
            let a = if i < slot { i } else { i + 1 };
            assert(lo <= n.ids[a] < hi);
        }
        assert forall|i: int| 0 <= i < m.ids.len() implies child_ok(
            u,
            #[trigger] m.ptrs[i],
            g,
            m.ids[i] as int,
            upper(m.ids, i, hi),
        ) by {
            let a = if i < slot { i } else { i + 1 };
            assert(child_ok(u, n.ptrs[a], g, n.ids[a] as int, upper(n.ids, a, hi)));
            if i + 1 == slot {
                lemma_slot_bounds(n, slot, lo, hi);
                lemma_child_widen(
                    u,
                    n.ptrs[a],
                    g,
                    n.ids[a] as int,
                    upper(n.ids, a, hi),
                    n.ids[a] as int,
                    upper(m.ids, i, hi),
                );
            }
        }
    }
    assert forall|k: u64, v: u64| node_has(u, m, h, k, v) == node_has(t, n, h, k, v) by {
        if node_has(t, n, h, k, v) {
            let i = choose|i: int|
                0 <= i < n.ids.len() && node_has(t, node_at(t, #[trigger] n.ptrs[i]), g, k, v);
            assert(i != slot);
            let j = if i < slot { i } else { i - 1 };
            assert(m.ptrs[j] == n.ptrs[i]);
            assert(node_has(u, node_at(u, m.ptrs[j]), g, k, v));
        }
        if node_has(u, m, h, k, v) {
            let j = choose|j: int|
                0 <= j < m.ids.len() && node_has(u, node_at(u, #[trigger] m.ptrs[j]), g, k, v);
            let i = if j < slot { j } else { j + 1 };
            assert(m.ptrs[j] == n.ptrs[i]);
            assert(node_has(t, node_at(t, n.ptrs[i]), g, k, v));
        }
    }
}

/// The node is in order again after the nodes at two neighbouring slots
/// were rewritten with the same entries between them, divided anew at a key
/// that has become the second slot's key; it stores what it stored.
pub proof fn lemma_case_shift(
    t: Store,
    u: Store,
    n: NodeView,
    m: NodeView,
    h: nat,
    g: nat,
    lo: int,
    hi: int,
    p: int,
    a2: NodeView,
    b2: NodeView,
    key: u64,
    w: Set<u64>,
)
    requires
        h > 0,
        g == h - 1,
        node_ok(t, n, h, lo, hi),
        0 <= p,
        p + 1 < n.ids.len(),
        node_ok(t, a2, g, n.ids[p] as int, key as int),
        node_ok(t, b2, g, key as int, upper(n.ids, p + 1, hi)),
        a2.ids.len() >= 1,
        b2.ids.len() >= 1,
        forall|k: u64, v: u64|
            (node_has(t, a2, g, k, v) || node_has(t, b2, g, k, v)) == (node_has(
                t,
                node_at(t, n.ptrs[p]),
                g,
                k,
                v,
            ) || node_has(t, node_at(t, n.ptrs[p + 1]), g, k, v)),
        m.node_type == n.node_type,
        m.ids == n.ids.update(p + 1, key),
        m.ptrs == n.ptrs,
        kept(t, u, w),
        none_below(t, w, g, lo, hi),
        forall|i: int|
            0 <= i < n.ids.len() && i != p && i != p + 1 ==> !w.contains(#[trigger] n.ptrs[i]),
        u.contains_key(n.ptrs[p]),
        page_used(u, n.ptrs[p]),
        node_at(u, n.ptrs[p]) == a2,
        u.contains_key(n.ptrs[p + 1]),
        page_used(u, n.ptrs[p + 1]),
        node_at(u, n.ptrs[p + 1]) == b2,
    ensures
        node_ok(u, m, h, lo, hi),
        forall|k: u64, v: u64| node_has(u, m, h, k, v) == node_has(t, n, h, k, v),
{
    lemma_slot_bounds(n, p, lo, hi);
    lemma_slot_bounds(n, p + 1, lo, hi);
    assert(a2.ids[0] >= n.ids[p] && a2.ids[0] < key);
    assert(b2.ids[0] >= key && b2.ids[0] < upper(n.ids, p + 1, hi));
    assert forall|i: int| 0 <= i < n.ids.len() && i != p && i != p + 1 implies child_ok(
        u,
        #[trigger] n.ptrs[i],
        g,
        n.ids[i] as int,
        upper(n.ids, i, hi),
    ) && (forall|k: u64, v: u64|
        node_has(u, node_at(u, n.ptrs[i]), g, k, v) == node_has(t, node_at(t, n.ptrs[i]), g, k, v))
    by {
        lemma_slot_bounds(n, i, lo, hi);
        assert(child_ok(t, n.ptrs[i], g, n.ids[i] as int, upper(n.ids, i, hi)));
        lemma_kept_child(t, u, n.ptrs[i], g, n.ids[i] as int, upper(n.ids, i, hi), w, lo, hi);
    }
    lemma_kept_node(t, u, a2, g, n.ids[p] as int, key as int, w, lo, hi);
    lemma_kept_node(t, u, b2, g, key as int, upper(n.ids, p + 1, hi), w, lo, hi);
    assert(child_ok(t, n.ptrs[p], g, n.ids[p] as int, upper(n.ids, p, hi)));
    assert(child_ok(t, n.ptrs[p + 1], g, n.ids[p + 1] as int, upper(n.ids, p + 1, hi)));
    assert forall|i: int, j: int| 0 <= i < j < m.ids.len() implies m.ids[i] < m.ids[j] by {
        assert(n.ids[i] < n.ids[j]);
        if i == p + 1 {
            assert(j == p + 2 || n.ids[p + 2] < n.ids[j]);
        }
        if j == p + 1 {
            assert(i == p || n.ids[i] < n.ids[p]);
        }
    }
    assert forall|i: int| 0 <= i < m.ids.len() implies lo <= #[trigger] m.ids[i] < hi by {
        assert(lo <= n.ids[i] < hi);
    }
    assert forall|i: int| 0 <= i < m.ids.len() implies child_ok(
        u,
        #[trigger] m.ptrs[i],
        g,
        m.ids[i] as int,
        upper(m.ids, i, hi),
    ) by {
        if i != p && i != p + 1 {
            assert(child_ok(u, n.ptrs[i], g, n.ids[i] as int, upper(n.ids, i, hi)));
        }
    }
    assert forall|k: u64, v: u64| node_has(u, m, h, k, v) == node_has(t, n, h, k, v) by {
        if node_has(t, n, h, k, v) {
            let i = choose|i: int|
                0 <= i < n.ids.len() && node_has(t, node_at(t, #[trigger] n.ptrs[i]), g, k, v);
            if i != p && i != p + 1 {
                assert(node_has(u, node_at(u, m.ptrs[i]), g, k, v));
            } else {
                assert(node_has(t, a2, g, k, v) || node_has(t, b2, g, k, v));
                if node_has(t, a2, g, k, v) {
                    assert(node_has(u, node_at(u, m.ptrs[p]), g, k, v));
                } else {
                    assert(node_has(u, node_at(u, m.ptrs[p + 1]), g, k, v));
                }
            }
        }
        if node_has(u, m, h, k, v) {
            let i = choose|i: int|
                0 <= i < m.ids.len() && node_has(u, node_at(u, #[trigger] m.ptrs[i]), g, k, v);
            if i != p && i != p + 1 {
                assert(node_has(t, node_at(t, n.ptrs[i]), g, k, v));
            } else {
                assert(node_has(t, a2, g, k, v) || node_has(t, b2, g, k, v));
                if node_has(t, node_at(t, n.ptrs[p]), g, k, v) {
                } else {
                    assert(node_has(t, node_at(t, n.ptrs[p + 1]), g, k, v));
                }
            }
        }
    }
}

/// The node is in order again after the nodes at two neighbouring slots were
/// merged into one, written to the page of either, under the key of the
/// first; it stores what it stored.
pub proof fn lemma_case_merge(
    t: Store,
    u: Store,
    n: NodeView,
    m: NodeView,
    h: nat,
    g: nat,
    lo: int,
    hi: int,
    p: int,
    merged: NodeView,
    into_first: bool,
    w: Set<u64>,
)
    requires
        h > 0,
        g == h - 1,
        node_ok(t, n, h, lo, hi),
        0 <= p,
        p + 1 < n.ids.len(),
        node_ok(t, merged, g, n.ids[p] as int, upper(n.ids, p + 1, hi)),
        merged.ids.len() >= 1,
        forall|k: u64, v: u64|
            node_has(t, merged, g, k, v) == (node_has(t, node_at(t, n.ptrs[p]), g, k, v)
                || node_has(t, node_at(t, n.ptrs[p + 1]), g, k, v)),
        m.node_type == n.node_type,
        m.ids == n.ids.remove(p + 1),
        m.ptrs == (if into_first {
            n.ptrs.remove(p + 1)
        } else {
            n.ptrs.remove(p)
        }),
        kept(t, u, w),
        none_below(t, w, g, lo, hi),
        forall|i: int|
            0 <= i < n.ids.len() && i != p && i != p + 1 ==> !w.contains(#[trigger] n.ptrs[i]),
        u.contains_key(m.ptrs[p]),
        page_used(u, m.ptrs[p]),
        node_at(u, m.ptrs[p]) == merged,
    ensures
        node_ok(u, m, h, lo, hi),
        forall|k: u64, v: u64| node_has(u, m, h, k, v) == node_has(t, n, h, k, v),
{
    lemma_slot_bounds(n, p, lo, hi);
    lemma_slot_bounds(n, p + 1, lo, hi);
    assert(child_ok(t, n.ptrs[p], g, n.ids[p] as int, upper(n.ids, p, hi)));
    assert(child_ok(t, n.ptrs[p + 1], g, n.ids[p + 1] as int, upper(n.ids, p + 1, hi)));
    assert(!is_reserved(m.ptrs[p]));
    assert forall|i: int| 0 <= i < m.ids.len() implies #[trigger] m.ids[i] == (if i <= p {
        n.ids[i]
    } else {
        n.ids[i + 1]
    }) by {}
    assert forall|i: int| 0 <= i < m.ptrs.len() && i != p implies #[trigger] m.ptrs[i] == (if i
        < p {
        n.ptrs[i]
    } else {
        n.ptrs[i + 1]
    }) by {}
    assert forall|i: int| 0 <= i < n.ids.len() && i != p && i != p + 1 implies child_ok(
        u,
        #[trigger] n.ptrs[i],
        g,
        n.ids[i] as int,
        upper(n.ids, i, hi),
    ) && (forall|k: u64, v: u64|
        node_has(u, node_at(u, n.ptrs[i]), g, k, v) == node_has(t, node_at(t, n.ptrs[i]), g, k, v))
    by {
        lemma_slot_bounds(n, i, lo, hi);
        assert(child_ok(t, n.ptrs[i], g, n.ids[i] as int, upper(n.ids, i, hi)));
        lemma_kept_child(t, u, n.ptrs[i], g, n.ids[i] as int, upper(n.ids, i, hi), w, lo, hi);
    }
    lemma_kept_node(t, u, merged, g, n.ids[p] as int, upper(n.ids, p + 1, hi), w, lo, hi);
    assert forall|i: int, j: int| 0 <= i < j < m.ids.len() implies m.ids[i] < m.ids[j] by {
        let a = if i <= p { i } else { i + 1 };
        let b = if j <= p { j } else { j + 1 };
        assert(n.ids[a] < n.ids[b]);
    }
    assert forall|i: int| 0 <= i < m.ids.len() implies lo <= #[trigger] m.ids[i] < hi by {
        let a = if i <= p { i } else { i + 1 };
        assert(lo <= n.ids[a] < hi);
    }
    assert forall|i: int| 0 <= i < m.ids.len() implies child_ok(
        u,
        #[trigger] m.ptrs[i],
        g,
        m.ids[i] as int,
        upper(m.ids, i, hi),
    ) by {
        if i < p {
            assert(child_ok(u, n.ptrs[i], g, n.ids[i] as int, upper(n.ids, i, hi)));
        } else if i > p {
            assert(child_ok(u, n.ptrs[i + 1], g, n.ids[i + 1] as int, upper(n.ids, i + 1, hi)));
        } else {
            assert(upper(m.ids, p, hi) == upper(n.ids, p + 1, hi));
        }
    }
    assert forall|k: u64, v: u64| node_has(u, m, h, k, v) == node_has(t, n, h, k, v) by {
        if node_has(t, n, h, k, v) {
            let i = choose|i: int|
                0 <= i < n.ids.len() && node_has(t, node_at(t, #[trigger] n.ptrs[i]), g, k, v);
            if i < p {
                assert(node_has(u, node_at(u, m.ptrs[i]), g, k, v));
            } else if i > p + 1 {
                assert(m.ptrs[i - 1] == n.ptrs[i]);
                assert(node_has(u, node_at(u, m.ptrs[i - 1]), g, k, v));
            } else {
                assert(node_has(t, merged, g, k, v));
                assert(node_has(u, node_at(u, m.ptrs[p]), g, k, v));
            }
        }
        if node_has(u, m, h, k, v) {
            let i = choose|i: int|
                0 <= i < m.ids.len() && node_has(u, node_at(u, #[trigger] m.ptrs[i]), g, k, v);
            if i < p {
                assert(node_has(t, node_at(t, n.ptrs[i]), g, k, v));
            } else if i > p {
                assert(node_has(t, node_at(t, n.ptrs[i + 1]), g, k, v));
            } else {
                assert(node_has(t, merged, g, k, v));
                if node_has(t, node_at(t, n.ptrs[p]), g, k, v) {
                } else {
                    assert(node_has(t, node_at(t, n.ptrs[p + 1]), g, k, v));
                }
            }
        }
    }
}

/// The bitmap page that governs an allocated page exists.
pub proof fn lemma_used_governed(s: Store, c: u64)
    requires
        !is_reserved(c),
        page_used(s, c),
    ensures
        s.contains_key(governing(c)),
{
    if !s.contains_key(governing(c)) {
        lemma_zero_page_bits(slot_of(c));
    }
}

/// Two children of a node that both have entries lie on different pages.
pub proof fn lemma_distinct(t: Store, n: NodeView, g: nat, hi: int, i: int, j: int)
    requires
        sorted(n.ids),
        0 <= i < n.ids.len(),
        0 <= j < n.ids.len(),
        i != j,
        child_ok(t, n.ptrs[i], g, n.ids[i] as int, upper(n.ids, i, hi)),
        child_ok(t, n.ptrs[j], g, n.ids[j] as int, upper(n.ids, j, hi)),
    ensures
        n.ptrs[i] != n.ptrs[j],
{
    if n.ptrs[i] == n.ptrs[j] {
        let first = node_at(t, n.ptrs[i]).ids[0];
        assert(n.ids[i] <= first < upper(n.ids, i, hi));
        assert(n.ids[j] <= first < upper(n.ids, j, hi));
        if i < j {
            assert(i + 1 == j || n.ids[i + 1] < n.ids[j]);
        } else {
            assert(j + 1 == i || n.ids[j + 1] < n.ids[i]);
        }
    }
}

/// A page that holds an internal node with a child that is a subtree of
/// height `g`, or with a child without entries, could not stand in a subtree
/// of height `g` or lower.
pub proof fn lemma_not_below_any(
    t: Store,
    q: u64,
    g: nat,
    j: int,
    a: int,
    b: int,
    lo: int,
    hi: int,
)
    requires
        node_at(t, q).node_type == PAGE_TYPEID_BTREE_INTERNAL,
        0 <= j < node_at(t, q).ids.len(),
        node_at(t, q).ids.len() == node_at(t, q).ptrs.len(),
        child_ok(t, node_at(t, q).ptrs[j], g, a, b) || node_at(
            t,
            node_at(t, q).ptrs[j],
        ).ids.len() == 0,
    ensures
        !may_hold(t, q, g, lo, hi),
{
    if may_hold(t, q, g, lo, hi) {
        let n = node_at(t, q);
        let f = choose|f: nat| f <= g && #[trigger] node_body(t, n, f, lo, hi);
        assert(f > 0);
        assert(child_ok(t, n.ptrs[j], (f - 1) as nat, n.ids[j] as int, upper(n.ids, j, hi)));
        if node_at(t, n.ptrs[j]).ids.len() > 0 {
            lemma_height(
                t,
                node_at(t, n.ptrs[j]),
                g,
                a,
                b,
                (f - 1) as nat,
                n.ids[j] as int,
                upper(n.ids, j, hi),
            );
        }
    }
}

} // verus!
