//! What it means for the pages of a store to hold a B-tree, and what the tree
//! then contains.
//!
//! A tree is described from a node downwards: by the node itself, the height
//! of the node above the leaves, and the half-open range of keys that the
//! subtree may hold. The contents of a tree are the pairs of key and value
//! in its leaves.

use vstd::prelude::*;
use crate::btree::{MAX_IDS, NodeView};
use crate::manage::{governing, image, is_reserved, kept, page_used, same_except, untouched, Store};
use crate::page::{PAGE_TYPEID_BTREE_INTERNAL, PAGE_TYPEID_BTREE_LEAF};

verus! {

/// One more than the largest key.
pub open spec fn key_end() -> int {
    0x1_0000_0000_0000_0000
}

/// The node that page `c` of the store holds.
pub open spec fn node_at(s: Store, c: u64) -> NodeView {
    NodeView::load(image(s, c))
}

/// Whether the keys are strictly increasing.
pub open spec fn sorted(ids: Seq<u64>) -> bool {
    forall|i: int, j: int| 0 <= i < j < ids.len() ==> ids[i] < ids[j]
}

/// The upper bound of the keys below slot `i` of a node whose own upper
/// bound is `hi`: the next key, or `hi` for the last slot.
pub open spec fn upper(ids: Seq<u64>, i: int, hi: int) -> int {
    if i + 1 < ids.len() {
        ids[i + 1] as int
    } else {
        hi
    }
}

/// Whether `n` is the root of a subtree of height `h` whose keys lie in
/// `lo..hi`, whatever the number of its entries: its keys increase strictly
/// and lie in the range; at height 0 it is a leaf; above, it is an internal
/// node with at least one child, and the child at each slot is the root of a
/// subtree one lower, whose keys lie between the slot's key and the next.
pub open spec fn node_body(s: Store, n: NodeView, h: nat, lo: int, hi: int) -> bool
    decreases h, 0nat,
{
    &&& n.ids.len() == n.ptrs.len()
    &&& sorted(n.ids)
    &&& forall|i: int| 0 <= i < n.ids.len() ==> lo <= #[trigger] n.ids[i] < hi
    &&& if h == 0 {
        n.node_type == PAGE_TYPEID_BTREE_LEAF
    } else {
        &&& n.node_type == PAGE_TYPEID_BTREE_INTERNAL
        &&& n.ids.len() >= 1
        &&& forall|i: int|
            0 <= i < n.ids.len() ==> child_ok(
                s,
                #[trigger] n.ptrs[i],
                (h - 1) as nat,
                n.ids[i] as int,
                upper(n.ids, i, hi),
            )
    }
}

/// Whether `n` is the root of such a subtree and holds no more entries than
/// a node may hold between operations.
pub open spec fn node_ok(s: Store, n: NodeView, h: nat, lo: int, hi: int) -> bool
    decreases h, 1nat,
{
    n.ids.len() <= MAX_IDS && node_body(s, n, h, lo, hi)
}

/// Whether page `c` holds the root of a subtree of height `h` with keys in
/// `lo..hi`: the page exists, is allocated and not reserved, and its node has
/// at least one entry and no more than a node may hold.
pub open spec fn child_ok(s: Store, c: u64, h: nat, lo: int, hi: int) -> bool
    decreases h, 2nat,
{
    &&& s.contains_key(c)
    &&& !is_reserved(c)
    &&& page_used(s, c)
    &&& node_at(s, c).ids.len() >= 1
    &&& node_ok(s, node_at(s, c), h, lo, hi)
}

/// Whether the subtree below `n` stores value `v` under key `k`.
pub open spec fn node_has(s: Store, n: NodeView, h: nat, k: u64, v: u64) -> bool
    decreases h,
{
    if h == 0 {
        exists|i: int| 0 <= i < n.ids.len() && #[trigger] n.ids[i] == k && n.ptrs[i] == v
    } else {
        exists|i: int|
            0 <= i < n.ids.len() && node_has(
                s,
                node_at(s, #[trigger] n.ptrs[i]),
                (h - 1) as nat,
                k,
                v,
            )
    }
}

/// Whether page `p` holds a node with entries that could stand in a subtree
/// of height `h` with keys in `lo..hi`.
pub open spec fn may_hold(s: Store, p: u64, h: nat, lo: int, hi: int) -> bool {
    node_at(s, p).ids.len() >= 1 && exists|g: nat|
        g <= h && #[trigger] node_body(s, node_at(s, p), g, lo, hi)
}

/// Whether page `p` holds a B-tree node whose first key lies in `lo..hi`.
pub open spec fn keyed_in(s: Store, p: u64, lo: int, hi: int) -> bool {
    let n = node_at(s, p);
    &&& n.node_type == PAGE_TYPEID_BTREE_LEAF || n.node_type == PAGE_TYPEID_BTREE_INTERNAL
    &&& n.ids.len() >= 1
    &&& lo <= n.ids[0] < hi
}

/// Every allocated page that could stand in such a subtree is in `t` what it
/// was in `s`.
pub open spec fn subtree_kept(s: Store, t: Store, h: nat, lo: int, hi: int) -> bool {
    forall|p: u64|
        #![trigger untouched(s, t, p)]
        !is_reserved(p) && page_used(s, p) && may_hold(s, p, h, lo, hi) ==> untouched(s, t, p)
}

/// Every allocated page is in `t` what it was in `s`, but for page `q` and
/// for the pages that could stand in a subtree of height `h` with keys in
/// `lo..hi`.
pub open spec fn others_kept(s: Store, t: Store, q: u64, h: nat, lo: int, hi: int) -> bool {
    forall|p: u64|
        #![trigger untouched(s, t, p)]
        !is_reserved(p) && page_used(s, p) && p != q && !may_hold(s, p, h, lo, hi) ==> untouched(
            s,
            t,
            p,
        )
}

/// Every page that was allocated in `s`, reserved pages aside, is allocated
/// in `t`.
pub open spec fn used_kept(s: Store, t: Store) -> bool {
    forall|p: u64| !is_reserved(p) && #[trigger] page_used(s, p) ==> page_used(t, p)
}

/// A subtree with keys in a range is one with keys in any wider range.
pub proof fn lemma_widen(s: Store, n: NodeView, h: nat, lo: int, hi: int, lo2: int, hi2: int)
    requires
        node_body(s, n, h, lo, hi),
        lo2 <= lo,
        hi <= hi2,
    ensures
        node_body(s, n, h, lo2, hi2),
    decreases h,
{
    if h > 0 {
        assert forall|i: int| 0 <= i < n.ids.len() implies child_ok(
            s,
            #[trigger] n.ptrs[i],
            (h - 1) as nat,
            n.ids[i] as int,
            upper(n.ids, i, hi2),
        ) by {
            assert(child_ok(s, n.ptrs[i], (h - 1) as nat, n.ids[i] as int, upper(n.ids, i, hi)));
            if i + 1 >= n.ids.len() {
                lemma_widen(
                    s,
                    node_at(s, n.ptrs[i]),
                    (h - 1) as nat,
                    n.ids[i] as int,
                    hi,
                    n.ids[i] as int,
                    hi2,
                );
            }
        }
    }
}

/// A node is the root of a subtree of one height only.
pub proof fn lemma_height(
    s: Store,
    n: NodeView,
    h1: nat,
    lo1: int,
    hi1: int,
    h2: nat,
    lo2: int,
    hi2: int,
)
    requires
        node_body(s, n, h1, lo1, hi1),
        node_body(s, n, h2, lo2, hi2),
    ensures
        h1 == h2,
    decreases h1,
{
    if h1 > 0 && h2 > 0 {
        assert(child_ok(s, n.ptrs[0], (h1 - 1) as nat, n.ids[0] as int, upper(n.ids, 0, hi1)));
        assert(child_ok(s, n.ptrs[0], (h2 - 1) as nat, n.ids[0] as int, upper(n.ids, 0, hi2)));
        lemma_height(
            s,
            node_at(s, n.ptrs[0]),
            (h1 - 1) as nat,
            n.ids[0] as int,
            upper(n.ids, 0, hi1),
            (h2 - 1) as nat,
            n.ids[0] as int,
            upper(n.ids, 0, hi2),
        );
    }
}

/// Every key of a subtree lies in the subtree's range.
pub proof fn lemma_range(s: Store, n: NodeView, h: nat, lo: int, hi: int, k: u64, v: u64)
    requires
        node_body(s, n, h, lo, hi),
        node_has(s, n, h, k, v),
    ensures
        lo <= k < hi,
    decreases h,
{
    if h > 0 {
        let i = choose|i: int|
            0 <= i < n.ids.len() && node_has(
                s,
                node_at(s, #[trigger] n.ptrs[i]),
                (h - 1) as nat,
                k,
                v,
            );
        assert(child_ok(s, n.ptrs[i], (h - 1) as nat, n.ids[i] as int, upper(n.ids, i, hi)));
        lemma_range(
            s,
            node_at(s, n.ptrs[i]),
            (h - 1) as nat,
            n.ids[i] as int,
            upper(n.ids, i, hi),
            k,
            v,
        );
        assert(lo <= n.ids[i]);
        if i + 1 < n.ids.len() {
            assert(n.ids[i + 1] < hi);
        }
    } else {
        let i = choose|i: int| 0 <= i < n.ids.len() && #[trigger] n.ids[i] == k && n.ptrs[i] == v;
        assert(lo <= n.ids[i] < hi);
    }
}

/// The slot of an internal node below which key `k` is stored, if it is
/// stored at all: the one whose range holds `k`.
pub proof fn lemma_slot(s: Store, n: NodeView, h: nat, lo: int, hi: int, k: u64, v: u64, i: int)
    requires
        h > 0,
        node_body(s, n, h, lo, hi),
        0 <= i < n.ids.len(),
        node_has(s, node_at(s, n.ptrs[i]), (h - 1) as nat, k, v),
    ensures
        n.ids[i] <= k < upper(n.ids, i, hi),
        node_has(s, n, h, k, v),
{
    assert(child_ok(s, n.ptrs[i], (h - 1) as nat, n.ids[i] as int, upper(n.ids, i, hi)));
    lemma_range(
        s,
        node_at(s, n.ptrs[i]),
        (h - 1) as nat,
        n.ids[i] as int,
        upper(n.ids, i, hi),
        k,
        v,
    );
}

/// A subtree stores at most one value under a key.
pub proof fn lemma_unique(s: Store, n: NodeView, h: nat, lo: int, hi: int, k: u64, v: u64, w: u64)
    requires
        node_body(s, n, h, lo, hi),
        node_has(s, n, h, k, v),
        node_has(s, n, h, k, w),
    ensures
        v == w,
    decreases h,
{
    if h > 0 {
        let i = choose|i: int|
            0 <= i < n.ids.len() && node_has(
                s,
                node_at(s, #[trigger] n.ptrs[i]),
                (h - 1) as nat,
                k,
                v,
            );
        let j = choose|j: int|
            0 <= j < n.ids.len() && node_has(
                s,
                node_at(s, #[trigger] n.ptrs[j]),
                (h - 1) as nat,
                k,
                w,
            );
        lemma_slot(s, n, h, lo, hi, k, v, i);
        lemma_slot(s, n, h, lo, hi, k, w, j);
        if i < j {
            assert(n.ids[i + 1] <= n.ids[j]);
        }
        if j < i {
            assert(n.ids[j + 1] <= n.ids[i]);
        }
        assert(i == j);
        assert(child_ok(s, n.ptrs[i], (h - 1) as nat, n.ids[i] as int, upper(n.ids, i, hi)));
        lemma_unique(
            s,
            node_at(s, n.ptrs[i]),
            (h - 1) as nat,
            n.ids[i] as int,
            upper(n.ids, i, hi),
            k,
            v,
            w,
        );
    } else {
        let i = choose|i: int| 0 <= i < n.ids.len() && #[trigger] n.ids[i] == k && n.ptrs[i] == v;
        let j = choose|j: int| 0 <= j < n.ids.len() && #[trigger] n.ids[j] == k && n.ptrs[j] == w;
        if i < j {
            assert(n.ids[i] < n.ids[j]);
        }
        if j < i {
            assert(n.ids[j] < n.ids[i]);
        }
    }
}

/// A page that could stand in a subtree could stand in any higher subtree
/// with a wider range.
pub proof fn lemma_may_hold(s: Store, p: u64, h: nat, lo: int, hi: int, h2: nat, lo2: int, hi2: int)
    requires
        may_hold(s, p, h, lo, hi),
        h <= h2,
        lo2 <= lo,
        hi <= hi2,
    ensures
        may_hold(s, p, h2, lo2, hi2),
{
    let g = choose|g: nat| g <= h && #[trigger] node_body(s, node_at(s, p), g, lo, hi);
    lemma_widen(s, node_at(s, p), g, lo, hi, lo2, hi2);
}

/// Keeping the pages of a subtree keeps those of every lower subtree with a
/// narrower range.
pub proof fn lemma_subtree_kept(
    s: Store,
    t: Store,
    h: nat,
    lo: int,
    hi: int,
    h2: nat,
    lo2: int,
    hi2: int,
)
    requires
        subtree_kept(s, t, h2, lo2, hi2),
        h <= h2,
        lo2 <= lo,
        hi <= hi2,
    ensures
        subtree_kept(s, t, h, lo, hi),
{
    assert forall|p: u64|
        #![trigger untouched(s, t, p)]
        !is_reserved(p) && page_used(s, p) && may_hold(s, p, h, lo, hi) implies untouched(
        s,
        t,
        p,
    ) by {
        lemma_may_hold(s, p, h, lo, hi, h2, lo2, hi2);
    }
}

/// A subtree whose pages are kept is the same subtree afterwards, with the
/// same contents.
pub proof fn lemma_frame(s: Store, t: Store, n: NodeView, h: nat, lo: int, hi: int)
    requires
        node_body(s, n, h, lo, hi),
        h > 0 ==> subtree_kept(s, t, (h - 1) as nat, lo, hi),
    ensures
        node_body(t, n, h, lo, hi),
        forall|k: u64, v: u64| node_has(t, n, h, k, v) == node_has(s, n, h, k, v),
    decreases h,
{
    if h > 0 {
        let g = (h - 1) as nat;
        assert forall|i: int| 0 <= i < n.ids.len() implies child_ok(
            t,
            #[trigger] n.ptrs[i],
            g,
            n.ids[i] as int,
            upper(n.ids, i, hi),
        ) && node_at(t, n.ptrs[i]) == node_at(s, n.ptrs[i]) && (forall|k: u64, v: u64|
            node_has(t, node_at(t, n.ptrs[i]), g, k, v) == node_has(
                s,
                node_at(s, n.ptrs[i]),
                g,
                k,
                v,
            )) by {
            let c = n.ptrs[i];
            let lo_i = n.ids[i] as int;
            let hi_i = upper(n.ids, i, hi);
            assert(child_ok(s, c, g, lo_i, hi_i));
            assert(lo <= n.ids[i]);
            if i + 1 < n.ids.len() {
                assert(n.ids[i + 1] < hi);
            }
            lemma_widen(s, node_at(s, c), g, lo_i, hi_i, lo, hi);
            assert(may_hold(s, c, g, lo, hi));
            assert(untouched(s, t, c));
            if g > 0 {
                lemma_subtree_kept(s, t, (g - 1) as nat, lo_i, hi_i, g, lo, hi);
            }
            lemma_frame(s, t, node_at(s, c), g, lo_i, hi_i);
        }
        assert forall|k: u64, v: u64| node_has(t, n, h, k, v) == node_has(s, n, h, k, v) by {
            if node_has(s, n, h, k, v) {
                let i = choose|i: int|
                    0 <= i < n.ids.len() && node_has(
                        s,
                        node_at(s, #[trigger] n.ptrs[i]),
                        g,
                        k,
                        v,
                    );
                assert(node_has(t, node_at(t, n.ptrs[i]), g, k, v));
            }
            if node_has(t, n, h, k, v) {
                let i = choose|i: int|
                    0 <= i < n.ids.len() && node_has(
                        t,
                        node_at(t, #[trigger] n.ptrs[i]),
                        g,
                        k,
                        v,
                    );
                assert(node_has(s, node_at(s, n.ptrs[i]), g, k, v));
            }
        }
    }
}

/// Where every allocated page is kept, every subtree is.
pub proof fn lemma_kept_frame(s: Store, t: Store, n: NodeView, h: nat, lo: int, hi: int)
    requires
        node_body(s, n, h, lo, hi),
        kept(s, t, Set::empty()),
    ensures
        node_body(t, n, h, lo, hi),
        forall|k: u64, v: u64| node_has(t, n, h, k, v) == node_has(s, n, h, k, v),
{
    if h > 0 {
        assert(subtree_kept(s, t, (h - 1) as nat, lo, hi));
    }
    lemma_frame(s, t, n, h, lo, hi);
}

/// A page that could stand in a subtree holds a node whose first key lies in
/// the subtree's range.
pub proof fn lemma_keyed(s: Store, p: u64, h: nat, lo: int, hi: int)
    requires
        may_hold(s, p, h, lo, hi),
    ensures
        keyed_in(s, p, lo, hi),
{
    let g = choose|g: nat| g <= h && #[trigger] node_body(s, node_at(s, p), g, lo, hi);
    assert(lo <= node_at(s, p).ids[0] < hi);
}

/// A subtree is the same afterwards where a change keeps every allocated
/// page outside a subtree with another range of keys.
pub proof fn lemma_sibling(
    s: Store,
    t: Store,
    c: u64,
    g: nat,
    lo: int,
    hi: int,
    q: u64,
    qh: nat,
    qlo: int,
    qhi: int,
)
    requires
        child_ok(s, c, g, lo, hi),
        others_kept(s, t, q, qh, qlo, qhi),
        keyed_in(s, q, qlo, qhi),
        hi <= qlo || qhi <= lo,
    ensures
        child_ok(t, c, g, lo, hi),
        node_at(t, c) == node_at(s, c),
        forall|k: u64, v: u64|
            node_has(t, node_at(t, c), g, k, v) == node_has(s, node_at(s, c), g, k, v),
{
    assert forall|p: u64|
        #![trigger untouched(s, t, p)]
        !is_reserved(p) && page_used(s, p) && may_hold(s, p, g, lo, hi) implies untouched(
        s,
        t,
        p,
    ) by {
        lemma_keyed(s, p, g, lo, hi);
        if may_hold(s, p, qh, qlo, qhi) {
            lemma_keyed(s, p, qh, qlo, qhi);
        }
    }
    assert(subtree_kept(s, t, g, lo, hi));
    assert(node_body(s, node_at(s, c), g, lo, hi));
    assert(may_hold(s, c, g, lo, hi));
    assert(untouched(s, t, c));
    if g > 0 {
        lemma_subtree_kept(s, t, (g - 1) as nat, lo, hi, g, lo, hi);
    }
    lemma_frame(s, t, node_at(s, c), g, lo, hi);
}

/// Two stores that hold the same images hold the same subtrees.
pub proof fn lemma_grown(s: Store, t: Store, n: NodeView, h: nat, lo: int, hi: int)
    requires
        same_except(s, t, Set::empty()),
    ensures
        node_body(t, n, h, lo, hi) == node_body(s, n, h, lo, hi),
        forall|k: u64, v: u64| node_has(t, n, h, k, v) == node_has(s, n, h, k, v),
    decreases h,
{
    if h > 0 {
        let g = (h - 1) as nat;
        assert forall|i: int| 0 <= i < n.ids.len() implies child_ok(
            t,
            #[trigger] n.ptrs[i],
            g,
            n.ids[i] as int,
            upper(n.ids, i, hi),
        ) == child_ok(s, n.ptrs[i], g, n.ids[i] as int, upper(n.ids, i, hi)) && node_at(
            t,
            n.ptrs[i],
        ) == node_at(s, n.ptrs[i]) && (forall|k: u64, v: u64|
            node_has(t, node_at(t, n.ptrs[i]), g, k, v) == node_has(
                s,
                node_at(s, n.ptrs[i]),
                g,
                k,
                v,
            )) by {
            let c = n.ptrs[i];
            lemma_same_page(s, t, c);
            lemma_grown(s, t, node_at(s, c), g, n.ids[i] as int, upper(n.ids, i, hi));
        }
        assert forall|k: u64, v: u64| node_has(t, n, h, k, v) == node_has(s, n, h, k, v) by {
            if node_has(s, n, h, k, v) {
                let i = choose|i: int|
                    0 <= i < n.ids.len() && node_has(
                        s,
                        node_at(s, #[trigger] n.ptrs[i]),
                        g,
                        k,
                        v,
                    );
                assert(node_has(t, node_at(t, n.ptrs[i]), g, k, v));
            }
            if node_has(t, n, h, k, v) {
                let i = choose|i: int|
                    0 <= i < n.ids.len() && node_has(
                        t,
                        node_at(t, #[trigger] n.ptrs[i]),
                        g,
                        k,
                        v,
                    );
                assert(node_has(s, node_at(s, n.ptrs[i]), g, k, v));
            }
        }
    }
}

/// In two stores that hold the same images, a page holds the same node, is
/// allocated in both or in neither, and, if its node has an entry, exists in
/// both or in neither.
pub proof fn lemma_same_page(s: Store, t: Store, c: u64)
    requires
        same_except(s, t, Set::empty()),
    ensures
        node_at(t, c) == node_at(s, c),
        image(t, c) == image(s, c),
        page_used(t, c) == page_used(s, c),
        node_at(s, c).ids.len() >= 1 ==> (t.contains_key(c) <==> s.contains_key(c)),
{
    assert(s.contains_key(c) ==> t.contains_key(c));
    assert(image(t, c) == image(s, c));
    let b = governing(c);
    assert(s.contains_key(b) ==> t.contains_key(b));
    assert(image(t, b) == image(s, b));
    if !s.contains_key(c) {
        assert(image(s, c)[1] == 0);
    }
}

/// In two stores that hold the same images, the same pages could stand in a
/// subtree.
pub proof fn lemma_grown_may_hold(s: Store, t: Store, p: u64, h: nat, lo: int, hi: int)
    requires
        same_except(s, t, Set::empty()),
    ensures
        may_hold(t, p, h, lo, hi) == may_hold(s, p, h, lo, hi),
{
    lemma_same_page(s, t, p);
    if may_hold(s, p, h, lo, hi) {
        let g = choose|g: nat| g <= h && #[trigger] node_body(s, node_at(s, p), g, lo, hi);
        lemma_grown(s, t, node_at(s, p), g, lo, hi);
    }
    if may_hold(t, p, h, lo, hi) {
        let g = choose|g: nat| g <= h && #[trigger] node_body(t, node_at(t, p), g, lo, hi);
        lemma_grown(s, t, node_at(s, p), g, lo, hi);
    }
}

/// What a change keeps of a store, it keeps of every store with the same
/// images.
pub proof fn lemma_others_grown(
    s: Store,
    t: Store,
    u: Store,
    q: u64,
    h: nat,
    lo: int,
    hi: int,
)
    requires
        same_except(s, t, Set::empty()),
        others_kept(t, u, q, h, lo, hi),
    ensures
        others_kept(s, u, q, h, lo, hi),
{
    assert forall|p: u64|
        #![trigger untouched(s, u, p)]
        !is_reserved(p) && page_used(s, p) && p != q && !may_hold(s, p, h, lo, hi)
        implies untouched(s, u, p) by {
        lemma_same_page(s, t, p);
        lemma_grown_may_hold(s, t, p, h, lo, hi);
        assert(s.contains_key(p) ==> t.contains_key(p));
        assert(untouched(t, u, p));
    }
}

/// What a change within a child's subtree keeps, and a write of the parent's
/// own page after it, together keep what a change within the parent's
/// subtree may be expected to keep.
pub proof fn lemma_others_up(
    s: Store,
    t: Store,
    u: Store,
    c: u64,
    g: nat,
    clo: int,
    chi: int,
    q: u64,
    h: nat,
    lo: int,
    hi: int,
)
    requires
        others_kept(s, t, c, g, clo, chi),
        kept(t, u, set![q]),
        g <= h,
        lo <= clo,
        chi <= hi,
        may_hold(s, c, h, lo, hi) || c == q,
    ensures
        others_kept(s, u, q, h, lo, hi),
{
    assert forall|p: u64|
        #![trigger untouched(s, u, p)]
        !is_reserved(p) && page_used(s, p) && p != q && !may_hold(s, p, h, lo, hi)
        implies untouched(s, u, p) by {
        if may_hold(s, p, g, clo, chi) {
            lemma_may_hold(s, p, g, clo, chi, h, lo, hi);
        }
        assert(untouched(s, t, p));
        assert(untouched(t, u, p));
    }
}

/// An internal node whose first child is a subtree of height `h - 1` is not
/// itself a subtree of another height than `h`.
pub proof fn lemma_level(s: Store, n: NodeView, h: nat, a: int, b: int, g: nat, lo: int, hi: int)
    requires
        h > 0,
        n.node_type == PAGE_TYPEID_BTREE_INTERNAL,
        n.ids.len() >= 1,
        child_ok(s, n.ptrs[0], (h - 1) as nat, a, b),
        node_body(s, n, g, lo, hi),
    ensures
        g == h,
{
    assert(g > 0);
    assert(child_ok(s, n.ptrs[0], (g - 1) as nat, n.ids[0] as int, upper(n.ids, 0, hi)));
    lemma_height(
        s,
        node_at(s, n.ptrs[0]),
        (h - 1) as nat,
        a,
        b,
        (g - 1) as nat,
        n.ids[0] as int,
        upper(n.ids, 0, hi),
    );
}

/// Writing a page that could not stand below height `h` keeps every subtree
/// below height `h`.
pub proof fn lemma_below(s: Store, t: Store, q: u64, h: nat, lo: int, hi: int)
    requires
        kept(s, t, set![q]),
        h > 0 ==> !may_hold(s, q, (h - 1) as nat, lo, hi),
    ensures
        h > 0 ==> subtree_kept(s, t, (h - 1) as nat, lo, hi),
{
}

/// A page whose node is a subtree of height `h` could not stand in a lower
/// subtree.
pub proof fn lemma_not_below(s: Store, q: u64, h: nat, a: int, b: int, g: nat, lo: int, hi: int)
    requires
        node_body(s, node_at(s, q), h, a, b),
        g < h,
    ensures
        !may_hold(s, q, g, lo, hi),
{
    if may_hold(s, q, g, lo, hi) {
        let f = choose|f: nat| f <= g && #[trigger] node_body(s, node_at(s, q), f, lo, hi);
        lemma_height(s, node_at(s, q), h, a, b, f, lo, hi);
    }
}

/// A page that holds an internal node whose first child is a subtree of
/// height `h - 1` could not stand in a subtree lower than `h`.
pub proof fn lemma_not_below_by_child(
    s: Store,
    q: u64,
    h: nat,
    a: int,
    b: int,
    g: nat,
    lo: int,
    hi: int,
)
    requires
        h > 0,
        node_at(s, q).node_type == PAGE_TYPEID_BTREE_INTERNAL,
        node_at(s, q).ids.len() >= 1,
        child_ok(s, node_at(s, q).ptrs[0], (h - 1) as nat, a, b),
        g < h,
    ensures
        !may_hold(s, q, g, lo, hi),
{
    if may_hold(s, q, g, lo, hi) {
        let f = choose|f: nat| f <= g && #[trigger] node_body(s, node_at(s, q), f, lo, hi);
        lemma_level(s, node_at(s, q), h, a, b, f, lo, hi);
    }
}

/// A subtree on a page is the same afterwards where its root page and the
/// pages below it are kept.
pub proof fn lemma_child_kept(s: Store, t: Store, c: u64, g: nat, lo: int, hi: int)
    requires
        child_ok(s, c, g, lo, hi),
        untouched(s, t, c),
        g > 0 ==> subtree_kept(s, t, (g - 1) as nat, lo, hi),
    ensures
        child_ok(t, c, g, lo, hi),
        node_at(t, c) == node_at(s, c),
        forall|k: u64, v: u64|
            node_has(t, node_at(t, c), g, k, v) == node_has(s, node_at(s, c), g, k, v),
{
    lemma_frame(s, t, node_at(s, c), g, lo, hi);
}

/// A leaf with one more entry, put in where the keys stay in order, stores
/// what it stored and the new pair.
pub proof fn lemma_leaf_add(
    s: Store,
    n: NodeView,
    m: NodeView,
    lo: int,
    hi: int,
    pos: int,
    id: u64,
    value: u64,
)
    requires
        node_body(s, n, 0, lo, hi),
        0 <= pos <= n.ids.len(),
        forall|i: int| 0 <= i < pos ==> n.ids[i] < id,
        forall|i: int| pos <= i < n.ids.len() ==> n.ids[i] > id,
        lo <= id < hi,
        m.node_type == n.node_type,
        m.ids == n.ids.insert(pos, id),
        m.ptrs == n.ptrs.insert(pos, value),
    ensures
        node_body(s, m, 0, lo, hi),
        forall|k: u64, v: u64|
            node_has(s, m, 0, k, v) <==> node_has(s, n, 0, k, v) || (k == id && v == value),
{
    assert forall|i: int, j: int| 0 <= i < j < m.ids.len() implies m.ids[i] < m.ids[j] by {
        let a = if i < pos { i } else { i - 1 };
        let b = if j < pos { j } else { j - 1 };
        if i != pos && j != pos {
            assert(n.ids[a] < n.ids[b]);
        }
    }
    assert forall|i: int| 0 <= i < m.ids.len() implies lo <= #[trigger] m.ids[i] < hi by {
        if i < pos {
            assert(m.ids[i] == n.ids[i]);
        } else if i > pos {
            assert(m.ids[i] == n.ids[i - 1]);
        }
    }
    assert forall|k: u64, v: u64|
        node_has(s, m, 0, k, v) <==> node_has(s, n, 0, k, v) || (k == id && v == value) by {
        if node_has(s, n, 0, k, v) {
            let i = choose|i: int|
                0 <= i < n.ids.len() && #[trigger] n.ids[i] == k && n.ptrs[i] == v;
            let j = if i < pos { i } else { i + 1 };
            assert(m.ids[j] == k && m.ptrs[j] == v);
        }
        if k == id && v == value {
            assert(m.ids[pos] == k && m.ptrs[pos] == v);
        }
        if node_has(s, m, 0, k, v) {
            let j = choose|j: int|
                0 <= j < m.ids.len() && #[trigger] m.ids[j] == k && m.ptrs[j] == v;
            if j != pos {
                let i = if j < pos { j } else { j - 1 };
                assert(n.ids[i] == k && n.ptrs[i] == v);
            }
        }
    }
}

/// The two halves of a node, cut before entry `keep`, are subtrees of the
/// same height on either side of that entry's key, and together store what
/// the node stored.
pub proof fn lemma_split(
    s: Store,
    n: NodeView,
    left: NodeView,
    right: NodeView,
    h: nat,
    lo: int,
    hi: int,
    keep: int,
)
    requires
        node_body(s, n, h, lo, hi),
        0 < keep < n.ids.len(),
        left.node_type == n.node_type,
        right.node_type == n.node_type,
        left.ids == n.ids.take(keep),
        left.ptrs == n.ptrs.take(keep),
        right.ids == n.ids.skip(keep),
        right.ptrs == n.ptrs.skip(keep),
    ensures
        node_body(s, left, h, lo, n.ids[keep] as int),
        node_body(s, right, h, n.ids[keep] as int, hi),
        lo < n.ids[keep] < hi,
        forall|k: u64, v: u64|
            node_has(s, n, h, k, v) <==> node_has(s, left, h, k, v) || node_has(s, right, h, k, v),
{
    let sep = n.ids[keep] as int;
    assert(n.ids[0] < n.ids[keep]);
    assert(lo <= n.ids[0]);
    assert forall|i: int| 0 <= i < left.ids.len() implies lo <= #[trigger] left.ids[i] < sep by {
        assert(left.ids[i] == n.ids[i]);
    }
    assert forall|i: int| 0 <= i < right.ids.len() implies sep <= #[trigger] right.ids[i]
        < hi by {
        assert(right.ids[i] == n.ids[i + keep]);
        if i > 0 {
            assert(n.ids[keep] < n.ids[i + keep]);
        }
    }
    assert(sorted(left.ids)) by {
        assert forall|i: int, j: int| 0 <= i < j < left.ids.len() implies left.ids[i]
            < left.ids[j] by {
            assert(n.ids[i] < n.ids[j]);
        }
    }
    assert(sorted(right.ids)) by {
        assert forall|i: int, j: int| 0 <= i < j < right.ids.len() implies right.ids[i]
            < right.ids[j] by {
            assert(n.ids[i + keep] < n.ids[j + keep]);
        }
    }
    if h > 0 {
        let g = (h - 1) as nat;
        assert forall|i: int| 0 <= i < left.ids.len() implies child_ok(
            s,
            #[trigger] left.ptrs[i],
            g,
            left.ids[i] as int,
            upper(left.ids, i, sep),
        ) by {
            assert(child_ok(s, n.ptrs[i], g, n.ids[i] as int, upper(n.ids, i, hi)));
            assert(left.ids[i] == n.ids[i]);
            if i + 1 < left.ids.len() {
                assert(left.ids[i + 1] == n.ids[i + 1]);
            }
        }
        assert forall|i: int| 0 <= i < right.ids.len() implies child_ok(
            s,
            #[trigger] right.ptrs[i],
            g,
            right.ids[i] as int,
            upper(right.ids, i, hi),
        ) by {
            assert(child_ok(
                s,
                n.ptrs[i + keep],
                g,
                n.ids[i + keep] as int,
                upper(n.ids, i + keep, hi),
            ));
            assert(right.ids[i] == n.ids[i + keep]);
            if i + 1 < right.ids.len() {
                assert(right.ids[i + 1] == n.ids[i + keep + 1]);
            }
        }
    }
    assert forall|k: u64, v: u64|
        node_has(s, n, h, k, v) <==> node_has(s, left, h, k, v) || node_has(s, right, h, k, v) by {
        if h == 0 {
            if node_has(s, n, h, k, v) {
                let i = choose|i: int|
                    0 <= i < n.ids.len() && #[trigger] n.ids[i] == k && n.ptrs[i] == v;
                if i < keep {
                    assert(left.ids[i] == k && left.ptrs[i] == v);
                } else {
                    assert(right.ids[i - keep] == k && right.ptrs[i - keep] == v);
                }
            }
            if node_has(s, left, h, k, v) {
                let i = choose|i: int|
                    0 <= i < left.ids.len() && #[trigger] left.ids[i] == k && left.ptrs[i] == v;
                assert(n.ids[i] == k && n.ptrs[i] == v);
            }
            if node_has(s, right, h, k, v) {
                let i = choose|i: int|
                    0 <= i < right.ids.len() && #[trigger] right.ids[i] == k && right.ptrs[i]
                        == v;
                assert(n.ids[i + keep] == k && n.ptrs[i + keep] == v);
            }
        } else {
            let g = (h - 1) as nat;
            if node_has(s, n, h, k, v) {
                let i = choose|i: int|
                    0 <= i < n.ids.len() && node_has(s, node_at(s, #[trigger] n.ptrs[i]), g, k, v);
                if i < keep {
                    assert(left.ptrs[i] == n.ptrs[i]);
                } else {
                    assert(right.ptrs[i - keep] == n.ptrs[i]);
                }
            }
            if node_has(s, left, h, k, v) {
                let i = choose|i: int|
                    0 <= i < left.ids.len() && node_has(
                        s,
                        node_at(s, #[trigger] left.ptrs[i]),
                        g,
                        k,
                        v,
                    );
                assert(n.ptrs[i] == left.ptrs[i]);
            }
            if node_has(s, right, h, k, v) {
                let i = choose|i: int|
                    0 <= i < right.ids.len() && node_has(
                        s,
                        node_at(s, #[trigger] right.ptrs[i]),
                        g,
                        k,
                        v,
                    );
                assert(n.ptrs[i + keep] == right.ptrs[i]);
            }
        }
    }
}

/// The smaller of two numbers.
pub open spec fn least(a: int, b: int) -> int {
    if a <= b {
        a
    } else {
        b
    }
}

/// What an insertion below one slot of an internal node leaves: the slot's
/// key lowered to the new key where that is smaller, and, where the child was
/// split, the new sibling's entry put in after the slot.
pub open spec fn after_child_insert(
    n: NodeView,
    slot: int,
    id: u64,
    split: Option<(u64, u64)>,
) -> NodeView {
    let key = if id < n.ids[slot] {
        id
    } else {
        n.ids[slot]
    };
    match split {
        None => NodeView { node_type: n.node_type, ids: n.ids.update(slot, key), ptrs: n.ptrs },
        Some((sep, right)) => NodeView {
            node_type: n.node_type,
            ids: n.ids.update(slot, key).insert(slot + 1, sep),
            ptrs: n.ptrs.insert(slot + 1, right),
        },
    }
}

/// What holds of the children of an internal node beside the one below which
/// an insertion was made: they are the subtrees that they were, and no value
/// was stored under the new key.
pub proof fn lemma_insert_siblings(
    s: Store,
    t: Store,
    n: NodeView,
    h: nat,
    g: nat,
    lo: int,
    hi: int,
    slot: int,
    id: u64,
)
    requires
        h > 0,
        g == h - 1,
        node_body(s, n, h, lo, hi),
        lo <= id < hi,
        0 <= slot < n.ids.len(),
        slot > 0 ==> n.ids[slot] <= id,
        slot + 1 < n.ids.len() ==> id < n.ids[slot + 1],
        others_kept(
            s,
            t,
            n.ptrs[slot],
            g,
            least(n.ids[slot] as int, id as int),
            upper(n.ids, slot, hi),
        ),
        forall|v: u64| !node_has(s, node_at(s, n.ptrs[slot]), g, id, v),
    ensures
        forall|i: int|
            0 <= i < n.ids.len() && i != slot ==> child_ok(
                t,
                #[trigger] n.ptrs[i],
                g,
                n.ids[i] as int,
                upper(n.ids, i, hi),
            ),
        forall|i: int, k: u64, v: u64|
            0 <= i < n.ids.len() && i != slot ==> #[trigger] node_has(
                t,
                node_at(t, n.ptrs[i]),
                g,
                k,
                v,
            ) == node_has(s, node_at(s, n.ptrs[i]), g, k, v),
        forall|v: u64| !node_has(s, n, h, id, v),
{
    let c = n.ptrs[slot];
    let clo = least(n.ids[slot] as int, id as int);
    let chi = upper(n.ids, slot, hi);
    assert(child_ok(s, c, g, n.ids[slot] as int, chi));
    assert(keyed_in(s, c, clo, chi)) by {
        assert(node_at(s, c).ids[0] >= n.ids[slot]);
    }
    assert forall|i: int| 0 <= i < n.ids.len() && i != slot implies child_ok(
        t,
        #[trigger] n.ptrs[i],
        g,
        n.ids[i] as int,
        upper(n.ids, i, hi),
    ) && (forall|k: u64, v: u64|
        node_has(t, node_at(t, n.ptrs[i]), g, k, v) == node_has(s, node_at(s, n.ptrs[i]), g, k, v))
    by {
        assert(child_ok(s, n.ptrs[i], g, n.ids[i] as int, upper(n.ids, i, hi)));
        if i < slot {
            assert(i + 1 == slot || n.ids[i + 1] < n.ids[slot]);
        } else {
            assert(slot + 1 == i || n.ids[slot + 1] < n.ids[i]);
        }
        lemma_sibling(s, t, n.ptrs[i], g, n.ids[i] as int, upper(n.ids, i, hi), c, g, clo, chi);
    }
    assert forall|v: u64| !node_has(s, n, h, id, v) by {
        if node_has(s, n, h, id, v) {
            let j = choose|j: int|
                0 <= j < n.ids.len() && node_has(s, node_at(s, #[trigger] n.ptrs[j]), g, id, v);
            lemma_slot(s, n, h, lo, hi, id, v, j);
            if j < slot {
                assert(j + 1 == slot || n.ids[j + 1] < n.ids[slot]);
            }
            if slot < j {
                assert(slot + 1 == j || n.ids[slot + 1] < n.ids[j]);
            }
        }
    }
}

/// An internal node whose children are in order is in order after the key of
/// one slot has been lowered, and a new entry put in after that slot.
pub proof fn lemma_insert_body(
    t: Store,
    n: NodeView,
    m: NodeView,
    h: nat,
    g: nat,
    lo: int,
    hi: int,
    slot: int,
    id: u64,
    split: Option<(u64, u64)>,
)
    requires
        h > 0,
        g == h - 1,
        n.ids.len() == n.ptrs.len(),
        n.node_type == PAGE_TYPEID_BTREE_INTERNAL,
        sorted(n.ids),
        forall|i: int| 0 <= i < n.ids.len() ==> lo <= #[trigger] n.ids[i] < hi,
        lo <= id < hi,
        0 <= slot < n.ids.len(),
        slot > 0 ==> n.ids[slot] <= id,
        slot + 1 < n.ids.len() ==> id < n.ids[slot + 1],
        m == after_child_insert(n, slot, id, split),
        forall|i: int|
            0 <= i < n.ids.len() && i != slot ==> child_ok(
                t,
                #[trigger] n.ptrs[i],
                g,
                n.ids[i] as int,
                upper(n.ids, i, hi),
            ),
        match split {
            None => child_ok(
                t,
                n.ptrs[slot],
                g,
                least(n.ids[slot] as int, id as int),
                upper(n.ids, slot, hi),
            ),
            Some((sep, right)) => {
                &&& least(n.ids[slot] as int, id as int) < sep < upper(n.ids, slot, hi)
                &&& child_ok(t, n.ptrs[slot], g, least(n.ids[slot] as int, id as int), sep as int)
                &&& child_ok(t, right, g, sep as int, upper(n.ids, slot, hi))
            },
        },
    ensures
        node_body(t, m, h, lo, hi),
{
    let clo = least(n.ids[slot] as int, id as int);
    if slot + 1 < n.ids.len() {
        assert(n.ids[slot + 1] < hi);
    }
    assert(lo <= n.ids[slot]);
    match split {
        None => {
            assert(m.ids.len() == n.ids.len());
            assert forall|i: int, j: int| 0 <= i < j < m.ids.len() implies m.ids[i] < m.ids[j] by {
                assert(n.ids[i] < n.ids[j]);
            }
            assert forall|i: int| 0 <= i < m.ids.len() implies lo <= #[trigger] m.ids[i] < hi by {
                assert(lo <= n.ids[i] < hi);
            }
            assert forall|i: int| 0 <= i < m.ids.len() implies child_ok(
                t,
                #[trigger] m.ptrs[i],
                g,
                m.ids[i] as int,
                upper(m.ids, i, hi),
            ) by {
                if i != slot {
                    assert(child_ok(t, n.ptrs[i], g, n.ids[i] as int, upper(n.ids, i, hi)));
                    if i + 1 == slot {
                        assert(m.ids[slot] == n.ids[slot]);
                    }
                }
            }
        },
        Some((sep, right)) => {
            assert(m.ids.len() == n.ids.len() + 1);
            assert(m.ptrs.len() == n.ids.len() + 1);
            assert forall|i: int| 0 <= i < m.ids.len() implies #[trigger] m.ids[i] == (if i
                < slot {
                n.ids[i]
            } else if i == slot {
                clo as u64
            } else if i == slot + 1 {
                sep
            } else {
                n.ids[i - 1]
            }) by {}
            assert forall|i: int| 0 <= i < m.ids.len() implies #[trigger] m.ptrs[i] == (if i
                <= slot {
                n.ptrs[i]
            } else if i == slot + 1 {
                right
            } else {
                n.ptrs[i - 1]
            }) by {}
            assert forall|i: int, j: int| 0 <= i < j < m.ids.len() implies m.ids[i] < m.ids[j] by {
                let a = if i <= slot { i } else { i - 1 };
                let b = if j <= slot { j } else { j - 1 };
                if a < b {
                    assert(n.ids[a] < n.ids[b]);
                }
                if j > slot + 1 {
                    assert(slot + 1 == b || n.ids[slot + 1] < n.ids[b]);
                }
                if i < slot {
                    assert(n.ids[i] < n.ids[slot]);
                }
            }
            assert forall|i: int| 0 <= i < m.ids.len() implies lo <= #[trigger] m.ids[i] < hi by {
                let a = if i <= slot { i } else { i - 1 };
                assert(lo <= n.ids[a] < hi);
            }
            assert forall|i: int| 0 <= i < m.ids.len() implies child_ok(
                t,
                #[trigger] m.ptrs[i],
                g,
                m.ids[i] as int,
                upper(m.ids, i, hi),
            ) by {
                if i < slot {
                    assert(child_ok(t, n.ptrs[i], g, n.ids[i] as int, upper(n.ids, i, hi)));
                    assert(m.ids[i] == n.ids[i]);
                    assert(m.ids[i + 1] == (if i + 1 == slot { clo as u64 } else { n.ids[i + 1] }));
                    if i + 1 == slot {
                        assert(m.ids[slot] == n.ids[slot]);
                    }
                } else if i > slot + 1 {
                    assert(child_ok(
                        t,
                        n.ptrs[i - 1],
                        g,
                        n.ids[i - 1] as int,
                        upper(n.ids, i - 1, hi),
                    ));
                    assert(m.ids[i] == n.ids[i - 1]);
                    if i + 1 < m.ids.len() {
                        assert(m.ids[i + 1] == n.ids[i]);
                    }
                } else if i == slot {
                    assert(m.ids[slot + 1] == sep);
                } else {
                    assert(m.ids[i] == sep);
                    if i + 1 < m.ids.len() {
                        assert(m.ids[i + 1] == n.ids[slot + 1]);
                    }
                }
            }
        },
    }
}

/// Whether an internal node stores a pair after an insertion below one of its
/// slots, told from what its children store.
pub proof fn lemma_insert_has(
    s: Store,
    t: Store,
    n: NodeView,
    m: NodeView,
    h: nat,
    g: nat,
    slot: int,
    id: u64,
    split: Option<(u64, u64)>,
    k: u64,
    v: u64,
    added: bool,
)
    requires
        h > 0,
        g == h - 1,
        n.ids.len() == n.ptrs.len(),
        0 <= slot < n.ids.len(),
        m == after_child_insert(n, slot, id, split),
        forall|i: int|
            0 <= i < n.ids.len() && i != slot ==> node_has(
                t,
                node_at(t, #[trigger] n.ptrs[i]),
                g,
                k,
                v,
            ) == node_has(s, node_at(s, n.ptrs[i]), g, k, v),
        match split {
            None => node_has(t, node_at(t, n.ptrs[slot]), g, k, v) == (node_has(
                s,
                node_at(s, n.ptrs[slot]),
                g,
                k,
                v,
            ) || added),
            Some((sep, right)) => (node_has(t, node_at(t, n.ptrs[slot]), g, k, v) || node_has(
                t,
                node_at(t, right),
                g,
                k,
                v,
            )) == (node_has(s, node_at(s, n.ptrs[slot]), g, k, v) || added),
        },
    ensures
        node_has(t, m, h, k, v) == (node_has(s, n, h, k, v) || added),
{
    match split {
        None => {
            assert(m.ptrs == n.ptrs);
            assert(m.ids.len() == n.ids.len());
            if node_has(t, m, h, k, v) {
                let i = choose|i: int|
                    0 <= i < m.ids.len() && node_has(t, node_at(t, #[trigger] m.ptrs[i]), g, k, v);
                if i != slot {
                    assert(node_has(s, node_at(s, n.ptrs[i]), g, k, v));
                } else if !added {
                    assert(node_has(s, node_at(s, n.ptrs[slot]), g, k, v));
                }
            }
            if node_has(s, n, h, k, v) {
                let i = choose|i: int|
                    0 <= i < n.ids.len() && node_has(s, node_at(s, #[trigger] n.ptrs[i]), g, k, v);
                assert(node_has(t, node_at(t, m.ptrs[i]), g, k, v));
            }
            if added {
                assert(node_has(t, node_at(t, m.ptrs[slot]), g, k, v));
            }
        },
        Some((sep, right)) => {
            assert(m.ids.len() == n.ids.len() + 1);
            assert forall|i: int| 0 <= i < m.ids.len() implies #[trigger] m.ptrs[i] == (if i
                <= slot {
                n.ptrs[i]
            } else if i == slot + 1 {
                right
            } else {
                n.ptrs[i - 1]
            }) by {}
            if node_has(t, m, h, k, v) {
                let i = choose|i: int|
                    0 <= i < m.ids.len() && node_has(t, node_at(t, #[trigger] m.ptrs[i]), g, k, v);
                if i < slot {
                    assert(node_has(s, node_at(s, n.ptrs[i]), g, k, v));
                } else if i > slot + 1 {
                    assert(m.ptrs[i] == n.ptrs[i - 1]);
                    assert(node_has(s, node_at(s, n.ptrs[i - 1]), g, k, v));
                } else if !added {
                    assert(m.ptrs[slot] == n.ptrs[slot]);
                    assert(m.ptrs[slot + 1] == right);
                    assert(node_has(s, node_at(s, n.ptrs[slot]), g, k, v));
                }
            }
            if node_has(s, n, h, k, v) || added {
                if node_has(s, n, h, k, v) && (choose|i: int|
                    0 <= i < n.ids.len() && node_has(s, node_at(s, #[trigger] n.ptrs[i]), g, k, v))
                    != slot {
                    let i = choose|i: int|
                        0 <= i < n.ids.len() && node_has(
                            s,
                            node_at(s, #[trigger] n.ptrs[i]),
                            g,
                            k,
                            v,
                        );
                    if i < slot {
                        assert(m.ptrs[i] == n.ptrs[i]);
                        assert(node_has(t, node_at(t, m.ptrs[i]), g, k, v));
                    } else {
                        assert(m.ptrs[i + 1] == n.ptrs[i]);
                        assert(node_has(t, node_at(t, m.ptrs[i + 1]), g, k, v));
                    }
                } else {
                    assert(node_has(s, node_at(s, n.ptrs[slot]), g, k, v) || added);
                    if node_has(t, node_at(t, n.ptrs[slot]), g, k, v) {
                        assert(m.ptrs[slot] == n.ptrs[slot]);
                        assert(node_has(t, node_at(t, m.ptrs[slot]), g, k, v));
                    } else {
                        assert(m.ptrs[slot + 1] == right);
                        assert(node_has(t, node_at(t, m.ptrs[slot + 1]), g, k, v));
                    }
                }
            }
        },
    }
}

/// Whether a page image carries the type tag of a B-tree node.
pub open spec fn is_node_image(bytes: Seq<u8>) -> bool {
    bytes[0] == PAGE_TYPEID_BTREE_LEAF || bytes[0] == PAGE_TYPEID_BTREE_INTERNAL
}

/// Every allocated page that held no B-tree node is in `t` what it was in
/// `s`.
pub open spec fn outside_kept(s: Store, t: Store) -> bool {
    forall|p: u64|
        #![trigger untouched(s, t, p)]
        !is_reserved(p) && page_used(s, p) && !is_node_image(image(s, p)) ==> untouched(s, t, p)
}

/// A change within a tree keeps every allocated page that held no B-tree
/// node.
pub proof fn lemma_outside_kept(s: Store, t: Store, q: u64, h: nat, lo: int, hi: int)
    requires
        others_kept(s, t, q, h, lo, hi),
        is_node_image(image(s, q)),
    ensures
        outside_kept(s, t),
{
    assert forall|p: u64|
        #![trigger untouched(s, t, p)]
        !is_reserved(p) && page_used(s, p) && !is_node_image(image(s, p)) implies untouched(
        s,
        t,
        p,
    ) by {
        if may_hold(s, p, h, lo, hi) {
            let g = choose|g: nat| g <= h && #[trigger] node_body(s, node_at(s, p), g, lo, hi);
            assert(false);
        }
    }
}

/// A key that is not stored below the slot that its insertion goes to is not
/// stored below the node.
pub proof fn lemma_absent(
    s: Store,
    n: NodeView,
    h: nat,
    g: nat,
    lo: int,
    hi: int,
    slot: int,
    id: u64,
)
    requires
        h > 0,
        g == h - 1,
        node_body(s, n, h, lo, hi),
        0 <= slot < n.ids.len(),
        slot > 0 ==> n.ids[slot] <= id,
        slot + 1 < n.ids.len() ==> id < n.ids[slot + 1],
        forall|v: u64| !node_has(s, node_at(s, n.ptrs[slot]), g, id, v),
    ensures
        forall|v: u64| !node_has(s, n, h, id, v),
{
    assert forall|v: u64| !node_has(s, n, h, id, v) by {
        if node_has(s, n, h, id, v) {
            let j = choose|j: int|
                0 <= j < n.ids.len() && node_has(s, node_at(s, #[trigger] n.ptrs[j]), g, id, v);
            lemma_slot(s, n, h, lo, hi, id, v, j);
            if j < slot {
                assert(j + 1 == slot || n.ids[j + 1] < n.ids[slot]);
            }
            if slot < j {
                assert(slot + 1 == j || n.ids[slot + 1] < n.ids[j]);
            }
        }
    }
}

/// The root after a split: an internal node over the old root's entries,
/// moved to a new page, and the new right sibling.
pub open spec fn split_root(left: NodeView, left_page: u64, sep: u64, right: u64) -> NodeView {
    NodeView {
        node_type: PAGE_TYPEID_BTREE_INTERNAL,
        ids: seq![left.ids[0], sep],
        ptrs: seq![left_page, right],
    }
}

/// After the root was split, its left part written to a new page, and the
/// root page rewritten as an internal node over the two parts, the tree is
/// one higher and stores what the two parts stored.
pub proof fn lemma_root_split(
    t: Store,
    u: Store,
    left: NodeView,
    lp: u64,
    sep: u64,
    right: u64,
    pc: u64,
    h: nat,
)
    requires
        node_ok(t, left, h, 0, sep as int),
        left.ids.len() >= 1,
        child_ok(t, right, h, sep as int, key_end()),
        !is_reserved(pc),
        page_used(t, pc),
        node_at(t, pc) == left,
        !page_used(t, lp),
        !is_reserved(lp),
        kept(t, u, set![lp, pc]),
        u.contains_key(lp),
        page_used(u, lp),
        node_at(u, lp) == left,
    ensures
        node_ok(u, split_root(left, lp, sep, right), h + 1, 0, key_end()),
        forall|k: u64, v: u64|
            node_has(u, split_root(left, lp, sep, right), h + 1, k, v) == (node_has(
                t,
                left,
                h,
                k,
                v,
            ) || node_has(t, node_at(t, right), h, k, v)),
        kept(t, u, set![pc]),
{
    let root = split_root(left, lp, sep, right);
    assert(kept(t, u, set![pc])) by {
        assert forall|p: u64|
            #![trigger untouched(t, u, p)]
            !is_reserved(p) && page_used(t, p) && !set![pc].contains(p) implies untouched(
            t,
            u,
            p,
        ) by {
            assert(!set![lp, pc].contains(p));
        }
    }
    if h > 0 {
        lemma_not_below(t, pc, h, 0, sep as int, (h - 1) as nat, 0, key_end());
    }
    lemma_below(t, u, pc, h, 0, key_end());
    if h > 0 {
        lemma_subtree_kept(t, u, (h - 1) as nat, 0, sep as int, (h - 1) as nat, 0, key_end());
        lemma_subtree_kept(
            t,
            u,
            (h - 1) as nat,
            sep as int,
            key_end(),
            (h - 1) as nat,
            0,
            key_end(),
        );
    }
    lemma_frame(t, u, left, h, 0, sep as int);
    assert(node_at(t, right).ids[0] >= sep);
    assert(left.ids[0] < sep);
    assert(right != pc);
    assert(untouched(t, u, right));
    lemma_child_kept(t, u, right, h, sep as int, key_end());
    assert(node_body(u, left, h, left.ids[0] as int, sep as int)) by {
        assert forall|i: int| 0 <= i < left.ids.len() implies left.ids[0] <= #[trigger] left.ids[i]
            < sep by {
            if i > 0 {
                assert(left.ids[0] < left.ids[i]);
            }
        }
    }
    assert(child_ok(u, lp, h, left.ids[0] as int, sep as int));
    assert forall|i: int| 0 <= i < root.ids.len() implies child_ok(
        u,
        #[trigger] root.ptrs[i],
        h,
        root.ids[i] as int,
        upper(root.ids, i, key_end()),
    ) by {
        if i == 0 {
            assert(root.ptrs[0] == lp);
            assert(upper(root.ids, 0, key_end()) == sep);
        } else {
            assert(root.ptrs[1] == right);
        }
    }
    assert(sorted(root.ids));
    assert(node_body(u, root, (h + 1) as nat, 0, key_end()));
    assert forall|k: u64, v: u64|
        node_has(u, root, h + 1, k, v) == (node_has(t, left, h, k, v) || node_has(
            t,
            node_at(t, right),
            h,
            k,
            v,
        )) by {
        if node_has(u, root, (h + 1) as nat, k, v) {
            let i = choose|i: int|
                0 <= i < root.ids.len() && node_has(u, node_at(u, #[trigger] root.ptrs[i]), h, k, v);
            if i == 0 {
                assert(node_has(u, left, h, k, v));
            } else {
                assert(node_has(u, node_at(u, right), h, k, v));
            }
        }
        if node_has(t, left, h, k, v) {
            assert(node_has(u, node_at(u, root.ptrs[0]), h, k, v));
        }
        if node_has(t, node_at(t, right), h, k, v) {
            assert(node_has(u, node_at(u, root.ptrs[1]), h, k, v));
        }
    }
}

/// Whether the subtree below `n` stores a value under key `k`.
pub open spec fn present(s: Store, n: NodeView, h: nat, k: u64) -> bool {
    exists|v: u64| node_has(s, n, h, k, v)
}

/// Whether the subtree stores a value under every key from `a` up to, but
/// not including, `b`.
pub open spec fn dense(s: Store, n: NodeView, h: nat, a: int, b: int) -> bool {
    forall|k: u64| a <= k < b ==> #[trigger] present(s, n, h, k)
}

/// Whether every key of the subtree is less than `c`.
pub open spec fn all_below(s: Store, n: NodeView, h: nat, c: int) -> bool {
    forall|k: u64, v: u64| #[trigger] node_has(s, n, h, k, v) ==> k < c
}

/// What a key stored below a slot of an internal node is to the node: a key
/// that the node stores.
pub proof fn lemma_present_up(s: Store, n: NodeView, h: nat, g: nat, i: int, k: u64)
    requires
        h > 0,
        g == h - 1,
        0 <= i < n.ids.len(),
        present(s, node_at(s, n.ptrs[i]), g, k),
    ensures
        present(s, n, h, k),
{
    let v = choose|v: u64| node_has(s, node_at(s, n.ptrs[i]), g, k, v);
    assert(node_has(s, node_at(s, n.ptrs[i]), g, k, v));
    assert(node_has(s, n, h, k, v));
}

/// A key that lies below the key of slot `i`, while every key below the
/// slots before `i` lies below it, is not stored below the node.
pub proof fn lemma_gap_before(
    s: Store,
    n: NodeView,
    h: nat,
    g: nat,
    lo: int,
    hi: int,
    i: int,
    c: u64,
)
    requires
        h > 0,
        g == h - 1,
        node_body(s, n, h, lo, hi),
        0 <= i <= n.ids.len(),
        i < n.ids.len() ==> c < n.ids[i],
        i == n.ids.len() ==> c >= hi,
        forall|j: int|
            0 <= j < i ==> all_below(s, node_at(s, #[trigger] n.ptrs[j]), g, c as int),
    ensures
        !present(s, n, h, c),
{
    if present(s, n, h, c) {
        let v = choose|v: u64| node_has(s, n, h, c, v);
        let j = choose|j: int|
            0 <= j < n.ids.len() && node_has(s, node_at(s, #[trigger] n.ptrs[j]), g, c, v);
        lemma_slot(s, n, h, lo, hi, c, v, j);
        if j < i {
            assert(all_below(s, node_at(s, n.ptrs[j]), g, c as int));
        } else {
            assert(i == j || n.ids[i] < n.ids[j]);
        }
    }
}

/// A key that is not stored below slot `i`, lies below the slot's upper
/// bound, and is no less than any key below the slots before `i`, is not
/// stored below the node.
pub proof fn lemma_gap_within(
    s: Store,
    n: NodeView,
    h: nat,
    g: nat,
    lo: int,
    hi: int,
    i: int,
    c: u64,
    gap: u64,
)
    requires
        h > 0,
        g == h - 1,
        node_body(s, n, h, lo, hi),
        0 <= i < n.ids.len(),
        c <= gap < upper(n.ids, i, hi),
        !present(s, node_at(s, n.ptrs[i]), g, gap),
        forall|j: int|
            0 <= j < i ==> all_below(s, node_at(s, #[trigger] n.ptrs[j]), g, c as int),
    ensures
        !present(s, n, h, gap),
{
    if present(s, n, h, gap) {
        let v = choose|v: u64| node_has(s, n, h, gap, v);
        let j = choose|j: int|
            0 <= j < n.ids.len() && node_has(s, node_at(s, #[trigger] n.ptrs[j]), g, gap, v);
        lemma_slot(s, n, h, lo, hi, gap, v, j);
        if j < i {
            assert(all_below(s, node_at(s, n.ptrs[j]), g, c as int));
        } else if j > i {
            assert(i + 1 == j || n.ids[i + 1] < n.ids[j]);
        } else {
            assert(node_has(s, node_at(s, n.ptrs[i]), g, gap, v));
        }
    }
}

/// Every key of a node lies below a bound that every key below each of its
/// slots lies below.
pub proof fn lemma_all_below(s: Store, n: NodeView, h: nat, g: nat, c: int)
    requires
        h > 0,
        g == h - 1,
        forall|j: int|
            0 <= j < n.ids.len() ==> all_below(s, node_at(s, #[trigger] n.ptrs[j]), g, c),
    ensures
        all_below(s, n, h, c),
{
    assert forall|k: u64, v: u64| #[trigger] node_has(s, n, h, k, v) implies k < c by {
        let j = choose|j: int|
            0 <= j < n.ids.len() && node_has(s, node_at(s, #[trigger] n.ptrs[j]), g, k, v);
        assert(all_below(s, node_at(s, n.ptrs[j]), g, c));
    }
}

/// A subtree on a page with keys in a range is one with keys in any wider
/// range.
pub proof fn lemma_child_widen(s: Store, c: u64, h: nat, lo: int, hi: int, lo2: int, hi2: int)
    requires
        child_ok(s, c, h, lo, hi),
        lo2 <= lo,
        hi <= hi2,
    ensures
        child_ok(s, c, h, lo2, hi2),
{
    lemma_widen(s, node_at(s, c), h, lo, hi, lo2, hi2);
}

/// Two nodes of one height, the keys of the first below those of the second,
/// make one node when the entries of the second are put after those of the
/// first; it stores what the two stored.
pub proof fn lemma_concat(
    s: Store,
    a: NodeView,
    b: NodeView,
    m: NodeView,
    h: nat,
    lo: int,
    mid: int,
    hi: int,
)
    requires
        node_body(s, a, h, lo, mid),
        node_body(s, b, h, mid, hi),
        a.ids.len() >= 1,
        b.ids.len() >= 1,
        m.node_type == a.node_type,
        m.ids == a.ids + b.ids,
        m.ptrs == a.ptrs + b.ptrs,
    ensures
        node_body(s, m, h, lo, hi),
        forall|k: u64, v: u64|
            node_has(s, m, h, k, v) == (node_has(s, a, h, k, v) || node_has(s, b, h, k, v)),
{
    let la = a.ids.len() as int;
    assert forall|i: int| 0 <= i < m.ids.len() implies #[trigger] m.ids[i] == (if i < la {
        a.ids[i]
    } else {
        b.ids[i - la]
    }) by {}
    assert forall|i: int| 0 <= i < m.ptrs.len() implies #[trigger] m.ptrs[i] == (if i < la {
        a.ptrs[i]
    } else {
        b.ptrs[i - la]
    }) by {}
    assert forall|i: int, j: int| 0 <= i < j < m.ids.len() implies m.ids[i] < m.ids[j] by {
        if j < la {
            assert(a.ids[i] < a.ids[j]);
        } else if i >= la {
            assert(b.ids[i - la] < b.ids[j - la]);
        } else {
            assert(a.ids[i] < mid);
            assert(mid <= b.ids[j - la]);
        }
    }
    assert forall|i: int| 0 <= i < m.ids.len() implies lo <= #[trigger] m.ids[i] < hi by {
        if i < la {
            assert(lo <= a.ids[i] < mid);
            assert(mid <= b.ids[0] < hi);
        } else {
            assert(mid <= b.ids[i - la] < hi);
            assert(lo <= a.ids[0] < mid);
        }
    }
    if h > 0 {
        let g = (h - 1) as nat;
        assert forall|i: int| 0 <= i < m.ids.len() implies child_ok(
            s,
            #[trigger] m.ptrs[i],
            g,
            m.ids[i] as int,
            upper(m.ids, i, hi),
        ) by {
            if i < la {
                assert(child_ok(s, a.ptrs[i], g, a.ids[i] as int, upper(a.ids, i, mid)));
                if i + 1 < la {
                    assert(m.ids[i + 1] == a.ids[i + 1]);
                } else {
                    assert(m.ids[i + 1] == b.ids[0]);
                    assert(mid <= b.ids[0]);
                    lemma_child_widen(
                        s,
                        a.ptrs[i],
                        g,
                        a.ids[i] as int,
                        mid,
                        a.ids[i] as int,
                        b.ids[0] as int,
                    );
                }
            } else {
                assert(child_ok(
                    s,
                    b.ptrs[i - la],
                    g,
                    b.ids[i - la] as int,
                    upper(b.ids, i - la, hi),
                ));
                if i + 1 < m.ids.len() {
                    assert(m.ids[i + 1] == b.ids[i + 1 - la]);
                }
            }
        }
    }
    assert forall|k: u64, v: u64|
        node_has(s, m, h, k, v) == (node_has(s, a, h, k, v) || node_has(s, b, h, k, v)) by {
        if h == 0 {
            if node_has(s, m, h, k, v) {
                let i = choose|i: int|
                    0 <= i < m.ids.len() && #[trigger] m.ids[i] == k && m.ptrs[i] == v;
                if i < la {
                    assert(a.ids[i] == k && a.ptrs[i] == v);
                } else {
                    assert(b.ids[i - la] == k && b.ptrs[i - la] == v);
                }
            }
            if node_has(s, a, h, k, v) {
                let i = choose|i: int|
                    0 <= i < a.ids.len() && #[trigger] a.ids[i] == k && a.ptrs[i] == v;
                assert(m.ids[i] == k && m.ptrs[i] == v);
            }
            if node_has(s, b, h, k, v) {
                let i = choose|i: int|
                    0 <= i < b.ids.len() && #[trigger] b.ids[i] == k && b.ptrs[i] == v;
                assert(m.ids[i + la] == k && m.ptrs[i + la] == v);
            }
        } else {
            let g = (h - 1) as nat;
            if node_has(s, m, h, k, v) {
                let i = choose|i: int|
                    0 <= i < m.ids.len() && node_has(s, node_at(s, #[trigger] m.ptrs[i]), g, k, v);
                if i < la {
                    assert(a.ptrs[i] == m.ptrs[i]);
                } else {
                    assert(b.ptrs[i - la] == m.ptrs[i]);
                }
            }
            if node_has(s, a, h, k, v) {
                let i = choose|i: int|
                    0 <= i < a.ids.len() && node_has(s, node_at(s, #[trigger] a.ptrs[i]), g, k, v);
                assert(m.ptrs[i] == a.ptrs[i]);
            }
            if node_has(s, b, h, k, v) {
                let i = choose|i: int|
                    0 <= i < b.ids.len() && node_has(s, node_at(s, #[trigger] b.ptrs[i]), g, k, v);
                assert(m.ptrs[i + la] == b.ptrs[i]);
            }
        }
    }
}

/// Whether `slot` is the slot of an internal node that a search for `id`
/// goes below: the first that is the last, or whose key is at most `id`
/// while the next key is greater.
pub open spec fn selects(ids: Seq<u64>, id: u64, slot: int) -> bool {
    &&& 0 <= slot < ids.len()
    &&& forall|j: int| 0 <= j < slot ==> !#[trigger] between(ids, j, id)
    &&& slot + 1 < ids.len() ==> between(ids, slot, id)
}

/// Whether `id` lies between the key at `j` and the next: no less than the
/// one, and less than the other.
pub open spec fn between(ids: Seq<u64>, j: int, id: u64) -> bool {
    ids[j] <= id && id < ids[j + 1]
}

/// A key that is stored below an internal node is stored below the slot
/// that a search for it goes below.
pub proof fn lemma_selected(
    s: Store,
    n: NodeView,
    h: nat,
    g: nat,
    lo: int,
    hi: int,
    id: u64,
    v: u64,
    slot: int,
    j: int,
)
    requires
        h > 0,
        g == h - 1,
        node_body(s, n, h, lo, hi),
        selects(n.ids, id, slot),
        0 <= j < n.ids.len(),
        node_has(s, node_at(s, n.ptrs[j]), g, id, v),
    ensures
        j == slot,
{
    lemma_slot(s, n, h, lo, hi, id, v, j);
    if j < slot {
        assert(!between(n.ids, j, id));
    }
    if slot < j {
        assert(slot + 1 == j || n.ids[slot + 1] < n.ids[j]);
    }
}

/// A leaf without the entry at `pos` stores what it stored but for the key of
/// that entry.
pub proof fn lemma_leaf_remove(s: Store, n: NodeView, m: NodeView, lo: int, hi: int, pos: int)
    requires
        node_body(s, n, 0, lo, hi),
        0 <= pos < n.ids.len(),
        m.node_type == n.node_type,
        m.ids == n.ids.remove(pos),
        m.ptrs == n.ptrs.remove(pos),
    ensures
        node_body(s, m, 0, lo, hi),
        forall|k: u64, v: u64|
            node_has(s, m, 0, k, v) == (node_has(s, n, 0, k, v) && k != n.ids[pos]),
{
    assert forall|i: int| 0 <= i < m.ids.len() implies #[trigger] m.ids[i] == (if i < pos {
        n.ids[i]
    } else {
        n.ids[i + 1]
    }) && m.ptrs[i] == (if i < pos {
        n.ptrs[i]
    } else {
        n.ptrs[i + 1]
    }) by {}
    assert forall|i: int, j: int| 0 <= i < j < m.ids.len() implies m.ids[i] < m.ids[j] by {
        let a = if i < pos { i } else { i + 1 };
        let b = if j < pos { j } else { j + 1 };
        assert(n.ids[a] < n.ids[b]);
    }
    assert forall|i: int| 0 <= i < m.ids.len() implies lo <= #[trigger] m.ids[i] < hi by {
        let a = if i < pos { i } else { i + 1 };
        assert(lo <= n.ids[a] < hi);
    }
    assert forall|k: u64, v: u64|
        node_has(s, m, 0, k, v) == (node_has(s, n, 0, k, v) && k != n.ids[pos]) by {
        if node_has(s, n, 0, k, v) && k != n.ids[pos] {
            let i = choose|i: int|
                0 <= i < n.ids.len() && #[trigger] n.ids[i] == k && n.ptrs[i] == v;
            let j = if i < pos { i } else { i - 1 };
            assert(m.ids[j] == k && m.ptrs[j] == v);
        }
        if node_has(s, m, 0, k, v) {
            let j = choose|j: int|
                0 <= j < m.ids.len() && #[trigger] m.ids[j] == k && m.ptrs[j] == v;
            let i = if j < pos { j } else { j + 1 };
            assert(n.ids[i] == k && n.ptrs[i] == v);
            if i < pos {
                assert(n.ids[i] < n.ids[pos]);
            } else {
                assert(n.ids[pos] < n.ids[i]);
            }
        }
    }
}

} // verus!
