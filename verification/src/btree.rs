//! The B-tree index: an ordered map from 64-bit keys to 64-bit values, one
//! node to a page.
//!
//! Layout of a node page: byte 0 is the type tag (internal or leaf), byte 1
//! the number of entries, and entry `i` takes bytes `16 * (i + 1)` to
//! `16 * (i + 2)`: the key and then the pointer, eight bytes each, most
//! significant byte first. In a leaf the pointer is the value stored under the
//! key; in an internal node it is the page count of a child, and the key is a
//! lower bound of the keys below that child.

use vstd::prelude::*;
use crate::codec::{
    lemma_u64_round_trip, spec_u64_from_be, spec_u64_to_be, u64_from_be, u64_to_be, write_bytes,
};
use crate::device::Device;
use crate::error::Error;
use crate::manage::{
    first_free, image, is_reserved, kept, lemma_kept, lemma_kept_trans, page_used, room,
    same_except, taken, untouched, PageManage, Store,
};
use crate::room::{lemma_first_free_free, lemma_room_bits, lemma_taken_bits, one_more};
use crate::page::{PAGE_SIZE, PAGE_TYPEID_BTREE_INTERNAL, PAGE_TYPEID_BTREE_LEAF, PageType};
use crate::tree::{
    after_child_insert, all_below, between, child_ok, dense, is_node_image, key_end, least,
    lemma_absent, lemma_all_below, lemma_below, lemma_frame, lemma_gap_before, lemma_gap_within,
    lemma_grown, lemma_height, lemma_insert_body, lemma_insert_has, lemma_insert_siblings,
    lemma_kept_frame, lemma_leaf_add, lemma_not_below, lemma_not_below_by_child, lemma_others_grown,
    lemma_others_up, lemma_outside_kept, lemma_present_up, lemma_root_split, lemma_same_page,
    lemma_selected, lemma_split, lemma_subtree_kept, lemma_unique, lemma_widen, may_hold, node_at,
    node_body, node_has, node_ok, others_kept, outside_kept, present, selects, sorted, split_root,
    upper, used_kept,
};

verus! {

/// The fanout: a node that reaches this many entries on insertion is split.
pub const MAX_IDS: usize = 254;

/// The bytes of one entry in a node page.
pub const UNIT_SIZE: usize = 16;

/// The most entries that a node page can hold.
pub const NODE_CAPACITY: usize = 255;

/// What a scan for an unused key found.
pub enum Scan {
    /// The key is not stored, and every key from the candidate up to it is.
    Gap(u64),
    /// Every key of the subtree lies below the key, and every key from the
    /// candidate up to it is stored.
    Run(u64),
    /// Every key from the candidate on is stored.
    Full,
}

/// A B-tree node in memory.
pub struct BtreeNode {
    pub page_count: u64,
    pub ids: Vec<u64>,
    pub ptrs: Vec<u64>,
    pub node_type: u8,
}

/// What a node holds, apart from where it is stored.
pub struct NodeView {
    pub node_type: u8,
    pub ids: Seq<u64>,
    pub ptrs: Seq<u64>,
}

impl View for BtreeNode {
    type V = NodeView;

    open spec fn view(&self) -> NodeView {
        NodeView { node_type: self.node_type, ids: self.ids@, ptrs: self.ptrs@ }
    }
}

impl NodeView {
    /// As many pointers as keys, and no more than fit into a page.
    pub open spec fn wf(self) -> bool {
        self.ids.len() == self.ptrs.len() && self.ids.len() <= NODE_CAPACITY
    }

    /// The page image of the node.
    pub open spec fn dump(self) -> Seq<u8> {
        Seq::new(
            PAGE_SIZE as nat,
            |j: int|
                if j == 0 {
                    self.node_type
                } else if j == 1 {
                    self.ids.len() as u8
                } else if 16 <= j < 16 * (self.ids.len() + 1) {
                    if j % 16 < 8 {
                        spec_u64_to_be(self.ids[j / 16 - 1])[j % 16]
                    } else {
                        spec_u64_to_be(self.ptrs[j / 16 - 1])[j % 16 - 8]
                    }
                } else {
                    0u8
                },
        )
    }

    /// The node that a page image holds.
    pub open spec fn load(bytes: Seq<u8>) -> NodeView {
        NodeView {
            node_type: bytes[0],
            ids: Seq::new(
                bytes[1] as nat,
                |i: int| spec_u64_from_be(bytes.subrange(16 * (i + 1), 16 * (i + 1) + 8)),
            ),
            ptrs: Seq::new(
                bytes[1] as nat,
                |i: int| spec_u64_from_be(bytes.subrange(16 * (i + 1) + 8, 16 * (i + 1) + 16)),
            ),
        }
    }

    /// Loading the image of a node gives the node back.
    pub proof fn lemma_round_trip(self)
        requires
            self.wf(),
        ensures
            self.dump().len() == PAGE_SIZE,
            NodeView::load(self.dump()) == self,
    {
        let bytes = self.dump();
        let back = NodeView::load(bytes);
        assert forall|i: int| 0 <= i < self.ids.len() implies back.ids[i] == self.ids[i]
            && back.ptrs[i] == self.ptrs[i] by {
            lemma_u64_round_trip(self.ids[i]);
            lemma_u64_round_trip(self.ptrs[i]);
            assert(bytes.subrange(16 * (i + 1), 16 * (i + 1) + 8) =~= spec_u64_to_be(
                self.ids[i],
            )) by {
                assert forall|b: int| 0 <= b < 8 implies bytes[16 * (i + 1) + b] == spec_u64_to_be(
                    self.ids[i],
                )[b] by {
                    let j = 16 * (i + 1) + b;
                    assert(j / 16 - 1 == i && j % 16 == b);
                }
            }
            assert(bytes.subrange(16 * (i + 1) + 8, 16 * (i + 1) + 16) =~= spec_u64_to_be(
                self.ptrs[i],
            )) by {
                assert forall|b: int| 0 <= b < 8 implies bytes[16 * (i + 1) + 8 + b]
                    == spec_u64_to_be(self.ptrs[i])[b] by {
                    let j = 16 * (i + 1) + 8 + b;
                    assert(j / 16 - 1 == i && j % 16 == b + 8);
                }
            }
        }
        assert(back.ids =~= self.ids);
        assert(back.ptrs =~= self.ptrs);
    }
}

impl BtreeNode {
    /// As many pointers as keys, and no more than fit into a page.
    pub open spec fn wf(&self) -> bool {
        self@.wf()
    }

    /// The node stored in `page`, known to live at `page_count`.
    pub fn new(page_count: u64, page: &[u8; PAGE_SIZE]) -> (node: BtreeNode)
        ensures
            node.page_count == page_count,
            node@ == NodeView::load(page@),
            node.wf(),
    {
        let mut node = Self::load(page);
        node.page_count = page_count;
        node
    }

    /// An empty node of the given type, at page count zero.
    pub fn new_node(node_type: u8) -> (node: BtreeNode)
        ensures
            node.page_count == 0,
            node.node_type == node_type,
            node.ids@.len() == 0,
            node.ptrs@.len() == 0,
    {
        BtreeNode { page_count: 0, ids: Vec::new(), ptrs: Vec::new(), node_type }
    }

    /// Reads the node that a page image holds; its page count is left zero.
    pub fn load(page: &[u8; PAGE_SIZE]) -> (node: BtreeNode)
        ensures
            node.page_count == 0,
            node@ == NodeView::load(page@),
            node.wf(),
    {
        let mut node = Self::new_node(page[0]);
        let id_count: usize = page[1] as usize;
        let mut i: usize = 0;
        while i < id_count
            invariant
                i <= id_count <= 255,
                id_count == page@[1],
                node.page_count == 0,
                node.node_type == page@[0],
                node.ids@ == NodeView::load(page@).ids.take(i as int),
                node.ptrs@ == NodeView::load(page@).ptrs.take(i as int),
            decreases id_count - i,
        {
            let id: u64 = u64_from_be(page, UNIT_SIZE * (i + 1));
            let ptr: u64 = u64_from_be(page, UNIT_SIZE * (i + 1) + 8);
            node.ids.push(id);
            node.ptrs.push(ptr);
            proof {
                let full = NodeView::load(page@);
                assert(node.ids@ =~= full.ids.take(i + 1));
                assert(node.ptrs@ =~= full.ptrs.take(i + 1));
            }
            i += 1;
        }
        proof {
            let full = NodeView::load(page@);
            assert(node.ids@ =~= full.ids);
            assert(node.ptrs@ =~= full.ptrs);
        }
        node
    }

    /// The page image of the node.
    pub fn dump(&self) -> (page: [u8; PAGE_SIZE])
        requires
            self.wf(),
        ensures
            page@ == self@.dump(),
    {
        let mut page: [u8; PAGE_SIZE] = [0u8; PAGE_SIZE];
        page[0] = self.node_type;
        page[1] = self.ids.len() as u8;
        let mut i: usize = 0;
        while i < self.ids.len()
            invariant
                self.wf(),
                i <= self.ids@.len(),
                forall|j: int|
                    0 <= j < PAGE_SIZE ==> page@[j] == (if j < 16 * (i + 1) {
                        self@.dump()[j]
                    } else {
                        0u8
                    }),
            decreases self.ids@.len() - i,
        {
            let ghost before = page@;
            write_bytes(&mut page, UNIT_SIZE * (i + 1), &u64_to_be(self.ids[i]));
            write_bytes(&mut page, UNIT_SIZE * (i + 1) + 8, &u64_to_be(self.ptrs[i]));
            proof {
                assert forall|j: int| 0 <= j < PAGE_SIZE implies page@[j] == (if j < 16 * (i + 2) {
                    self@.dump()[j]
                } else {
                    0u8
                }) by {
                    if 16 * (i + 1) <= j < 16 * (i + 2) {
                        assert(j / 16 - 1 == i);
                    }
                }
            }
            i += 1;
        }
        assert(page@ =~= self@.dump());
        page
    }

    /// Whether the node has children.
    pub fn is_internal(&self) -> (b: bool)
        ensures
            b == (self.node_type == PAGE_TYPEID_BTREE_INTERNAL),
    {
        self.node_type == PAGE_TYPEID_BTREE_INTERNAL
    }

    /// Whether the node holds values.
    pub fn is_leaf(&self) -> (b: bool)
        ensures
            b == (self.node_type == PAGE_TYPEID_BTREE_LEAF),
    {
        self.node_type == PAGE_TYPEID_BTREE_LEAF
    }

    /// The number of entries.
    pub fn len(&self) -> (n: usize)
        ensures
            n == self.ids@.len(),
    {
        self.ids.len()
    }

    /// Whether the node has no entry.
    pub fn is_empty(&self) -> (b: bool)
        ensures
            b == (self.ids@.len() == 0),
    {
        self.len() == 0
    }

    /// Appends an entry.
    pub fn push(&mut self, id: u64, ptr: u64)
        ensures
            final(self).ids@ == old(self).ids@.push(id),
            final(self).ptrs@ == old(self).ptrs@.push(ptr),
            final(self).node_type == old(self).node_type,
            final(self).page_count == old(self).page_count,
    {
        self.ids.push(id);
        self.ptrs.push(ptr);
    }

    /// Puts an entry in at `index`.
    pub fn insert(&mut self, index: usize, id: u64, ptr: u64)
        requires
            index <= old(self).ids@.len(),
            index <= old(self).ptrs@.len(),
        ensures
            final(self).ids@ == old(self).ids@.insert(index as int, id),
            final(self).ptrs@ == old(self).ptrs@.insert(index as int, ptr),
            final(self).node_type == old(self).node_type,
            final(self).page_count == old(self).page_count,
    {
        self.ids.insert(index, id);
        self.ptrs.insert(index, ptr);
    }

    /// Takes the entry at `index` out.
    pub fn remove(&mut self, index: usize)
        requires
            index < old(self).ids@.len(),
            index < old(self).ptrs@.len(),
        ensures
            final(self).ids@ == old(self).ids@.remove(index as int),
            final(self).ptrs@ == old(self).ptrs@.remove(index as int),
            final(self).node_type == old(self).node_type,
            final(self).page_count == old(self).page_count,
    {
        self.ids.remove(index);
        self.ptrs.remove(index);
    }

    /// Takes every entry out.
    pub fn clear(&mut self)
        ensures
            final(self).ids@.len() == 0,
            final(self).ptrs@.len() == 0,
            final(self).node_type == old(self).node_type,
            final(self).page_count == old(self).page_count,
    {
        self.ids.clear();
        self.ptrs.clear();
    }
}

impl BtreeNode {
    /// Whether this node is the root of a tree of height `h` in the store:
    /// the tree is in order below it, and its own page, which is allocated,
    /// holds it.
    pub open spec fn tree_at(&self, s: Store, h: nat) -> bool {
        &&& node_ok(s, self@, h, 0, key_end())
        &&& s.contains_key(self.page_count)
        &&& !is_reserved(self.page_count)
        &&& page_used(s, self.page_count)
        &&& node_at(s, self.page_count) == self@
    }

    /// Whether this node is the root of a tree in the store.
    pub open spec fn is_tree(&self, s: Store) -> bool {
        exists|h: nat| self.tree_at(s, h)
    }

    /// The height of the tree below this node.
    pub open spec fn height(&self, s: Store) -> nat {
        choose|h: nat| self.tree_at(s, h)
    }

    /// Whether the tree stores value `v` under key `k`.
    pub open spec fn has(&self, s: Store, k: u64, v: u64) -> bool {
        node_has(s, self@, self.height(s), k, v)
    }

    /// The contents of the tree: the value stored under each key.
    pub open spec fn entries(&self, s: Store) -> Map<u64, u64> {
        Map::new(
            |k: u64| exists|v: u64| self.has(s, k, v),
            |k: u64| choose|v: u64| self.has(s, k, v),
        )
    }

    /// The contents of a tree are the pairs that it stores, one value to a
    /// key, and its height is the one at which it is in order.
    pub proof fn lemma_entries(&self, s: Store, h: nat)
        requires
            self.tree_at(s, h),
        ensures
            self.is_tree(s),
            self.height(s) == h,
            forall|k: u64, v: u64|
                #![trigger node_has(s, self@, h, k, v)]
                node_has(s, self@, h, k, v) <==> self.entries(s).contains_key(k)
                    && self.entries(s)[k] == v,
    {
        let g = self.height(s);
        lemma_height(s, self@, h, 0, key_end(), g, 0, key_end());
        assert forall|k: u64, v: u64|
            #![trigger node_has(s, self@, h, k, v)]
            node_has(s, self@, h, k, v) <==> self.entries(s).contains_key(k) && self.entries(
                s,
            )[k] == v by {
            if node_has(s, self@, h, k, v) {
                assert(self.has(s, k, v));
                let w = choose|w: u64| self.has(s, k, w);
                lemma_unique(s, self@, h, 0, key_end(), k, v, w);
            }
        }
    }

    /// A tree whose allocated pages are all kept is the same tree afterwards.
    pub proof fn lemma_tree_kept(&self, s: Store, t: Store)
        requires
            self.is_tree(s),
            kept(s, t, Set::empty()),
        ensures
            self.is_tree(t),
            self.height(t) == self.height(s),
            self.entries(t) == self.entries(s),
    {
        let h = self.height(s);
        lemma_kept_frame(s, t, self@, h, 0, key_end());
        assert(untouched(s, t, self.page_count));
        assert(self.tree_at(t, h));
        self.lemma_entries(s, h);
        self.lemma_entries(t, h);
        assert forall|k: u64| self.entries(t).contains_key(k) implies self.entries(
            s,
        ).contains_key(k) && self.entries(s)[k] == self.entries(t)[k] by {
            let v = self.entries(t)[k];
            assert(node_has(t, self@, h, k, v));
            assert(node_has(s, self@, h, k, v));
        }
        assert forall|k: u64| self.entries(s).contains_key(k) implies self.entries(
            t,
        ).contains_key(k) by {
            let v = self.entries(s)[k];
            assert(node_has(s, self@, h, k, v));
            assert(node_has(t, self@, h, k, v));
        }
        assert(self.entries(t) =~= self.entries(s));
    }

    /// Loads the child at `slot` of an internal node.
    pub(crate) fn load_child(
        &self,
        device: &mut Device,
        mgr: &mut PageManage,
        slot: usize,
        Ghost(h): Ghost<nat>,
        Ghost(lo): Ghost<int>,
        Ghost(hi): Ghost<int>,
    ) -> (child: BtreeNode)
        requires
            old(mgr).wf(old(device)),
            h > 0,
            node_ok(old(mgr).store(old(device)), self@, h, lo, hi),
            slot < self.ids@.len(),
        ensures
            final(mgr).wf(final(device)),
            final(mgr).capacity() == old(mgr).capacity(),
            final(device).limit() == old(device).limit(),
            same_except(
                old(mgr).store(old(device)),
                final(mgr).store(final(device)),
                Set::empty(),
            ),
            kept(old(mgr).store(old(device)), final(mgr).store(final(device)), Set::empty()),
            child.page_count == self.ptrs@[slot as int],
            child@ == node_at(old(mgr).store(old(device)), self.ptrs@[slot as int]),
            child@ == node_at(final(mgr).store(final(device)), self.ptrs@[slot as int]),
            child.wf(),
    {
        let ghost s = mgr.store(device);
        let count: u64 = self.ptrs[slot];
        proof {
            assert(child_ok(
                s,
                self@.ptrs[slot as int],
                (h - 1) as nat,
                self@.ids[slot as int] as int,
                upper(self@.ids, slot as int, hi),
            ));
        }
        let child = match mgr.get_data(device, count) {
            Ok(data) => Self::new(count, &data),
            Err(_) => {
                proof {
                    assert(false);
                }
                Self::new_node(0)
            },
        };
        proof {
            lemma_kept(s, mgr.store(device), Set::empty());
        }
        child
    }

    /// The slot of an internal node that a search for `id` goes below.
    pub(crate) fn select(&self, id: u64) -> (slot: usize)
        requires
            self.ids@.len() >= 1,
        ensures
            selects(self.ids@, id, slot as int),
    {
        let n: usize = self.ids.len();
        let mut slot: usize = 0;
        let mut found: bool = false;
        while slot + 1 < n && !found
            invariant
                n == self.ids@.len(),
                n >= 1,
                slot < n,
                forall|j: int|
                    0 <= j < slot ==> !#[trigger] between(self.ids@, j, id),
                found ==> slot + 1 < n && self.ids@[slot as int] <= id && id
                    < self.ids@[slot + 1],
            decreases n - slot + (if found { 0int } else { 1int }),
        {
            if self.ids[slot] <= id && id < self.ids[slot + 1] {
                found = true;
            } else {
                slot += 1;
            }
        }
        slot
    }

    /// Searches the subtree below `node` for key `id`.
    fn find_in(
        node: &BtreeNode,
        device: &mut Device,
        mgr: &mut PageManage,
        id: u64,
        Ghost(h): Ghost<nat>,
        Ghost(lo): Ghost<int>,
        Ghost(hi): Ghost<int>,
    ) -> (r: Option<u64>)
        requires
            old(mgr).wf(old(device)),
            node_ok(old(mgr).store(old(device)), node@, h, lo, hi),
        ensures
            final(mgr).wf(final(device)),
            final(mgr).capacity() == old(mgr).capacity(),
            final(device).limit() == old(device).limit(),
            same_except(
                old(mgr).store(old(device)),
                final(mgr).store(final(device)),
                Set::empty(),
            ),
            match r {
                Some(v) => node_has(old(mgr).store(old(device)), node@, h, id, v),
                None => forall|v: u64| !node_has(old(mgr).store(old(device)), node@, h, id, v),
            },
        decreases h,
    {
        let ghost s = mgr.store(device);
        if node.is_internal() {
            let slot = node.select(id);
            let ghost g = (h - 1) as nat;
            let ghost lo_c = node@.ids[slot as int] as int;
            let ghost hi_c = upper(node@.ids, slot as int, hi);
            let child = node.load_child(device, mgr, slot, Ghost(h), Ghost(lo), Ghost(hi));
            let ghost t1 = mgr.store(device);
            proof {
                assert(child_ok(s, node@.ptrs[slot as int], g, lo_c, hi_c));
                lemma_kept_frame(s, t1, child@, g, lo_c, hi_c);
            }
            let r = Self::find_in(&child, device, mgr, id, Ghost(g), Ghost(lo_c), Ghost(hi_c));
            proof {
                match r {
                    Some(v) => {
                        assert(node_has(s, node_at(s, node@.ptrs[slot as int]), g, id, v));
                    },
                    None => {
                        assert forall|v: u64| !node_has(s, node@, h, id, v) by {
                            if node_has(s, node@, h, id, v) {
                                let j = choose|j: int|
                                    0 <= j < node@.ids.len() && node_has(
                                        s,
                                        node_at(s, #[trigger] node@.ptrs[j]),
                                        g,
                                        id,
                                        v,
                                    );
                                lemma_selected(s, node@, h, g, lo, hi, id, v, slot as int, j);
                                assert(node_has(t1, child@, g, id, v));
                            }
                        }
                    },
                }
            }
            r
        } else {
            let mut i: usize = 0;
            while i < node.ids.len()
                invariant
                    *mgr == *old(mgr),
                    *device == *old(device),
                    old(mgr).wf(old(device)),
                    h == 0,
                    i <= node.ids@.len(),
                    node.ids@.len() == node.ptrs@.len(),
                    forall|j: int| 0 <= j < i ==> node.ids@[j] != id,
                decreases node.ids@.len() - i,
            {
                if id == node.ids[i] {
                    proof {
                        assert(node@.ids[i as int] == id && node@.ptrs[i as int] == node.ptrs@[i as int]);
                    }
                    return Some(node.ptrs[i]);
                }
                i += 1;
            }
            None
        }
    }

    /// The value stored under key `id`, if there is one. At an internal node
    /// the search goes below the first slot that is the last, or whose key is
    /// at most `id` while the next key is greater.
    pub fn find_id(&self, device: &mut Device, mgr: &mut PageManage, id: u64) -> (r: Option<u64>)
        requires
            old(mgr).wf(old(device)),
            self.is_tree(old(mgr).store(old(device))),
        ensures
            final(mgr).wf(final(device)),
            final(mgr).capacity() == old(mgr).capacity(),
            final(device).limit() == old(device).limit(),
            same_except(
                old(mgr).store(old(device)),
                final(mgr).store(final(device)),
                Set::empty(),
            ),
            self.is_tree(final(mgr).store(final(device))),
            self.entries(final(mgr).store(final(device))) == self.entries(
                old(mgr).store(old(device)),
            ),
            r == (if self.entries(old(mgr).store(old(device))).contains_key(id) {
                Some(self.entries(old(mgr).store(old(device)))[id])
            } else {
                None
            }),
    {
        let ghost s = mgr.store(device);
        let ghost h = self.height(s);
        let r = Self::find_in(self, device, mgr, id, Ghost(h), Ghost(0), Ghost(key_end()));
        proof {
            self.lemma_entries(s, h);
            lemma_kept(s, mgr.store(device), Set::empty());
            self.lemma_tree_kept(s, mgr.store(device));
            match r {
                Some(v) => {
                    assert(node_has(s, self@, h, id, v));
                },
                None => {
                    if self.entries(s).contains_key(id) {
                        assert(node_has(s, self@, h, id, self.entries(s)[id]));
                    }
                },
            }
        }
        r
    }
}

impl BtreeNode {
    /// Writes the node to its page.
    pub(crate) fn store(&self, device: &mut Device, mgr: &mut PageManage)
        requires
            old(mgr).wf(old(device)),
            self.wf(),
            old(mgr).store(old(device)).contains_key(self.page_count),
            !is_reserved(self.page_count),
        ensures
            final(mgr).wf(final(device)),
            final(mgr).capacity() == old(mgr).capacity(),
            final(device).limit() == old(device).limit(),
            final(mgr).store(final(device)).contains_key(self.page_count),
            final(mgr).store(final(device))[self.page_count] == self@.dump(),
            node_at(final(mgr).store(final(device)), self.page_count) == self@,
            same_except(
                old(mgr).store(old(device)),
                final(mgr).store(final(device)),
                set![self.page_count],
            ),
            kept(
                old(mgr).store(old(device)),
                final(mgr).store(final(device)),
                set![self.page_count],
            ),
            forall|p: u64|
                #[trigger] page_used(final(mgr).store(final(device)), p) == page_used(
                    old(mgr).store(old(device)),
                    p,
                ),
    {
        let ghost s = mgr.store(device);
        let data = self.dump();
        let r = mgr.modify(device, self.page_count, &data);
        proof {
            assert(r is Ok);
            lemma_kept(s, mgr.store(device), set![self.page_count]);
            self@.lemma_round_trip();
        }
    }

    /// Puts an entry in where the keys stay in order, and returns its place.
    pub fn add(&mut self, id: u64, ptr: u64) -> (pos: usize)
        requires
            old(self).ids@.len() == old(self).ptrs@.len(),
            sorted(old(self).ids@),
            forall|i: int| 0 <= i < old(self).ids@.len() ==> old(self).ids@[i] != id,
        ensures
            pos <= old(self).ids@.len(),
            forall|i: int| 0 <= i < pos ==> old(self).ids@[i] < id,
            forall|i: int| pos <= i < old(self).ids@.len() ==> old(self).ids@[i] > id,
            final(self).ids@ == old(self).ids@.insert(pos as int, id),
            final(self).ptrs@ == old(self).ptrs@.insert(pos as int, ptr),
            final(self).node_type == old(self).node_type,
            final(self).page_count == old(self).page_count,
    {
        let mut pos: usize = 0;
        while pos < self.ids.len() && self.ids[pos] < id
            invariant
                *self == *old(self),
                pos <= self.ids@.len(),
                sorted(self.ids@),
                forall|i: int| 0 <= i < pos ==> self.ids@[i] < id,
            decreases self.ids@.len() - pos,
        {
            pos += 1;
        }
        proof {
            assert forall|i: int| pos <= i < self.ids@.len() implies self.ids@[i] > id by {
                if i > pos {
                    assert(self.ids@[pos as int] < self.ids@[i]);
                }
            }
        }
        self.insert(pos, id, ptr);
        pos
    }

    /// Splits the node: the upper half of its entries, half of their number
    /// rounded down, moves to a new node on a newly allocated page, and both
    /// nodes are written. Returns the first key of the new node and its page
    /// count. Fails, with the node as it was, where no page is free.
    pub fn part(&mut self, device: &mut Device, mgr: &mut PageManage) -> (r: Result<(u64, u64), Error>)
        requires
            old(mgr).wf(old(device)),
            old(self).wf(),
            old(self).ids@.len() >= 2,
            old(mgr).store(old(device)).contains_key(old(self).page_count),
            !is_reserved(old(self).page_count),
            page_used(old(mgr).store(old(device)), old(self).page_count),
        ensures
            final(mgr).wf(final(device)),
            final(mgr).capacity() == old(mgr).capacity(),
            final(device).limit() == old(device).limit(),
            final(self).page_count == old(self).page_count,
            final(self).node_type == old(self).node_type,
            match r {
                Ok((sep, right)) => {
                    let s = old(mgr).store(old(device));
                    let t = final(mgr).store(final(device));
                    let keep = old(self).ids@.len() - old(self).ids@.len() / 2;
                    &&& final(self).ids@ == old(self).ids@.take(keep)
                    &&& final(self).ptrs@ == old(self).ptrs@.take(keep)
                    &&& sep == old(self).ids@[keep]
                    &&& t.contains_key(final(self).page_count)
                    &&& t[final(self).page_count] == final(self)@.dump()
                    &&& node_at(t, final(self).page_count) == final(self)@
                    &&& page_used(t, final(self).page_count)
                    &&& t.contains_key(right)
                    &&& !is_reserved(right)
                    &&& page_used(t, right)
                    &&& !page_used(s, right)
                    &&& node_at(t, right) == (NodeView {
                        node_type: old(self).node_type,
                        ids: old(self).ids@.skip(keep),
                        ptrs: old(self).ptrs@.skip(keep),
                    })
                    &&& kept(s, t, set![final(self).page_count])
                    &&& used_kept(s, t)
                    &&& first_free(s, old(device).limit(), 0) == Some(right)
                    &&& forall|d: u64|
                        d != right && !is_reserved(d) ==> #[trigger] page_used(t, d) == page_used(
                            s,
                            d,
                        )
                },
                Err(e) => {
                    &&& e == Error::Io
                    &&& final(self)@ == old(self)@
                    &&& first_free(old(mgr).store(old(device)), old(device).limit(), 0) is None
                    &&& first_free(final(mgr).store(final(device)), final(device).limit(), 0)
                        is None
                    &&& same_except(
                        old(mgr).store(old(device)),
                        final(mgr).store(final(device)),
                        Set::empty(),
                    )
                },
            },
    {
        let ghost s = mgr.store(device);
        let page = match mgr.allocate(device, PageType::BtreePage) {
            Ok(page) => page,
            Err(e) => {
                return Err(e);
            },
        };
        let ghost t1 = mgr.store(device);
        let keep: usize = self.ids.len() - self.ids.len() / 2;
        let mut another = Self::new_node(self.node_type);
        another.page_count = page.count;
        another.ids = self.ids.split_off(keep);
        another.ptrs = self.ptrs.split_off(keep);
        proof {
            assert(untouched(s, t1, self.page_count));
        }
        another.store(device, mgr);
        let ghost t2 = mgr.store(device);
        self.store(device, mgr);
        proof {
            let t = mgr.store(device);
            lemma_kept_trans(s, t1, t2, Set::empty(), set![another.page_count]);
            lemma_kept_trans(
                s,
                t2,
                t,
                Set::<u64>::empty().union(set![another.page_count]),
                set![self.page_count],
            );
            assert forall|p: u64|
                #![trigger untouched(s, t, p)]
                !is_reserved(p) && page_used(s, p) && !set![self.page_count].contains(p)
                implies untouched(s, t, p) by {
                assert(p != another.page_count);
                assert(!Set::<u64>::empty().union(set![another.page_count]).union(
                    set![self.page_count],
                ).contains(p));
            }
            assert(node_at(t, another.page_count) == node_at(t2, another.page_count));
        }
        Ok((another.ids[0], another.page_count))
    }
}

impl BtreeNode {
    /// Brings a node that has just taken an entry to rest: splits it where
    /// it has reached the fanout, else writes it to its page.
    fn settle(
        node: &mut BtreeNode,
        device: &mut Device,
        mgr: &mut PageManage,
        Ghost(h): Ghost<nat>,
        Ghost(lo): Ghost<int>,
        Ghost(hi): Ghost<int>,
    ) -> (r: Result<Option<(u64, u64)>, Error>)
        requires
            old(mgr).wf(old(device)),
            old(node).wf(),
            old(node).ids@.len() >= 1,
            node_body(old(mgr).store(old(device)), old(node)@, h, lo, hi),
            old(mgr).store(old(device)).contains_key(old(node).page_count),
            !is_reserved(old(node).page_count),
            page_used(old(mgr).store(old(device)), old(node).page_count),
            h > 0 ==> !may_hold(
                old(mgr).store(old(device)),
                old(node).page_count,
                (h - 1) as nat,
                lo,
                hi,
            ),
        ensures
            final(mgr).wf(final(device)),
            final(mgr).capacity() == old(mgr).capacity(),
            final(device).limit() == old(device).limit(),
            final(node).page_count == old(node).page_count,
            match r {
                Err(e) => {
                    &&& e == Error::Io
                    &&& old(node)@.ids.len() >= MAX_IDS
                    &&& final(node)@ == old(node)@
                    &&& first_free(old(mgr).store(old(device)), old(device).limit(), 0) is None
                    &&& first_free(final(mgr).store(final(device)), final(device).limit(), 0)
                        is None
                    &&& same_except(
                        old(mgr).store(old(device)),
                        final(mgr).store(final(device)),
                        Set::empty(),
                    )
                },
                Ok(split) => {
                    let s = old(mgr).store(old(device));
                    let t = final(mgr).store(final(device));
                    let pc = old(node).page_count;
                    &&& kept(s, t, set![pc])
                    &&& used_kept(s, t)
                    &&& t.contains_key(pc)
                    &&& page_used(t, pc)
                    &&& node_at(t, pc) == final(node)@
                    &&& t[pc] == final(node)@.dump()
                    &&& final(node)@.ids.len() >= 1
                    &&& split_sizes(
                        t,
                        old(node)@.ids.len() as int,
                        final(node)@.ids.len() as int,
                        split,
                    )
                    &&& match split {
                        None => {
                            &&& final(node)@ == old(node)@
                            &&& forall|p: u64| #[trigger] page_used(t, p) == page_used(s, p)
                            &&& node_ok(t, final(node)@, h, lo, hi)
                            &&& forall|k: u64, v: u64|
                                node_has(t, final(node)@, h, k, v) == node_has(
                                    s,
                                    old(node)@,
                                    h,
                                    k,
                                    v,
                                )
                        },
                        Some((sep, right)) => {
                            &&& lo < sep < hi
                            &&& node_ok(t, final(node)@, h, lo, sep as int)
                            &&& child_ok(t, right, h, sep as int, hi)
                            &&& !page_used(s, right)
                            &&& first_free(s, old(device).limit(), 0) == Some(right)
                            &&& forall|d: u64|
                                d != right && !is_reserved(d) ==> #[trigger] page_used(t, d)
                                    == page_used(s, d)
                            &&& forall|k: u64, v: u64|
                                (node_has(t, final(node)@, h, k, v) || node_has(
                                    t,
                                    node_at(t, right),
                                    h,
                                    k,
                                    v,
                                )) == node_has(s, old(node)@, h, k, v)
                        },
                    }
                },
            },
    {
        let ghost s = mgr.store(device);
        let ghost n = node@;
        if node.len() >= MAX_IDS {
            let ghost keep = (n.ids.len() - n.ids.len() / 2) as int;
            match node.part(device, mgr) {
                Err(e) => Err(e),
                Ok((sep, right)) => {
                    proof {
                        let t = mgr.store(device);
                        let left = node@;
                        let other = node_at(t, right);
                        lemma_split(s, n, left, other, h, lo, hi, keep);
                        lemma_below(s, t, node.page_count, h, lo, hi);
                        if h > 0 {
                            lemma_subtree_kept(
                                s,
                                t,
                                (h - 1) as nat,
                                lo,
                                sep as int,
                                (h - 1) as nat,
                                lo,
                                hi,
                            );
                            lemma_subtree_kept(
                                s,
                                t,
                                (h - 1) as nat,
                                sep as int,
                                hi,
                                (h - 1) as nat,
                                lo,
                                hi,
                            );
                        }
                        lemma_frame(s, t, left, h, lo, sep as int);
                        lemma_frame(s, t, other, h, sep as int, hi);
                    }
                    Ok(Some((sep, right)))
                },
            }
        } else {
            node.store(device, mgr);
            proof {
                let t = mgr.store(device);
                lemma_below(s, t, node.page_count, h, lo, hi);
                lemma_frame(s, t, n, h, lo, hi);
            }
            Ok(None)
        }
    }

    /// Inserts a pair into a leaf, and reports the entry of the new right
    /// sibling where the leaf was split.
    fn insert_leaf(
        node: &mut BtreeNode,
        device: &mut Device,
        mgr: &mut PageManage,
        id: u64,
        value: u64,
        Ghost(lo): Ghost<int>,
        Ghost(hi): Ghost<int>,
    ) -> (r: Result<Option<(u64, u64)>, Error>)
        requires
            old(mgr).wf(old(device)),
            node_ok(old(mgr).store(old(device)), old(node)@, 0, lo, hi),
            old(mgr).store(old(device)).contains_key(old(node).page_count),
            !is_reserved(old(node).page_count),
            page_used(old(mgr).store(old(device)), old(node).page_count),
            lo <= id < hi,
        ensures
            final(mgr).wf(final(device)),
            final(mgr).capacity() == old(mgr).capacity(),
            final(device).limit() == old(device).limit(),
            final(node).page_count == old(node).page_count,
            insert_result(
                old(mgr).store(old(device)),
                final(mgr).store(final(device)),
                final(device).limit(),
                old(node)@,
                final(node)@,
                old(node).page_count,
                0,
                lo,
                hi,
                id,
                value,
                r,
            ),
    {
        let ghost s = mgr.store(device);
        let ghost n = node@;
        let ghost pc = node.page_count;
        let mut i: usize = 0;
        while i < node.ids.len()
            invariant
                *mgr == *old(mgr),
                *device == *old(device),
                *node == *old(node),
                old(mgr).wf(old(device)),
                n == node@,
                s == old(mgr).store(old(device)),
                i <= node.ids@.len(),
                node.ids@.len() == node.ptrs@.len(),
                forall|j: int| 0 <= j < i ==> node.ids@[j] != id,
            decreases node.ids@.len() - i,
        {
            if node.ids[i] == id {
                proof {
                    assert(n.ids[i as int] == id && n.ptrs[i as int] == node.ptrs@[i as int]);
                    assert(node_has(s, n, 0, id, node.ptrs@[i as int]));
                }
                return Err(Error::DuplicateKey);
            }
            i += 1;
        }
        let pos = node.add(id, value);
        proof {
            lemma_leaf_add(s, n, node@, lo, hi, pos as int, id, value);
            assert forall|v: u64| !node_has(s, n, 0, id, v) by {
                if node_has(s, n, 0, id, v) {
                    let j = choose|j: int|
                        0 <= j < n.ids.len() && #[trigger] n.ids[j] == id && n.ptrs[j] == v;
                    assert(node.ids@[j] != id);
                }
            }
        }
        let ghost mid = node@;
        let r = Self::settle(node, device, mgr, Ghost(0), Ghost(lo), Ghost(hi));
        proof {
            if r is Ok {
                let t = mgr.store(device);
                assert(others_kept(s, t, pc, 0, lo, hi));
                match r.unwrap() {
                    None => {
                        assert forall|k: u64, v: u64|
                            node_has(t, node@, 0, k, v) == (node_has(s, n, 0, k, v) || (k == id
                                && v == value)) by {
                            assert(node_has(t, node@, 0, k, v) == node_has(s, mid, 0, k, v));
                        }
                    },
                    Some((sep, right)) => {
                        assert forall|k: u64, v: u64|
                            (node_has(t, node@, 0, k, v) || node_has(
                                t,
                                node_at(t, right),
                                0,
                                k,
                                v,
                            )) == (node_has(s, n, 0, k, v) || (k == id && v == value)) by {
                            assert((node_has(t, node@, 0, k, v) || node_has(
                                t,
                                node_at(t, right),
                                0,
                                k,
                                v,
                            )) == node_has(s, mid, 0, k, v));
                        }
                    },
                }
            }
        }
        r
    }

    /// Inserts a pair below `node`, and reports the entry of the new right
    /// sibling where `node` was split.
    fn insert_id_nontop(
        node: &mut BtreeNode,
        device: &mut Device,
        mgr: &mut PageManage,
        id: u64,
        value: u64,
        Ghost(h): Ghost<nat>,
        Ghost(lo): Ghost<int>,
        Ghost(hi): Ghost<int>,
    ) -> (r: Result<Option<(u64, u64)>, Error>)
        requires
            old(mgr).wf(old(device)),
            node_ok(old(mgr).store(old(device)), old(node)@, h, lo, hi),
            old(mgr).store(old(device)).contains_key(old(node).page_count),
            !is_reserved(old(node).page_count),
            page_used(old(mgr).store(old(device)), old(node).page_count),
            node_at(old(mgr).store(old(device)), old(node).page_count) == old(node)@,
            lo <= id < hi,
        ensures
            final(mgr).wf(final(device)),
            final(mgr).capacity() == old(mgr).capacity(),
            final(device).limit() == old(device).limit(),
            final(node).page_count == old(node).page_count,
            insert_result(
                old(mgr).store(old(device)),
                final(mgr).store(final(device)),
                final(device).limit(),
                old(node)@,
                final(node)@,
                old(node).page_count,
                h,
                lo,
                hi,
                id,
                value,
                r,
            ),
        decreases h,
    {
        let ghost s = mgr.store(device);
        let ghost n = node@;
        let ghost pc = node.page_count;
        if !node.is_internal() {
            return Self::insert_leaf(node, device, mgr, id, value, Ghost(lo), Ghost(hi));
        }
        let len: usize = node.len();
        let mut slot: usize = 0;
        while slot + 1 < len && node.ids[slot + 1] <= id
            invariant
                len == node.ids@.len(),
                sorted(node.ids@),
                slot < len,
                slot > 0 ==> node.ids@[slot as int] <= id,
            decreases len - slot,
        {
            slot += 1;
        }
        let ghost g = (h - 1) as nat;
        let ghost clo = least(n.ids[slot as int] as int, id as int);
        let ghost chi = upper(n.ids, slot as int, hi);
        let ghost c = n.ptrs[slot as int];
        let mut child = node.load_child(device, mgr, slot, Ghost(h), Ghost(lo), Ghost(hi));
        let ghost t1 = mgr.store(device);
        proof {
            assert(child_ok(s, c, g, n.ids[slot as int] as int, chi));
            lemma_same_page(s, t1, c);
            lemma_grown(s, t1, child@, g, n.ids[slot as int] as int, chi);
            lemma_widen(t1, child@, g, n.ids[slot as int] as int, chi, clo, chi);
            assert(lo <= n.ids[slot as int]);
            if slot + 1 < len {
                assert(n.ids[slot + 1] < hi);
            }
        }
        let ghost child_before = child@;
        let r = Self::insert_id_nontop(&mut child, device, mgr, id, value, Ghost(g), Ghost(clo), Ghost(chi));
        let ghost t2 = mgr.store(device);
        let split = match r {
            Err(e) => {
                proof {
                    if e == Error::DuplicateKey {
                        let v = choose|v: u64| node_has(t1, child_before, g, id, v);
                        assert(node_has(s, node_at(s, n.ptrs[slot as int]), g, id, v));
                        assert(node_has(s, n, h, id, v));
                    } else {
                        assert forall|v: u64|
                            !node_has(s, node_at(s, n.ptrs[slot as int]), g, id, v) by {
                            assert(!node_has(t1, child_before, g, id, v));
                        }
                        lemma_absent(s, n, h, g, lo, hi, slot as int, id);
                        lemma_child_failed(s, t1, t2, n, pc, h, g, lo, hi, slot as int, id);
                    }
                }
                return Err(e);
            },
            Ok(split) => split,
        };
        if id < node.ids[slot] {
            node.ids[slot] = id;
        }
        match split {
            Some((sep, right)) => {
                node.insert(slot + 1, sep, right);
            },
            None => {},
        }
        let ghost m = node@;
        proof {
            assert(m.ids =~= after_child_insert(n, slot as int, id, split).ids);
            assert(m.ptrs =~= after_child_insert(n, slot as int, id, split).ptrs);
            lemma_after_child(
                s,
                t1,
                t2,
                device.limit(),
                n,
                m,
                pc,
                h,
                g,
                lo,
                hi,
                slot as int,
                id,
                value,
                child_before,
                child@,
                split,
            );
        }
        let r2 = Self::settle(node, device, mgr, Ghost(h), Ghost(lo), Ghost(hi));
        proof {
            if r2 is Err {
                let t3 = mgr.store(device);
                lemma_kept(t2, t3, Set::empty());
                assert(kept(t2, t3, set![pc]));
                lemma_others_up(s, t2, t3, c, g, clo, chi, pc, h, lo, hi);
                assert(used_kept(s, t3));
            }
            if r2 is Ok {
                let t3 = mgr.store(device);
                lemma_others_up(s, t2, t3, c, g, clo, chi, pc, h, lo, hi);
                assert(used_kept(s, t3));
                assert(split_sizes(t3, m.ids.len() as int, node@.ids.len() as int, r2.unwrap()));
                match r2.unwrap() {
                    None => {
                        assert forall|k: u64, v: u64|
                            node_has(t3, node@, h, k, v) == (node_has(s, n, h, k, v) || (k == id
                                && v == value)) by {
                            assert(node_has(t3, node@, h, k, v) == node_has(t2, m, h, k, v));
                        }
                    },
                    Some((sep, right)) => {
                        assert forall|k: u64, v: u64|
                            (node_has(t3, node@, h, k, v) || node_has(
                                t3,
                                node_at(t3, right),
                                h,
                                k,
                                v,
                            )) == (node_has(s, n, h, k, v) || (k == id && v == value)) by {
                            assert((node_has(t3, node@, h, k, v) || node_has(
                                t3,
                                node_at(t3, right),
                                h,
                                k,
                                v,
                            )) == node_has(t2, m, h, k, v));
                        }
                    },
                }
            }
        }
        r2
    }

    /// Makes the tree one higher after its root was split: the root's
    /// entries move to a new page, and the root page becomes an internal node
    /// over that page and the new right sibling.
    fn grow_root(
        &mut self,
        device: &mut Device,
        mgr: &mut PageManage,
        sep: u64,
        right: u64,
        Ghost(h): Ghost<nat>,
    ) -> (r: Result<(), Error>)
        requires
            old(mgr).wf(old(device)),
            node_ok(old(mgr).store(old(device)), old(self)@, h, 0, sep as int),
            old(self)@.ids.len() >= 1,
            child_ok(old(mgr).store(old(device)), right, h, sep as int, key_end()),
            old(mgr).store(old(device)).contains_key(old(self).page_count),
            !is_reserved(old(self).page_count),
            page_used(old(mgr).store(old(device)), old(self).page_count),
            node_at(old(mgr).store(old(device)), old(self).page_count) == old(self)@,
        ensures
            final(mgr).wf(final(device)),
            final(mgr).capacity() == old(mgr).capacity(),
            final(device).limit() == old(device).limit(),
            final(self).page_count == old(self).page_count,
            match r {
                Err(e) => {
                    &&& e == Error::Io
                    &&& first_free(old(mgr).store(old(device)), old(device).limit(), 0) is None
                    &&& first_free(final(mgr).store(final(device)), final(device).limit(), 0)
                        is None
                    &&& same_except(
                        old(mgr).store(old(device)),
                        final(mgr).store(final(device)),
                        Set::empty(),
                    )
                },
                Ok(()) => {
                    let t = old(mgr).store(old(device));
                    let u = final(mgr).store(final(device));
                    &&& final(self).node_type == PAGE_TYPEID_BTREE_INTERNAL
                    &&& final(self)@.ids == seq![old(self)@.ids[0], sep]
                    &&& final(self)@.ptrs.len() == 2
                    &&& final(self)@.ptrs[1] == right
                    &&& first_free(t, old(device).limit(), 0) == Some(final(self)@.ptrs[0])
                    &&& !is_reserved(final(self)@.ptrs[0])
                    &&& !page_used(t, final(self)@.ptrs[0])
                    &&& node_at(u, final(self)@.ptrs[0]) == old(self)@
                    &&& node_at(u, right) == node_at(t, right)
                    &&& forall|d: u64|
                        d != final(self)@.ptrs[0] && !is_reserved(d) ==> #[trigger] page_used(u, d)
                            == page_used(t, d)
                    &&& final(self).tree_at(u, h + 1)
                    &&& forall|k: u64, v: u64|
                        node_has(u, final(self)@, h + 1, k, v) == (node_has(
                            t,
                            old(self)@,
                            h,
                            k,
                            v,
                        ) || node_has(t, node_at(t, right), h, k, v))
                    &&& kept(t, u, set![old(self).page_count])
                    &&& used_kept(t, u)
                },
            },
    {
        let ghost t = mgr.store(device);
        let ghost left = self@;
        let ghost pc = self.page_count;
        let page = match mgr.allocate(device, PageType::BtreePage) {
            Ok(page) => page,
            Err(e) => {
                return Err(e);
            },
        };
        let ghost t2 = mgr.store(device);
        let mut moved = Self::new_node(self.node_type);
        moved.page_count = page.count;
        moved.ids = self.ids.split_off(0);
        moved.ptrs = self.ptrs.split_off(0);
        proof {
            assert(moved.ids@ =~= left.ids);
            assert(moved.ptrs@ =~= left.ptrs);
            assert(moved@ == left);
        }
        moved.store(device, mgr);
        let ghost t3 = mgr.store(device);
        self.node_type = PAGE_TYPEID_BTREE_INTERNAL;
        self.push(moved.ids[0], moved.page_count);
        self.push(sep, right);
        proof {
            assert(untouched(t, t2, pc));
            assert(untouched(t2, t3, pc));
            assert(self.ids@ =~= split_root(left, moved.page_count, sep, right).ids);
            assert(self.ptrs@ =~= split_root(left, moved.page_count, sep, right).ptrs);
        }
        self.store(device, mgr);
        proof {
            let u = mgr.store(device);
            let lp = moved.page_count;
            lemma_kept_trans(t, t2, t3, Set::empty(), set![lp]);
            lemma_kept_trans(t, t3, u, Set::<u64>::empty().union(set![lp]), set![pc]);
            assert(kept(t, u, set![lp, pc])) by {
                assert forall|p: u64|
                    #![trigger untouched(t, u, p)]
                    !is_reserved(p) && page_used(t, p) && !set![lp, pc].contains(p)
                    implies untouched(t, u, p) by {
                    assert(!Set::<u64>::empty().union(set![lp]).union(set![pc]).contains(p));
                }
            }
            assert(untouched(t3, u, lp));
            lemma_root_split(t, u, left, lp, sep, right, pc, h);
            assert(self@ == split_root(left, lp, sep, right));
            assert(used_kept(t, u)) by {
                assert forall|p: u64|
                    !is_reserved(p) && #[trigger] page_used(t, p) implies page_used(u, p) by {
                    assert(page_used(t2, p) == page_used(t, p) || p == lp);
                }
            }
        }
        Ok(())
    }

    /// Stores `value` under key `id`. A key that is already stored is
    /// refused, and nothing changes. A node that reaches the fanout is
    /// split: the upper half of its entries moves to a new page, and the
    /// parent takes the new node's first key as the separator. Where the
    /// root itself is split, its entries move to a new page, and the root
    /// page becomes an internal node over the two halves, so that the root
    /// keeps its page count. Fails where a page is needed and none is free:
    /// the pair is then stored or not, no page is released, and every
    /// allocated page that held no node is as it was.
    pub fn insert_id(&mut self, device: &mut Device, mgr: &mut PageManage, id: u64, value: u64) -> (r:
        Result<(), Error>)
        requires
            old(mgr).wf(old(device)),
            old(self).is_tree(old(mgr).store(old(device))),
        ensures
            final(mgr).wf(final(device)),
            final(mgr).capacity() == old(mgr).capacity(),
            final(device).limit() == old(device).limit(),
            final(self).page_count == old(self).page_count,
            old(self).node_type == PAGE_TYPEID_BTREE_LEAF ==> (r is Ok <==> !old(self).entries(
                old(mgr).store(old(device)),
            ).contains_key(id) && (old(self).ids@.len() + 1 < MAX_IDS || room(
                old(mgr).store(old(device)),
                old(device).limit(),
                2,
            ))),
            match r {
                Ok(()) => {
                    let s = old(mgr).store(old(device));
                    let t = final(mgr).store(final(device));
                    &&& !old(self).entries(s).contains_key(id)
                    &&& final(self).is_tree(t)
                    &&& final(self).entries(t) == old(self).entries(s).insert(id, value)
                    &&& outside_kept(s, t)
                    &&& used_kept(s, t)
                    &&& old(self).node_type == PAGE_TYPEID_BTREE_LEAF ==> leaf_root_after(
                        s,
                        t,
                        old(device).limit(),
                        old(self).ids@.len() as int + 1,
                        final(self)@,
                    )
                },
                Err(e) => if e == Error::DuplicateKey {
                    &&& old(self).entries(old(mgr).store(old(device))).contains_key(id)
                    &&& final(self)@ == old(self)@
                    &&& same_except(
                        old(mgr).store(old(device)),
                        final(mgr).store(final(device)),
                        Set::empty(),
                    )
                } else {
                    &&& e == Error::Io
                    &&& !old(self).entries(old(mgr).store(old(device))).contains_key(id)
                    &&& first_free(final(mgr).store(final(device)), final(device).limit(), 0)
                        is None
                    &&& outside_kept(old(mgr).store(old(device)), final(mgr).store(final(device)))
                    &&& used_kept(old(mgr).store(old(device)), final(mgr).store(final(device)))
                    &&& old(self).node_type == PAGE_TYPEID_BTREE_LEAF ==> old(self).ids@.len() + 1
                        >= MAX_IDS
                },
            },
    {
        let ghost s = mgr.store(device);
        let ghost h = self.height(s);
        let ghost n = self@;
        let ghost pc = self.page_count;
        let ghost limit = device.limit() as int;
        proof {
            self.lemma_entries(s, h);
            n.lemma_round_trip();
            mgr.lemma_store(device);
        }
        let r = Self::insert_id_nontop(self, device, mgr, id, value, Ghost(h), Ghost(0), Ghost(key_end()));
        let ghost t = mgr.store(device);
        let ghost left = *self;
        proof {
            mgr.lemma_store(device);
            if h == 0 && r is Ok && r->Ok_0 is Some {
                let right = r->Ok_0->Some_0.1;
                lemma_first_free_free(s, limit, 0);
                assert(one_more(s, t, right));
                lemma_taken_bits(s, right);
                lemma_room_bits(taken(s, right), t, limit, 1);
                assert(room(s, limit, 2) == room(t, limit, 1));
                assert(room(t, limit, 1) == (first_free(t, limit, 0) is Some)) by {
                    if first_free(t, limit, 0) is Some {
                        assert(room(taken(t, first_free(t, limit, 0).unwrap()), limit, 0));
                    }
                }
            }
            lemma_present(*old(self), s, h, id);
            if r is Ok || r->Err_0 != Error::DuplicateKey {
                lemma_outside_kept(s, t, pc, h, 0, key_end());
            }
        }
        match r {
            Err(e) => Err(e),
            Ok(None) => {
                proof {
                    lemma_entries_insert(*old(self), s, h, *self, t, h, id, value);
                    self.lemma_entries(t, h);
                }
                Ok(())
            },
            Ok(Some((sep, right))) => {
                match self.grow_root(device, mgr, sep, right, Ghost(h)) {
                    Err(e) => {
                        proof {
                            let u = mgr.store(device);
                            lemma_kept(t, u, Set::empty());
                            assert(kept(t, u, set![pc]));
                            assert(used_kept(t, u));
                            lemma_outside_then(s, t, u, pc);
                        }
                        Err(e)
                    },
                    Ok(()) => {
                        proof {
                            let u = mgr.store(device);
                            assert forall|k: u64, v: u64|
                                node_has(u, self@, h + 1, k, v) == (node_has(s, n, h, k, v) || (k
                                    == id && v == value)) by {
                                assert(node_has(u, self@, h + 1, k, v) == (node_has(
                                    t,
                                    left@,
                                    h,
                                    k,
                                    v,
                                ) || node_has(t, node_at(t, right), h, k, v)));
                                assert((node_has(t, left@, h, k, v) || node_has(
                                    t,
                                    node_at(t, right),
                                    h,
                                    k,
                                    v,
                                )) == (node_has(s, n, h, k, v) || (k == id && v == value)));
                            }
                            lemma_entries_insert(*old(self), s, h, *self, u, h + 1, id, value);
                            self.lemma_entries(u, h + 1);
                            lemma_outside_then(s, t, u, pc);
                            if h == 0 {
                                lemma_leaf_root_split(
                                    s,
                                    t,
                                    u,
                                    device.limit(),
                                    n.ids.len() as int + 1,
                                    left@,
                                    self@,
                                    right,
                                );
                            }
                        }
                        Ok(())
                    },
                }
            },
        }
    }
}

/// What a root that was a leaf is after an insertion that left it with
/// `count` entries in all. Below the fanout it is the leaf still, and no page
/// was taken. From the fanout on it is an internal node over two leaves on
/// two newly allocated pages: the lower entries, all but half of them rounded
/// down, moved to the page allocated second, the upper ones to the page
/// allocated first, each under its first key.
pub open spec fn leaf_root_after(s: Store, t: Store, limit: int, count: int, m: NodeView) -> bool {
    if count < MAX_IDS {
        &&& m.node_type == PAGE_TYPEID_BTREE_LEAF
        &&& m.ids.len() == count
        &&& forall|p: u64| #[trigger] page_used(t, p) == page_used(s, p)
    } else {
        let left = node_at(t, m.ptrs[0]);
        let right = node_at(t, m.ptrs[1]);
        &&& m.node_type == PAGE_TYPEID_BTREE_INTERNAL
        &&& m.ids.len() == 2
        &&& m.ptrs.len() == 2
        &&& left.node_type == PAGE_TYPEID_BTREE_LEAF
        &&& right.node_type == PAGE_TYPEID_BTREE_LEAF
        &&& left.ids.len() == count - count / 2
        &&& right.ids.len() == count / 2
        &&& m.ids[0] == left.ids[0]
        &&& m.ids[1] == right.ids[0]
        &&& first_free(s, limit, 0) == Some(m.ptrs[1])
        &&& m.ptrs[0] != m.ptrs[1]
        &&& !page_used(s, m.ptrs[0])
        &&& forall|d: u64|
            d != m.ptrs[0] && d != m.ptrs[1] && !is_reserved(d) ==> #[trigger] page_used(t, d)
                == page_used(s, d)
    }
}

/// A leaf root that was split and put under a new root is what
/// `leaf_root_after` describes.
pub proof fn lemma_leaf_root_split(
    s: Store,
    t: Store,
    u: Store,
    limit: int,
    count: int,
    left: NodeView,
    m: NodeView,
    right: u64,
)
    requires
        count >= MAX_IDS,
        left.node_type == PAGE_TYPEID_BTREE_LEAF,
        left.ids.len() == count - count / 2,
        node_at(t, right).ids.len() == count / 2,
        node_at(t, right).node_type == PAGE_TYPEID_BTREE_LEAF,
        node_at(t, right).ids.len() >= 1,
        first_free(s, limit, 0) == Some(right),
        !is_reserved(right),
        page_used(t, right),
        forall|d: u64|
            d != right && !is_reserved(d) ==> #[trigger] page_used(t, d) == page_used(s, d),
        m.node_type == PAGE_TYPEID_BTREE_INTERNAL,
        m.ids.len() == 2,
        m.ids[0] == left.ids[0],
        m.ids[1] == node_at(t, right).ids[0],
        m.ptrs.len() == 2,
        m.ptrs[1] == right,
        first_free(t, limit, 0) == Some(m.ptrs[0]),
        !is_reserved(m.ptrs[0]),
        !page_used(t, m.ptrs[0]),
        node_at(u, m.ptrs[0]) == left,
        node_at(u, right) == node_at(t, right),
        forall|d: u64|
            d != m.ptrs[0] && !is_reserved(d) ==> #[trigger] page_used(u, d) == page_used(t, d),
    ensures
        leaf_root_after(s, u, limit, count, m),
{
    assert(m.ptrs[0] != right);
    assert(!page_used(s, m.ptrs[0]));
    assert forall|d: u64|
        d != m.ptrs[0] && d != m.ptrs[1] && !is_reserved(d) implies #[trigger] page_used(u, d)
        == page_used(s, d) by {
        assert(page_used(u, d) == page_used(t, d));
    }
}

/// A key is among the contents of a tree exactly when the root stores a
/// value under it.
pub proof fn lemma_present(root: BtreeNode, s: Store, h: nat, id: u64)
    requires
        root.tree_at(s, h),
    ensures
        root.entries(s).contains_key(id) <==> exists|v: u64| node_has(s, root@, h, id, v),
{
    root.lemma_entries(s, h);
    if root.entries(s).contains_key(id) {
        assert(node_has(s, root@, h, id, root.entries(s)[id]));
    }
    if exists|v: u64| node_has(s, root@, h, id, v) {
        let v = choose|v: u64| node_has(s, root@, h, id, v);
        assert(node_has(s, root@, h, id, v));
    }
}

/// What a change keeps outside the tree, a later write of the root page and
/// of pages that were free keeps as well.
pub proof fn lemma_outside_then(s: Store, t: Store, u: Store, pc: u64)
    requires
        outside_kept(s, t),
        used_kept(s, t),
        used_kept(t, u),
        kept(t, u, set![pc]),
        is_node_image(image(s, pc)),
    ensures
        outside_kept(s, u),
        used_kept(s, u),
{
    assert forall|p: u64|
        #![trigger untouched(s, u, p)]
        !is_reserved(p) && page_used(s, p) && !is_node_image(
            image(s, p),
        ) implies untouched(s, u, p) by {
        assert(untouched(s, t, p));
        assert(untouched(t, u, p));
    }
}

/// The contents of a tree after an insertion, told from what its root
/// stores.
pub proof fn lemma_entries_insert(
    before: BtreeNode,
    s: Store,
    h: nat,
    after: BtreeNode,
    t: Store,
    g: nat,
    id: u64,
    value: u64,
)
    requires
        before.tree_at(s, h),
        after.tree_at(t, g),
        forall|k: u64, v: u64|
            node_has(t, after@, g, k, v) == (node_has(s, before@, h, k, v) || (k == id && v
                == value)),
    ensures
        after.entries(t) == before.entries(s).insert(id, value),
{
    before.lemma_entries(s, h);
    after.lemma_entries(t, g);
    let a = after.entries(t);
    let b = before.entries(s).insert(id, value);
    assert forall|k: u64| a.contains_key(k) implies b.contains_key(k) && b[k] == a[k] by {
        let v = a[k];
        assert(node_has(t, after@, g, k, v));
        if !(k == id && v == value) {
            assert(node_has(s, before@, h, k, v));
            if k == id {
                assert(node_has(t, after@, g, id, value));
                lemma_unique(t, after@, g, 0, key_end(), k, v, value);
            }
        }
    }
    assert forall|k: u64| b.contains_key(k) implies a.contains_key(k) by {
        if k == id {
            assert(node_has(t, after@, g, id, value));
        } else {
            let v = before.entries(s)[k];
            assert(node_has(s, before@, h, k, v));
            assert(node_has(t, after@, g, k, v));
        }
    }
    assert(a =~= b);
}

impl BtreeNode {
    /// Scans a leaf for the first key from `cand` on that it does not
    /// store.
    fn scan_leaf(node: &BtreeNode, cand: u64, Ghost(s): Ghost<Store>, Ghost(lo): Ghost<int>, Ghost(
        hi,
    ): Ghost<int>) -> (r: Scan)
        requires
            node_body(s, node@, 0, lo, hi),
            cand <= lo <= hi,
        ensures
            scan_result(s, node@, 0, hi, cand, r),
    {
        let mut cur: u64 = cand;
        let mut i: usize = 0;
        let ghost n = node@;
        while i < node.ids.len()
            invariant
                n == node@,
                node_body(s, n, 0, lo, hi),
                i <= n.ids.len(),
                cand <= cur,
                i < n.ids.len() ==> cur <= n.ids[i as int],
                i > 0 ==> cur == n.ids[i - 1] + 1,
                i == 0 ==> cur == cand,
                dense(s, n, 0, cand as int, cur as int),
            decreases n.ids.len() - i,
        {
            let key: u64 = node.ids[i];
            if key > cur {
                proof {
                    assert(!present(s, n, 0, cur)) by {
                        if present(s, n, 0, cur) {
                            let v = choose|v: u64| node_has(s, n, 0, cur, v);
                            let j = choose|j: int|
                                0 <= j < n.ids.len() && #[trigger] n.ids[j] == cur && n.ptrs[j]
                                    == v;
                            if j < i {
                                assert(j == i - 1 || n.ids[j] < n.ids[i - 1]);
                            } else {
                                assert(j == i || n.ids[i as int] < n.ids[j]);
                            }
                        }
                    }
                    assert(n.ids[i as int] < hi);
                }
                return Scan::Gap(cur);
            }
            proof {
                assert(node_has(s, n, 0, key, n.ptrs[i as int]));
                assert(present(s, n, 0, key));
            }
            if cur == u64::MAX {
                proof {
                    assert forall|k: u64| cand <= k <= u64::MAX implies #[trigger] present(
                        s,
                        n,
                        0,
                        k,
                    ) by {
                        if k < cur {
                            assert(dense(s, n, 0, cand as int, cur as int));
                        }
                    }
                }
                return Scan::Full;
            }
            proof {
                assert forall|k: u64| cand <= k < cur + 1 implies #[trigger] present(s, n, 0, k) by {
                    if k < cur {
                        assert(dense(s, n, 0, cand as int, cur as int));
                    }
                }
                if i + 1 < n.ids.len() {
                    assert(n.ids[i as int] < n.ids[i + 1]);
                }
            }
            cur = cur + 1;
            i += 1;
        }
        proof {
            assert forall|k: u64, v: u64| #[trigger] node_has(s, n, 0, k, v) implies k < cur by {
                let j = choose|j: int|
                    0 <= j < n.ids.len() && #[trigger] n.ids[j] == k && n.ptrs[j] == v;
                if i > 0 {
                    assert(j == i - 1 || n.ids[j] < n.ids[i - 1]);
                }
            }
            if i > 0 {
                assert(n.ids[i - 1] < hi);
            }
        }
        Scan::Run(cur)
    }

    /// Scans the subtree below `node`, in the order of its keys, for the
    /// first key from `cand` on that it does not store. Before it goes below
    /// a slot it compares the candidate with the slot's key: a smaller
    /// candidate is free.
    fn find_unused_nontop(
        node: &BtreeNode,
        device: &mut Device,
        mgr: &mut PageManage,
        cand: u64,
        Ghost(h): Ghost<nat>,
        Ghost(lo): Ghost<int>,
        Ghost(hi): Ghost<int>,
    ) -> (r: Scan)
        requires
            old(mgr).wf(old(device)),
            node_ok(old(mgr).store(old(device)), node@, h, lo, hi),
            cand <= lo <= hi,
        ensures
            final(mgr).wf(final(device)),
            final(mgr).capacity() == old(mgr).capacity(),
            final(device).limit() == old(device).limit(),
            same_except(
                old(mgr).store(old(device)),
                final(mgr).store(final(device)),
                Set::empty(),
            ),
            scan_result(old(mgr).store(old(device)), node@, h, hi, cand, r),
        decreases h,
    {
        let ghost s = mgr.store(device);
        let ghost n = node@;
        if !node.is_internal() {
            return Self::scan_leaf(node, cand, Ghost(s), Ghost(lo), Ghost(hi));
        }
        let ghost g = (h - 1) as nat;
        let mut cur: u64 = cand;
        let mut i: usize = 0;
        while i < node.ids.len()
            invariant
                mgr.wf(device),
                mgr.capacity() == old(mgr).capacity(),
                device.limit() == old(device).limit(),
                s == old(mgr).store(old(device)),
                same_except(s, mgr.store(device), Set::empty()),
                n == node@,
                h > 0,
                g == h - 1,
                node_ok(s, n, h, lo, hi),
                i <= n.ids.len(),
                cand <= cur,
                i < n.ids.len() ==> cur <= n.ids[i as int],
                i == n.ids.len() ==> cur <= hi,
                dense(s, n, h, cand as int, cur as int),
                forall|j: int|
                    0 <= j < i ==> all_below(s, node_at(s, #[trigger] n.ptrs[j]), g, cur as int),
            decreases n.ids.len() - i,
        {
            if cur < node.ids[i] {
                proof {
                    lemma_gap_before(s, n, h, g, lo, hi, i as int, cur);
                    assert(n.ids[i as int] < hi);
                }
                return Scan::Gap(cur);
            }
            let ghost t0 = mgr.store(device);
            let ghost clo = n.ids[i as int] as int;
            let ghost chi = upper(n.ids, i as int, hi);
            proof {
                lemma_grown(s, t0, n, h, lo, hi);
            }
            let child = node.load_child(device, mgr, i, Ghost(h), Ghost(lo), Ghost(hi));
            let ghost t1 = mgr.store(device);
            proof {
                assert(child_ok(s, n.ptrs[i as int], g, clo, chi));
                lemma_same_page(s, t0, n.ptrs[i as int]);
                lemma_grown(s, t1, child@, g, clo, chi);
            }
            let r = Self::find_unused_nontop(&child, device, mgr, cur, Ghost(g), Ghost(clo), Ghost(chi));
            proof {
                assert(child@ == node_at(s, n.ptrs[i as int]));
                lemma_scan_grown(s, t1, child@, g, chi, cur, r);
                assert(lo <= n.ids[i as int]);
                if i + 1 < n.ids.len() {
                    assert(n.ids[i + 1] < hi);
                }
            }
            match r {
                Scan::Gap(gap) => {
                    proof {
                        lemma_gap_within(s, n, h, g, lo, hi, i as int, cur, gap);
                        assert forall|k: u64| cand <= k < gap implies #[trigger] present(
                            s,
                            n,
                            h,
                            k,
                        ) by {
                            if k < cur {
                                assert(dense(s, n, h, cand as int, cur as int));
                            } else {
                                assert(present(s, child@, g, k));
                                lemma_present_up(s, n, h, g, i as int, k);
                            }
                        }
                    }
                    return Scan::Gap(gap);
                },
                Scan::Full => {
                    proof {
                        assert forall|k: u64| cand <= k <= u64::MAX implies #[trigger] present(
                            s,
                            n,
                            h,
                            k,
                        ) by {
                            if k < cur {
                                assert(dense(s, n, h, cand as int, cur as int));
                            } else {
                                assert(present(s, child@, g, k));
                                lemma_present_up(s, n, h, g, i as int, k);
                            }
                        }
                    }
                    return Scan::Full;
                },
                Scan::Run(next) => {
                    proof {
                        assert forall|k: u64| cand <= k < next implies #[trigger] present(
                            s,
                            n,
                            h,
                            k,
                        ) by {
                            if k < cur {
                                assert(dense(s, n, h, cand as int, cur as int));
                            } else {
                                assert(present(s, child@, g, k));
                                lemma_present_up(s, n, h, g, i as int, k);
                            }
                        }
                        assert forall|j: int| 0 <= j < i + 1 implies all_below(
                            s,
                            node_at(s, #[trigger] n.ptrs[j]),
                            g,
                            next as int,
                        ) by {
                            if j < i {
                                assert(all_below(s, node_at(s, n.ptrs[j]), g, cur as int));
                            }
                        }
                    }
                    cur = next;
                },
            }
            i += 1;
        }
        proof {
            lemma_all_below(s, n, h, g, cur as int);
        }
        Scan::Run(cur)
    }

    /// The smallest key under which the tree stores nothing, or `None` where
    /// it stores a value under every key.
    pub fn find_unused(&self, device: &mut Device, mgr: &mut PageManage) -> (r: Option<u64>)
        requires
            old(mgr).wf(old(device)),
            self.is_tree(old(mgr).store(old(device))),
        ensures
            final(mgr).wf(final(device)),
            final(mgr).capacity() == old(mgr).capacity(),
            final(device).limit() == old(device).limit(),
            same_except(
                old(mgr).store(old(device)),
                final(mgr).store(final(device)),
                Set::empty(),
            ),
            self.is_tree(final(mgr).store(final(device))),
            self.entries(final(mgr).store(final(device))) == self.entries(
                old(mgr).store(old(device)),
            ),
            match r {
                Some(key) => least_unused(self.entries(old(mgr).store(old(device))), key),
                None => forall|k: u64| self.entries(old(mgr).store(old(device))).contains_key(k),
            },
    {
        let ghost s = mgr.store(device);
        let ghost h = self.height(s);
        proof {
            self.lemma_entries(s, h);
        }
        let r = Self::find_unused_nontop(self, device, mgr, 0, Ghost(h), Ghost(0), Ghost(key_end()));
        proof {
            lemma_kept(s, mgr.store(device), Set::empty());
            self.lemma_tree_kept(s, mgr.store(device));
            assert forall|k: u64| present(s, self@, h, k) == self.entries(s).contains_key(k) by {
                lemma_present(*self, s, h, k);
            }
        }
        match r {
            Scan::Gap(key) => Some(key),
            Scan::Run(key) => {
                proof {
                    if self.entries(s).contains_key(key) {
                        assert(node_has(s, self@, h, key, self.entries(s)[key]));
                    }
                }
                Some(key)
            },
            Scan::Full => None,
        }
    }
}

/// Whether `k` is the smallest key that the map does not hold.
pub open spec fn least_unused<V>(m: Map<u64, V>, k: u64) -> bool {
    !m.contains_key(k) && forall|j: u64| j < k ==> m.contains_key(j)
}

/// A map has one smallest unused key only: asked twice of the same contents,
/// the search for it answers the same.
pub proof fn law_unused_unique<V>(m: Map<u64, V>, a: u64, b: u64)
    requires
        least_unused(m, a),
        least_unused(m, b),
    ensures
        a == b,
{
    if a < b {
        assert(m.contains_key(a));
    }
    if b < a {
        assert(m.contains_key(b));
    }
}

/// Once a value is stored under the smallest unused key, the smallest unused
/// key is a greater one: the search never answers with a key that is taken,
/// nor with the same key again.
pub proof fn law_unused_advances<V>(m: Map<u64, V>, k: u64, v: V, next: u64)
    requires
        least_unused(m, k),
        least_unused(m.insert(k, v), next),
    ensures
        next > k,
        !m.contains_key(next),
{
    if next < k {
        assert(m.contains_key(next));
    }
}

/// Every node of a tree has its keys in strictly increasing order and no
/// more than 254 entries; it is a leaf exactly at height 0 and an internal
/// node above; and each child of an internal node is such a node again, one
/// lower, with its keys between the key of its slot and the next.
pub proof fn law_node_shape(s: Store, n: NodeView, h: nat, lo: int, hi: int)
    requires
        node_ok(s, n, h, lo, hi),
    ensures
        sorted(n.ids),
        n.ids.len() == n.ptrs.len(),
        n.ids.len() <= MAX_IDS,
        (h == 0) == (n.node_type == PAGE_TYPEID_BTREE_LEAF),
        (h > 0) == (n.node_type == PAGE_TYPEID_BTREE_INTERNAL),
        forall|i: int| 0 <= i < n.ids.len() ==> lo <= #[trigger] n.ids[i] < hi,
        h > 0 ==> forall|i: int|
            0 <= i < n.ids.len() ==> node_ok(
                s,
                node_at(s, #[trigger] n.ptrs[i]),
                (h - 1) as nat,
                n.ids[i] as int,
                upper(n.ids, i, hi),
            ),
{
    if h > 0 {
        assert forall|i: int| 0 <= i < n.ids.len() implies node_ok(
            s,
            node_at(s, #[trigger] n.ptrs[i]),
            (h - 1) as nat,
            n.ids[i] as int,
            upper(n.ids, i, hi),
        ) by {
            assert(child_ok(s, n.ptrs[i], (h - 1) as nat, n.ids[i] as int, upper(n.ids, i, hi)));
        }
    }
}

/// What a scan from candidate `cand` through the subtree below `n` reports.
pub open spec fn scan_result(s: Store, n: NodeView, h: nat, hi: int, cand: u64, r: Scan) -> bool {
    match r {
        Scan::Gap(gap) => {
            &&& cand <= gap < hi
            &&& dense(s, n, h, cand as int, gap as int)
            &&& !present(s, n, h, gap)
        },
        Scan::Run(next) => {
            &&& cand <= next <= hi
            &&& dense(s, n, h, cand as int, next as int)
            &&& all_below(s, n, h, next as int)
        },
        Scan::Full => dense(s, n, h, cand as int, key_end()),
    }
}

/// A scan reports of two stores that hold the same images the same.
pub proof fn lemma_scan_grown(s: Store, t: Store, n: NodeView, h: nat, hi: int, cand: u64, r: Scan)
    requires
        same_except(s, t, Set::empty()),
        scan_result(t, n, h, hi, cand, r),
    ensures
        scan_result(s, n, h, hi, cand, r),
{
    lemma_grown(s, t, n, h, 0, hi);
    assert forall|k: u64| present(s, n, h, k) == present(t, n, h, k) by {
        if present(s, n, h, k) {
            let v = choose|v: u64| node_has(s, n, h, k, v);
            assert(node_has(t, n, h, k, v));
        }
        if present(t, n, h, k) {
            let v = choose|v: u64| node_has(t, n, h, k, v);
            assert(node_has(s, n, h, k, v));
        }
    }
    match r {
        Scan::Gap(gap) => {
            assert forall|k: u64| cand <= k < gap implies #[trigger] present(s, n, h, k) by {
                assert(present(t, n, h, k));
            }
        },
        Scan::Run(next) => {
            assert forall|k: u64| cand <= k < next implies #[trigger] present(s, n, h, k) by {
                assert(present(t, n, h, k));
            }
            assert forall|k: u64, v: u64| #[trigger] node_has(s, n, h, k, v) implies k < next by {
                assert(node_has(t, n, h, k, v));
            }
        },
        Scan::Full => {
            assert forall|k: u64| cand <= k < key_end() implies #[trigger] present(s, n, h, k) by {
                assert(present(t, n, h, k));
            }
        },
    }
}

/// How a node that has taken an entry, and then holds `before` entries, comes
/// to rest: below the fanout it is left whole; from the fanout on it is
/// split, the upper half of the entries, half of their number rounded down,
/// going to the new right sibling, whose first key is the separator, and
/// `kept` entries staying.
pub open spec fn split_sizes(t: Store, before: int, kept: int, split: Option<(u64, u64)>) -> bool {
    match split {
        None => before < MAX_IDS && kept == before,
        Some((sep, right)) => {
            &&& before >= MAX_IDS
            &&& kept == before - before / 2
            &&& node_at(t, right).ids.len() == before / 2
            &&& node_at(t, right).ids[0] == sep
        },
    }
}

/// What an insertion below a node leaves behind, by its result.
///
/// A refusal as a duplicate means that the key was stored and nothing
/// changed; any other failure is the allocator's, with no free page left.
/// On success the key was not stored before; every allocated page outside
/// the subtree is as it was; the node's page holds its image; and the node,
/// or the node and the new right sibling on either side of the separator,
/// store what was stored and the new pair.
pub open spec fn insert_result(
    s: Store,
    t: Store,
    limit: int,
    n: NodeView,
    m: NodeView,
    pc: u64,
    h: nat,
    lo: int,
    hi: int,
    id: u64,
    value: u64,
    r: Result<Option<(u64, u64)>, Error>,
) -> bool {
    match r {
        Err(e) => if e == Error::DuplicateKey {
            &&& exists|v: u64| node_has(s, n, h, id, v)
            &&& m == n
            &&& same_except(s, t, Set::empty())
        } else {
            &&& e == Error::Io
            &&& first_free(t, limit, 0) is None
            &&& forall|v: u64| !node_has(s, n, h, id, v)
            &&& others_kept(s, t, pc, h, lo, hi)
            &&& used_kept(s, t)
            &&& h == 0 ==> {
                &&& n.ids.len() + 1 >= MAX_IDS
                &&& first_free(s, limit, 0) is None
                &&& same_except(s, t, Set::empty())
            }
        },
        Ok(split) => {
            &&& forall|v: u64| !node_has(s, n, h, id, v)
            &&& others_kept(s, t, pc, h, lo, hi)
            &&& used_kept(s, t)
            &&& t.contains_key(pc)
            &&& page_used(t, pc)
            &&& node_at(t, pc) == m
            &&& t[pc] == m.dump()
            &&& m.ids.len() >= 1
            &&& exists|before: int| #[trigger]
                split_sizes(t, before, m.ids.len() as int, split) && (h == 0 ==> before
                    == n.ids.len() + 1)
            &&& h == 0 && split is None ==> forall|p: u64| #[trigger]
                page_used(t, p) == page_used(s, p)
            &&& h == 0 && split is Some ==> first_free(s, limit, 0) == Some(
                split.unwrap().1,
            ) && forall|d: u64|
                d != split.unwrap().1 && !is_reserved(d) ==> #[trigger] page_used(t, d)
                    == page_used(s, d)
            &&& match split {
                None => {
                    &&& node_ok(t, m, h, lo, hi)
                    &&& forall|k: u64, v: u64|
                        node_has(t, m, h, k, v) == (node_has(s, n, h, k, v) || (k == id && v
                            == value))
                },
                Some((sep, right)) => {
                    &&& lo < sep < hi
                    &&& node_ok(t, m, h, lo, sep as int)
                    &&& child_ok(t, right, h, sep as int, hi)
                    &&& !page_used(s, right)
                    &&& forall|k: u64, v: u64|
                        (node_has(t, m, h, k, v) || node_has(t, node_at(t, right), h, k, v)) == (
                        node_has(s, n, h, k, v) || (k == id && v == value))
                },
            }
        },
    }
}

/// Where an insertion below the child at `slot` has failed, every allocated
/// page outside the parent's subtree is as it was.
pub proof fn lemma_child_failed(
    s: Store,
    t1: Store,
    t2: Store,
    n: NodeView,
    pc: u64,
    h: nat,
    g: nat,
    lo: int,
    hi: int,
    slot: int,
    id: u64,
)
    requires
        h > 0,
        g == h - 1,
        node_ok(s, n, h, lo, hi),
        lo <= id < hi,
        0 <= slot < n.ids.len(),
        same_except(s, t1, Set::empty()),
        others_kept(
            t1,
            t2,
            n.ptrs[slot],
            g,
            least(n.ids[slot] as int, id as int),
            upper(n.ids, slot, hi),
        ),
        used_kept(t1, t2),
    ensures
        others_kept(s, t2, pc, h, lo, hi),
        used_kept(s, t2),
{
    let c = n.ptrs[slot];
    let clo = least(n.ids[slot] as int, id as int);
    let chi = upper(n.ids, slot, hi);
    assert(child_ok(s, c, g, n.ids[slot] as int, chi));
    assert(lo <= n.ids[slot]);
    if slot + 1 < n.ids.len() {
        assert(n.ids[slot + 1] < hi);
    }
    lemma_others_grown(s, t1, t2, c, g, clo, chi);
    lemma_widen(s, node_at(s, c), g, n.ids[slot] as int, chi, lo, hi);
    assert(may_hold(s, c, h, lo, hi));
    assert(kept(t2, t2, set![pc]));
    lemma_others_up(s, t2, t2, c, g, clo, chi, pc, h, lo, hi);
    assert forall|p: u64| !is_reserved(p) && #[trigger] page_used(s, p) implies page_used(
        t2,
        p,
    ) by {
        lemma_same_page(s, t1, p);
    }
}

/// After a successful insertion below the child at `slot`, the parent with
/// its entries brought up to date is a subtree again, stores what it stored
/// and the new pair, and its own page is as it was.
pub proof fn lemma_after_child(
    s: Store,
    t1: Store,
    t2: Store,
    limit: int,
    n: NodeView,
    m: NodeView,
    pc: u64,
    h: nat,
    g: nat,
    lo: int,
    hi: int,
    slot: int,
    id: u64,
    value: u64,
    child_before: NodeView,
    child_after: NodeView,
    split: Option<(u64, u64)>,
)
    requires
        h > 0,
        g == h - 1,
        node_ok(s, n, h, lo, hi),
        s.contains_key(pc),
        !is_reserved(pc),
        page_used(s, pc),
        node_at(s, pc) == n,
        lo <= id < hi,
        0 <= slot < n.ids.len(),
        slot > 0 ==> n.ids[slot] <= id,
        slot + 1 < n.ids.len() ==> id < n.ids[slot + 1],
        same_except(s, t1, Set::empty()),
        child_before == node_at(s, n.ptrs[slot]),
        insert_result(
            t1,
            t2,
            limit,
            child_before,
            child_after,
            n.ptrs[slot],
            g,
            least(n.ids[slot] as int, id as int),
            upper(n.ids, slot, hi),
            id,
            value,
            Ok(split),
        ),
        m == after_child_insert(n, slot, id, split),
    ensures
        m.wf(),
        m.ids.len() >= 1,
        node_body(t2, m, h, lo, hi),
        forall|v: u64| !node_has(s, n, h, id, v),
        forall|k: u64, v: u64|
            node_has(t2, m, h, k, v) == (node_has(s, n, h, k, v) || (k == id && v == value)),
        t2.contains_key(pc),
        page_used(t2, pc),
        !may_hold(t2, pc, g, lo, hi),
        others_kept(
            s,
            t2,
            n.ptrs[slot],
            g,
            least(n.ids[slot] as int, id as int),
            upper(n.ids, slot, hi),
        ),
        may_hold(s, n.ptrs[slot], h, lo, hi),
        used_kept(s, t2),
{
    let c = n.ptrs[slot];
    let clo = least(n.ids[slot] as int, id as int);
    let chi = upper(n.ids, slot, hi);
    assert(child_ok(s, c, g, n.ids[slot] as int, chi));
    assert(lo <= n.ids[slot]);
    if slot + 1 < n.ids.len() {
        assert(n.ids[slot + 1] < hi);
    }
    lemma_others_grown(s, t1, t2, c, g, clo, chi);
    lemma_grown(s, t1, child_before, g, clo, chi);
    lemma_insert_siblings(s, t2, n, h, g, lo, hi, slot, id);
    lemma_insert_body(t2, n, m, h, g, lo, hi, slot, id, split);
    assert forall|k: u64, v: u64|
        node_has(t2, m, h, k, v) == (node_has(s, n, h, k, v) || (k == id && v == value)) by {
        lemma_insert_has(s, t2, n, m, h, g, slot, id, split, k, v, k == id && v == value);
    }
    // the node's own page is as it was, and stands at height h
    lemma_not_below(s, pc, h, lo, hi, g, clo, chi);
    assert(node_body(s, node_at(s, c), g, n.ids[slot] as int, chi));
    if c == pc {
        lemma_height(s, n, h, lo, hi, g, n.ids[slot] as int, chi);
    }
    assert(untouched(s, t2, pc));
    assert(node_at(t2, pc) == n);
    if slot == 0 {
        match split {
            None => {
                lemma_not_below_by_child(t2, pc, h, clo, chi, g, lo, hi);
            },
            Some((sep, right)) => {
                lemma_not_below_by_child(t2, pc, h, clo, sep as int, g, lo, hi);
            },
        }
    } else {
        assert(child_ok(t2, n.ptrs[0], g, n.ids[0] as int, upper(n.ids, 0, hi)));
        lemma_not_below_by_child(t2, pc, h, n.ids[0] as int, upper(n.ids, 0, hi), g, lo, hi);
    }
    lemma_widen(s, node_at(s, c), g, n.ids[slot] as int, chi, lo, hi);
    assert(may_hold(s, c, h, lo, hi));
    assert forall|p: u64| !is_reserved(p) && #[trigger] page_used(s, p) implies page_used(
        t2,
        p,
    ) by {
        lemma_same_page(s, t1, p);
    }
}

impl Default for BtreeNode {
    /// An empty node without a type, at page count zero.
    fn default() -> (node: BtreeNode)
        ensures
            node.page_count == 0,
            node.node_type == 0,
            node.ids@.len() == 0,
            node.ptrs@.len() == 0,
    {
        BtreeNode::new_node(0)
    }
}

} // verus!
