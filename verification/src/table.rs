//! The table: records of byte values, stored as linked cells and found
//! through the B-tree under their row identifiers.

use vstd::prelude::*;
use crate::btree::{least_unused, BtreeNode, MAX_IDS};
use crate::cells::{
    cell, cell_ok, cells_hold, cells_kept, content_ok, entries_at, lemma_cell_value,
    lemma_cells_hold_kept, lemma_cells_trans, lemma_cells_unique, lemma_kept_cells,
    first_fit, laid, lemma_alike, lemma_fit_found, lemma_fit_gap, lemma_fit_none, lemma_fit_same,
    lemma_fit_step, lemma_of_type_found, lemma_of_type_gap, lemma_linked_cells, lemma_linked_kept, lemma_linked_push, lemma_outside_cells, link_of, linked,
    loc_page, loc_slot, nodes_kept, pack, takes,
};
use crate::chain::{
    chain_pages, holds_value, lemma_pages_kept, lemma_stored_kept, lemma_value_kept, links_needed,
    placed, stored, tagged_kept, INLINE_MAX, INLINE_PREFIX,
};
use crate::codec::{
    copy_range, lemma_u64_round_trip, spec_u64_to_be, splice, u64_from_be, u64_to_be, write_bytes,
};
use crate::content::{
    content_dump, content_load, entries_size, lemma_content_round_trip, lemma_entries_update,
    ContentEntry, ContentPage, EntryView,
};
use crate::device::{DEVICE_MAX_PAGES, Device};
use crate::error::Error;
use crate::manage::{
    first_free, first_of_type, image, is_reserved, kept, lemma_kept, lemma_kept_trans,
    lemma_room_same, page_used, room, same_except, untouched, PageManage, Store,
};
use crate::page::{PAGE_SIZE, PAGE_TYPEID_CONTENT, PAGE_TYPEID_OVERFLOW};
use crate::room::{
    gap_free, lemma_first_free_free, lemma_gap_first, lemma_least_free, lemma_room_less,
    lemma_spare_more, lemma_spare_trans, lemma_spent, lemma_unspent, one_more, same_used, sized,
    spare,
};
use crate::page::{PAGE_TYPEID_BTREE_LEAF, PageType};
use crate::tree::{
    is_node_image, key_end, lemma_frame, lemma_keyed, may_hold, node_at, node_body, node_has,
    outside_kept, subtree_kept,
};

verus! {

/// Packs the location of a cell: the page count in the upper 56 bits, the
/// slot in the lowest eight. What of the page count does not fit is lost.
pub fn location_to_u64(content_page_count: u64, offset: u8) -> (loc: u64)
    ensures
        loc == (content_page_count % 0x100_0000_0000_0000) * 256 + offset,
        content_page_count < 0x100_0000_0000_0000 ==> loc_page(loc) == content_page_count
            && loc_slot(loc) == offset,
{
    (content_page_count % 0x100_0000_0000_0000) * 256 + offset as u64
}

/// Unpacks the location of a cell into page count and slot.
pub fn location_from_u64(u64_val: u64) -> (r: (u64, u8))
    ensures
        r.0 == loc_page(u64_val),
        r.1 == loc_slot(u64_val),
        r.0 < 0x100_0000_0000_0000,
{
    (u64_val / 256, (u64_val % 256) as u8)
}

/// Packing what a location unpacks to gives the location, and unpacking what
/// a page count below 2^56 and a slot pack to gives the two.
pub proof fn law_location_round_trip(page: u64, slot: u8, loc: u64)
    ensures
        (loc_page(loc) % 0x100_0000_0000_0000) * 256 + loc_slot(loc) == loc,
        page < 0x100_0000_0000_0000 ==> loc_page((page * 256 + slot) as u64) == page && loc_slot(
            (page * 256 + slot) as u64,
        ) == slot,
{
}

/// The types of values.
#[derive(Debug, Clone, Copy, PartialEq, Eq, Structural)]
pub enum ValueType {
    Number,
    Bytes,
}

/// One value of a record.
#[derive(Debug, Clone)]
pub struct Value {
    pub value_type: ValueType,
    pub data: Vec<u8>,
}

impl Value {
    /// A value of the given type with a copy of the bytes.
    pub fn new(value_type: ValueType, data: &[u8]) -> (value: Value)
        ensures
            value.value_type == value_type,
            value.data@ == data@,
    {
        let copy = copy_range(data, 0, data.len());
        proof {
            assert(data@.subrange(0, data@.len() as int) =~= data@);
        }
        Value { value_type, data: copy }
    }
}

/// A record: its row identifier and its values in order.
#[derive(Clone, Default, Debug)]
pub struct Record {
    pub rowid: u64,
    pub values: Vec<Value>,
    pub location: Vec<(u64, u8)>,
}

impl Record {
    /// The bytes of the values, in order.
    pub open spec fn bytes(&self) -> Seq<Seq<u8>> {
        Seq::new(self.values@.len(), |i: int| self.values@[i].data@)
    }
}

/// A table: the root of its index, held in memory, and the types of the
/// values of its records.
#[derive(Default)]
pub struct Table {
    pub root_node: BtreeNode,
    pub value_types: Vec<ValueType>,
}

impl Table {
    /// The number of values in each record.
    pub open spec fn arity(&self) -> nat {
        self.value_types@.len()
    }

    /// Where the store holds the first cell of each row.
    pub open spec fn heads(&self, s: Store) -> Map<u64, u64> {
        self.root_node.entries(s)
    }

    /// Whether the store holds the table: the index is a tree, and from the
    /// location that it gives for each row identifier on, cells hold a record
    /// of as many values as the table declares.
    pub open spec fn wf(&self, s: Store) -> bool {
        &&& self.root_node.is_tree(s)
        &&& forall|rowid: u64| #[trigger]
            self.heads(s).contains_key(rowid) ==> self.row_ok(s, rowid)
    }

    /// Whether the cells from the location of a row on hold a record of as
    /// many values as the table declares.
    pub open spec fn row_ok(&self, s: Store, rowid: u64) -> bool {
        exists|values: Seq<Seq<u8>>|
            values.len() == self.arity() && #[trigger] cells_hold(s, self.heads(s)[rowid], values)
    }

    /// The values of the row stored under `rowid`.
    pub open spec fn row(&self, s: Store, rowid: u64) -> Seq<Seq<u8>> {
        choose|values: Seq<Seq<u8>>|
            values.len() == self.arity() && #[trigger] cells_hold(s, self.heads(s)[rowid], values)
    }

    /// The rows of the table: the values of the record under each row
    /// identifier.
    pub open spec fn rows(&self, s: Store) -> Map<u64, Seq<Seq<u8>>> {
        Map::new(|rowid: u64| self.heads(s).contains_key(rowid), |rowid: u64| self.row(s, rowid))
    }

    /// The row under a row identifier is the one record that its cells hold.
    pub proof fn lemma_row(&self, s: Store, rowid: u64, values: Seq<Seq<u8>>)
        requires
            self.heads(s).contains_key(rowid),
            values.len() == self.arity(),
            cells_hold(s, self.heads(s)[rowid], values),
        ensures
            self.rows(s).contains_key(rowid),
            self.rows(s)[rowid] == values,
    {
        let found = self.row(s, rowid);
        assert(found.len() == self.arity() && cells_hold(s, self.heads(s)[rowid], found));
        lemma_cells_unique(s, self.heads(s)[rowid], found, values);
    }

    /// A table is in `t` what it was in `s` where the pages of its index and
    /// its cells are kept.
    pub proof fn lemma_table_kept(&self, s: Store, t: Store)
        requires
            self.wf(s),
            nodes_kept(s, t),
            cells_kept(s, t, Set::empty()),
        ensures
            self.wf(t),
            self.heads(t) == self.heads(s),
            self.rows(t) == self.rows(s),
    {
        lemma_index_kept(self.root_node, s, t);
        assert forall|rowid: u64| #[trigger] self.heads(t).contains_key(rowid) implies self.row_ok(
            t,
            rowid,
        ) && self.row(t, rowid) == self.row(s, rowid) by {
            assert(self.heads(s).contains_key(rowid));
            assert(self.row_ok(s, rowid));
            let w = self.row(s, rowid);
            assert(w.len() == self.arity() && cells_hold(s, self.heads(s)[rowid], w));
            lemma_cells_hold_kept(s, t, self.heads(s)[rowid], w);
            self.lemma_row(t, rowid, w);
        }
        assert(self.rows(t) =~= self.rows(s));
    }

    /// Makes a table with no rows: allocates the page of its index and
    /// writes an empty leaf to it. Fails, with no page changed, exactly where
    /// no page is free.
    pub fn create(device: &mut Device, mgr: &mut PageManage, value_types: Vec<ValueType>) -> (r:
        Result<Table, Error>)
        requires
            old(mgr).wf(old(device)),
        ensures
            final(mgr).wf(final(device)),
            final(mgr).capacity() == old(mgr).capacity(),
            final(device).limit() == old(device).limit(),
            kept(old(mgr).store(old(device)), final(mgr).store(final(device)), Set::empty()),
            match r {
                Ok(table) => {
                    &&& table.value_types@ == value_types@
                    &&& table.wf(final(mgr).store(final(device)))
                    &&& table.rows(final(mgr).store(final(device))) == Map::<
                        u64,
                        Seq<Seq<u8>>,
                    >::empty()
                    &&& !page_used(old(mgr).store(old(device)), table.root_node.page_count)
                    &&& first_free(old(mgr).store(old(device)), old(device).limit(), 0) == Some(
                        table.root_node.page_count,
                    )
                    &&& table.root_node.node_type == PAGE_TYPEID_BTREE_LEAF
                    &&& table.root_node.ids@.len() == 0
                    &&& one_more(
                        old(mgr).store(old(device)),
                        final(mgr).store(final(device)),
                        table.root_node.page_count,
                    )
                    &&& spare(
                        old(mgr).store(old(device)),
                        final(mgr).store(final(device)),
                        old(device).limit(),
                        1,
                    )
                },
                Err(e) => e == Error::Io && first_free(
                    old(mgr).store(old(device)),
                    old(device).limit(),
                    0,
                ) is None && same_except(
                    old(mgr).store(old(device)),
                    final(mgr).store(final(device)),
                    Set::empty(),
                ),
            },
    {
        let ghost s = mgr.store(device);
        proof {
            mgr.lemma_store(device);
        }
        let page = match mgr.allocate(device, PageType::BtreePage) {
            Ok(page) => page,
            Err(e) => {
                proof {
                    lemma_kept(s, mgr.store(device), Set::empty());
                }
                return Err(e);
            },
        };
        let ghost t1 = mgr.store(device);
        let mut root = BtreeNode::new_node(PAGE_TYPEID_BTREE_LEAF);
        root.page_count = page.count;
        root.store(device, mgr);
        let table = Table { root_node: root, value_types };
        proof {
            let t = mgr.store(device);
            mgr.lemma_store(device);
            assert(one_more(s, t, page.count));
            lemma_spent(s, t, device.limit() as int, page.count);
            assert(node_body(t, table.root_node@, 0, 0, key_end()));
            assert(table.root_node.tree_at(t, 0));
            table.root_node.lemma_entries(t, 0);
            assert forall|k: u64| !table.heads(t).contains_key(k) by {
                if table.heads(t).contains_key(k) {
                    assert(node_has(t, table.root_node@, 0, k, table.heads(t)[k]));
                }
            }
            assert(table.rows(t) =~= Map::<u64, Seq<Seq<u8>>>::empty());
            assert forall|p: u64|
                #![trigger untouched(s, t, p)]
                !is_reserved(p) && page_used(s, p) implies untouched(s, t, p) by {
                assert(untouched(s, t1, p));
                assert(untouched(t1, t, p));
            }
        }
        Ok(table)
    }

    /// Takes up a table whose index has its root on page `root`: reads the
    /// root node from that page. A page that was never written is not found.
    pub fn open(device: &mut Device, mgr: &mut PageManage, root: u64, value_types: Vec<
        ValueType,
    >) -> (r: Result<Table, Error>)
        requires
            old(mgr).wf(old(device)),
        ensures
            final(mgr).wf(final(device)),
            final(mgr).capacity() == old(mgr).capacity(),
            final(device).limit() == old(device).limit(),
            same_except(
                old(mgr).store(old(device)),
                final(mgr).store(final(device)),
                Set::empty(),
            ),
            match r {
                Ok(table) => {
                    &&& old(mgr).store(old(device)).contains_key(root)
                    &&& table.root_node.page_count == root
                    &&& table.root_node@ == node_at(old(mgr).store(old(device)), root)
                    &&& table.value_types@ == value_types@
                },
                Err(e) => e == Error::NotFound && !old(mgr).store(old(device)).contains_key(root),
            },
    {
        match mgr.get_data(device, root) {
            Ok(data) => Ok(Table { root_node: BtreeNode::new(root, &data), value_types }),
            Err(e) => Err(e),
        }
    }

    /// Reads the value of the cell at `loc`. What a cell that is not the last
    /// of its record holds starts with the location of the next cell; the
    /// bytes after it are the value.
    fn read_cell(
        device: &mut Device,
        mgr: &mut PageManage,
        loc: u64,
        last: bool,
        Ghost(left): Ghost<Seq<Seq<u8>>>,
    ) -> (r: (Vec<u8>, u64))
        requires
            old(mgr).wf(old(device)),
            cells_hold(old(mgr).store(old(device)), loc, left),
            last == (left.len() == 1),
        ensures
            final(mgr).wf(final(device)),
            final(mgr).capacity() == old(mgr).capacity(),
            final(device).limit() == old(device).limit(),
            same_except(
                old(mgr).store(old(device)),
                final(mgr).store(final(device)),
                Set::empty(),
            ),
            r.0@ == left[0],
            !last ==> cells_hold(final(mgr).store(final(device)), r.1, left.skip(1)),
    {
        let ghost cur = mgr.store(device);
        let (page_count, offset) = location_from_u64(loc);
        let page = match mgr.get_data(device, page_count) {
            Ok(data) => ContentPage::load(&data),
            Err(_) => {
                proof {
                    assert(false);
                }
                ContentPage { entries: Vec::new() }
            },
        };
        let ghost c1 = mgr.store(device);
        proof {
            lemma_kept(cur, c1, Set::empty());
            lemma_kept_cells(cur, c1);
            lemma_cells_hold_kept(cur, c1, loc, left);
            assert(page@ == entries_at(c1, page_count));
            assert(page@[offset as int] == cell(c1, loc));
            assert(page.entries@[offset as int]@ == page@[offset as int]);
        }
        let ghost next = if left.len() == 1 {
            0u64
        } else {
            choose|next: u64|
                #[trigger] holds_value(c1, cell(c1, loc), spec_u64_to_be(next) + left[0])
                    && cells_hold(c1, next, left.skip(1))
        };
        let ghost full = if left.len() == 1 {
            left[0]
        } else {
            spec_u64_to_be(next) + left[0]
        };
        proof {
            lemma_u64_round_trip(next);
        }
        let bytes = page.entries[offset as usize].payload(device, mgr, Ghost(full));
        let ghost c2 = mgr.store(device);
        proof {
            lemma_kept(c1, c2, Set::empty());
            lemma_kept_cells(c1, c2);
        }
        if last {
            (bytes, 0)
        } else {
            let value = copy_range(&bytes, 8, bytes.len());
            let link = u64_from_be(&bytes, 0);
            proof {
                lemma_u64_round_trip(next);
                assert(full.subrange(0, 8) =~= spec_u64_to_be(next));
                assert(full.subrange(8, full.len() as int) =~= left[0]);
                lemma_cells_hold_kept(c1, c2, next, left.skip(1));
            }
            (value, link)
        }
    }

    /// The record stored under `rowid`. The index gives the location of the
    /// first cell; the value of each cell but the last starts with the
    /// location of the next, and the bytes after it are the record's value.
    /// A row identifier under which nothing is stored is reported as missing.
    pub fn query(&self, device: &mut Device, mgr: &mut PageManage, rowid: u64) -> (r: Result<
        Record,
        Error,
    >)
        requires
            old(mgr).wf(old(device)),
            self.wf(old(mgr).store(old(device))),
        ensures
            final(mgr).wf(final(device)),
            final(mgr).capacity() == old(mgr).capacity(),
            final(device).limit() == old(device).limit(),
            same_except(
                old(mgr).store(old(device)),
                final(mgr).store(final(device)),
                Set::empty(),
            ),
            self.wf(final(mgr).store(final(device))),
            self.rows(final(mgr).store(final(device))) == self.rows(old(mgr).store(old(device))),
            match r {
                Ok(record) => {
                    &&& self.rows(old(mgr).store(old(device))).contains_key(rowid)
                    &&& record.bytes() == self.rows(old(mgr).store(old(device)))[rowid]
                    &&& record.rowid == rowid
                    &&& record.location@.len() == 0
                    &&& forall|i: int|
                        0 <= i < record.values@.len() ==> (#[trigger] record.values@[i]).value_type
                            == ValueType::Bytes
                },
                Err(e) => e == Error::MissingRow && !self.rows(
                    old(mgr).store(old(device)),
                ).contains_key(rowid),
            },
    {
        let ghost s = mgr.store(device);
        let found = self.root_node.find_id(device, mgr, rowid);
        let head: u64 = match found {
            Some(head) => head,
            None => {
                proof {
                    lemma_kept(s, mgr.store(device), Set::empty());
                    lemma_kept_cells(s, mgr.store(device));
                    self.lemma_table_kept(s, mgr.store(device));
                }
                return Err(Error::MissingRow);
            },
        };
        let ghost values = self.row(s, rowid);
        let mut record = Record { rowid, values: Vec::new(), location: Vec::new() };
        let count: usize = self.value_types.len();
        let mut loc: u64 = head;
        let mut i: usize = 0;
        proof {
            assert(self.heads(s).contains_key(rowid));
            assert(self.row_ok(s, rowid));
            assert(values.len() == self.arity() && cells_hold(s, head, values));
            lemma_kept(s, mgr.store(device), Set::empty());
            lemma_kept_cells(s, mgr.store(device));
            lemma_cells_hold_kept(s, mgr.store(device), head, values);
            assert(values.skip(0) =~= values);
            assert(record.bytes() =~= values.take(0));
        }
        while i < count
            invariant
                mgr.wf(device),
                mgr.capacity() == old(mgr).capacity(),
                device.limit() == old(device).limit(),
                s == old(mgr).store(old(device)),
                same_except(s, mgr.store(device), Set::empty()),
                count == values.len(),
                count >= 1,
                i <= count,
                i < count ==> cells_hold(mgr.store(device), loc, values.skip(i as int)),
                record.bytes() == values.take(i as int),
                record.rowid == rowid,
                record.location@.len() == 0,
                forall|j: int|
                    0 <= j < record.values@.len() ==> (#[trigger] record.values@[j]).value_type
                        == ValueType::Bytes,
            decreases count - i,
        {
            let ghost left = values.skip(i as int);
            let (bytes, next) = Self::read_cell(device, mgr, loc, i + 1 == count, Ghost(left));
            let ghost before = record.bytes();
            record.values.push(Value { value_type: ValueType::Bytes, data: bytes });
            loc = next;
            proof {
                assert(left[0] == values[i as int]);
                assert(left.skip(1) =~= values.skip(i + 1));
                assert(record.bytes() =~= before.push(values[i as int]));
                assert(values.take(i + 1) =~= values.take(i as int).push(values[i as int]));
            }
            i += 1;
        }
        proof {
            assert(values.take(count as int) =~= values);
            self.lemma_row(s, rowid, values);
            lemma_kept(s, mgr.store(device), Set::empty());
            lemma_kept_cells(s, mgr.store(device));
            self.lemma_table_kept(s, mgr.store(device));
        }
        Ok(record)
    }
}

/// What putting an entry into a content page leaves: a new cell that holds
/// the entry, on a page from where the search began on; every other cell, and
/// every page of another kind, is as it was.
pub open spec fn placed_cell(s: Store, t: Store, e: EntryView, start: u64, loc: u64) -> bool {
    &&& loc_page(loc) >= start
    &&& cell_ok(t, loc)
    &&& cell(t, loc) == e
    &&& !cell_ok(s, loc)
    &&& cells_kept(s, t, Set::empty())
    &&& nodes_kept(s, t)
    &&& kept(s, t, set![loc_page(loc)])
    &&& forall|p: u64| !is_reserved(p) && #[trigger] page_used(s, p) ==> page_used(t, p)
}

impl Table {
    /// Puts an entry into the first content page, from page `start` on, that
    /// takes it, and returns the location of the new cell.
    fn place(device: &mut Device, mgr: &mut PageManage, entry: ContentEntry, start: u64) -> (r:
        Result<u64, Error>)
        requires
            old(mgr).wf(old(device)),
            entry@.size() + 2 <= PAGE_SIZE,
        ensures
            final(mgr).wf(final(device)),
            final(mgr).capacity() == old(mgr).capacity(),
            final(device).limit() == old(device).limit(),
            match r {
                Ok(loc) => {
                    let s = old(mgr).store(old(device));
                    &&& placed_cell(s, final(mgr).store(final(device)), entry@, start, loc)
                    &&& first_fit(s, start as int, old(device).limit(), entry@.size()) == Some(
                        loc_page(loc),
                    )
                    &&& loc_slot(loc) == (if page_used(s, loc_page(loc)) {
                        entries_at(s, loc_page(loc)).len() as int
                    } else {
                        0
                    })
                    &&& page_used(s, loc_page(loc)) ==> same_used(
                        s,
                        final(mgr).store(final(device)),
                    )
                    &&& !page_used(s, loc_page(loc)) ==> one_more(
                        s,
                        final(mgr).store(final(device)),
                        loc_page(loc),
                    )
                },
                Err(e) => {
                    &&& e == Error::Io
                    &&& first_fit(
                        old(mgr).store(old(device)),
                        start as int,
                        old(device).limit(),
                        entry@.size(),
                    ) is None
                    &&& same_except(
                        old(mgr).store(old(device)),
                        final(mgr).store(final(device)),
                        Set::empty(),
                    )
                },
            },
    {
        let ghost s = mgr.store(device);
        let ghost size = entry@.size();
        let limit: usize = device.page_limit();
        let mut from: u64 = start;
        proof {
            assert(kept(s, s, Set::empty()));
        }
        loop
            invariant
                mgr.wf(device),
                mgr.capacity() == old(mgr).capacity(),
                device.limit() == old(device).limit(),
                limit == device.limit(),
                s == old(mgr).store(old(device)),
                kept(s, mgr.store(device), Set::empty()),
                same_except(s, mgr.store(device), Set::empty()),
                first_fit(s, start as int, limit as int, size) == first_fit(
                    s,
                    from as int,
                    limit as int,
                    size,
                ),
                size == entry@.size(),
                from >= start,
                entry@.size() + 2 <= PAGE_SIZE,
            decreases limit - from,
        {
            let ghost cur = mgr.store(device);
            proof {
                lemma_fit_same(s, cur, from as int, limit as int, size);
            }
            let page_count: u64 = match mgr.find_page_by_type(device, from, PAGE_TYPEID_CONTENT) {
                Ok(page_count) => page_count,
                Err(e) => {
                    proof {
                        lemma_fit_none(cur, from as int, limit as int, size);
                        lemma_alike(s, cur, mgr.store(device));
                    }
                    return Err(e);
                },
            };
            proof {
                lemma_fit_step(cur, from as int, limit as int, size, page_count);
            }
            let ghost c1 = mgr.store(device);
            let mut page = match mgr.get_data(device, page_count) {
                Ok(data) => ContentPage::load(&data),
                Err(_) => {
                    proof {
                        assert(false);
                    }
                    ContentPage { entries: Vec::new() }
                },
            };
            let ghost c2 = mgr.store(device);
            proof {
                lemma_kept(c1, c2, Set::empty());
                lemma_kept_trans(s, cur, c1, Set::empty(), Set::empty());
                assert(Set::<u64>::empty().union(Set::<u64>::empty()) =~= Set::<u64>::empty());
                lemma_kept_trans(s, c1, c2, Set::empty(), Set::empty());
                mgr.lemma_store(device);
            }
            if page.can_push(&entry) {
                let ghost before = page@;
                let slot: usize = page.entries.len();
                let ghost e = entry@;
                let pushed = page.push(entry);
                let image = page.dump();
                let written = mgr.modify(device, page_count, &image);
                let loc = location_to_u64(page_count, slot as u8);
                proof {
                    let t = mgr.store(device);
                    assert(written is Ok);
                    lemma_kept(c2, t, set![page_count]);
                    lemma_content_round_trip(page@);
                    lemma_placed(s, c1, c2, t, page_count, before, e, start, loc);
                    assert(loc_page(loc) == page_count && loc_slot(loc) == before.len());
                    if page_used(cur, page_count) {
                        assert(before == entries_at(cur, page_count));
                        assert(entries_at(s, page_count) == entries_at(cur, page_count));
                    } else {
                        assert(before.len() == 0);
                    }
                    assert(page_used(s, page_count) == page_used(cur, page_count)) by {
                        lemma_kept(s, cur, Set::empty());
                    }
                    assert forall|d: u64| !is_reserved(d) implies #[trigger] page_used(t, d) == (
                    (d == page_count && !page_used(s, page_count)) || page_used(s, d)) by {
                        lemma_kept(s, cur, Set::empty());
                        assert(page_used(cur, d) == page_used(s, d));
                        assert(page_used(c2, d) == page_used(c1, d));
                        assert(page_used(t, d) == page_used(c2, d));
                        if page_used(cur, page_count) {
                            lemma_kept(cur, c1, Set::empty());
                            assert(page_used(c1, d) == page_used(cur, d));
                        } else if d != page_count {
                            assert(page_used(c1, d) == page_used(cur, d));
                        }
                    }
                }
                return Ok(loc);
            }
            proof {
                if !page_used(cur, page_count) {
                    assert(page@.len() == 0);
                    assert(entries_size(page@) == 0);
                    assert(false);
                }
                assert(page@ == entries_at(cur, page_count));
                lemma_alike(cur, c1, c2);
                lemma_alike(s, cur, c2);
                lemma_fit_same(s, cur, page_count + 1, limit as int, size);
            }
            from = page_count + 1;
        }
    }
}

/// Putting an entry at the end of a content page that the search by type
/// came to makes a new cell and keeps every other.
pub proof fn lemma_placed(
    s: Store,
    c1: Store,
    c2: Store,
    t: Store,
    p: u64,
    before: Seq<EntryView>,
    e: EntryView,
    start: u64,
    loc: u64,
)
    requires
        kept(s, c1, Set::empty()),
        kept(s, c2, Set::empty()),
        same_except(c1, c2, Set::empty()),
        c1.contains_key(p),
        c1[p][0] == PAGE_TYPEID_CONTENT,
        !is_reserved(p),
        page_used(c1, p),
        before == entries_at(c2, p),
        before.len() < 255,
        p < 0x100_0000_0000_0000,
        p >= start,
        loc == pack(p, before.len() as int),
        kept(c2, t, set![p]),
        forall|q: u64| #[trigger] page_used(t, q) == page_used(c2, q),
        t.contains_key(p),
        t[p] == content_dump(before.push(e)),
        content_load(t[p]) == before.push(e),
        t[p][0] == PAGE_TYPEID_CONTENT,
    ensures
        placed_cell(s, t, e, start, loc),
{
    assert(loc_page(loc) == p && loc_slot(loc) == before.len());
    assert(entries_at(t, p) == before.push(e));
    assert(page_used(c2, p)) by {
        lemma_kept(c1, c2, Set::empty());
    }
    assert(content_ok(t, p));
    assert(cell(t, loc) == e);
    assert(image(c2, p) == image(c1, p));
    // the page was either allocated now or a content page all along
    if page_used(s, p) {
        assert(untouched(s, c1, p));
        assert(image(s, p) == image(c1, p));
        assert(s.contains_key(p) ==> c1.contains_key(p));
    }
    assert(!cell_ok(s, loc)) by {
        if cell_ok(s, loc) {
            assert(content_ok(s, p));
            assert(entries_at(s, p) == before);
        }
    }
    assert forall|q: u64|
        #![trigger untouched(s, t, q)]
        !is_reserved(q) && page_used(s, q) && q != p implies untouched(s, t, q) by {
        assert(untouched(s, c2, q));
        assert(untouched(c2, t, q));
    }
    assert(kept(s, t, set![p]));
    assert forall|q: u64|
        #![trigger untouched(s, t, q)]
        !is_reserved(q) && page_used(s, q) && image(s, q)[0] == PAGE_TYPEID_OVERFLOW
        implies untouched(s, t, q) by {
        if q == p {
            assert(untouched(s, c1, p));
        }
    }
    assert forall|q: u64|
        #![trigger untouched(s, t, q)]
        !is_reserved(q) && page_used(s, q) && is_node_image(image(s, q)) implies untouched(
        s,
        t,
        q,
    ) by {
        if q == p {
            assert(untouched(s, c1, p));
        }
    }
    assert forall|at: u64|
        #![trigger cell_ok(t, at)]
        cell_ok(s, at) implies cell_ok(t, at) && cell(t, at) == cell(s, at) by {
        let q = loc_page(at);
        if q == p {
            assert(entries_at(s, p) == before);
            assert(before.push(e)[loc_slot(at)] == before[loc_slot(at)]);
        } else {
            assert(untouched(s, t, q));
        }
    }
    assert forall|q: u64| !is_reserved(q) && #[trigger] page_used(s, q) implies page_used(
        t,
        q,
    ) by {
        assert(untouched(s, c2, q));
    }
    assert(tagged_kept(s, t, PAGE_TYPEID_OVERFLOW));
    assert(cells_kept(s, t, Set::empty()));
    assert(nodes_kept(s, t));
    assert(loc_page(loc) >= start);
}

/// Eight zero bytes: what stands for the link of a cell until the next cell
/// is placed.
pub open spec fn placeholder() -> Seq<u8> {
    Seq::new(8, |i: int| 0u8)
}

/// What storing one value of a record leaves: a new cell on a page from
/// where the search began on, which holds the value if it is the record's
/// last, and else the placeholder and the value inline; every other cell,
/// and every page of the index, is as it was.
pub open spec fn value_put(s: Store, t: Store, data: Seq<u8>, last: bool, start: u64, loc: u64) -> bool {
    &&& loc_page(loc) >= start
    &&& cell_ok(t, loc)
    &&& !cell_ok(s, loc)
    &&& cells_kept(s, t, Set::empty())
    &&& nodes_kept(s, t)
    &&& last ==> holds_value(t, cell(t, loc), data) && stored(t, data, cell(t, loc))
    &&& !last ==> cell(t, loc) == (EntryView { data: placeholder() + data, overflow_page: None })
}

/// The bytes that the cell of a value takes in its page: the length field,
/// the link unless the value is the record's last, and the inline bytes; and
/// eight bytes more for the first page of a chain, where the value has one.
pub open spec fn cell_size(data: Seq<u8>, last: bool) -> int {
    if !last {
        2 + 8 + data.len() as int
    } else if data.len() <= INLINE_MAX {
        2 + data.len() as int
    } else {
        2 + 8 + INLINE_PREFIX as int
    }
}

/// Whether `p` is the page of the cell at `loc`, or, where the cell is the
/// last of its record and its value has a chain, a page of that chain.
pub open spec fn cell_page(t: Store, loc: u64, data: Seq<u8>, last: bool, p: u64) -> bool {
    ||| p == loc_page(loc)
    ||| last && data.len() > INLINE_MAX && cell(t, loc).overflow_page is Some && chain_pages(
        t,
        cell(t, loc).overflow_page.unwrap(),
        data.skip(INLINE_PREFIX as int),
    ).contains(p)
}

/// Whether every page that `t` has allocated and `s` had not is the page of
/// one of the cells at `locs`, or, once the last value has been placed, a
/// page of its chain.
pub open spec fn taken_for(s: Store, t: Store, locs: Seq<u64>, done: bool, data: Seq<u8>) -> bool {
    forall|p: u64|
        !is_reserved(p) && #[trigger] page_used(t, p) && !page_used(s, p) ==> {
            ||| exists|j: int| 0 <= j < locs.len() && loc_page(#[trigger] locs[j]) == p
            ||| done && locs.len() >= 1 && cell_page(t, locs.last(), data, true, p)
        }
}

/// The pages that were taken up to one cell, and those that the next cell
/// took, are the pages taken up to that cell.
pub proof fn lemma_taken_step(
    s: Store,
    cur: Store,
    t: Store,
    locs: Seq<u64>,
    loc: u64,
    data: Seq<u8>,
    last: bool,
)
    requires
        forall|p: u64|
            !is_reserved(p) && #[trigger] page_used(cur, p) && !page_used(s, p) ==> p == loc_page(
                loc,
            ) || exists|j: int| 0 <= j < locs.len() && loc_page(#[trigger] locs[j]) == p,
        forall|p: u64|
            !is_reserved(p) && #[trigger] page_used(t, p) && !page_used(cur, p) ==> cell_page(
                t,
                loc,
                data,
                last,
                p,
            ),
    ensures
        taken_for(s, t, locs.push(loc), last, data),
{
    let all = locs.push(loc);
    assert(all.last() == loc);
    assert(all[locs.len() as int] == loc);
    assert forall|p: u64| !is_reserved(p) && #[trigger] page_used(t, p) && !page_used(s, p) implies {
        ||| exists|j: int| 0 <= j < all.len() && loc_page(#[trigger] all[j]) == p
        ||| last && all.len() >= 1 && cell_page(t, all.last(), data, true, p)
    } by {
        if page_used(cur, p) {
            if p != loc_page(loc) {
                let j = choose|j: int| 0 <= j < locs.len() && loc_page(#[trigger] locs[j]) == p;
                assert(all[j] == locs[j]);
            }
        } else {
            assert(cell_page(t, loc, data, last, p));
        }
    }
}

/// The most pages that storing one value takes: one for its cell, and those
/// of its chain where it has one.
pub open spec fn cell_cost(data: Seq<u8>, last: bool) -> nat {
    if last && data.len() > INLINE_MAX {
        1 + links_needed(data.len() - INLINE_PREFIX)
    } else {
        1
    }
}

/// Where no page before the start of the search can be handed out and some
/// page can, the search for a page that takes an entry finds one.
pub proof fn lemma_place_owed(s: Store, limit: int, start: u64, size: int)
    requires
        gap_free(s, start),
        room(s, limit, 1),
        limit <= DEVICE_MAX_PAGES,
    ensures
        first_fit(s, start as int, limit, size) is Some,
{
    lemma_gap_first(s, limit, start);
    lemma_fit_found(s, start as int, limit, size, first_free(s, limit, 0).unwrap());
}

/// Placing an entry takes at most one page, and leaves no page before the
/// entry's own that can be handed out.
pub proof fn lemma_place_spare(s: Store, t: Store, limit: int, start: u64, size: int, p: u64)
    requires
        sized(s),
        sized(t),
        limit <= DEVICE_MAX_PAGES,
        gap_free(s, start),
        first_fit(s, start as int, limit, size) == Some(p),
        page_used(s, p) ==> same_used(s, t),
        !page_used(s, p) ==> one_more(s, t, p),
    ensures
        spare(s, t, limit, 1),
        gap_free(t, p),
{
    lemma_fit_gap(s, start as int, limit, size);
    assert(gap_free(s, p)) by {
        assert forall|c: u64| c < p && !is_reserved(c) implies #[trigger] page_used(s, c) by {
            if c >= start {
            }
        }
    }
    if page_used(s, p) {
        lemma_unspent(s, t, limit);
        lemma_spare_more(s, t, limit, 0, 1);
    } else {
        lemma_least_free(s, limit, p);
        lemma_spent(s, t, limit, p);
    }
    assert forall|c: u64| c < p && !is_reserved(c) implies #[trigger] page_used(t, c) by {
        assert(page_used(s, c));
    }
}

/// Whether the search for a page that takes the cell of value `j` of a
/// record, begun at the content page `from`, finds none: neither that page
/// nor any content page after it takes the cell, and no page after it is
/// unallocated.
pub open spec fn stuck(t: Store, limit: int, from: u64, values: Seq<Seq<u8>>, j: int) -> bool {
    content_ok(t, from) && first_fit(
        t,
        from as int,
        limit,
        cell_size(values[j], j + 1 == values.len()),
    ) is None
}

/// What rewriting the link of the cell at `at` leaves: the cell's inline
/// bytes start with the location `to`; every other cell, and every page of
/// the index, is as it was.
pub open spec fn relinked(s: Store, t: Store, at: u64, to: u64) -> bool {
    &&& cell_ok(t, at)
    &&& cell(t, at) == (EntryView {
        data: splice(cell(s, at).data, 0, spec_u64_to_be(to)),
        overflow_page: None,
    })
    &&& cells_kept(s, t, set![at])
    &&& nodes_kept(s, t)
}

impl Table {
    /// Stores one value of a record as a new cell: makes its entry, with the
    /// placeholder of the link before the value unless it is the record's
    /// last, and puts it into the first content page from `start` on that
    /// takes it.
    fn put_value(device: &mut Device, mgr: &mut PageManage, data: &[u8], last: bool, start: u64) -> (r:
        Result<u64, Error>)
        requires
            old(mgr).wf(old(device)),
            !last ==> data@.len() <= INLINE_PREFIX,
        ensures
            final(mgr).wf(final(device)),
            final(mgr).capacity() == old(mgr).capacity(),
            final(device).limit() == old(device).limit(),
            gap_free(old(mgr).store(old(device)), start) && room(
                old(mgr).store(old(device)),
                old(device).limit(),
                cell_cost(data@, last),
            ) ==> r is Ok,
            r is Ok && gap_free(old(mgr).store(old(device)), start) ==> spare(
                old(mgr).store(old(device)),
                final(mgr).store(final(device)),
                old(device).limit(),
                cell_cost(data@, last),
            ) && gap_free(final(mgr).store(final(device)), loc_page(r.unwrap())),
            r is Ok ==> forall|p: u64|
                !is_reserved(p) && #[trigger] page_used(final(mgr).store(final(device)), p)
                    && !page_used(old(mgr).store(old(device)), p) ==> cell_page(
                    final(mgr).store(final(device)),
                    r.unwrap(),
                    data@,
                    last,
                    p,
                ),
            r is Ok && content_ok(old(mgr).store(old(device)), start) && takes(
                entries_at(old(mgr).store(old(device)), start),
                cell_size(data@, last),
            ) ==> loc_page(r.unwrap()) == start,
            match r {
                Ok(loc) => value_put(
                    old(mgr).store(old(device)),
                    final(mgr).store(final(device)),
                    data@,
                    last,
                    start,
                    loc,
                ),
                Err(e) => {
                    let s = old(mgr).store(old(device));
                    let t = final(mgr).store(final(device));
                    &&& e == Error::Io
                    &&& kept(s, t, Set::empty())
                    &&& first_free(t, old(device).limit(), 0) is None || first_fit(
                        t,
                        start as int,
                        old(device).limit(),
                        cell_size(data@, last),
                    ) is None
                    &&& data@.len() <= INLINE_MAX ==> same_except(s, t, Set::empty())
                },
            },
    {
        let ghost s = mgr.store(device);
        let ghost limit = device.limit() as int;
        proof {
            mgr.lemma_store(device);
        }
        let mut entry = match ContentEntry::from_bytes(device, mgr, data) {
            Ok(entry) => entry,
            Err(e) => {
                proof {
                    if room(s, limit, cell_cost(data@, last)) {
                        lemma_room_less(
                            s,
                            limit,
                            cell_cost(data@, last),
                            links_needed(data@.len() - INLINE_PREFIX),
                        );
                    }
                }
                return Err(e);
            },
        };
        let ghost t1 = mgr.store(device);
        let ghost made = entry@;
        let ghost chain: nat = if data@.len() > INLINE_MAX {
            links_needed(data@.len() - INLINE_PREFIX)
        } else {
            0
        };
        proof {
            mgr.lemma_store(device);
            if data@.len() <= INLINE_MAX {
                assert(t1 == s);
                assert(spare(s, t1, limit, chain));
            }
            if gap_free(s, start) {
                assert(gap_free(t1, start)) by {
                    assert forall|c: u64| c < start && !is_reserved(c) implies #[trigger] page_used(
                        t1,
                        c,
                    ) by {
                        assert(page_used(s, c));
                    }
                }
            }
        }
        if !last {
            let mut inline: Vec<u8> = Vec::new();
            let mut i: usize = 0;
            while i < 8
                invariant
                    i <= 8,
                    inline@ == Seq::new(i as nat, |j: int| 0u8),
                decreases 8 - i,
            {
                inline.push(0u8);
                proof {
                    assert(inline@ =~= Seq::new((i + 1) as nat, |j: int| 0u8));
                }
                i += 1;
            }
            inline.append(&mut entry.data);
            entry.data = inline;
        }
        let ghost e = entry@;
        proof {
            assert(e.size() == cell_size(data@, last));
            if data@.len() <= INLINE_MAX {
                assert(t1 == s);
                assert(kept(s, t1, Set::empty()));
            }
        }
        let r = Self::place(device, mgr, entry, start);
        proof {
            mgr.lemma_store(device);
            if gap_free(s, start) {
                if room(s, limit, cell_cost(data@, last)) {
                    assert(cell_cost(data@, last) == 1 + chain);
                    assert(room(t1, limit, 1));
                    lemma_place_owed(t1, limit, start, e.size());
                }
                if r is Ok {
                    let t = mgr.store(device);
                    lemma_place_spare(t1, t, limit, start, e.size(), loc_page(r.unwrap()));
                    lemma_spare_trans(s, t1, t, limit, chain, 1);
                    assert(chain + 1 == cell_cost(data@, last));
                }
            }
            if r is Err {
                let t = mgr.store(device);
                lemma_kept(t1, t, Set::empty());
                lemma_kept_trans(s, t1, t, Set::empty(), Set::empty());
                assert(Set::<u64>::empty().union(Set::<u64>::empty()) =~= Set::<u64>::empty());
                lemma_fit_same(t1, t, start as int, device.limit() as int, e.size());
            }
            if r is Ok {
                let t = mgr.store(device);
                let loc = r.unwrap();
                if data@.len() > INLINE_MAX {
                    lemma_kept_cells(s, t1);
                } else {
                    assert(t1 == s);
                    assert(kept(s, t1, Set::empty()));
                    lemma_kept_cells(s, t1);
                }
                lemma_cells_trans(s, t1, t, Set::empty(), Set::empty());
                assert(nodes_kept(s, t)) by {
                    assert forall|p: u64|
                        #![trigger untouched(s, t, p)]
                        !is_reserved(p) && page_used(s, p) && is_node_image(image(s, p))
                        implies untouched(s, t, p) by {
                        assert(untouched(s, t1, p));
                        assert(untouched(t1, t, p));
                    }
                }
                assert(!cell_ok(s, loc)) by {
                    if cell_ok(s, loc) {
                        assert(cell_ok(t1, loc));
                    }
                }
                if last {
                    lemma_value_kept(t1, t, made, data@);
                    lemma_stored_kept(t1, t, data@, made);
                }
                assert forall|p: u64|
                    !is_reserved(p) && #[trigger] page_used(t, p) && !page_used(
                        s,
                        p,
                    ) implies cell_page(t, loc, data@, last, p) by {
                    if page_used(t1, p) {
                        assert(data@.len() > INLINE_MAX);
                        assert(last);
                        let first = made.overflow_page.unwrap();
                        let rest = data@.skip(INLINE_PREFIX as int);
                        assert(chain_pages(t1, first, rest).contains(p));
                        lemma_pages_kept(t1, t, first, rest);
                        assert(cell(t, loc) == made);
                    } else {
                        assert(p == loc_page(loc));
                    }
                }
                if content_ok(s, start) && takes(entries_at(s, start), cell_size(data@, last)) {
                    assert(untouched(s, t1, start));
                    assert(start < limit);
                    assert(first_fit(t1, start as int, limit, e.size()) == Some(start));
                }
            }
        }
        r
    }

    /// Rewrites the link of the cell at `at`: the first eight bytes of its
    /// inline data become the location `to`.
    fn relink(device: &mut Device, mgr: &mut PageManage, at: u64, to: u64)
        requires
            old(mgr).wf(old(device)),
            cell_ok(old(mgr).store(old(device)), at),
            cell(old(mgr).store(old(device)), at).overflow_page is None,
            cell(old(mgr).store(old(device)), at).data.len() >= 8,
        ensures
            final(mgr).wf(final(device)),
            final(mgr).capacity() == old(mgr).capacity(),
            final(device).limit() == old(device).limit(),
            relinked(old(mgr).store(old(device)), final(mgr).store(final(device)), at, to),
            forall|p: u64|
                #[trigger] page_used(final(mgr).store(final(device)), p) == page_used(
                    old(mgr).store(old(device)),
                    p,
                ),
    {
        let ghost s = mgr.store(device);
        let (page_count, offset) = location_from_u64(at);
        let mut page = match mgr.get_data(device, page_count) {
            Ok(data) => ContentPage::load(&data),
            Err(_) => {
                proof {
                    assert(false);
                }
                ContentPage { entries: Vec::new() }
            },
        };
        let ghost c1 = mgr.store(device);
        let ghost before = page@;
        let slot: usize = offset as usize;
        proof {
            lemma_kept(s, c1, Set::empty());
            assert(before == entries_at(s, page_count));
            assert(page.entries@[slot as int]@ == before[slot as int]);
        }
        let mut data = copy_range(&page.entries[slot].data, 0, page.entries[slot].data.len());
        write_bytes(&mut data, 0, &u64_to_be(to));
        let ghost fresh = EntryView { data: data@, overflow_page: None };
        page.entries[slot] = ContentEntry { data, overflow_page: None };
        proof {
            assert(before[slot as int].data.subrange(0, before[slot as int].data.len() as int)
                =~= before[slot as int].data);
            assert(page@ =~= before.update(slot as int, fresh));
            lemma_entries_update(before, slot as int, fresh);
            lemma_content_round_trip(page@);
        }
        let image = page.dump();
        let written = mgr.modify(device, page_count, &image);
        proof {
            let t = mgr.store(device);
            assert(written is Ok);
            lemma_kept(c1, t, set![page_count]);
            lemma_relinked(s, c1, t, at, to, before, fresh);
        }
    }
}

/// Rewriting one entry of a content page keeps every other cell.
pub proof fn lemma_relinked(
    s: Store,
    c1: Store,
    t: Store,
    at: u64,
    to: u64,
    before: Seq<EntryView>,
    fresh: EntryView,
)
    requires
        cell_ok(s, at),
        kept(s, c1, Set::empty()),
        before == entries_at(s, loc_page(at)),
        fresh == (EntryView {
            data: splice(cell(s, at).data, 0, spec_u64_to_be(to)),
            overflow_page: None,
        }),
        kept(c1, t, set![loc_page(at)]),
        forall|q: u64| #[trigger] page_used(t, q) == page_used(c1, q),
        t.contains_key(loc_page(at)),
        content_load(t[loc_page(at)]) == before.update(loc_slot(at), fresh),
        t[loc_page(at)][0] == PAGE_TYPEID_CONTENT,
    ensures
        relinked(s, t, at, to),
{
    let p = loc_page(at);
    assert(untouched(s, c1, p));
    assert(content_ok(t, p));
    assert(entries_at(t, p) == before.update(loc_slot(at), fresh));
    assert forall|q: u64|
        #![trigger untouched(s, t, q)]
        !is_reserved(q) && page_used(s, q) && q != p implies untouched(s, t, q) by {
        assert(untouched(s, c1, q));
        assert(untouched(c1, t, q));
    }
    assert forall|loc: u64|
        #![trigger cell_ok(t, loc)]
        cell_ok(s, loc) && loc != at implies cell_ok(t, loc) && cell(t, loc) == cell(s, loc) by {
        let q = loc_page(loc);
        if q == p {
            assert(loc_slot(loc) != loc_slot(at)) by {
                if loc_slot(loc) == loc_slot(at) {
                    assert(loc == q * 256 + loc_slot(loc));
                    assert(at == p * 256 + loc_slot(at));
                }
            }
        } else {
            assert(untouched(s, t, q));
        }
    }
}

/// What holds while the cells of a new record are being placed, after `i`
/// of its values: the index is a tree; the cells that the store held at the
/// start are as they were; and from the second value on, the index has the
/// new row's first cell, the cells before the latest are linked up to it,
/// and the latest holds its value behind the placeholder, or, if it is the
/// record's last, its value alone.
pub open spec fn building(
    root: BtreeNode,
    heads: Map<u64, u64>,
    start: Store,
    cur: Store,
    rowid: u64,
    values: Seq<Seq<u8>>,
    i: int,
    locs: Seq<u64>,
    last: u64,
) -> bool {
    &&& root.is_tree(cur)
    &&& cells_kept(start, cur, Set::empty())
    &&& if i == 0 {
        root.entries(cur) == heads
    } else {
        &&& locs.len() == i - 1
        &&& root.entries(cur) == heads.insert(rowid, link_of(locs, -1, last))
        &&& linked(cur, locs, values.take(i - 1), last)
        &&& cell_ok(cur, last)
        &&& !cell_ok(start, last)
        &&& forall|j: int| 0 <= j < locs.len() ==> #[trigger] locs[j] != last
        &&& if i < values.len() {
            cell(cur, last) == (EntryView {
                data: placeholder() + values[i - 1],
                overflow_page: None,
            })
        } else {
            holds_value(cur, cell(cur, last), values[i - 1]) && stored(
                cur,
                values[i - 1],
                cell(cur, last),
            )
        }
    }
}

/// The first value of a record has been placed and its cell entered into
/// the index.
pub proof fn lemma_first_placed(
    before: BtreeNode,
    after: BtreeNode,
    heads: Map<u64, u64>,
    start: Store,
    cur: Store,
    c1: Store,
    c2: Store,
    rowid: u64,
    values: Seq<Seq<u8>>,
    from: u64,
    loc: u64,
)
    requires
        values.len() >= 1,
        building(before, heads, start, cur, rowid, values, 0, Seq::empty(), 0),
        value_put(cur, c1, values[0], values.len() == 1, from, loc),
        before.is_tree(c1),
        after.is_tree(c2),
        after.entries(c2) == before.entries(c1).insert(rowid, loc),
        outside_kept(c1, c2),
    ensures
        building(after, heads, start, c2, rowid, values, 1, Seq::empty(), loc),
{
    lemma_index_kept(before, cur, c1);
    lemma_outside_cells(c1, c2);
    lemma_cells_trans(start, cur, c1, Set::empty(), Set::empty());
    lemma_cells_trans(start, c1, c2, Set::empty(), Set::empty());
    let none = Seq::<u64>::empty();
    assert(values.take(0) =~= Seq::<Seq<u8>>::empty());
    assert(linked(c2, none, values.take(0), loc));
    if values.len() == 1 {
        lemma_cell_value(c1, c2, Set::empty(), loc, values[0]);
        assert(cell_ok(c2, loc) && cell(c2, loc) == cell(c1, loc));
        lemma_stored_kept(c1, c2, values[0], cell(c1, loc));
    } else {
        assert(cell_ok(c2, loc));
    }
    assert(!cell_ok(start, loc)) by {
        if cell_ok(start, loc) {
            assert(cell_ok(cur, loc));
        }
    }
}

/// After one more value was placed and the cell before it linked to the new
/// cell, the cells before that cell are linked up to the new cell.
pub proof fn lemma_row_linked(
    cur: Store,
    c1: Store,
    c2: Store,
    values: Seq<Seq<u8>>,
    i: int,
    locs: Seq<u64>,
    last: u64,
    loc: u64,
)
    requires
        1 <= i < values.len(),
        locs.len() == i - 1,
        linked(cur, locs, values.take(i - 1), last),
        cell_ok(cur, last),
        forall|j: int| 0 <= j < locs.len() ==> #[trigger] locs[j] != last,
        cell(cur, last) == (EntryView { data: placeholder() + values[i - 1], overflow_page: None }),
        cells_kept(cur, c1, Set::empty()),
        !cell_ok(cur, loc),
        relinked(c1, c2, last, loc),
    ensures
        linked(c2, locs.push(last), values.take(i), loc),
        forall|j: int| 0 <= j < locs.push(last).len() ==> #[trigger] locs.push(last)[j] != loc,
{
    let more = locs.push(last);
    lemma_linked_kept(cur, c1, Set::empty(), locs, values.take(i - 1), last);
    lemma_linked_kept(c1, c2, set![last], locs, values.take(i - 1), last);
    assert(cell_ok(c1, last));
    assert(cell(c1, last) == cell(cur, last));
    let link = spec_u64_to_be(loc);
    lemma_u64_round_trip(loc);
    assert(splice(placeholder() + values[i - 1], 0, link) =~= link + values[i - 1]);
    assert(cell(c2, last) == (EntryView { data: link + values[i - 1], overflow_page: None }));
    lemma_linked_push(c2, locs, values.take(i - 1), last, values[i - 1], loc);
    assert(values.take(i - 1).push(values[i - 1]) =~= values.take(i));
    assert forall|j: int| 0 <= j < more.len() implies #[trigger] more[j] != loc by {
        if j < locs.len() {
            assert(more[j] == locs[j]);
            assert(cell_ok(cur, locs[j]));
        }
    }
}

/// One more value of a record has been placed and the cell before it linked
/// to its cell.
#[verifier::rlimit(40)]
pub proof fn lemma_next_placed(
    root: BtreeNode,
    heads: Map<u64, u64>,
    start: Store,
    cur: Store,
    c1: Store,
    c2: Store,
    rowid: u64,
    values: Seq<Seq<u8>>,
    i: int,
    locs: Seq<u64>,
    last: u64,
    from: u64,
    loc: u64,
)
    requires
        1 <= i < values.len(),
        building(root, heads, start, cur, rowid, values, i, locs, last),
        value_put(cur, c1, values[i], i + 1 == values.len(), from, loc),
        relinked(c1, c2, last, loc),
    ensures
        building(root, heads, start, c2, rowid, values, i + 1, locs.push(last), loc),
{
    let more = locs.push(last);
    assert(root.is_tree(c2) && root.entries(c2) == root.entries(cur)) by {
        lemma_index_kept(root, cur, c1);
        lemma_index_kept(root, c1, c2);
    }
    assert(!cell_ok(start, loc)) by {
        if cell_ok(start, loc) {
            assert(cell_ok(cur, loc));
        }
    }
    assert(cell_ok(c1, last));
    assert(loc != last);
    assert(cells_kept(start, c2, Set::empty())) by {
        lemma_cells_trans(start, cur, c1, Set::empty(), Set::empty());
        lemma_cells_trans(start, c1, c2, Set::empty(), set![last]);
    }
    lemma_row_linked(cur, c1, c2, values, i, locs, last, loc);
    assert(link_of(more, -1, loc) == link_of(locs, -1, last));
    assert(cell_ok(c2, loc) && cell(c2, loc) == cell(c1, loc));
    if i + 1 == values.len() {
        lemma_cell_value(c1, c2, set![last], loc, values[i]);
        lemma_stored_kept(c1, c2, values[i], cell(c1, loc));
    }
}

/// The cells of a record whose last value has been placed are those of the
/// record as it is written, and the first of them is the one that the index
/// has.
pub proof fn lemma_laid(cur: Store, values: Seq<Seq<u8>>, locs: Seq<u64>, last: u64)
    requires
        values.len() >= 1,
        locs.len() == values.len() - 1,
        linked(cur, locs, values.take(values.len() - 1), last),
        cell_ok(cur, last),
        stored(cur, values[values.len() - 1], cell(cur, last)),
    ensures
        laid(cur, locs.push(last), values),
        locs.push(last)[0] == link_of(locs, -1, last),
{
    let all = locs.push(last);
    assert(all.drop_last() =~= locs);
    assert(values.drop_last() =~= values.take(values.len() - 1));
}

/// The cells of a record whose last value has been placed hold the record.
pub proof fn lemma_row_complete(cur: Store, values: Seq<Seq<u8>>, locs: Seq<u64>, last: u64)
    requires
        values.len() >= 1,
        locs.len() == values.len() - 1,
        linked(cur, locs, values.take(values.len() - 1), last),
        cell_ok(cur, last),
        holds_value(cur, cell(cur, last), values[values.len() - 1]),
    ensures
        cells_hold(cur, link_of(locs, -1, last), values),
{
    let n = values.len() as int;
    let tail = seq![values[n - 1]];
    assert(tail.len() == 1 && tail[0] == values[n - 1]);
    assert(cells_hold(cur, last, tail));
    lemma_linked_cells(cur, locs, values.take(n - 1), last, tail, 0);
    assert(values.take(n - 1).skip(0) + tail =~= values);
}

/// The record is complete: the table holds what it held and the new row.
#[verifier::rlimit(40)]
pub proof fn lemma_built(
    before: Table,
    after: Table,
    start: Store,
    cur: Store,
    rowid: u64,
    values: Seq<Seq<u8>>,
    locs: Seq<u64>,
    last: u64,
)
    requires
        before.wf(start),
        after.value_types@ == before.value_types@,
        values.len() == before.arity(),
        values.len() >= 1,
        !before.heads(start).contains_key(rowid),
        building(
            after.root_node,
            before.heads(start),
            start,
            cur,
            rowid,
            values,
            values.len() as int,
            locs,
            last,
        ),
    ensures
        after.wf(cur),
        after.rows(cur) == before.rows(start).insert(rowid, values),
{
    let head = link_of(locs, -1, last);
    let old_heads = before.heads(start);
    assert(after.heads(cur) == old_heads.insert(rowid, head));
    assert(cells_kept(start, cur, Set::empty()));
    assert(cells_hold(cur, head, values)) by {
        lemma_row_complete(cur, values, locs, last);
    }
    assert forall|r: u64| #[trigger] after.heads(cur).contains_key(r) implies after.row_ok(
        cur,
        r,
    ) && after.row(cur, r) == (if r == rowid {
        values
    } else {
        before.row(start, r)
    }) by {
        if r == rowid {
            after.lemma_row(cur, r, values);
        } else {
            lemma_row_kept(before, after, start, cur, r);
        }
    }
    assert(after.rows(cur) =~= before.rows(start).insert(rowid, values));
}

/// A row of a table whose cells are kept is the same row of any table that
/// has it at the same place.
pub proof fn lemma_row_kept(before: Table, after: Table, start: Store, cur: Store, r: u64)
    requires
        before.wf(start),
        after.value_types@ == before.value_types@,
        before.heads(start).contains_key(r),
        after.heads(cur).contains_key(r),
        after.heads(cur)[r] == before.heads(start)[r],
        cells_kept(start, cur, Set::empty()),
    ensures
        after.row_ok(cur, r),
        after.row(cur, r) == before.row(start, r),
{
    assert(before.row_ok(start, r));
    let w = before.row(start, r);
    assert(w.len() == before.arity() && cells_hold(start, before.heads(start)[r], w));
    lemma_cells_hold_kept(start, cur, before.heads(start)[r], w);
    after.lemma_row(cur, r, w);
}

impl Table {
    /// Whether some value of the record but the last is too long for a cell.
    pub open spec fn too_large(values: Seq<Seq<u8>>) -> bool {
        exists|i: int| 0 <= i < values.len() - 1 && (#[trigger] values[i]).len() > INLINE_PREFIX
    }

    /// Whether the index is a single leaf that takes one more entry without
    /// being split.
    pub open spec fn small(&self) -> bool {
        self.root_node.node_type == PAGE_TYPEID_BTREE_LEAF && self.root_node.ids@.len() + 1
            < MAX_IDS
    }

    /// The most pages that storing a record of `values` takes while the index
    /// is a single leaf: one for the first content page, one for the cell of
    /// each value, and those of the chain of the last value.
    pub open spec fn cost(values: Seq<Seq<u8>>) -> nat {
        if values.len() >= 1 && values.last().len() > INLINE_MAX {
            values.len() + 1 + links_needed(values.last().len() - INLINE_PREFIX)
        } else {
            values.len() + 1
        }
    }

    /// A case in which a record of `values` is stored for certain: the record
    /// is one that the table accepts, some row identifier is not taken, the
    /// index is a single leaf that takes one more entry, and the store can
    /// hand out as many pages as the record may take.
    pub open spec fn assured(&self, s: Store, limit: int, values: Seq<Seq<u8>>) -> bool {
        &&& values.len() == self.arity()
        &&& values.len() >= 1
        &&& !Self::too_large(values)
        &&& exists|k: u64| !self.rows(s).contains_key(k)
        &&& self.small()
        &&& room(s, limit, Self::cost(values))
    }

    /// Why a record of `values` could not be stored, in the store `t` that
    /// the attempt left: every row identifier is taken; or there is no
    /// content page, and none can be made; or no page is free for the index
    /// or for a chain; or the search for a page that takes the cell of one of
    /// the values, begun at a content page, found none.
    pub open spec fn no_room(
        rows: Map<u64, Seq<Seq<u8>>>,
        t: Store,
        limit: int,
        values: Seq<Seq<u8>>,
    ) -> bool {
        ||| forall|k: u64| rows.contains_key(k)
        ||| first_of_type(t, 0, PAGE_TYPEID_CONTENT, limit) is None
        ||| first_free(t, limit, 0) is None
        ||| exists|from: u64, j: int|
            0 <= j < values.len() && #[trigger] stuck(t, limit, from, values, j)
    }

    /// Stores a record under the smallest row identifier that is not taken,
    /// and returns the identifier. Each value becomes one cell; the cell of
    /// every value but the last starts with eight bytes that are zero until
    /// the next cell is placed and hold its location from then on. The index
    /// takes the first cell's location. Refused, with nothing changed: a
    /// record without values or with another number of values than the table
    /// declares; a record with a value, not its last, of more than 4084
    /// bytes. Fails where every row identifier is taken, or a page is needed
    /// and none can be had; every cell that the store held is then as it
    /// was, while cells of the new record that were placed before the failure
    /// stay, and the index may hold the first of them. While the index is a
    /// single leaf with room for one more entry, a record that the table
    /// accepts is stored for certain where the store can hand out one page
    /// for each value, one more, and those of the last value's chain; and
    /// no page is then taken but those of the cells and of that chain.
    pub fn insert(&mut self, device: &mut Device, mgr: &mut PageManage, record: Record) -> (r:
        Result<u64, Error>)
        requires
            old(mgr).wf(old(device)),
            old(self).wf(old(mgr).store(old(device))),
        ensures
            final(mgr).wf(final(device)),
            final(mgr).capacity() == old(mgr).capacity(),
            final(device).limit() == old(device).limit(),
            final(self).root_node.page_count == old(self).root_node.page_count,
            final(self).value_types@ == old(self).value_types@,
            old(self).assured(
                old(mgr).store(old(device)),
                old(device).limit(),
                record.bytes(),
            ) ==> r is Ok,
            r is Ok && old(self).small() ==> {
                &&& final(self).root_node.node_type == PAGE_TYPEID_BTREE_LEAF
                &&& final(self).root_node.ids@.len() == old(self).root_node.ids@.len() + 1
                &&& spare(
                    old(mgr).store(old(device)),
                    final(mgr).store(final(device)),
                    old(device).limit(),
                    Self::cost(record.bytes()),
                )
            },
            match r {
                Ok(rowid) => {
                    let rows = old(self).rows(old(mgr).store(old(device)));
                    &&& record.bytes().len() == old(self).arity()
                    &&& record.bytes().len() >= 1
                    &&& !Self::too_large(record.bytes())
                    &&& least_unused(rows, rowid)
                    &&& final(self).wf(final(mgr).store(final(device)))
                    &&& final(self).rows(final(mgr).store(final(device))) == rows.insert(
                        rowid,
                        record.bytes(),
                    )
                    &&& cells_kept(
                        old(mgr).store(old(device)),
                        final(mgr).store(final(device)),
                        Set::empty(),
                    )
                    &&& exists|locs: Seq<u64>| #[trigger]
                        laid(final(mgr).store(final(device)), locs, record.bytes())
                            && final(self).heads(final(mgr).store(final(device)))[rowid] == locs[0]
                            && (old(self).small() ==> taken_for(
                            old(mgr).store(old(device)),
                            final(mgr).store(final(device)),
                            locs,
                            true,
                            record.bytes().last(),
                        ))
                },
                Err(e) => {
                    let rows = old(self).rows(old(mgr).store(old(device)));
                    let fits = record.bytes().len() == old(self).arity() && record.bytes().len()
                        >= 1;
                    &&& e == Error::Arity <==> !fits
                    &&& e == Error::TooLarge <==> fits && Self::too_large(record.bytes())
                    &&& e == Error::Arity || e == Error::TooLarge || e == Error::Io
                    &&& e != Error::Io ==> {
                        &&& final(self).root_node@ == old(self).root_node@
                        &&& final(self).wf(final(mgr).store(final(device)))
                        &&& final(self).rows(final(mgr).store(final(device))) == rows
                        &&& same_except(
                            old(mgr).store(old(device)),
                            final(mgr).store(final(device)),
                            Set::empty(),
                        )
                    }
                    &&& e == Error::Io ==> {
                        &&& cells_kept(
                            old(mgr).store(old(device)),
                            final(mgr).store(final(device)),
                            Set::empty(),
                        )
                        &&& Self::no_room(
                            rows,
                            final(mgr).store(final(device)),
                            old(device).limit(),
                            record.bytes(),
                        )
                    }
                },
            },
    {
        let ghost s = mgr.store(device);
        let ghost values = record.bytes();
        let count: usize = record.values.len();
        proof {
            assert(kept(s, s, Set::empty()));
            lemma_kept_cells(s, s);
            self.lemma_table_kept(s, s);
        }
        if count == 0 || count != self.value_types.len() {
            return Err(Error::Arity);
        }
        if !Self::fits_cells(&record) {
            return Err(Error::TooLarge);
        }
        let ghost limit = device.limit() as int;
        let ghost sure = self.assured(s, limit, values);
        let ghost chain: nat = if values.last().len() > INLINE_MAX {
            links_needed(values.last().len() - INLINE_PREFIX)
        } else {
            0
        };
        proof {
            mgr.lemma_store(device);
        }
        let found = self.root_node.find_unused(device, mgr);
        let ghost s1 = mgr.store(device);
        proof {
            lemma_kept(s, s1, Set::empty());
            lemma_kept_cells(s, s1);
            self.lemma_table_kept(s, s1);
            mgr.lemma_store(device);
            lemma_unspent(s, s1, limit);
            if sure {
                lemma_room_same(s, s1, limit, Self::cost(values));
                lemma_room_less(s1, limit, Self::cost(values), 1);
                lemma_first_free_free(s1, limit, 0);
                lemma_of_type_found(
                    s1,
                    0,
                    PAGE_TYPEID_CONTENT,
                    limit,
                    first_free(s1, limit, 0).unwrap(),
                );
            }
        }
        let rowid: u64 = match found {
            Some(rowid) => rowid,
            None => {
                proof {
                    assert forall|k: u64| self.rows(s).contains_key(k) by {
                        assert(self.heads(s).contains_key(k));
                    }
                }
                return Err(Error::Io);
            },
        };
        proof {
            assert(!self.rows(s).contains_key(rowid));
        }
        let mut from: u64 = match mgr.find_page_by_type(device, 0, PAGE_TYPEID_CONTENT) {
            Ok(page_count) => page_count,
            Err(e) => {
                proof {
                    let t = mgr.store(device);
                    lemma_fit_same(s1, t, 0, device.limit() as int, 0);
                    lemma_kept(s1, t, Set::empty());
                    lemma_kept_cells(s1, t);
                    lemma_cells_trans(s, s1, t, Set::empty(), Set::empty());
                }
                return Err(e);
            },
        };
        let ghost s2 = mgr.store(device);
        let ghost from_new = !page_used(s1, from);
        let ghost heads = self.heads(s);
        let ghost mut locs: Seq<u64> = Seq::empty();
        let mut last_location: u64 = 0;
        let mut i: usize = 0;
        proof {
            mgr.lemma_store(device);
            lemma_of_type_gap(s1, 0, PAGE_TYPEID_CONTENT, limit);
            assert(gap_free(s1, from));
            assert(gap_free(s2, from)) by {
                assert forall|c: u64| c < from && !is_reserved(c) implies #[trigger] page_used(
                    s2,
                    c,
                ) by {
                    assert(page_used(s1, c));
                    assert(untouched(s1, s2, c));
                }
            }
            if page_used(s1, from) {
                lemma_kept(s1, s2, Set::empty());
                lemma_unspent(s1, s2, limit);
                lemma_spare_more(s1, s2, limit, 0, 1);
            } else {
                assert(one_more(s1, s2, from));
                lemma_least_free(s1, limit, from);
                lemma_spent(s1, s2, limit, from);
            }
            lemma_spare_trans(s, s1, s2, limit, 0, 1);
            assert forall|p: u64|
                !is_reserved(p) && #[trigger] page_used(s2, p) && !page_used(s, p) implies from_new
                && p == from by {
                assert(page_used(s1, p) == page_used(s, p));
                if !from_new {
                    assert(page_used(s2, p) == page_used(s1, p));
                }
            }
            if from_new {
                assert(entries_at(s2, from) =~= Seq::<EntryView>::empty());
                assert(entries_size(entries_at(s2, from)) == 0);
            }
            lemma_kept_cells(s1, s2);
            self.lemma_table_kept(s1, s2);
            lemma_cells_trans(s, s1, s2, Set::empty(), Set::empty());
        }
        while i < count
            invariant
                mgr.wf(device),
                mgr.capacity() == old(mgr).capacity(),
                device.limit() == old(device).limit(),
                self.root_node.page_count == old(self).root_node.page_count,
                self.value_types@ == old(self).value_types@,
                old(self).wf(s),
                s == old(mgr).store(old(device)),
                heads == old(self).heads(s),
                values == record.bytes(),
                count == values.len(),
                count == old(self).arity(),
                count >= 1,
                i <= count,
                !Self::too_large(values),
                !old(self).rows(s).contains_key(rowid),
                i == 0 ==> locs.len() == 0,
                i == 0 ==> self.root_node == old(self).root_node,
                limit == device.limit(),
                sure == old(self).assured(s, limit, values),
                chain == (if values.last().len() > INLINE_MAX {
                    links_needed(values.last().len() - INLINE_PREFIX)
                } else {
                    0
                }),
                old(self).small() && i < count ==> gap_free(mgr.store(device), from),
                old(self).small() ==> spare(
                    s,
                    mgr.store(device),
                    limit,
                    (1 + i + (if i == count {
                        chain
                    } else {
                        0
                    })) as nat,
                ),
                old(self).small() && i > 0 ==> self.root_node.node_type == PAGE_TYPEID_BTREE_LEAF
                    && self.root_node.ids@.len() == old(self).root_node.ids@.len() + 1,
                i == 0 ==> forall|p: u64|
                    !is_reserved(p) && #[trigger] page_used(mgr.store(device), p) && !page_used(
                        s,
                        p,
                    ) ==> from_new && p == from,
                i == 0 && from_new ==> entries_at(mgr.store(device), from).len() == 0
                    && entries_size(entries_at(mgr.store(device), from)) == 0,
                old(self).small() && i > 0 ==> taken_for(
                    s,
                    mgr.store(device),
                    locs.push(last_location),
                    i == count,
                    values.last(),
                ),
                i < count ==> content_ok(mgr.store(device), from),
                building(
                    self.root_node,
                    heads,
                    s,
                    mgr.store(device),
                    rowid,
                    values,
                    i as int,
                    locs,
                    last_location,
                ),
                !heads.contains_key(rowid),
            decreases count - i,
        {
            let ghost cur = mgr.store(device);
            proof {
                assert(values[i as int] == record.values@[i as int].data@);
                if i + 1 < count {
                    assert(values[i as int].len() <= INLINE_PREFIX);
                } else {
                    assert(values[i as int] == values.last());
                }
                if sure {
                    let need = cell_cost(values[i as int], i + 1 == count);
                    lemma_room_less(s, limit, Self::cost(values), need + ((1 + i) as nat));
                    assert(room(cur, limit, need));
                }
            }
            let loc: u64 = match self.add_cell(
                device,
                mgr,
                &record.values[i].data,
                i == 0,
                i + 1 == count,
                rowid,
                from,
                last_location,
                Ghost(heads),
                Ghost(s),
                Ghost(values),
                Ghost(i as int),
                Ghost(locs),
            ) {
                Ok(loc) => loc,
                Err(e) => {
                    proof {
                        let t = mgr.store(device);
                        if first_free(t, device.limit() as int, 0) is Some {
                            assert(stuck(t, device.limit() as int, from, values, i as int));
                        }
                    }
                    return Err(e);
                },
            };
            proof {
                if i > 0 {
                    locs = locs.push(last_location);
                }
                if old(self).small() {
                    lemma_spare_trans(
                        s,
                        cur,
                        mgr.store(device),
                        limit,
                        (1 + i) as nat,
                        cell_cost(values[i as int], i + 1 == count),
                    );
                    if i == 0 && from_new {
                        assert(takes(
                            entries_at(cur, from),
                            cell_size(values[i as int], i + 1 == count),
                        ));
                        assert(loc_page(loc) == from);
                    }
                    if i > 0 {
                        assert forall|p: u64|
                            !is_reserved(p) && #[trigger] page_used(cur, p) && !page_used(
                                s,
                                p,
                            ) implies p == loc_page(loc) || exists|j: int|
                            0 <= j < locs.len() && loc_page(#[trigger] locs[j]) == p by {
                            assert(!(i == count));
                        }
                    }
                    lemma_taken_step(
                        s,
                        cur,
                        mgr.store(device),
                        locs,
                        loc,
                        values[i as int],
                        i + 1 == count,
                    );
                    if i + 1 == count {
                        assert(values[i as int] == values.last());
                    } else {
                        assert(taken_for(
                            s,
                            mgr.store(device),
                            locs.push(loc),
                            false,
                            values.last(),
                        ));
                    }
                }
            }
            last_location = loc;
            from = location_from_u64(loc).0;
            i += 1;
        }
        proof {
            let t = mgr.store(device);
            lemma_built(*old(self), *self, s, t, rowid, values, locs, last_location);
            lemma_laid(t, values, locs, last_location);
            assert(laid(t, locs.push(last_location), values));
            assert(self.heads(t)[rowid] == locs.push(last_location)[0]);
            assert(old(self).small() ==> taken_for(
                s,
                t,
                locs.push(last_location),
                true,
                values.last(),
            ));
        }
        Ok(rowid)
    }

    /// Whether every value of the record but the last fits into a cell behind
    /// the link.
    fn fits_cells(record: &Record) -> (b: bool)
        requires
            record.values@.len() >= 1,
        ensures
            b == !Self::too_large(record.bytes()),
    {
        let ghost values = record.bytes();
        let count: usize = record.values.len();
        let mut k: usize = 0;
        while k + 1 < count
            invariant
                count == record.values@.len(),
                values == record.bytes(),
                k < count,
                forall|j: int| 0 <= j < k ==> (#[trigger] values[j]).len() <= INLINE_PREFIX,
            decreases count - k,
        {
            if record.values[k].data.len() > INLINE_PREFIX {
                proof {
                    assert(values[k as int].len() > INLINE_PREFIX);
                }
                return false;
            }
            k += 1;
        }
        true
    }

    /// Places the cell of one value of a new record: stores the value, and
    /// enters the cell into the index if it is the record's first, or else
    /// links the cell before it to it.
    fn add_cell(
        &mut self,
        device: &mut Device,
        mgr: &mut PageManage,
        data: &[u8],
        first: bool,
        last: bool,
        rowid: u64,
        from: u64,
        last_location: u64,
        Ghost(heads): Ghost<Map<u64, u64>>,
        Ghost(s): Ghost<Store>,
        Ghost(values): Ghost<Seq<Seq<u8>>>,
        Ghost(i): Ghost<int>,
        Ghost(locs): Ghost<Seq<u64>>,
    ) -> (r: Result<u64, Error>)
        requires
            old(mgr).wf(old(device)),
            0 <= i < values.len(),
            data@ == values[i],
            first == (i == 0),
            last == (i + 1 == values.len()),
            !last ==> data@.len() <= INLINE_PREFIX,
            !heads.contains_key(rowid),
            first ==> locs.len() == 0,
            content_ok(old(mgr).store(old(device)), from),
            building(
                old(self).root_node,
                heads,
                s,
                old(mgr).store(old(device)),
                rowid,
                values,
                i,
                locs,
                last_location,
            ),
        ensures
            final(mgr).wf(final(device)),
            final(mgr).capacity() == old(mgr).capacity(),
            final(device).limit() == old(device).limit(),
            final(self).root_node.page_count == old(self).root_node.page_count,
            final(self).value_types@ == old(self).value_types@,
            gap_free(old(mgr).store(old(device)), from) && room(
                old(mgr).store(old(device)),
                old(device).limit(),
                cell_cost(data@, last),
            ) && (first ==> old(self).small()) ==> r is Ok,
            r is Ok && gap_free(old(mgr).store(old(device)), from) && (first ==> old(
                self,
            ).small()) ==> spare(
                old(mgr).store(old(device)),
                final(mgr).store(final(device)),
                old(device).limit(),
                cell_cost(data@, last),
            ) && gap_free(final(mgr).store(final(device)), loc_page(r.unwrap())),
            r is Ok && first && old(self).small() ==> final(self).root_node.node_type
                == PAGE_TYPEID_BTREE_LEAF && final(self).root_node.ids@.len() == old(
                self,
            ).root_node.ids@.len() + 1,
            r is Ok && !first ==> final(self).root_node == old(self).root_node,
            r is Ok && (first ==> old(self).small()) ==> forall|p: u64|
                !is_reserved(p) && #[trigger] page_used(final(mgr).store(final(device)), p)
                    && !page_used(old(mgr).store(old(device)), p) ==> cell_page(
                    final(mgr).store(final(device)),
                    r.unwrap(),
                    data@,
                    last,
                    p,
                ),
            r is Ok && takes(
                entries_at(old(mgr).store(old(device)), from),
                cell_size(data@, last),
            ) ==> loc_page(r.unwrap()) == from,
            match r {
                Ok(loc) => building(
                    final(self).root_node,
                    heads,
                    s,
                    final(mgr).store(final(device)),
                    rowid,
                    values,
                    i + 1,
                    if first {
                        locs
                    } else {
                        locs.push(last_location)
                    },
                    loc,
                ),
                Err(e) => {
                    let t = final(mgr).store(final(device));
                    &&& e == Error::Io
                    &&& cells_kept(s, t, Set::empty())
                    &&& first_free(t, old(device).limit(), 0) is None || stuck(
                        t,
                        old(device).limit(),
                        from,
                        values,
                        i,
                    )
                },
            },
    {
        let ghost cur = mgr.store(device);
        let ghost root_before = self.root_node;
        let loc: u64 = match Self::put_value(device, mgr, data, last, from) {
            Ok(loc) => loc,
            Err(e) => {
                proof {
                    let t = mgr.store(device);
                    lemma_kept_cells(cur, t);
                    lemma_cells_trans(s, cur, t, Set::empty(), Set::empty());
                    assert(untouched(cur, t, from));
                }
                return Err(e);
            },
        };
        let ghost c1 = mgr.store(device);
        let ghost limit = device.limit() as int;
        proof {
            lemma_index_kept(self.root_node, cur, c1);
            mgr.lemma_store(device);
        }
        if first {
            match self.root_node.insert_id(device, mgr, rowid, loc) {
                Ok(()) => {
                    proof {
                        let t = mgr.store(device);
                        mgr.lemma_store(device);
                        if root_before.node_type == PAGE_TYPEID_BTREE_LEAF
                            && root_before.ids@.len() + 1 < MAX_IDS {
                            assert(same_used(c1, t));
                            lemma_unspent(c1, t, limit);
                            lemma_outside_cells(c1, t);
                            assert(value_put(cur, c1, data@, last, from, loc));
                            assert(cell_ok(c1, loc));
                            assert(cells_kept(c1, t, Set::empty()));
                            assert(!Set::<u64>::empty().contains(loc));
                            assert(cell_ok(t, loc));
                            assert(cell(t, loc) == cell(c1, loc));
                            assert forall|p: u64|
                                !is_reserved(p) && #[trigger] page_used(t, p) && !page_used(
                                    cur,
                                    p,
                                ) implies cell_page(t, loc, data@, last, p) by {
                                assert(page_used(c1, p));
                                assert(cell_page(c1, loc, data@, last, p));
                                if p != loc_page(loc) {
                                    lemma_pages_kept(
                                        c1,
                                        t,
                                        cell(c1, loc).overflow_page.unwrap(),
                                        data@.skip(INLINE_PREFIX as int),
                                    );
                                }
                            }
                            if gap_free(cur, from) {
                                lemma_spare_trans(cur, c1, t, limit, cell_cost(data@, last), 0);
                                assert forall|c: u64|
                                    c < loc_page(loc) && !is_reserved(c) implies #[trigger] page_used(
                                    t,
                                    c,
                                ) by {
                                    assert(page_used(c1, c));
                                }
                            }
                        }
                    }
                },
                Err(e) => {
                    proof {
                        let t = mgr.store(device);
                        assert(e != Error::DuplicateKey);
                        lemma_outside_cells(c1, t);
                        lemma_cells_trans(s, cur, c1, Set::empty(), Set::empty());
                        lemma_cells_trans(s, c1, t, Set::empty(), Set::empty());
                    }
                    return Err(Error::Io);
                },
            }
            proof {
                assert(locs =~= Seq::<u64>::empty());
                lemma_first_placed(
                    root_before,
                    self.root_node,
                    heads,
                    s,
                    cur,
                    c1,
                    mgr.store(device),
                    rowid,
                    values,
                    from,
                    loc,
                );
            }
        } else {
            proof {
                assert(cell_ok(c1, last_location));
                assert(cell(c1, last_location) == cell(cur, last_location));
            }
            Self::relink(device, mgr, last_location, loc);
            proof {
                let t = mgr.store(device);
                mgr.lemma_store(device);
                assert(same_used(c1, t));
                lemma_unspent(c1, t, limit);
                if gap_free(cur, from) {
                    lemma_spare_trans(cur, c1, t, limit, cell_cost(data@, last), 0);
                    assert forall|c: u64|
                        c < loc_page(loc) && !is_reserved(c) implies #[trigger] page_used(t, c) by {
                        assert(page_used(c1, c));
                    }
                }
                assert(loc != last_location);
                assert forall|p: u64|
                    !is_reserved(p) && #[trigger] page_used(t, p) && !page_used(
                        cur,
                        p,
                    ) implies cell_page(t, loc, data@, last, p) by {
                    assert(page_used(c1, p));
                    assert(cell_page(c1, loc, data@, last, p));
                    assert(cell_ok(t, loc) && cell(t, loc) == cell(c1, loc));
                    if p != loc_page(loc) {
                        lemma_pages_kept(
                            c1,
                            t,
                            cell(c1, loc).overflow_page.unwrap(),
                            data@.skip(INLINE_PREFIX as int),
                        );
                    }
                }
                lemma_next_placed(
                    self.root_node,
                    heads,
                    s,
                    cur,
                    c1,
                    mgr.store(device),
                    rowid,
                    values,
                    i,
                    locs,
                    last_location,
                    from,
                    loc,
                );
            }
        }
        Ok(loc)
    }
}

/// What is inserted is what a query gives back: once a record is stored
/// under a row identifier, the table holds exactly its values under that
/// identifier, and under every other identifier what it held.
pub proof fn law_query_after_insert(
    before: Table,
    s: Store,
    after: Table,
    t: Store,
    rowid: u64,
    values: Seq<Seq<u8>>,
)
    requires
        after.rows(t) == before.rows(s).insert(rowid, values),
    ensures
        after.rows(t).contains_key(rowid),
        after.rows(t)[rowid] == values,
        forall|other: u64|
            other != rowid ==> after.rows(t).contains_key(other) == before.rows(s).contains_key(
                other,
            ),
        forall|other: u64|
            other != rowid && before.rows(s).contains_key(other) ==> after.rows(t)[other]
                == before.rows(s)[other],
{
}

/// A row of a table takes as many cells as the table declares values, linked
/// from the cell that the index names: each cell but the last holds the
/// location of the next and then the value, and the last holds its value
/// alone.
pub proof fn law_row_cells(table: Table, s: Store, rowid: u64)
    requires
        table.wf(s),
        table.rows(s).contains_key(rowid),
    ensures
        table.rows(s)[rowid].len() == table.arity(),
        cells_hold(s, table.heads(s)[rowid], table.rows(s)[rowid]),
{
    assert(table.heads(s).contains_key(rowid));
    assert(table.row_ok(s, rowid));
}

/// A table taken up again from its root page is the table that was left
/// there.
pub proof fn law_reopen(left: Table, found: Table, s: Store)
    requires
        left.wf(s),
        found.root_node.page_count == left.root_node.page_count,
        found.root_node@ == node_at(s, left.root_node.page_count),
        found.value_types@ == left.value_types@,
    ensures
        found.wf(s),
        found.rows(s) == left.rows(s),
{
    let h = left.root_node.height(s);
    assert(left.root_node.tree_at(s, h));
    assert(found.root_node.tree_at(s, h));
    left.root_node.lemma_entries(s, h);
    found.root_node.lemma_entries(s, h);
    assert forall|k: u64| left.heads(s).contains_key(k) implies found.heads(s).contains_key(k)
        && found.heads(s)[k] == left.heads(s)[k] by {
        assert(node_has(s, left.root_node@, h, k, left.heads(s)[k]));
    }
    assert forall|k: u64| found.heads(s).contains_key(k) implies left.heads(s).contains_key(
        k,
    ) by {
        assert(node_has(s, found.root_node@, h, k, found.heads(s)[k]));
    }
    assert(found.heads(s) =~= left.heads(s));
    assert(kept(s, s, Set::empty()));
    lemma_kept_cells(s, s);
    assert forall|r: u64| #[trigger] found.heads(s).contains_key(r) implies found.row_ok(s, r)
        && found.row(s, r) == left.row(s, r) by {
        lemma_row_kept(left, found, s, s, r);
    }
    assert(found.rows(s) =~= left.rows(s));
}

/// An index is in `t` what it was in `s` where the pages of its nodes are
/// kept.
pub proof fn lemma_index_kept(root: BtreeNode, s: Store, t: Store)
    requires
        root.is_tree(s),
        nodes_kept(s, t),
    ensures
        root.is_tree(t),
        root.height(t) == root.height(s),
        root.entries(t) == root.entries(s),
{
    let h = root.height(s);
    assert(root.tree_at(s, h));
    if h > 0 {
        assert forall|p: u64|
            #![trigger untouched(s, t, p)]
            !is_reserved(p) && page_used(s, p) && may_hold(s, p, (h - 1) as nat, 0, key_end())
            implies untouched(s, t, p) by {
            lemma_keyed(s, p, (h - 1) as nat, 0, key_end());
        }
        assert(subtree_kept(s, t, (h - 1) as nat, 0, key_end()));
    }
    lemma_frame(s, t, root@, h, 0, key_end());
    assert(is_node_image(image(s, root.page_count)));
    assert(untouched(s, t, root.page_count));
    assert(root.tree_at(t, h));
    root.lemma_entries(s, h);
    root.lemma_entries(t, h);
    assert forall|k: u64| root.entries(t).contains_key(k) implies root.entries(s).contains_key(k)
        && root.entries(s)[k] == root.entries(t)[k] by {
        let v = root.entries(t)[k];
        assert(node_has(t, root@, h, k, v));
        assert(node_has(s, root@, h, k, v));
    }
    assert forall|k: u64| root.entries(s).contains_key(k) implies root.entries(t).contains_key(
        k,
    ) by {
        let v = root.entries(s)[k];
        assert(node_has(s, root@, h, k, v));
        assert(node_has(t, root@, h, k, v));
    }
    assert(root.entries(t) =~= root.entries(s));
}

} // verus!
