//! The cells of a record: one content entry for each value, linked from the
//! first to the last.
//!
//! A location packs the count of a content page and the slot of an entry in
//! it. The value of a cell that is not the last of its record starts with the
//! eight bytes of the next cell's location; the bytes of the record's value
//! follow.

use vstd::prelude::*;
use crate::chain::{holds_value, lemma_value_kept, lemma_value_unique, stored, tagged_kept};
use crate::codec::{lemma_u64_round_trip, spec_u64_to_be};
use crate::content::{content_load, entries_size, CONTENT_MAX_ENTRIES, EntryView};
use crate::manage::{
    first_of_type, image, is_reserved, kept, lemma_kept, page_used, same_except, untouched, Store,
};
use crate::page::{PAGE_SIZE, PAGE_TYPEID_CONTENT, PAGE_TYPEID_OVERFLOW};
use crate::room::{free_in, gap_free};
use crate::tree::{is_node_image, outside_kept};

verus! {

/// The page of a location.
pub open spec fn loc_page(loc: u64) -> u64 {
    loc / 256
}

/// The slot of a location.
pub open spec fn loc_slot(loc: u64) -> int {
    loc as int % 256
}

/// The location of slot `slot` in page `page`.
pub open spec fn pack(page: u64, slot: int) -> u64 {
    (page * 256 + slot) as u64
}

/// Whether page `p` is an allocated content page.
pub open spec fn content_ok(s: Store, p: u64) -> bool {
    &&& s.contains_key(p)
    &&& !is_reserved(p)
    &&& page_used(s, p)
    &&& s[p][0] == PAGE_TYPEID_CONTENT
}

/// The entries of page `p`.
pub open spec fn entries_at(s: Store, p: u64) -> Seq<EntryView> {
    content_load(image(s, p))
}

/// Whether a location names an entry of an allocated content page.
pub open spec fn cell_ok(s: Store, loc: u64) -> bool {
    content_ok(s, loc_page(loc)) && loc_slot(loc) < entries_at(s, loc_page(loc)).len()
}

/// The entry that a location names.
pub open spec fn cell(s: Store, loc: u64) -> EntryView {
    entries_at(s, loc_page(loc))[loc_slot(loc)]
}

/// Whether the cells from location `loc` on hold `values`, one cell to a
/// value: the value of each cell but the last consists of the next cell's
/// location and the record's value, and the value of the last cell is the
/// record's last value.
pub open spec fn cells_hold(s: Store, loc: u64, values: Seq<Seq<u8>>) -> bool
    decreases values.len(),
{
    &&& values.len() >= 1
    &&& cell_ok(s, loc)
    &&& if values.len() == 1 {
        holds_value(s, cell(s, loc), values[0])
    } else {
        exists|next: u64|
            #[trigger] holds_value(s, cell(s, loc), spec_u64_to_be(next) + values[0])
                && cells_hold(s, next, values.skip(1))
    }
}

/// The location that the cell at position `j` of a row of cells links to:
/// the next of the row, or `end` after the last.
pub open spec fn link_of(locs: Seq<u64>, j: int, end: u64) -> u64 {
    if j + 1 < locs.len() {
        locs[j + 1]
    } else {
        end
    }
}

/// Whether the cells at `locs` hold `values`, each linked to the next, and
/// the last to `end`.
pub open spec fn linked(s: Store, locs: Seq<u64>, values: Seq<Seq<u8>>, end: u64) -> bool {
    &&& locs.len() == values.len()
    &&& forall|j: int|
        0 <= j < locs.len() ==> #[trigger] cell_ok(s, locs[j]) && cell(s, locs[j]) == (EntryView {
            data: spec_u64_to_be(link_of(locs, j, end)) + values[j],
            overflow_page: None,
        })
}

/// Whether the cells at `locs` are those of a record with `values` as it is
/// written: the cell of each value but the last holds, inline and without a
/// chain, the location of the next cell and then the value; the last cell
/// is what its value alone is written as.
pub open spec fn laid(s: Store, locs: Seq<u64>, values: Seq<Seq<u8>>) -> bool {
    &&& locs.len() == values.len()
    &&& locs.len() >= 1
    &&& linked(s, locs.drop_last(), values.drop_last(), locs.last())
    &&& cell_ok(s, locs.last())
    &&& stored(s, values.last(), cell(s, locs.last()))
}

/// Every cell outside `except` is in `t` the cell that it was in `s`, and
/// every overflow page is what it was.
pub open spec fn cells_kept(s: Store, t: Store, except: Set<u64>) -> bool {
    &&& tagged_kept(s, t, PAGE_TYPEID_OVERFLOW)
    &&& forall|loc: u64|
        #![trigger cell_ok(t, loc)]
        cell_ok(s, loc) && !except.contains(loc) ==> cell_ok(t, loc) && cell(t, loc) == cell(
            s,
            loc,
        )
}

/// Every allocated page that held a B-tree node is in `t` what it was in `s`.
pub open spec fn nodes_kept(s: Store, t: Store) -> bool {
    forall|p: u64|
        #![trigger untouched(s, t, p)]
        !is_reserved(p) && page_used(s, p) && is_node_image(image(s, p)) ==> untouched(s, t, p)
}

/// Where every allocated page is kept, every cell is.
pub proof fn lemma_kept_cells(s: Store, t: Store)
    requires
        kept(s, t, Set::empty()),
    ensures
        cells_kept(s, t, Set::empty()),
        nodes_kept(s, t),
{
    assert forall|loc: u64|
        #![trigger cell_ok(t, loc)]
        cell_ok(s, loc) implies cell_ok(t, loc) && cell(t, loc) == cell(s, loc) by {
        assert(untouched(s, t, loc_page(loc)));
    }
}

/// Where every allocated page that held no B-tree node is kept, every cell
/// is.
pub proof fn lemma_outside_cells(s: Store, t: Store)
    requires
        outside_kept(s, t),
    ensures
        cells_kept(s, t, Set::empty()),
{
    assert forall|loc: u64|
        #![trigger cell_ok(t, loc)]
        cell_ok(s, loc) implies cell_ok(t, loc) && cell(t, loc) == cell(s, loc) by {
        assert(untouched(s, t, loc_page(loc)));
    }
}

/// What two steps keep of the cells, one after the other, both keep, where
/// the cells that the second step excepts are none that the first had.
pub proof fn lemma_cells_trans(s: Store, t: Store, u: Store, a: Set<u64>, b: Set<u64>)
    requires
        cells_kept(s, t, a),
        cells_kept(t, u, b),
        forall|loc: u64| b.contains(loc) ==> !cell_ok(s, loc) || a.contains(loc),
        forall|p: u64|
            !is_reserved(p) && #[trigger] page_used(s, p) && image(s, p)[0]
                == PAGE_TYPEID_OVERFLOW ==> untouched(s, t, p),
    ensures
        cells_kept(s, u, a),
{
    assert forall|p: u64|
        #![trigger untouched(s, u, p)]
        !is_reserved(p) && page_used(s, p) && image(s, p)[0] == PAGE_TYPEID_OVERFLOW
        implies untouched(s, u, p) by {
        assert(untouched(s, t, p));
        assert(untouched(t, u, p));
    }
    assert forall|loc: u64|
        #![trigger cell_ok(u, loc)]
        cell_ok(s, loc) && !a.contains(loc) implies cell_ok(u, loc) && cell(u, loc) == cell(
        s,
        loc,
    ) by {
        assert(cell_ok(t, loc));
        assert(!b.contains(loc));
    }
}

/// A cell holds its value for as long as it and the overflow pages are kept.
pub proof fn lemma_cell_value(s: Store, t: Store, except: Set<u64>, loc: u64, value: Seq<u8>)
    requires
        cells_kept(s, t, except),
        cell_ok(s, loc),
        !except.contains(loc),
        holds_value(s, cell(s, loc), value),
    ensures
        cell_ok(t, loc),
        cell(t, loc) == cell(s, loc),
        holds_value(t, cell(t, loc), value),
{
    assert(cell_ok(t, loc));
    lemma_value_kept(s, t, cell(s, loc), value);
}

/// The cells of a record hold its values for as long as the cells and the
/// overflow pages are kept.
pub proof fn lemma_cells_hold_kept(s: Store, t: Store, loc: u64, values: Seq<Seq<u8>>)
    requires
        cells_hold(s, loc, values),
        cells_kept(s, t, Set::empty()),
    ensures
        cells_hold(t, loc, values),
    decreases values.len(),
{
    if values.len() == 1 {
        lemma_cell_value(s, t, Set::empty(), loc, values[0]);
    } else {
        let next = choose|next: u64|
            #[trigger] holds_value(s, cell(s, loc), spec_u64_to_be(next) + values[0])
                && cells_hold(s, next, values.skip(1));
        lemma_cell_value(s, t, Set::empty(), loc, spec_u64_to_be(next) + values[0]);
        lemma_cells_hold_kept(s, t, next, values.skip(1));
    }
}

/// A row of linked cells stays one for as long as its cells and the overflow
/// pages are kept.
pub proof fn lemma_linked_kept(
    s: Store,
    t: Store,
    except: Set<u64>,
    locs: Seq<u64>,
    values: Seq<Seq<u8>>,
    end: u64,
)
    requires
        linked(s, locs, values, end),
        cells_kept(s, t, except),
        forall|j: int| 0 <= j < locs.len() ==> !except.contains(#[trigger] locs[j]),
    ensures
        linked(t, locs, values, end),
{
    assert forall|j: int| 0 <= j < locs.len() implies #[trigger] cell_ok(t, locs[j]) && cell(
        t,
        locs[j],
    ) == (EntryView {
        data: spec_u64_to_be(link_of(locs, j, end)) + values[j],
        overflow_page: None,
    }) by {
        let loc = locs[j];
        assert(cell_ok(s, loc));
        assert(cell(s, loc) == (EntryView {
            data: spec_u64_to_be(link_of(locs, j, end)) + values[j],
            overflow_page: None,
        }));
        assert(!except.contains(loc));
        assert(cell_ok(t, loc) && cell(t, loc) == cell(s, loc));
    }
    assert(locs.len() == values.len());
}

/// A row of linked cells with one more cell at its end, to which the row was
/// linked.
pub proof fn lemma_linked_push(
    s: Store,
    locs: Seq<u64>,
    values: Seq<Seq<u8>>,
    last: u64,
    value: Seq<u8>,
    end: u64,
)
    requires
        linked(s, locs, values, last),
        cell_ok(s, last),
        cell(s, last) == (EntryView { data: spec_u64_to_be(end) + value, overflow_page: None }),
    ensures
        linked(s, locs.push(last), values.push(value), end),
{
    let more = locs.push(last);
    let vals = values.push(value);
    assert forall|j: int| 0 <= j < more.len() implies #[trigger] cell_ok(s, more[j]) && cell(
        s,
        more[j],
    ) == (EntryView {
        data: spec_u64_to_be(link_of(more, j, end)) + vals[j],
        overflow_page: None,
    }) by {
        if j < locs.len() {
            assert(more[j] == locs[j]);
            assert(cell_ok(s, locs[j]));
            assert(link_of(more, j, end) == link_of(locs, j, last));
            assert(vals[j] == values[j]);
        }
    }
}

/// A cell that holds the location of the next cell and then a value, before
/// cells that hold more values, is the first of the cells that hold them all.
pub proof fn lemma_cells_step(
    s: Store,
    loc: u64,
    next: u64,
    first: Seq<u8>,
    rest: Seq<Seq<u8>>,
    all: Seq<Seq<u8>>,
)
    requires
        cell_ok(s, loc),
        holds_value(s, cell(s, loc), spec_u64_to_be(next) + first),
        cells_hold(s, next, rest),
        all.len() == rest.len() + 1,
        all[0] == first,
        all.skip(1) == rest,
    ensures
        cells_hold(s, loc, all),
{
    assert(rest.len() >= 1);
}

/// A row of linked cells, and the cells that it is linked to, hold the values
/// of both.
pub proof fn lemma_linked_cells(
    s: Store,
    locs: Seq<u64>,
    values: Seq<Seq<u8>>,
    end: u64,
    rest: Seq<Seq<u8>>,
    i: int,
)
    requires
        linked(s, locs, values, end),
        cells_hold(s, end, rest),
        0 <= i <= locs.len(),
    ensures
        cells_hold(s, link_of(locs, i - 1, end), values.skip(i) + rest),
    decreases locs.len() - i,
{
    if i == locs.len() {
        assert(values.skip(i) + rest =~= rest);
    } else {
        lemma_linked_cells(s, locs, values, end, rest, i + 1);
        let all = values.skip(i) + rest;
        let loc = locs[i];
        let next = link_of(locs, i, end);
        assert(all.len() >= 2);
        assert(all.skip(1) =~= values.skip(i + 1) + rest);
        assert(all[0] == values[i]);
        assert(link_of(locs, i - 1, end) == loc);
        assert(link_of(locs, (i + 1) - 1, end) == next);
        assert(cell_ok(s, loc));
        assert(holds_value(s, cell(s, loc), spec_u64_to_be(next) + values[i]));
        lemma_cells_step(s, loc, next, values[i], all.skip(1), all);
    }
}

/// The cells from a location on hold only one record of a given number of
/// values.
pub proof fn lemma_cells_unique(s: Store, loc: u64, a: Seq<Seq<u8>>, b: Seq<Seq<u8>>)
    requires
        cells_hold(s, loc, a),
        cells_hold(s, loc, b),
        a.len() == b.len(),
    ensures
        a == b,
    decreases a.len(),
{
    if a.len() == 1 {
        lemma_value_unique(s, cell(s, loc), a[0], b[0]);
        assert(a =~= b);
    } else {
        let n1 = choose|next: u64|
            #[trigger] holds_value(s, cell(s, loc), spec_u64_to_be(next) + a[0]) && cells_hold(
                s,
                next,
                a.skip(1),
            );
        let n2 = choose|next: u64|
            #[trigger] holds_value(s, cell(s, loc), spec_u64_to_be(next) + b[0]) && cells_hold(
                s,
                next,
                b.skip(1),
            );
        let va = spec_u64_to_be(n1) + a[0];
        let vb = spec_u64_to_be(n2) + b[0];
        lemma_value_unique(s, cell(s, loc), va, vb);
        lemma_u64_round_trip(n1);
        lemma_u64_round_trip(n2);
        assert(va.take(8) =~= spec_u64_to_be(n1));
        assert(vb.take(8) =~= spec_u64_to_be(n2));
        assert(n1 == n2);
        assert(va.skip(8) =~= a[0]);
        assert(vb.skip(8) =~= b[0]);
        lemma_cells_unique(s, n1, a.skip(1), b.skip(1));
        assert(a =~= seq![a[0]] + a.skip(1));
        assert(b =~= seq![b[0]] + b.skip(1));
    }
}

/// Whether a content page that holds `entries` takes one more entry of
/// `size` bytes.
pub open spec fn takes(entries: Seq<EntryView>, size: int) -> bool {
    entries.len() < CONTENT_MAX_ENTRIES && 2 + entries_size(entries) + size <= PAGE_SIZE
}

/// The page that an entry of `size` bytes goes to when the search begins at
/// page `start`: the first count from there on that is not reserved and is
/// either unallocated, or an allocated content page that takes the entry.
pub open spec fn first_fit(s: Store, start: int, limit: int, size: int) -> Option<u64>
    decreases limit - start,
{
    if start < 0 || start >= limit || start > u64::MAX {
        None
    } else if is_reserved(start as u64) {
        first_fit(s, start + 1, limit, size)
    } else if !page_used(s, start as u64) {
        Some(start as u64)
    } else if image(s, start as u64)[0] == PAGE_TYPEID_CONTENT && takes(
        entries_at(s, start as u64),
        size,
    ) {
        Some(start as u64)
    } else {
        first_fit(s, start + 1, limit, size)
    }
}

/// Where the search by type comes to page `c`, the entry goes there if the
/// page is new or takes it, and else where the search from the next page on
/// leads.
pub proof fn lemma_fit_step(s: Store, from: int, limit: int, size: int, c: u64)
    requires
        first_of_type(s, from, PAGE_TYPEID_CONTENT, limit) == Some(c),
    ensures
        first_fit(s, from, limit, size) == (if !page_used(s, c) || takes(entries_at(s, c), size) {
            Some(c)
        } else {
            first_fit(s, c + 1, limit, size)
        }),
    decreases limit - from,
{
    if !(from < 0 || from >= limit || from > u64::MAX) {
        let p = from as u64;
        if is_reserved(p) || (page_used(s, p) && image(s, p)[0] != PAGE_TYPEID_CONTENT) {
            lemma_fit_step(s, from + 1, limit, size, c);
        }
    }
}

/// Where the search by type finds no page, the entry goes nowhere.
pub proof fn lemma_fit_none(s: Store, from: int, limit: int, size: int)
    requires
        first_of_type(s, from, PAGE_TYPEID_CONTENT, limit) is None,
    ensures
        first_fit(s, from, limit, size) is None,
    decreases limit - from,
{
    if !(from < 0 || from >= limit || from > u64::MAX) {
        lemma_fit_none(s, from + 1, limit, size);
    }
}

/// Stores that read alike send an entry to the same page.
pub proof fn lemma_fit_same(s: Store, t: Store, from: int, limit: int, size: int)
    requires
        same_except(s, t, Set::empty()),
    ensures
        first_fit(t, from, limit, size) == first_fit(s, from, limit, size),
        first_of_type(t, from, PAGE_TYPEID_CONTENT, limit) == first_of_type(
            s,
            from,
            PAGE_TYPEID_CONTENT,
            limit,
        ),
    decreases limit - from,
{
    lemma_kept(s, t, Set::empty());
    if !(from < 0 || from >= limit || from > u64::MAX) {
        let p = from as u64;
        assert(s.contains_key(p) ==> t.contains_key(p));
        assert(image(t, p) == image(s, p));
        assert(page_used(t, p) == page_used(s, p));
        lemma_fit_same(s, t, from + 1, limit, size);
    }
}

/// Stores that read alike, one after the other, read alike.
pub proof fn lemma_alike(s: Store, t: Store, u: Store)
    requires
        same_except(s, t, Set::empty()),
        same_except(t, u, Set::empty()),
    ensures
        same_except(s, u, Set::empty()),
{
    assert forall|c: u64|
        #![trigger s.contains_key(c)]
        #![trigger u.contains_key(c)]
        (s.contains_key(c) ==> u.contains_key(c)) && image(u, c) == image(s, c) by {
        assert(s.contains_key(c) ==> t.contains_key(c));
        assert(t.contains_key(c) ==> u.contains_key(c));
    }
}

/// The page that an entry goes to lies from where the search began on and
/// below the limit, and every page that the search passed is reserved or
/// allocated.
pub proof fn lemma_fit_gap(s: Store, from: int, limit: int, size: int)
    requires
        0 <= from,
        first_fit(s, from, limit, size) is Some,
    ensures
        from <= first_fit(s, from, limit, size).unwrap() < limit,
        !is_reserved(first_fit(s, from, limit, size).unwrap()),
        forall|c: u64|
            from <= c < first_fit(s, from, limit, size).unwrap() && !is_reserved(c)
                ==> #[trigger] page_used(s, c),
    decreases limit - from,
{
    let p = from as u64;
    if is_reserved(p) || (page_used(s, p) && !(image(s, p)[0] == PAGE_TYPEID_CONTENT && takes(
        entries_at(s, p),
        size,
    ))) {
        lemma_fit_gap(s, from + 1, limit, size);
    }
}

/// The page that the search by type comes to lies from where the search
/// began on and below the limit, and every page that the search passed is
/// reserved or allocated.
pub proof fn lemma_of_type_gap(s: Store, from: int, tag: u8, limit: int)
    requires
        0 <= from,
        first_of_type(s, from, tag, limit) is Some,
    ensures
        from <= first_of_type(s, from, tag, limit).unwrap() < limit,
        forall|c: u64|
            from <= c < first_of_type(s, from, tag, limit).unwrap() && !is_reserved(c)
                ==> #[trigger] page_used(s, c),
    decreases limit - from,
{
    let p = from as u64;
    if is_reserved(p) || (page_used(s, p) && image(s, p)[0] != tag) {
        lemma_of_type_gap(s, from + 1, tag, limit);
    }
}

/// Where a page from `from` on can be handed out, an entry goes to that page
/// or to one before it.
pub proof fn lemma_fit_found(s: Store, from: int, limit: int, size: int, c: u64)
    requires
        0 <= from <= c,
        free_in(s, limit, c),
    ensures
        first_fit(s, from, limit, size) is Some,
    decreases limit - from,
{
    let p = from as u64;
    if from < c && (is_reserved(p) || (page_used(s, p) && !(image(s, p)[0] == PAGE_TYPEID_CONTENT
        && takes(entries_at(s, p), size)))) {
        lemma_fit_found(s, from + 1, limit, size, c);
    }
}

/// Where a page from `from` on can be handed out, the search by type comes
/// to that page or to one before it.
pub proof fn lemma_of_type_found(s: Store, from: int, tag: u8, limit: int, c: u64)
    requires
        0 <= from <= c,
        free_in(s, limit, c),
    ensures
        first_of_type(s, from, tag, limit) is Some,
    decreases limit - from,
{
    let p = from as u64;
    if from < c && (is_reserved(p) || (page_used(s, p) && image(s, p)[0] != tag)) {
        lemma_of_type_found(s, from + 1, tag, limit, c);
    }
}

} // verus!
