//! How many pages a store can still hand out, and how many of them an
//! operation may take.

use vstd::prelude::*;
use crate::bitmap::{bit_at, lemma_zero_page_bits, BITMAP_MANAGED_SIZE};
use crate::device::DEVICE_MAX_PAGES;
use crate::manage::{
    bitmap_full, first_free, governing, image, is_lowest_clear, is_reserved, lemma_lowest_clear,
    lemma_marked, lemma_stride, lowest_clear, page_used, room, same_except, slot_of, taken, Store,
    BITMAP_STRIDE,
};
use crate::page::PAGE_SIZE;

verus! {

/// Whether every page image of the store is as long as a page.
pub open spec fn sized(s: Store) -> bool {
    forall|c: u64| #[trigger] s.contains_key(c) ==> s[c].len() == PAGE_SIZE
}

/// Whether page `c` can be handed out of `s`.
pub open spec fn free_in(s: Store, limit: int, c: u64) -> bool {
    c < limit && !is_reserved(c) && !page_used(s, c)
}

/// Whether every page before `from` that is not reserved is allocated.
pub open spec fn gap_free(s: Store, from: u64) -> bool {
    forall|c: u64| c < from && !is_reserved(c) ==> #[trigger] page_used(s, c)
}

/// Whether `t` has the same pages allocated as `s`.
pub open spec fn same_used(s: Store, t: Store) -> bool {
    forall|c: u64| !is_reserved(c) ==> #[trigger] page_used(t, c) == page_used(s, c)
}

/// Whether `t` has page `c` allocated, which `s` had not, and else the same
/// pages as `s`.
pub open spec fn one_more(s: Store, t: Store, c: u64) -> bool {
    &&& !is_reserved(c)
    &&& !page_used(s, c)
    &&& forall|d: u64| !is_reserved(d) ==> #[trigger] page_used(t, d) == (d == c || page_used(s, d))
}

/// Whether `t` can hand out all but `k` of the pages that `s` can.
pub open spec fn spare(s: Store, t: Store, limit: int, k: nat) -> bool {
    forall|m: nat| room(s, limit, m + k) ==> #[trigger] room(t, limit, m)
}

/// The page `p` places after a bitmap page is governed by it, at position `p`.
pub proof fn lemma_position(base: int, p: int)
    requires
        0 <= base,
        base % (BITMAP_STRIDE as int) == 0,
        0 <= p < BITMAP_STRIDE,
        base + p <= u64::MAX,
    ensures
        governing((base + p) as u64) == base,
        slot_of((base + p) as u64) == p,
{
    let k = base / (BITMAP_STRIDE as int);
    assert(base == k * BITMAP_STRIDE);
    lemma_stride(k, p);
}

/// Below an unmarked position there is a lowest one.
pub proof fn lemma_least_clear(bits: Seq<u8>, p: int)
    requires
        1 <= p < BITMAP_MANAGED_SIZE,
        !bit_at(bits, p),
    ensures
        !bitmap_full(bits),
        is_lowest_clear(bits, lowest_clear(bits)),
        lowest_clear(bits) <= p,
    decreases p,
{
    if forall|q: int| 1 <= q < p ==> bit_at(bits, q) {
        assert(is_lowest_clear(bits, p));
        lemma_lowest_clear(bits, p);
    } else {
        let q = choose|q: int| 1 <= q < p && !bit_at(bits, q);
        lemma_least_clear(bits, q);
    }
}

/// The page that allocation hands out can be handed out.
pub proof fn lemma_first_free_free(s: Store, limit: int, base: int)
    requires
        0 <= base,
        base % (BITMAP_STRIDE as int) == 0,
        limit <= DEVICE_MAX_PAGES,
        first_free(s, limit, base) is Some,
    ensures
        free_in(s, limit, first_free(s, limit, base).unwrap()),
    decreases limit - base + BITMAP_STRIDE,
{
    let bits = image(s, base as u64);
    if bitmap_full(bits) {
        lemma_first_free_free(s, limit, base + BITMAP_STRIDE as int);
    } else {
        let w = choose|w: int| 1 <= w < BITMAP_MANAGED_SIZE && !bit_at(bits, w);
        lemma_least_clear(bits, w);
        lemma_position(base, lowest_clear(bits));
    }
}

/// Where some page can be handed out, allocation hands out that page or one
/// before it.
pub proof fn lemma_free_found(s: Store, limit: int, base: int, p: u64)
    requires
        0 <= base <= p,
        base % (BITMAP_STRIDE as int) == 0,
        limit <= DEVICE_MAX_PAGES,
        free_in(s, limit, p),
    ensures
        first_free(s, limit, base) is Some,
        first_free(s, limit, base).unwrap() <= p,
    decreases limit - base + BITMAP_STRIDE,
{
    let bits = image(s, base as u64);
    let k = base / (BITMAP_STRIDE as int);
    assert(base == k * BITMAP_STRIDE);
    let kp = p as int / (BITMAP_STRIDE as int);
    assert(governing(p) == kp * BITMAP_STRIDE);
    assert(p == kp * BITMAP_STRIDE + slot_of(p));
    assert(kp >= k);
    if kp == k {
        assert(governing(p) == base);
        assert(1 <= slot_of(p) < BITMAP_MANAGED_SIZE);
        lemma_least_clear(bits, slot_of(p));
    } else {
        assert(p >= base + BITMAP_STRIDE);
        if bitmap_full(bits) {
            lemma_free_found(s, limit, base + BITMAP_STRIDE as int, p);
        } else {
            let w = choose|w: int| 1 <= w < BITMAP_MANAGED_SIZE && !bit_at(bits, w);
            lemma_least_clear(bits, w);
        }
    }
}

/// Stores with the same pages allocated hand out the same page.
pub proof fn lemma_first_free_bits(s: Store, t: Store, limit: int, base: int)
    requires
        same_used(s, t),
        0 <= base,
        base % (BITMAP_STRIDE as int) == 0,
        limit <= DEVICE_MAX_PAGES,
    ensures
        first_free(t, limit, base) == first_free(s, limit, base),
    decreases limit - base + BITMAP_STRIDE,
{
    if base < limit {
        let bs = image(s, base as u64);
        let bt = image(t, base as u64);
        assert forall|p: int| 1 <= p < BITMAP_MANAGED_SIZE implies bit_at(bs, p) == bit_at(
            bt,
            p,
        ) by {
            lemma_position(base, p);
            let c = (base + p) as u64;
            assert(!is_reserved(c));
            assert(page_used(t, c) == page_used(s, c));
        }
        if bitmap_full(bs) {
            assert(bitmap_full(bt));
            lemma_first_free_bits(s, t, limit, base + BITMAP_STRIDE as int);
        } else {
            let w = choose|w: int| 1 <= w < BITMAP_MANAGED_SIZE && !bit_at(bs, w);
            lemma_least_clear(bs, w);
            let q = lowest_clear(bs);
            assert(is_lowest_clear(bt, q));
            lemma_lowest_clear(bt, q);
        }
    }
}

/// Handing out a page that can be handed out allocates that page and no
/// other.
pub proof fn lemma_taken_bits(s: Store, c: u64)
    requires
        sized(s),
        !is_reserved(c),
        !page_used(s, c),
    ensures
        one_more(s, taken(s, c), c),
        sized(taken(s, c)),
{
    let b = governing(c);
    let t = taken(s, c);
    assert(slot_of(b) == 0);
    assert(b != c);
    assert(image(s, b).len() == PAGE_SIZE);
    assert forall|d: u64|
        #![trigger s.contains_key(d)]
        #![trigger t.contains_key(d)]
        !set![b, c].contains(d) implies (s.contains_key(d) ==> t.contains_key(d)) && image(t, d)
        == image(s, d) by {}
    lemma_marked(s, t, c);
    assert forall|d: u64| #[trigger] t.contains_key(d) implies t[d].len() == PAGE_SIZE by {
        if d != b && d != c {
            assert(s.contains_key(d));
        }
    }
}

/// Stores with the same pages allocated can hand out as many pages.
pub proof fn lemma_room_bits(s: Store, t: Store, limit: int, n: nat)
    requires
        sized(s),
        sized(t),
        same_used(s, t),
        limit <= DEVICE_MAX_PAGES,
    ensures
        room(t, limit, n) == room(s, limit, n),
    decreases n,
{
    lemma_first_free_bits(s, t, limit, 0);
    if n > 0 {
        match first_free(s, limit, 0) {
            Some(c) => {
                lemma_first_free_free(s, limit, 0);
                lemma_taken_bits(s, c);
                lemma_taken_bits(t, c);
                lemma_room_bits(taken(s, c), taken(t, c), limit, (n - 1) as nat);
            },
            None => {},
        }
    }
}

/// A store that can hand out `n` pages can hand out fewer.
pub proof fn lemma_room_less(s: Store, limit: int, n: nat, m: nat)
    requires
        m <= n,
        room(s, limit, n),
    ensures
        room(s, limit, m),
    decreases m,
{
    if m > 0 {
        let c = first_free(s, limit, 0).unwrap();
        lemma_room_less(taken(s, c), limit, (n - 1) as nat, (m - 1) as nat);
    }
}

/// After the page that allocation hands out was allocated, the store can
/// hand out all but one of the pages that it could.
pub proof fn lemma_spent(s: Store, t: Store, limit: int, c: u64)
    requires
        sized(s),
        sized(t),
        one_more(s, t, c),
        first_free(s, limit, 0) == Some(c),
        limit <= DEVICE_MAX_PAGES,
    ensures
        spare(s, t, limit, 1),
{
    lemma_taken_bits(s, c);
    assert forall|m: nat| room(s, limit, m + 1) implies #[trigger] room(t, limit, m) by {
        assert(room(taken(s, c), limit, m));
        lemma_room_bits(taken(s, c), t, limit, m);
    }
}

/// With the same pages allocated, a store can hand out what it could.
pub proof fn lemma_unspent(s: Store, t: Store, limit: int)
    requires
        sized(s),
        sized(t),
        same_used(s, t),
        limit <= DEVICE_MAX_PAGES,
    ensures
        spare(s, t, limit, 0),
{
    assert forall|m: nat| room(s, limit, m + 0) implies #[trigger] room(t, limit, m) by {
        lemma_room_bits(s, t, limit, m);
    }
}

/// What two operations take, one after the other, is what each takes.
pub proof fn lemma_spare_trans(s: Store, t: Store, u: Store, limit: int, a: nat, b: nat)
    requires
        spare(s, t, limit, a),
        spare(t, u, limit, b),
    ensures
        spare(s, u, limit, a + b),
{
    assert forall|m: nat| room(s, limit, m + (a + b)) implies #[trigger] room(u, limit, m) by {
        assert(m + (a + b) == (m + b) + a);
        assert(room(t, limit, m + b));
    }
}

/// An operation that takes no more than `a` pages takes no more than any
/// greater number.
pub proof fn lemma_spare_more(s: Store, t: Store, limit: int, a: nat, b: nat)
    requires
        spare(s, t, limit, a),
        a <= b,
    ensures
        spare(s, t, limit, b),
{
    assert forall|m: nat| room(s, limit, m + b) implies #[trigger] room(t, limit, m) by {
        lemma_room_less(s, limit, m + b, m + a);
    }
}

/// Where no page before `p` can be handed out and `p` can, allocation hands
/// out `p`.
pub proof fn lemma_least_free(s: Store, limit: int, p: u64)
    requires
        gap_free(s, p),
        free_in(s, limit, p),
        limit <= DEVICE_MAX_PAGES,
    ensures
        first_free(s, limit, 0) == Some(p),
{
    lemma_free_found(s, limit, 0, p);
    lemma_first_free_free(s, limit, 0);
}

/// Where no page before `from` can be handed out, allocation hands out none
/// of them.
pub proof fn lemma_gap_first(s: Store, limit: int, from: u64)
    requires
        gap_free(s, from),
        first_free(s, limit, 0) is Some,
        limit <= DEVICE_MAX_PAGES,
    ensures
        first_free(s, limit, 0).unwrap() >= from,
        free_in(s, limit, first_free(s, limit, 0).unwrap()),
{
    lemma_first_free_free(s, limit, 0);
}

/// Where no page before `k` can be handed out and each of the `n` pages
/// from `k` on can, the store can hand out `n` pages.
pub proof fn lemma_room_run(s: Store, limit: int, k: u64, n: nat)
    requires
        sized(s),
        limit <= DEVICE_MAX_PAGES,
        gap_free(s, k),
        forall|c: u64| k <= c < k + n ==> free_in(s, limit, c),
    ensures
        room(s, limit, n),
    decreases n,
{
    if n > 0 {
        assert(free_in(s, limit, k));
        lemma_least_free(s, limit, k);
        lemma_taken_bits(s, k);
        let t = taken(s, k);
        assert(gap_free(t, (k + 1) as u64)) by {
            assert forall|c: u64| c < k + 1 && !is_reserved(c) implies #[trigger] page_used(
                t,
                c,
            ) by {
                if c < k {
                    assert(page_used(s, c));
                }
            }
        }
        assert forall|c: u64| k + 1 <= c < (k + 1) + (n - 1) implies free_in(t, limit, c) by {
            assert(free_in(s, limit, c));
            assert(page_used(t, c) == (c == k || page_used(s, c)));
        }
        lemma_room_run(t, limit, (k + 1) as u64, (n - 1) as nat);
    }
}

/// A store without its first bitmap page can hand out every page that the
/// first bitmap governs, as far as the limit allows.
pub proof fn law_room_fresh(s: Store, limit: int, n: nat)
    requires
        sized(s),
        !s.contains_key(0),
        n < limit <= DEVICE_MAX_PAGES,
        n < BITMAP_MANAGED_SIZE,
    ensures
        room(s, limit, n),
{
    assert forall|c: u64| 1 <= c < 1 + n implies free_in(s, limit, c) by {
        lemma_position(0, c as int);
        lemma_zero_page_bits(c as int);
    }
    assert(gap_free(s, 1)) by {
        assert forall|c: u64| c < 1 && !is_reserved(c) implies #[trigger] page_used(s, c) by {
            assert(slot_of(c) == 0);
        }
    }
    lemma_room_run(s, limit, 1, n);
}

} // verus!
