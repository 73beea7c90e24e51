//! What holds of a page across its operations.
use vstd::prelude::*;
use crate::layout::{
    lemma_distinct_below, lemma_remove_distinct, reserved_header, total_len, total_rooms, PageView,
};
use crate::PAGE_SIZE;

verus! {

/// The deleted slot found by `first_fit` exists and its hole holds `n` bytes.
pub proof fn lemma_first_fit(v: PageView, n: nat, j: nat)
    ensures
        v.first_fit(n, j) matches Some(k) ==> j <= k < v.deleted.len() && n <= v.rooms[v.deleted[k as int] as int],
    decreases v.deleted.len() - j,
{
    if j < v.deleted.len() && !(n <= v.rooms[v.deleted[j as int] as int]) {
        lemma_first_fit(v, n, j + 1);
    }
}

/// Removing deleted slot `k` from the deleted list and putting `bytes` in it keeps
/// a page well-formed.
proof fn lemma_fill_deleted_wf(v: PageView, k: int, bytes: Seq<u8>, w: PageView)
    requires
        v.wf(),
        0 <= k < v.deleted.len(),
        w.page_id == v.page_id,
        w.values == v.values.update(v.deleted[k] as int, Some(bytes)),
        w.rooms == v.rooms.update(v.deleted[k] as int, bytes.len()),
        w.deleted == v.deleted.remove(k),
        reserved_header(v.values.len()) <= w.data_start <= v.data_start,
    ensures
        w.wf(),
{
    let s = v.deleted[k];
    lemma_remove_distinct(v.deleted, k);
    assert forall|q: int| 0 <= q < w.deleted.len() implies w.deleted[q] < w.values.len() by {
        assert(w.deleted.contains(w.deleted[q]));
    }
    assert forall|i: int| 0 <= i < w.values.len() implies (#[trigger] w.values[i] is None
        <==> w.deleted.contains(i as u16)) by {
        if i != s {
            assert((i as u16) != s);
            assert(v.values[i] is None <==> v.deleted.contains(i as u16));
        }
    }
    assert forall|i: int| 0 <= i < w.values.len() && w.values[i] is Some implies #[trigger] w.rooms[i]
        == w.values[i]->0.len() by {
        if i != s {
            assert(v.rooms[i] == v.values[i]->0.len());
        }
    }
}

/// Adding a value keeps a well-formed page well-formed.
pub proof fn law_add_keeps_wf(v: PageView, bytes: Seq<u8>)
    requires
        v.wf(),
    ensures
        v.after_add(bytes).0.wf(),
{
    let w = v.after_add(bytes).0;
    if v.deleted.len() > 0 {
        lemma_first_fit(v, bytes.len(), 0);
        match v.first_fit(bytes.len(), 0) {
            Some(k) => lemma_fill_deleted_wf(v, k as int, bytes, w),
            None => {
                if v.after_add(bytes).1 is Some {
                    lemma_fill_deleted_wf(v, 0, bytes, w);
                }
            },
        }
    } else if v.after_add(bytes).1 is Some {
        assert forall|i: int| 0 <= i < w.values.len() implies (#[trigger] w.values[i] is None
            <==> w.deleted.contains(i as u16)) by {
            if i < v.values.len() {
                assert(v.values[i] is None <==> v.deleted.contains(i as u16));
            }
        }
        assert forall|i: int|
            0 <= i < w.values.len() && w.values[i] is Some implies #[trigger] w.rooms[i]
            == w.values[i]->0.len() by {
            if i < v.values.len() {
                assert(v.rooms[i] == v.values[i]->0.len());
            }
        }
    }
}

/// Deleting a value keeps a well-formed page well-formed.
pub proof fn law_delete_keeps_wf(v: PageView, slot: u16)
    requires
        v.wf(),
    ensures
        v.after_delete(slot).0.wf(),
{
    if v.is_live(slot as int) {
        let w = v.after_delete(slot).0;
        assert(!v.deleted.contains(slot));
        assert forall|a: int, b: int|
            0 <= a < w.deleted.len() && 0 <= b < w.deleted.len() && a != b implies w.deleted[a]
            != w.deleted[b] by {
            if a < v.deleted.len() && b < v.deleted.len() {
            } else if a < v.deleted.len() {
                assert(v.deleted.contains(w.deleted[a]));
            } else {
                assert(v.deleted.contains(w.deleted[b]));
            }
        }
        assert forall|k: int| 0 <= k < w.deleted.len() implies w.deleted[k] < w.values.len() by {
            if k < v.deleted.len() {
                assert(w.deleted[k] == v.deleted[k]);
            }
        }
        lemma_distinct_below(w.deleted, w.values.len());
        assert forall|i: int| 0 <= i < w.values.len() implies (#[trigger] w.values[i] is None
            <==> w.deleted.contains(i as u16)) by {
            if i != slot {
                assert((i as u16) != slot);
                if w.deleted.contains(i as u16) {
                    let j = choose|j: int| 0 <= j < w.deleted.len() && w.deleted[j] == i as u16;
                    assert(j < v.deleted.len());
                    assert(v.deleted[j] == i as u16);
                }
                if v.deleted.contains(i as u16) {
                    let j = choose|j: int| 0 <= j < v.deleted.len() && v.deleted[j] == i as u16;
                    assert(w.deleted[j] == i as u16);
                }
            } else {
                assert(w.deleted[v.deleted.len() as int] == slot);
            }
        }
    }
}

/// A value that was added is read back from the slot it was given, and every other
/// slot reads as before.
pub proof fn law_get_after_add(v: PageView, bytes: Seq<u8>, other: int)
    requires
        v.wf(),
        v.after_add(bytes).1 is Some,
    ensures
        ({
            let (w, r) = v.after_add(bytes);
            let s = r->0 as int;
            &&& w.get(s) == Some(bytes)
            &&& other != s ==> w.get(other) == v.get(other)
        }),
{
    lemma_first_fit(v, bytes.len(), 0);
}

/// An add that finds no room leaves the page as it was.
pub proof fn law_rejected_add_changes_nothing(v: PageView, bytes: Seq<u8>)
    requires
        v.after_add(bytes).1 is None,
    ensures
        v.after_add(bytes).0 == v,
{
}

/// A page without deleted slots gives a new value the next slot id, and the free
/// space shrinks by the value's length and four bytes of slot metadata.
pub proof fn law_add_new_slot(v: PageView, bytes: Seq<u8>)
    requires
        v.wf(),
        v.deleted.len() == 0,
        v.after_add(bytes).1 is Some,
    ensures
        v.after_add(bytes).1 == Some(v.num_slots() as u16),
        v.after_add(bytes).0.free_space() == v.free_space() - bytes.len() - 4,
{
}

/// Deleting succeeds exactly on a slot that holds a value; afterwards that slot reads
/// as empty and every other slot reads as before.
pub proof fn law_get_after_delete(v: PageView, slot: u16, other: int)
    ensures
        (v.after_delete(slot).1 is Some) == v.is_live(slot as int),
        v.after_delete(slot).0.get(slot as int) is None,
        other != slot ==> v.after_delete(slot).0.get(other) == v.get(other),
{
}

/// On a page without deleted slots, the value added right after a delete takes the
/// deleted slot's id, and it succeeds whenever it is no longer than the deleted value.
pub proof fn law_deleted_slot_reused(v: PageView, slot: u16, bytes: Seq<u8>)
    requires
        v.wf(),
        v.deleted.len() == 0,
        v.is_live(slot as int),
    ensures
        ({
            let w = v.after_delete(slot).0;
            let r = w.after_add(bytes).1;
            &&& r is Some ==> r == Some(slot)
            &&& bytes.len() <= v.get(slot as int)->0.len() ==> r == Some(slot)
        }),
{
    let w = v.after_delete(slot).0;
    assert(w.deleted =~= seq![slot]);
    lemma_first_fit(w, bytes.len(), 0);
    if bytes.len() <= v.get(slot as int)->0.len() {
        assert(w.first_fit(bytes.len(), 0) == Some(0nat));
    }
}

/// The header of a well-formed page never reaches its records, and takes at most
/// eight bytes plus six per slot.
pub proof fn law_header_budget(v: PageView)
    requires
        v.wf(),
    ensures
        v.header_size() <= reserved_header(v.num_slots()),
        reserved_header(v.num_slots()) <= v.data_start,
        v.free_space() >= 0,
{
}

/// Iterating a page after a value went into a new slot yields the earlier live values
/// and then the new value.
pub proof fn law_live_values_after_new_slot(v: PageView, bytes: Seq<u8>)
    requires
        v.wf(),
        v.deleted.len() == 0,
        v.after_add(bytes).1 is Some,
    ensures
        v.after_add(bytes).0.live_from(0) == v.live_from(0).push(bytes),
{
    lemma_live_from_push(v, v.after_add(bytes).0, bytes, 0);
}

proof fn lemma_live_from_push(v: PageView, w: PageView, bytes: Seq<u8>, i: nat)
    requires
        w.values == v.values.push(Some(bytes)),
        i <= v.values.len(),
    ensures
        w.live_from(i) == v.live_from(i).push(bytes),
    decreases v.values.len() - i,
{
    if i == v.values.len() {
        assert(w.live_from(i + 1) == Seq::<Seq<u8>>::empty());
        assert(v.live_from(i) == Seq::<Seq<u8>>::empty());
        assert(w.live_from(i) =~= seq![bytes]);
    } else {
        lemma_live_from_push(v, w, bytes, i + 1);
        assert(w.values[i as int] == v.values[i as int]);
        match v.values[i as int] {
            Some(x) => {
                assert(w.live_from(i) =~= v.live_from(i).push(bytes));
            },
            None => {},
        }
    }
}


/// Replacing one byte count changes the sum by the difference.
proof fn lemma_total_rooms_update(r: Seq<nat>, s: int, x: nat)
    requires
        0 <= s < r.len(),
    ensures
        total_rooms(r.update(s, x)) == total_rooms(r) - r[s] + x,
    decreases r.len(),
{
    let u = r.update(s, x);
    if s == r.len() - 1 {
        assert(u.drop_last() =~= r.drop_last());
    } else {
        assert(u.drop_last() =~= r.drop_last().update(s, x));
        lemma_total_rooms_update(r.drop_last(), s, x);
    }
}

/// Adding and deleting keep a packed page packed: the bytes owned by the slots
/// never exceed the record area.
pub proof fn law_packed_step(v: PageView, bytes: Seq<u8>, slot: u16)
    requires
        v.wf(),
        v.packed(),
    ensures
        v.after_add(bytes).0.packed(),
        v.after_delete(slot).0.packed(),
{
    let n = bytes.len();
    if v.deleted.len() > 0 {
        lemma_first_fit(v, n, 0);
        match v.first_fit(n, 0) {
            Some(k) => {
                lemma_total_rooms_update(v.rooms, v.deleted[k as int] as int, n);
            },
            None => {
                if v.after_add(bytes).1 is Some {
                    lemma_total_rooms_update(v.rooms, v.deleted[0] as int, n);
                }
            },
        }
    } else if v.after_add(bytes).1 is Some {
        assert(v.rooms.push(n).drop_last() =~= v.rooms);
    }
}

/// The values of the first `n` live slots take no more bytes than the first `n`
/// slots own.
proof fn lemma_live_prefix_within_rooms(v: PageView, n: nat)
    requires
        v.wf(),
        n <= v.values.len(),
    ensures
        total_len(v.live_prefix(n)) <= total_rooms(v.rooms.take(n as int)),
    decreases n,
{
    if n > 0 {
        lemma_live_prefix_within_rooms(v, (n - 1) as nat);
        assert(v.rooms.take(n as int).drop_last() =~= v.rooms.take(n - 1));
        let before = v.live_prefix((n - 1) as nat);
        if let Some(x) = v.get(n - 1) {
            assert(v.live_prefix(n).drop_last() =~= before);
            assert(v.rooms[n - 1] == x.len());
        }
    }
}

/// On a well-formed, packed page, the header and the live values together fit in
/// `PAGE_SIZE` bytes.
pub proof fn law_live_values_fit(v: PageView)
    requires
        v.wf(),
        v.packed(),
    ensures
        v.header_size() + total_len(v.live_values()) <= PAGE_SIZE,
{
    lemma_live_prefix_within_rooms(v, v.values.len());
    assert(v.rooms.take(v.values.len() as int) =~= v.rooms);
}

/// Listing the live slots from the front and from the back gives the same values.
proof fn lemma_live_prefix_from(v: PageView, n: nat)
    requires
        n <= v.values.len(),
    ensures
        v.live_prefix(n) + v.live_from(n) == v.live_from(0),
    decreases n,
{
    if n == 0 {
        assert(v.live_prefix(0) + v.live_from(0) =~= v.live_from(0));
    } else {
        let m = (n - 1) as nat;
        lemma_live_prefix_from(v, m);
        match v.values[m as int] {
            Some(x) => {
                assert(v.live_prefix(n) + v.live_from(n) =~= v.live_prefix(m) + v.live_from(m));
            },
            None => {},
        }
    }
}

/// Iteration lists the live values in slot order.
pub proof fn law_iteration_order(v: PageView)
    ensures
        v.live_from(0) == v.live_values(),
{
    lemma_live_prefix_from(v, v.values.len());
    assert(v.live_from(v.values.len()) =~= Seq::<Seq<u8>>::empty());
    assert(v.live_prefix(v.values.len()) + Seq::<Seq<u8>>::empty() =~= v.live_prefix(
        v.values.len(),
    ));
}

/// Each list after the first is the one before it without its head.
pub open spec fn each_pops_head(rem: Seq<Seq<Seq<u8>>>) -> bool {
    forall|k: int|
        0 < k < rem.len() ==> rem[k - 1].len() > 0 && #[trigger] rem[k] == rem[k - 1].drop_first()
}

/// Successive calls of `next` on an iterator over the page `v`, whose remaining
/// values before each call are `rem[0]`, `rem[1]`, and so on (each call after the
/// first handed out the head of the previous list), hand out the live values of `v`
/// in slot order; the iterator is empty exactly once all of them were handed out.
pub proof fn law_iteration_yields_live_values(v: PageView, rem: Seq<Seq<Seq<u8>>>)
    requires
        rem.len() > 0,
        rem[0] == v.live_from(0),
        each_pops_head(rem),
    ensures
        rem.len() - 1 <= v.live_values().len(),
        forall|k: int| 0 <= k < rem.len() - 1 ==> #[trigger] rem[k][0] == v.live_values()[k],
        rem.last().len() == 0 <==> rem.len() - 1 == v.live_values().len(),
{
    law_iteration_order(v);
    let lv = v.live_values();
    assert forall|k: int| 0 <= k < rem.len() implies k <= lv.len() && #[trigger] rem[k]
        == lv.skip(k) by {
        lemma_rem_skip(lv, rem, k);
    }
    assert(rem.last() == lv.skip(rem.len() - 1));
}

proof fn lemma_rem_skip(lv: Seq<Seq<u8>>, rem: Seq<Seq<Seq<u8>>>, k: int)
    requires
        rem.len() > 0,
        rem[0] == lv,
        each_pops_head(rem),
        0 <= k < rem.len(),
    ensures
        k <= lv.len(),
        rem[k] == lv.skip(k),
    decreases k,
{
    if k == 0 {
        assert(lv.skip(0) =~= lv);
    } else {
        lemma_rem_skip(lv, rem, k - 1);
        assert(rem[k] == rem[k - 1].drop_first());
        assert(rem[k] =~= lv.skip(k));
    }
}


/// `first_fit` from position `j` finds position `k` when the hole there is the
/// first from `j` on that holds `n` bytes, and nothing when no hole from `j` on does.
proof fn lemma_first_fit_exact(v: PageView, n: nat, j: nat)
    ensures
        forall|k: int|
            j <= k < v.deleted.len() && n <= v.rooms[v.deleted[k] as int] && (forall|q: int|
                j <= q < k ==> v.rooms[#[trigger] v.deleted[q] as int] < n) ==> v.first_fit(n, j)
                == Some(k as nat),
        (forall|q: int| j <= q < v.deleted.len() ==> v.rooms[#[trigger] v.deleted[q] as int] < n)
            ==> v.first_fit(n, j) is None,
    decreases v.deleted.len() - j,
{
    if j < v.deleted.len() {
        lemma_first_fit_exact(v, n, j + 1);
        assert forall|k: int|
            j <= k < v.deleted.len() && n <= v.rooms[v.deleted[k] as int] && (forall|q: int|
                j <= q < k ==> v.rooms[#[trigger] v.deleted[q] as int] < n) implies v.first_fit(
            n,
            j,
        ) == Some(k as nat) by {
            if k > j {
                assert(v.rooms[v.deleted[j as int] as int] < n);
            }
        }
    }
}

/// On a page without deleted slots, a value gets the next new slot whenever the
/// record area has room for it and the header budget of one more slot; the new slot
/// holds the value, the record area grows by exactly its length, and nothing else
/// changes. Otherwise the add is refused.
pub proof fn law_add_to_new_slot(v: PageView, bytes: Seq<u8>)
    requires
        v.wf(),
        v.deleted.len() == 0,
    ensures
        ({
            let (w, r) = v.after_add(bytes);
            if bytes.len() + 8 + 6 * (v.num_slots() + 1) <= v.data_start {
                &&& r == Some(v.num_slots() as u16)
                &&& w.values == v.values.push(Some(bytes))
                &&& w.data_start + bytes.len() == v.data_start
                &&& w.deleted == v.deleted
                &&& w.page_id == v.page_id
            } else {
                r is None
            }
        }),
{
}

/// When deleted slots exist and the hole of the deleted slot at position `k` of the
/// deletion order is the first that holds the value, the value goes into that hole:
/// the add returns that slot's id, the slot holds the value, the slot leaves the
/// deleted list, and the record area does not move.
pub proof fn law_add_into_hole(v: PageView, bytes: Seq<u8>, k: int)
    requires
        v.wf(),
        0 <= k < v.deleted.len(),
        bytes.len() <= v.rooms[v.deleted[k] as int],
        forall|q: int| 0 <= q < k ==> v.rooms[#[trigger] v.deleted[q] as int] < bytes.len(),
    ensures
        ({
            let (w, r) = v.after_add(bytes);
            &&& r == Some(v.deleted[k])
            &&& w.get(v.deleted[k] as int) == Some(bytes)
            &&& w.deleted == v.deleted.remove(k)
            &&& w.data_start == v.data_start
            &&& w.values.len() == v.values.len()
        }),
{
    lemma_first_fit_exact(v, bytes.len(), 0);
}

/// When deleted slots exist but no hole holds the value, the earliest deleted slot
/// takes it at the front of the record area whenever the record area has room for it
/// within the header budget of the existing slots, whatever the number of deleted
/// slots; otherwise the add is refused.
pub proof fn law_add_deleted_slot_to_free_space(v: PageView, bytes: Seq<u8>)
    requires
        v.wf(),
        v.deleted.len() > 0,
        forall|q: int| 0 <= q < v.deleted.len() ==> v.rooms[#[trigger] v.deleted[q] as int] < bytes.len(),
    ensures
        ({
            let (w, r) = v.after_add(bytes);
            if bytes.len() + 8 + 6 * v.num_slots() <= v.data_start {
                &&& r == Some(v.deleted[0])
                &&& w.get(v.deleted[0] as int) == Some(bytes)
                &&& w.deleted == v.deleted.remove(0)
                &&& w.data_start + bytes.len() == v.data_start
                &&& w.values.len() == v.values.len()
            } else {
                r is None
            }
        }),
{
    lemma_first_fit_exact(v, bytes.len(), 0);
}

/// An add is refused exactly when the page has no room for the value: no deleted
/// slot's hole holds it, and the record area cannot take it within the header
/// budget (of one more slot when no slot is deleted, else of the existing slots).
pub proof fn law_add_refused_only_without_room(v: PageView, bytes: Seq<u8>)
    requires
        v.wf(),
    ensures
        (v.after_add(bytes).1 is None) <==> {
            &&& forall|q: int|
                0 <= q < v.deleted.len() ==> v.rooms[#[trigger] v.deleted[q] as int] < bytes.len()
            &&& v.deleted.len() == 0 ==> bytes.len() + 8 + 6 * (v.num_slots() + 1) > v.data_start
            &&& v.deleted.len() > 0 ==> bytes.len() + 8 + 6 * v.num_slots() > v.data_start
        },
{
    let n = bytes.len();
    if v.deleted.len() == 0 {
        law_add_to_new_slot(v, bytes);
    } else {
        lemma_first_fit(v, n, 0);
        lemma_first_fit_none(v, n, 0);
        match v.first_fit(n, 0) {
            Some(k) => {
                assert(n <= v.rooms[v.deleted[k as int] as int]);
            },
            None => {
                law_add_deleted_slot_to_free_space(v, bytes);
            },
        }
    }
}

/// When `first_fit` from `j` finds nothing, no hole from `j` on holds `n` bytes.
proof fn lemma_first_fit_none(v: PageView, n: nat, j: nat)
    ensures
        v.first_fit(n, j) is None ==> forall|q: int|
            j <= q < v.deleted.len() ==> v.rooms[#[trigger] v.deleted[q] as int] < n,
    decreases v.deleted.len() - j,
{
    if j < v.deleted.len() {
        lemma_first_fit_none(v, n, j + 1);
    }
}

/// Deleting a value moves nothing: the record area, the bytes each slot owns and
/// the other slots stay as they were, the slot's id goes to the end of the deleted
/// list, and the free space shrinks only by the two bytes that record the id.
pub proof fn law_delete_frees_slot_in_place(v: PageView, slot: u16)
    requires
        v.wf(),
        v.is_live(slot as int),
    ensures
        ({
            let (w, r) = v.after_delete(slot);
            &&& r == Some(())
            &&& w.data_start == v.data_start
            &&& w.rooms == v.rooms
            &&& w.deleted == v.deleted.push(slot)
            &&& w.free_space() == v.free_space() - 2
            &&& w.values.len() == v.values.len()
        }),
{
}

/// The hole a delete leaves holds any value no longer than the deleted one: the
/// next add of such a value on a page whose only deleted slot is this one goes
/// into it without moving the record area.
pub proof fn law_delete_then_add_reuses_space(v: PageView, slot: u16, bytes: Seq<u8>)
    requires
        v.wf(),
        v.deleted.len() == 0,
        v.is_live(slot as int),
        bytes.len() <= v.get(slot as int)->0.len(),
    ensures
        ({
            let w = v.after_delete(slot).0;
            let (x, r) = w.after_add(bytes);
            &&& r == Some(slot)
            &&& x.data_start == v.data_start
            &&& x.get(slot as int) == Some(bytes)
        }),
{
    let w = v.after_delete(slot).0;
    assert(w.deleted =~= seq![slot]);
    assert(w.rooms[slot as int] == v.values[slot as int]->0.len());
    law_add_into_hole(w, bytes, 0);
}

} // verus!
