//! Pages as the outcome of a sequence of calls, and what holds of every page
//! reached that way.
use vstd::prelude::*;
use crate::layout::{empty_view, total_len, total_rooms, PageView};
use crate::laws::{
    law_add_keeps_wf, law_delete_keeps_wf, law_get_after_add, lemma_first_fit, law_live_values_fit, law_packed_step,
};
use crate::PAGE_SIZE;

verus! {

/// A call that changes a page.
pub enum PageOp {
    AddValue(Seq<u8>),
    DeleteValue(u16),
}

impl PageView {
    /// The page after `op`.
    pub open spec fn apply(self, op: PageOp) -> PageView {
        match op {
            PageOp::AddValue(bytes) => self.after_add(bytes).0,
            PageOp::DeleteValue(slot) => self.after_delete(slot).0,
        }
    }

    /// The page after the calls `ops`, in order.
    pub open spec fn run(self, ops: Seq<PageOp>) -> PageView
        decreases ops.len(),
    {
        if ops.len() == 0 {
            self
        } else {
            self.run(ops.drop_last()).apply(ops.last())
        }
    }
}

/// Call `i` of `ops`, made on the page `v0` after the calls before it, added
/// `bytes` and got back `slot`.
pub open spec fn stored_at(v0: PageView, ops: Seq<PageOp>, i: int, slot: u16, bytes: Seq<u8>) -> bool {
    &&& ops[i] == PageOp::AddValue(bytes)
    &&& v0.run(ops.take(i)).after_add(bytes).1 == Some(slot)
}

/// Call `j` of `ops`, made on the page `v0` after the calls before it, deleted
/// `slot` successfully.
pub open spec fn deleted_at(v0: PageView, ops: Seq<PageOp>, j: int, slot: u16) -> bool {
    &&& ops[j] == PageOp::DeleteValue(slot)
    &&& v0.run(ops.take(j)).after_delete(slot).1 is Some
}

/// Every call keeps a well-formed page well-formed and keeps its id.
pub proof fn law_run_keeps_wf_and_id(v0: PageView, ops: Seq<PageOp>)
    requires
        v0.wf(),
    ensures
        v0.run(ops).wf(),
        v0.run(ops).page_id == v0.page_id,
    decreases ops.len(),
{
    if ops.len() > 0 {
        law_run_keeps_wf_and_id(v0, ops.drop_last());
        let v = v0.run(ops.drop_last());
        match ops.last() {
            PageOp::AddValue(b) => law_add_keeps_wf(v, b),
            PageOp::DeleteValue(s) => law_delete_keeps_wf(v, s),
        }
    }
}

/// A slot that an add hands out held no value before.
proof fn lemma_added_slot_was_empty(v: PageView, bytes: Seq<u8>)
    requires
        v.wf(),
        v.after_add(bytes).1 is Some,
    ensures
        v.get(v.after_add(bytes).1->0 as int) is None,
{
    let s = v.after_add(bytes).1->0;
    law_get_after_add(v, bytes, 0);
    if v.deleted.len() > 0 {
        lemma_first_fit(v, bytes.len(), 0);
        assert(v.deleted.contains(s));
        let k = choose|k: int| 0 <= k < v.deleted.len() && v.deleted[k] == s;
        assert(v.deleted[k] < v.values.len());
        assert(v.values[s as int] is None);
    }
}

/// A slot of a page built from an empty page by the calls `ops` holds `x` exactly
/// when some call stored `x` in it and no later call deleted it; otherwise the slot
/// holds nothing.
#[verifier::spinoff_prover]
#[verifier::rlimit(40)]
pub proof fn law_get_after_calls(page_id: u16, ops: Seq<PageOp>, slot: u16, x: Seq<u8>)
    ensures
        (empty_view(page_id).run(ops).get(slot as int) == Some(x)) <==> exists|i: int|
            0 <= i < ops.len() && #[trigger] stored_at(empty_view(page_id), ops, i, slot, x)
                && forall|j: int|
                i < j < ops.len() ==> !#[trigger] deleted_at(empty_view(page_id), ops, j, slot),
    decreases ops.len(),
{
    let v0 = empty_view(page_id);
    if ops.len() == 0 {
    } else {
        let prev = ops.drop_last();
        let n = prev.len() as int;
        let op = ops.last();
        let v = v0.run(prev);
        assert(ops.take(n) =~= prev);
        law_run_keeps_wf_and_id(v0, prev);
        assert forall|i: int| 0 <= i < n implies #[trigger] ops.take(i) == prev.take(i) by {
            assert(ops.take(i) =~= prev.take(i));
        }
        assert forall|i: int, s: u16, y: Seq<u8>| 0 <= i < n implies #[trigger] stored_at(
            v0,
            ops,
            i,
            s,
            y,
        ) == stored_at(v0, prev, i, s, y) by {
            assert(ops.take(i) == prev.take(i));
        }
        assert forall|j: int, s: u16| 0 <= j < n implies #[trigger] deleted_at(v0, ops, j, s)
            == deleted_at(v0, prev, j, s) by {
            assert(ops.take(j) == prev.take(j));
        }
        // Whether some earlier call stored `x` in `slot` with no delete in between,
        // counting the calls before the last one only.
        let earlier = exists|i: int|
            0 <= i < n && #[trigger] stored_at(v0, prev, i, slot, x) && forall|j: int|
                i < j < n ==> !#[trigger] deleted_at(v0, prev, j, slot);
        law_get_after_calls(page_id, prev, slot, x);
        assert(earlier == (v.get(slot as int) == Some(x)));
        let touched = match op {
            PageOp::AddValue(b) => v.after_add(b).1 == Some(slot),
            PageOp::DeleteValue(t) => t == slot && v.after_delete(t).1 is Some,
        };
        let now = exists|i: int|
            0 <= i < ops.len() && #[trigger] stored_at(v0, ops, i, slot, x) && forall|j: int|
                i < j < ops.len() ==> !#[trigger] deleted_at(v0, ops, j, slot);
        if !touched {
            // The last call leaves `slot` as it was and neither stores in it nor deletes it.
            assert(!stored_at(v0, ops, n, slot, x));
            assert(!deleted_at(v0, ops, n, slot));
            match op {
                PageOp::AddValue(b) => {
                    if v.after_add(b).1 is Some {
                        law_get_after_add(v, b, slot as int);
                    }
                },
                PageOp::DeleteValue(t) => {},
            }
            assert(v0.run(ops).get(slot as int) == v.get(slot as int));
            if now {
                let i = choose|i: int|
                    0 <= i < ops.len() && #[trigger] stored_at(v0, ops, i, slot, x) && forall|
                        j: int,
                    |
                        i < j < ops.len() ==> !#[trigger] deleted_at(v0, ops, j, slot);
                assert(i < n);
                assert(stored_at(v0, prev, i, slot, x));
                assert forall|j: int| i < j < n implies !#[trigger] deleted_at(
                    v0,
                    prev,
                    j,
                    slot,
                ) by {
                    assert(!deleted_at(v0, ops, j, slot));
                }
                assert(earlier);
            }
            if earlier {
                let i = choose|i: int|
                    0 <= i < n && #[trigger] stored_at(v0, prev, i, slot, x) && forall|j: int|
                        i < j < n ==> !#[trigger] deleted_at(v0, prev, j, slot);
                assert(stored_at(v0, ops, i, slot, x));
                assert forall|j: int| i < j < ops.len() implies !#[trigger] deleted_at(
                    v0,
                    ops,
                    j,
                    slot,
                ) by {
                    if j < n {
                        assert(!deleted_at(v0, prev, j, slot));
                    }
                }
                assert(now);
            }
        } else {
            match op {
                PageOp::AddValue(b) => {
                    // The last call stored `b` in `slot`, which held nothing before.
                    law_get_after_add(v, b, slot as int);
                    lemma_added_slot_was_empty(v, b);
                    assert(v0.run(ops).get(slot as int) == Some(b));
                    if x == b {
                        assert(stored_at(v0, ops, n, slot, x));
                        assert(now);
                    }
                    if now {
                        let i = choose|i: int|
                            0 <= i < ops.len() && #[trigger] stored_at(v0, ops, i, slot, x)
                                && forall|j: int|
                                i < j < ops.len() ==> !#[trigger] deleted_at(v0, ops, j, slot);
                        if i < n {
                            assert(stored_at(v0, prev, i, slot, x));
                            assert forall|j: int| i < j < n implies !#[trigger] deleted_at(
                                v0,
                                prev,
                                j,
                                slot,
                            ) by {
                                assert(!deleted_at(v0, ops, j, slot));
                            }
                            assert(earlier);
                            assert(false);
                        }
                    }
                },
                PageOp::DeleteValue(t) => {
                    // The last call deleted `slot`.
                    assert(v0.run(ops).get(slot as int) is None);
                    assert(deleted_at(v0, ops, n, slot));
                    if now {
                        let i = choose|i: int|
                            0 <= i < ops.len() && #[trigger] stored_at(v0, ops, i, slot, x)
                                && forall|j: int|
                                i < j < ops.len() ==> !#[trigger] deleted_at(v0, ops, j, slot);
                        assert(i != n);
                        assert(!deleted_at(v0, ops, n, slot));
                    }
                },
            }
        }
    }
}


/// Every page built from an empty page keeps its slots' bytes within the record
/// area, so its header and its live values together fit in `PAGE_SIZE` bytes.
pub proof fn law_calls_keep_page_packed(page_id: u16, ops: Seq<PageOp>)
    ensures
        empty_view(page_id).run(ops).packed(),
        empty_view(page_id).run(ops).header_size() + total_len(
            empty_view(page_id).run(ops).live_values(),
        ) <= PAGE_SIZE,
    decreases ops.len(),
{
    let v0 = empty_view(page_id);
    law_run_keeps_wf_and_id(v0, ops);
    if ops.len() > 0 {
        law_calls_keep_page_packed(page_id, ops.drop_last());
        let v = v0.run(ops.drop_last());
        law_run_keeps_wf_and_id(v0, ops.drop_last());
        match ops.last() {
            PageOp::AddValue(b) => law_packed_step(v, b, 0),
            PageOp::DeleteValue(t) => law_packed_step(v, Seq::empty(), t),
        }
    }
    law_live_values_fit(v0.run(ops));
}

/// Pages that agree on their first `n` slots list the same live values among them.
proof fn lemma_live_prefix_agree(v: PageView, w: PageView, n: nat)
    requires
        n <= v.values.len(),
        n <= w.values.len(),
        forall|i: int| 0 <= i < n ==> v.values[i] == w.values[i],
    ensures
        v.live_prefix(n) == w.live_prefix(n),
    decreases n,
{
    if n > 0 {
        lemma_live_prefix_agree(v, w, (n - 1) as nat);
    }
}

/// When only adds were made on an empty page, no slot is deleted and the free
/// space is `PAGE_SIZE` less the header and the lengths of the stored values.
pub proof fn law_free_space_after_adds(page_id: u16, ops: Seq<PageOp>)
    requires
        forall|i: int| 0 <= i < ops.len() ==> #[trigger] ops[i] is AddValue,
    ensures
        empty_view(page_id).run(ops).deleted.len() == 0,
        empty_view(page_id).run(ops).free_space() == PAGE_SIZE - empty_view(page_id).run(
            ops,
        ).header_size() - total_len(empty_view(page_id).run(ops).live_values()),
    decreases ops.len(),
{
    let v0 = empty_view(page_id);
    if ops.len() == 0 {
        assert(v0.live_values() == Seq::<Seq<u8>>::empty());
    } else {
        let prev = ops.drop_last();
        assert forall|i: int| 0 <= i < prev.len() implies #[trigger] prev[i] is AddValue by {
            assert(prev[i] == ops[i]);
        }
        law_free_space_after_adds(page_id, prev);
        let v = v0.run(prev);
        assert(ops[ops.len() - 1] is AddValue);
        if let PageOp::AddValue(b) = ops.last() {
            if v.after_add(b).1 is Some {
                let w = v.after_add(b).0;
                lemma_live_prefix_agree(v, w, v.values.len());
                assert(w.live_values() == v.live_values().push(b));
                assert(w.live_values().drop_last() =~= v.live_values());
            }
        }
    }
}

} // verus!
