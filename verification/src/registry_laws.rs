//! What holds of a registry over any history of calls.

use vstd::prelude::*;
use crate::registry::{
    lemma_close_wf, lemma_create_wf, lemma_reorder_wf, lemma_slot_of, slot_after, slot_before,
    RegistryView, SessionView,
};

verus! {

/// One call that opens, closes or moves a tab.
pub enum Op {
    Create { content: Seq<char>, file_path: Option<Seq<char>> },
    Close { position: nat },
    Reorder { from: nat, to: nat },
}

/// The registry after one call.
pub open spec fn step(r: RegistryView, op: Op) -> RegistryView {
    match op {
        Op::Create { content, file_path } => r.create(content, file_path),
        Op::Close { position } => r.close(position),
        Op::Reorder { from, to } => r.reorder(from, to),
    }
}

/// The registry after a history of calls, starting with no session open.
pub open spec fn run(ops: Seq<Op>) -> RegistryView
    decreases ops.len(),
{
    if ops.len() == 0 {
        RegistryView::empty()
    } else {
        step(run(ops.drop_last()), ops.last())
    }
}

/// Under the invariant the live positions are exactly `0..N`, and no two
/// sessions share one.
pub proof fn lemma_positions_contiguous(r: RegistryView)
    requires
        r.wf(),
    ensures
        r.positions() == Set::new(|p: nat| p < r.sessions.len()),
        forall|i: int, j: int|
            0 <= i < j < r.sessions.len() ==> (#[trigger] r.sessions[i]).position != (
            #[trigger] r.sessions[j]).position,
{
    let full = Set::new(|p: nat| p < r.sessions.len());
    assert forall|p: nat| r.positions().contains(p) == full.contains(p) by {
        if p < r.sessions.len() {
            assert(r.sessions[p as int].position == p);
        }
    }
    assert(r.positions() =~= full);
}

/// Every history of calls leaves a registry that keeps the invariant.
pub proof fn lemma_run_wf(ops: Seq<Op>)
    ensures
        run(ops).wf(),
    decreases ops.len(),
{
    if ops.len() > 0 {
        let before = run(ops.drop_last());
        lemma_run_wf(ops.drop_last());
        match ops.last() {
            Op::Create { content, file_path } => lemma_create_wf(before, content, file_path),
            Op::Close { position } => lemma_close_wf(before, position),
            Op::Reorder { from, to } => lemma_reorder_wf(before, from, to),
        }
    }
}

/// After each call of any history of `create`, `close` and `reorder`, the
/// live positions are exactly `0..N` for the `N` sessions then open, without
/// gap or duplicate.
pub proof fn lemma_contiguity(ops: Seq<Op>, calls: int)
    requires
        0 <= calls <= ops.len(),
    ensures
        run(ops.take(calls)).positions() == Set::new(
            |p: nat| p < run(ops.take(calls)).sessions.len(),
        ),
        forall|i: int, j: int|
            0 <= i < j < run(ops.take(calls)).sessions.len() ==> (#[trigger] run(
                ops.take(calls),
            ).sessions[i]).position != (#[trigger] run(ops.take(calls)).sessions[j]).position,
{
    lemma_run_wf(ops.take(calls));
    lemma_positions_contiguous(run(ops.take(calls)));
}

/// Closing the active session while others remain leaves a session active
/// and in range: the one that took the closed slot, or the new last one
/// where the last slot was closed.
pub proof fn lemma_close_active(r: RegistryView, position: nat)
    requires
        r.wf(),
        r.active == Some(position),
        r.sessions.len() >= 2,
    ensures
        r.close(position).active == Some(
            if position + 1 < r.sessions.len() {
                position
            } else {
                (position - 1) as nat
            },
        ),
        r.close(position).active->0 < r.close(position).sessions.len(),
{
}

/// Closing another session than the active one keeps the same session
/// active, under its new number.
pub proof fn lemma_close_keeps_active(r: RegistryView, position: nat)
    requires
        r.wf(),
        position < r.sessions.len(),
        r.active is Some,
        r.active != Some(position),
    ensures
        r.close(position).active is Some,
        r.close(position).active->0 < r.close(position).sessions.len(),
        r.close(position).sessions[r.close(position).active->0 as int].id
            == r.sessions[r.active->0 as int].id,
{
}

/// A session that stays open keeps its identity, its file, its text, its
/// title and its icon when another is closed; it is found one slot lower
/// where it stood behind the closed one, and where it was otherwise.
pub proof fn lemma_close_keeps_sessions(r: RegistryView, position: nat, slot: int)
    requires
        r.wf(),
        position < r.sessions.len(),
        0 <= slot < r.sessions.len(),
        slot != position,
    ensures
        r.close(position).slot_of(r.sessions[slot].id) == Some(
            if slot < position {
                slot
            } else {
                slot - 1
            },
        ),
        slot < position ==> r.close(position).sessions[slot] == r.sessions[slot],
        slot > position ==> r.close(position).sessions[slot - 1] == r.sessions[slot].moved_down(),
{
    let after = r.close(position);
    lemma_close_wf(r, position);
    let to = if slot < position { slot } else { slot - 1 };
    assert(after.sessions[to].id == r.sessions[slot].id);
    lemma_slot_of(after, r.sessions[slot].id, to);
}

/// The identity of a closed session is no longer found.
pub proof fn lemma_close_forgets(r: RegistryView, position: nat)
    requires
        r.wf(),
        position < r.sessions.len(),
    ensures
        r.close(position).slot_of(r.sessions[position as int].id) is None,
{
    let after = r.close(position);
    let id = r.sessions[position as int].id;
    assert forall|i: int| 0 <= i < after.sessions.len() implies (#[trigger] after.sessions[i]).id
        != id by {
        let from = if i < position { i } else { i + 1 };
        assert(after.sessions[i].id == r.sessions[from].id);
        if from < position {
            assert(r.sessions[from].id != r.sessions[position as int].id);
        } else {
            assert(r.sessions[position as int].id != r.sessions[from].id);
        }
    }
}

/// Opening a session leaves every open session as it was, and gives the
/// new one an identity that no session had before.
pub proof fn lemma_create_keeps_sessions(
    r: RegistryView,
    content: Seq<char>,
    file_path: Option<Seq<char>>,
)
    requires
        r.wf(),
    ensures
        forall|i: int|
            0 <= i < r.sessions.len() ==> (#[trigger] r.create(content, file_path).sessions[i])
                == r.sessions[i],
        r.slot_of(r.issued) is None,
        r.create(content, file_path).slot_of(r.issued) == Some(r.sessions.len() as int),
{
    let after = r.create(content, file_path);
    lemma_create_wf(r, content, file_path);
    assert(after.sessions[r.sessions.len() as int].id == r.issued);
    lemma_slot_of(after, r.issued, r.sessions.len() as int);
}

/// Moving a tab keeps every session: each is found in the slot that the
/// move brings it to, unchanged but for its position, and the session that
/// was active is active still.
pub proof fn lemma_reorder_keeps_sessions(r: RegistryView, from: nat, to: nat, slot: int)
    requires
        r.wf(),
        from < r.sessions.len(),
        to < r.sessions.len(),
        0 <= slot < r.sessions.len(),
    ensures
        r.reorder(from, to).sessions.len() == r.sessions.len(),
        0 <= slot_after(slot, from, to) < r.sessions.len(),
        slot_before(slot_after(slot, from, to), from, to) == slot,
        r.reorder(from, to).slot_of(r.sessions[slot].id) == Some(slot_after(slot, from, to)),
        r.reorder(from, to).sessions[slot_after(slot, from, to)] == (SessionView {
            position: slot_after(slot, from, to) as nat,
            ..r.sessions[slot]
        }),
        r.active == Some(slot as nat) ==> r.reorder(from, to).active == Some(
            slot_after(slot, from, to) as nat,
        ),
{
    let after = r.reorder(from, to);
    let at = slot_after(slot, from, to);
    lemma_reorder_wf(r, from, to);
    assert(after.sessions[at].id == r.sessions[slot].id);
    lemma_slot_of(after, r.sessions[slot].id, at);
}

} // verus!
