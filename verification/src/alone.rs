//! An operation on a shared slab that nobody interferes with does what the operation of the same
//! name on [`crate::slab::SlabAlloc`] does.
use vstd::prelude::*;

use crate::list::List;
use crate::protocol::{Op, Opening, Outcome, Sweep};
use crate::slab::SlabState;
use crate::world::{law_moves_keep_inv, moves, pending, Move, World};

verus! {

/// The lists and the count of deferrals, as a slab's state.
pub open spec fn state_of(w: World) -> SlabState<()> {
    SlabState {
        free: w.free,
        garbage: w.garbage,
        defers: w.memory.defers,
        slots: Seq::new(w.capacity() as nat, |i: int| None),
    }
}

/// The run is put in front of a list.
pub open spec fn put(v: SlabState<()>, list: List, run: Seq<usize>) -> SlabState<()> {
    match list {
        List::Free => SlabState { free: v.free + run, ..v },
        List::Garbage => SlabState { garbage: v.garbage + run, ..v },
    }
}

/// How a sweep ends once its garbage is in front of `list`.
pub open spec fn sweep_end(v: SlabState<()>, sweep: Sweep, list: List) -> (SlabState<()>, Outcome) {
    match sweep {
        Sweep::Alloc(slot) => (v, Outcome::Allocated(slot)),
        Sweep::Guard => (v, Outcome::Released),
        Sweep::Try => (v, Outcome::Flushed(list == List::Free)),
        Sweep::Flush => (v, Outcome::Flushed(list == List::Free)),
        Sweep::Dealloc(slot) => (put(v, list, seq![slot]), Outcome::Deallocated),
    }
}

/// How a sweep that has taken `run` ends.
pub open spec fn count_end(v: SlabState<()>, sweep: Sweep, run: Seq<usize>) -> (
    SlabState<()>,
    Outcome,
) {
    let left = if sweep.closes() {
        SlabState { defers: (v.defers - 1) as nat, ..v }
    } else {
        v
    };
    let list = if left.defers == 0 {
        List::Free
    } else {
        List::Garbage
    };
    sweep_end(put(left, list, run), sweep, list)
}

/// How a sweep that takes the garbage ends.
pub open spec fn take_end(v: SlabState<()>, sweep: Sweep) -> (SlabState<()>, Outcome) {
    let taken = SlabState { garbage: Seq::empty(), ..v };
    if sweep is Flush {
        sweep_end(put(taken, List::Free, v.garbage), sweep, List::Free)
    } else {
        count_end(taken, sweep, v.garbage)
    }
}

/// How a sweep ends.
pub open spec fn hint_end(v: SlabState<()>, sweep: Sweep) -> (SlabState<()>, Outcome) {
    if v.defers == 1 {
        take_end(v, sweep)
    } else {
        count_end(v, sweep, Seq::empty())
    }
}

/// How a request ends.
pub open spec fn head_end(v: SlabState<()>) -> (SlabState<()>, Outcome) {
    let slot = if v.free.len() > 0 {
        Some(v.free.last())
    } else {
        None
    };
    hint_end(v.popped(), Sweep::Alloc(slot))
}

/// How an operation with this run ends if nobody interferes.
pub open spec fn end_of(op: Op, v: SlabState<()>, run: Seq<usize>) -> (SlabState<()>, Outcome) {
    match op {
        Op::Defer { why: Opening::Alloc } => head_end(v.deferred()),
        Op::Defer { why: Opening::Guard } => (v.deferred(), Outcome::Deferred),
        Op::Head => head_end(v),
        Op::Next { .. } => head_end(v),
        Op::Exchange { .. } => head_end(v),
        Op::Hint { sweep } => hint_end(v, sweep),
        Op::Take { sweep } => take_end(v, sweep),
        Op::Count { sweep, .. } => count_end(v, sweep, run),
        Op::Walk { run: r } => run_end(v, r, run),
        Op::Join { run: r } => run_end(v, r, run),
        Op::Link { run: r, .. } => run_end(v, r, run),
        Op::Swing { run: r, .. } => run_end(v, r, run),
        Op::Done { outcome } => (v, outcome),
    }
}

/// How an operation that moves a run ends.
pub open spec fn run_end(v: SlabState<()>, r: crate::protocol::Run, run: Seq<usize>) -> (
    SlabState<()>,
    Outcome,
) {
    match r.sweep {
        Some(sweep) => sweep_end(put(v, r.list, run), sweep, r.list),
        None => (put(v, r.list, run), Outcome::Deallocated),
    }
}

/// The world after an operation has made `n` accesses with nobody interfering.
pub open spec fn alone(w: World, t: nat, n: nat) -> World
    decreases n,
{
    if n == 0 {
        w
    } else {
        alone(w.stepped(t), t, (n - 1) as nat)
    }
}

/// How many accesses an operation has left at most.
spec fn accesses_left(w: World, t: nat) -> nat {
    let op = w.ops[t];
    let single: nat = if pending(op) is Some {
        4
    } else {
        0
    };
    let garbage = w.garbage.len();
    match op {
        Op::Defer { why: Opening::Alloc } => garbage + 12,
        Op::Defer { why: Opening::Guard } => 1,
        Op::Head => garbage + 10,
        Op::Next { index } => if w.memory.free_head == index {
            garbage + 9
        } else {
            garbage + 11
        },
        Op::Exchange { index, .. } => if w.memory.free_head == index {
            garbage + 8
        } else {
            garbage + 10
        },
        Op::Hint { .. } => garbage + 7 + single,
        Op::Take { .. } => garbage + 6 + single,
        Op::Count { .. } => w.runs[t].len() + 5 + single,
        Op::Walk { run } => (4 + single + w.runs[t].index_of(run.last)) as nat,
        Op::Join { .. } => 3 + single,
        Op::Link { run, head } => if w.memory.head(run.list) == head {
            2 + single
        } else {
            4 + single
        },
        Op::Swing { run, head } => if w.memory.head(run.list) == head {
            1 + single
        } else {
            3 + single
        },
        Op::Done { .. } => 0,
    }
}

/// The position of an element that occurs once.
proof fn lemma_index_of(slots: Seq<usize>, j: int)
    requires
        slots.no_duplicates(),
        0 <= j < slots.len(),
    ensures
        slots.index_of(slots[j]) == j,
{
    assert(slots.contains(slots[j]));
    let i = slots.index_of(slots[j]);
    assert(slots[i] == slots[j]);
}

/// An access brings an operation closer to its end and does not change what the end is.
proof fn lemma_access(w: World, t: nat)
    requires
        w.inv(),
        w.allows(Move::Step { t }),
    ensures
        accesses_left(w.stepped(t), t) < accesses_left(w, t),
        end_of(w.stepped(t).ops[t], state_of(w.stepped(t)), w.stepped(t).runs[t]) == end_of(
            w.ops[t],
            state_of(w),
            w.runs[t],
        ),
{
    let w2 = w.stepped(t);
    let v = state_of(w);
    let v2 = state_of(w2);
    assert(w.ops[t].wf(w.capacity()));
    assert(moves(w.ops[t], w.memory.next, w.runs[t]));
    assert(v2.slots =~= v.slots) by {
        assert(w2.memory.next.len() == w.memory.next.len());
    }
    match w.ops[t] {
        Op::Count { sweep, taken } => {
            if sweep.closes() {
                assert(w.deferring().contains(t));
                assert(w.deferring().len() > 0);
            }
            let left = SlabState { defers: v2.defers, ..v };
            assert(put(left, List::Free, Seq::empty()) =~= left);
            assert(put(left, List::Garbage, Seq::empty()) =~= left);
            if taken < w.capacity() {
                lemma_index_of(w.runs[t], w.runs[t].len() - 1);
            } else {
                assert(w.runs[t] =~= Seq::empty());
            }
        },
        Op::Take { .. } => {
            let taken = SlabState { garbage: Seq::empty(), ..v };
            assert(put(taken, List::Free, Seq::empty()) =~= taken);
            if w.garbage.len() > 0 {
                lemma_index_of(w.garbage, w.garbage.len() - 1);
            } else {
                assert(w.garbage =~= Seq::empty());
            }
        },
        Op::Walk { run } => {
            let slots = w.runs[t];
            let j = choose|j: int| 0 <= j < slots.len() && slots[j] == run.last;
            lemma_index_of(slots, j);
            if j > 0 {
                assert(w.memory.next[slots[j] as int] == slots[j - 1]);
                lemma_index_of(slots, j - 1);
            }
        },
        Op::Exchange { index, .. } => {
            if w.memory.free_head == index {
                assert(w.place[w.free[w.free.len() - 1] as int] is Free);
            }
        },
        Op::Swing { run, head } => {
            assert(v2 =~= put(v, run.list, w.runs[t]) || w.memory.head(run.list) != head);
        },
        _ => {},
    }
}

/// An operation that nobody interferes with comes to its end.
proof fn lemma_runs_to_end(w: World, t: nat)
    requires
        w.inv(),
        w.has(t),
        w.undisturbed(t),
        w.ops[t] is Defer ==> w.memory.defers < usize::MAX,
    ensures
        exists|n: nat| ended(#[trigger] alone(w, t, n), t, end_of(w.ops[t], state_of(w), w.runs[t])),
    decreases accesses_left(w, t),
{
    let end = end_of(w.ops[t], state_of(w), w.runs[t]);
    if w.ops[t] is Done {
        assert(ended(alone(w, t, 0), t, end));
    } else {
        let w2 = w.stepped(t);
        lemma_access(w, t);
        law_moves_keep_inv(w, Move::Step { t });
        lemma_runs_to_end(w2, t);
        let n = choose|n: nat| ended(#[trigger] alone(w2, t, n), t, end);
        assert(alone(w, t, n + 1) == alone(w2, t, n));
    }
}

/// The operation is done with this state and this outcome.
pub open spec fn ended(w: World, t: nat, end: (SlabState<()>, Outcome)) -> bool {
    &&& w.inv()
    &&& w.has(t)
    &&& w.ops[t] == (Op::Done { outcome: end.1 })
    &&& state_of(w) == end.0
}

/// A request that nobody interferes with hands out the head of the free list and leaves the slab
/// as `SlabAlloc::allocate` does.
pub proof fn law_alloc_alone(w: World, t: nat)
    requires
        w.inv(),
        w.memory.defers < usize::MAX,
        w.allows(Move::Begin { t, op: Op::Defer { why: Opening::Alloc } }),
    ensures
        ({
            let started = w.made(Move::Begin { t, op: Op::Defer { why: Opening::Alloc } });
            let slot = if w.free.len() > 0 {
                Some(w.free.last())
            } else {
                None
            };
            exists|n: nat|
                ended(
                    #[trigger] alone(started, t, n),
                    t,
                    (state_of(w).after_alloc(), Outcome::Allocated(slot)),
                )
        }),
{
    let m = Move::Begin { t, op: Op::Defer { why: Opening::Alloc } };
    law_moves_keep_inv(w, m);
    let started = w.made(m);
    lemma_runs_to_end(started, t);
    let v = state_of(w);
    assert(state_of(started) =~= v);
    let popped = v.deferred().popped();
    assert(head_end(v.deferred()).0 =~= v.after_alloc()) by {
        assert(popped.garbage + Seq::<usize>::empty() =~= popped.garbage);
        assert(popped.free + Seq::<usize>::empty() =~= popped.free);
    }
}

/// Opening a deferral with nobody interfering leaves the slab as `SlabAlloc::defer_deallocs` does.
pub proof fn law_defer_alone(w: World, t: nat)
    requires
        w.inv(),
        w.memory.defers < usize::MAX,
        w.allows(Move::Begin { t, op: Op::Defer { why: Opening::Guard } }),
    ensures
        ({
            let started = w.made(Move::Begin { t, op: Op::Defer { why: Opening::Guard } });
            exists|n: nat|
                ended(
                    #[trigger] alone(started, t, n),
                    t,
                    (state_of(w).deferred(), Outcome::Deferred),
                )
        }),
{
    let m = Move::Begin { t, op: Op::Defer { why: Opening::Guard } };
    law_moves_keep_inv(w, m);
    let started = w.made(m);
    lemma_runs_to_end(started, t);
    assert(state_of(started) =~= state_of(w));
}

/// Closing a deferral with nobody interfering leaves the slab as `DeallocDeferral::release` does.
pub proof fn law_release_alone(w: World, t: nat)
    requires
        w.inv(),
        w.allows(Move::Release { t }),
    ensures
        ({
            let started = w.made(Move::Release { t });
            exists|n: nat|
                ended(
                    #[trigger] alone(started, t, n),
                    t,
                    (state_of(w).released(), Outcome::Released),
                )
        }),
{
    let m = Move::Release { t };
    assert(w.deferring().contains(t));
    assert(w.deferring().len() > 0);
    law_moves_keep_inv(w, m);
    let started = w.made(m);
    lemma_runs_to_end(started, t);
    let v = state_of(w);
    assert(state_of(started) =~= v);
    assert(hint_end(v, Sweep::Guard).0 =~= v.released()) by {
        assert(v.garbage + Seq::<usize>::empty() =~= v.garbage);
    }
}

/// Trying a flush with nobody interfering leaves the slab as `SlabAlloc::try_flush_deallocs` does.
pub proof fn law_try_flush_alone(w: World, t: nat)
    requires
        w.inv(),
        w.allows(Move::Begin { t, op: Op::Hint { sweep: Sweep::Try } }),
    ensures
        ({
            let started = w.made(Move::Begin { t, op: Op::Hint { sweep: Sweep::Try } });
            exists|n: nat|
                ended(
                    #[trigger] alone(started, t, n),
                    t,
                    (state_of(w), Outcome::Flushed(w.memory.defers == 0)),
                )
        }),
{
    let m = Move::Begin { t, op: Op::Hint { sweep: Sweep::Try } };
    law_moves_keep_inv(w, m);
    let started = w.made(m);
    lemma_runs_to_end(started, t);
    let v = state_of(w);
    assert(state_of(started) =~= v);
    assert(hint_end(v, Sweep::Try).0 =~= v) by {
        assert(v.garbage + Seq::<usize>::empty() =~= v.garbage);
        assert(Seq::<usize>::empty() + v.garbage =~= v.garbage);
        assert(v.free + Seq::<usize>::empty() =~= v.free);
    }
}

/// Taking a slot back with nobody interfering leaves the slab as `SlabAlloc::dealloc` does.
pub proof fn law_dealloc_alone(w: World, t: nat, slot: usize)
    requires
        w.inv(),
        w.allows(Move::Begin { t, op: Op::Hint { sweep: Sweep::Dealloc(slot) } }),
    ensures
        ({
            let started = w.made(Move::Begin { t, op: Op::Hint { sweep: Sweep::Dealloc(slot) } });
            exists|n: nat|
                ended(
                    #[trigger] alone(started, t, n),
                    t,
                    (state_of(w).returned(slot), Outcome::Deallocated),
                )
        }),
{
    let m = Move::Begin { t, op: Op::Hint { sweep: Sweep::Dealloc(slot) } };
    law_moves_keep_inv(w, m);
    let started = w.made(m);
    lemma_runs_to_end(started, t);
    let v = state_of(w);
    assert(state_of(started) =~= v);
    assert(hint_end(v, Sweep::Dealloc(slot)).0 =~= v.returned(slot)) by {
        assert(v.garbage + Seq::<usize>::empty() =~= v.garbage);
        assert(Seq::<usize>::empty() + v.garbage =~= v.garbage);
        assert(v.free + Seq::<usize>::empty() =~= v.free);
        assert(v.free + seq![slot] =~= v.free.push(slot));
        assert(v.garbage + seq![slot] =~= v.garbage.push(slot));
    }
}

/// A flush by the slab's owner leaves the slab as `SlabAlloc::flush_deallocs` does.
pub proof fn law_flush_alone(w: World, t: nat)
    requires
        w.inv(),
        w.allows(Move::Begin { t, op: Op::Take { sweep: Sweep::Flush } }),
    ensures
        ({
            let started = w.made(Move::Begin { t, op: Op::Take { sweep: Sweep::Flush } });
            exists|n: nat|
                ended(
                    #[trigger] alone(started, t, n),
                    t,
                    (state_of(w).flushed(), Outcome::Flushed(true)),
                )
        }),
{
    let m = Move::Begin { t, op: Op::Take { sweep: Sweep::Flush } };
    law_moves_keep_inv(w, m);
    let started = w.made(m);
    lemma_runs_to_end(started, t);
    assert(state_of(started) =~= state_of(w));
}

/// The initial world is a new slab: all slots are free, the lowest first, nothing is garbage, and
/// no deferral is open.
pub proof fn law_initial_world_is_a_new_slab(capacity: usize, n: nat)
    requires
        n < capacity,
    ensures
        state_of(World::initial(capacity)) == SlabState::<()>::fresh(capacity),
        state_of(World::initial(capacity)).free.len() == capacity,
        state_of(World::initial(capacity)).free[capacity - 1 - n] == n,
        state_of(World::initial(capacity)).garbage.len() == 0,
        state_of(World::initial(capacity)).defers == 0,
        World::initial(capacity).ops.dom() == Set::<nat>::empty(),
{
    assert(state_of(World::initial(capacity)) =~= SlabState::<()>::fresh(capacity));
}

} // verus!
