//! What the invariant of [`crate::world`] means for the users of a shared slab.
use vstd::prelude::*;

use crate::list::List;
use crate::protocol::{Access, Op, Opening, Outcome, Reply, Run, Sweep};
use crate::world::{
    defers, flushes, frees, history, law_every_history_keeps_inv, law_moves_keep_inv, moves, pending,
    possible, Move, Place, World,
};

verus! {

/// No access reaches beyond the slab, and the count of deferrals never drops below zero.
pub proof fn law_accesses_are_sound(w: World, t: nat)
    requires
        w.inv(),
        w.allows(Move::Step { t }),
    ensures
        w.ops[t].wants(w.capacity()) matches Some(access) && {
            &&& access.within(w.capacity())
            &&& access.fits(w.memory.reply(access))
            &&& access is SubDefer ==> w.memory.defers > 0
        },
{
    assert(w.ops[t].wf(w.capacity()));
    if w.ops[t] is Count && w.ops[t]->Count_sweep.closes() {
        assert(w.deferring().contains(t));
        assert(w.deferring().len() > 0);
    }
}

/// The move takes a slot off the free list for the operation that made it.
pub open spec fn hands_out(w: World, m: Move, slot: usize) -> bool {
    m matches Move::Step { t } && (w.ops[t] matches Op::Exchange { index, .. } && index == slot
        && w.memory.free_head == slot)
}

/// A slot that is handed out was free until then, so nobody else holds it, and the request ends
/// with this slot as its outcome.
pub proof fn law_slot_is_handed_out_once(w: World, m: Move, slot: usize)
    requires
        w.inv(),
        w.allows(m),
        hands_out(w, m, slot),
    ensures
        slot < w.capacity(),
        w.place[slot as int] is Free,
        w.made(m).place[slot as int] is Out,
        w.made(m).ops[m->Step_t] == (Op::Hint { sweep: Sweep::Alloc(Some(slot)) }),
        w.made(m).free == w.free.drop_last(),
        w.free.last() == slot,
{
    let t = m->Step_t;
    assert(w.ops[t].wf(w.capacity()));
    assert(w.place[w.free[w.free.len() - 1] as int] is Free);
}

/// A request gives up only at a moment at which no slot is free.
pub proof fn law_refused_only_when_nothing_is_free(w: World, t: nat)
    requires
        w.inv(),
        w.allows(Move::Step { t }),
        w.stepped(t).ops[t] == (Op::Hint { sweep: Sweep::Alloc(None) }),
    ensures
        w.free.len() == 0,
        w.stepped(t).free == w.free,
{
}

/// Where swept garbage and slots that come back go is decided by whether a deferral is open, at
/// the moment at which the deferrals are counted; a deferral that is being closed does not count.
pub proof fn law_open_deferrals_decide(w: World, t: nat)
    requires
        w.inv(),
        w.allows(Move::Step { t }),
        w.ops[t] is Count,
    ensures
        ({
            let sweep = w.ops[t]->Count_sweep;
            let list = if w.stepped(t).deferring().len() == 0 {
                List::Free
            } else {
                List::Garbage
            };
            &&& w.stepped(t).ops[t] == Op::swept(
                sweep,
                w.ops[t]->Count_taken,
                list,
                w.capacity(),
            )
            &&& sweep.closes() ==> w.stepped(t).deferring() == w.deferring().remove(t)
            &&& !sweep.closes() ==> w.stepped(t).deferring() == w.deferring()
        }),
{
    let w2 = w.stepped(t);
    let sweep = w.ops[t]->Count_sweep;
    law_moves_keep_inv(w, Move::Step { t });
    if sweep.closes() {
        assert(w.deferring().contains(t));
        assert(w.deferring().len() > 0);
        assert(w2.deferring() =~= w.deferring().remove(t));
    } else {
        assert(w2.deferring() =~= w.deferring());
    }
}

/// Slots are handed out by requests only and taken back only from their holders.
pub proof fn law_slots_change_hands_only_so(w: World, m: Move, slot: usize)
    requires
        w.inv(),
        w.allows(m),
        slot < w.capacity(),
    ensures
        !(w.place[slot as int] is Out) && w.made(m).place[slot as int] is Out ==> hands_out(
            w,
            m,
            slot,
        ),
        w.place[slot as int] is Out && !(w.made(m).place[slot as int] is Out) ==> (m matches Move::Begin {
            op: Op::Hint { sweep: Sweep::Dealloc(index) },
            ..
        } && index == slot),
{
    law_moves_keep_inv(w, m);
    assert(w.slot_found(slot));
    match m {
        Move::Step { t } => {
            assert(w.ops[t].wf(w.capacity()));
            assert(moves(w.ops[t], w.memory.next, w.runs[t]));
            match w.ops[t] {
                Op::Take { .. } => {
                    if w.garbage.contains(slot) {
                        let k = choose|k: int| 0 <= k < w.garbage.len() && w.garbage[k] == slot;
                        assert(w.place[w.garbage[k] as int] is Garbage);
                    }
                },
                Op::Count { sweep, .. } => {
                    assert(pending(w.ops[t]) == sweep.pending());
                },
                Op::Swing { run, .. } => {
                    assert(pending(w.ops[t]) == crate::world::run_pending(run));
                    if w.runs[t].contains(slot) {
                        let k = choose|k: int| 0 <= k < w.runs[t].len() && w.runs[t][k] == slot;
                        assert(w.place[w.runs[t][k] as int] == Place::Moving(t));
                    }
                },
                _ => {},
            }
        },
        _ => {},
    }
}

/// With no operation under way but open deferrals, each slot is free, garbage or handed out: none
/// is lost.
pub proof fn law_no_slot_is_lost(w: World, slot: usize)
    requires
        w.inv(),
        w.idle(),
        slot < w.capacity(),
    ensures
        w.free.contains(slot) <==> w.place[slot as int] is Free,
        w.garbage.contains(slot) <==> w.place[slot as int] is Garbage,
        w.free.contains(slot) || w.garbage.contains(slot) || w.place[slot as int] is Out,
{
    assert(w.slot_found(slot));
    if w.free.contains(slot) {
        let k = choose|k: int| 0 <= k < w.free.len() && w.free[k] == slot;
        assert(w.place[w.free[k] as int] is Free);
    }
    if w.garbage.contains(slot) {
        let k = choose|k: int| 0 <= k < w.garbage.len() && w.garbage[k] == slot;
        assert(w.place[w.garbage[k] as int] is Garbage);
    }
    match w.place[slot as int] {
        Place::Moving(t) => {
            assert(moves(w.ops[t], w.memory.next, w.runs[t]));
        },
        Place::Pending(t) => {
            assert(w.has(t));
        },
        _ => {},
    }
}

/// The slot is free or on its way to the free list.
pub open spec fn reusable(w: World, slot: usize) -> bool {
    match w.place[slot as int] {
        Place::Free => true,
        Place::Moving(t) => w.has(t) && frees(w.ops[t]),
        Place::Pending(t) => w.has(t) && frees(w.ops[t]),
        _ => false,
    }
}

/// The operation holds a deferral open.
pub open spec fn holds_deferral(w: World, g: nat) -> bool {
    w.has(g) && defers(w.ops[g])
}

/// The move is an access of a flush by the slab's owner.
pub open spec fn by_flush(w: World, m: Move) -> bool {
    m matches Move::Step { t } && flushes(w.ops[t])
}

/// While a deferral stays open, no move but the owner's flush makes a slot fit to be handed out
/// again.
pub proof fn law_deferral_holds_back_slots(w: World, m: Move, g: nat, slot: usize)
    requires
        w.inv(),
        w.allows(m),
        !by_flush(w, m),
        holds_deferral(w, g),
        holds_deferral(w.made(m), g),
        slot < w.capacity(),
        !reusable(w, slot),
    ensures
        !reusable(w.made(m), slot),
{
    law_moves_keep_inv(w, m);
    let w2 = w.made(m);
    assert(w2.deferring().contains(g));
    assert(w2.deferring().len() > 0);
    assert(w2.memory.defers > 0);
    assert(w.slot_found(slot));
    match m {
        Move::Step { t } => {
            assert(w.ops[t].wf(w.capacity()));
            assert(moves(w.ops[t], w.memory.next, w.runs[t]));
            match w.ops[t] {
                Op::Take { .. } => {
                    if w.garbage.contains(slot) {
                        let k = choose|k: int| 0 <= k < w.garbage.len() && w.garbage[k] == slot;
                        assert(w.place[w.garbage[k] as int] is Garbage);
                    }
                },
                Op::Count { sweep, .. } => {
                    assert(pending(w.ops[t]) == sweep.pending());
                    if sweep.closes() {
                        assert(w.deferring().contains(t));
                        assert(w.deferring().len() > 0);
                    }
                    assert(!frees(w2.ops[t]));
                },
                Op::Swing { run, .. } => {
                    assert(pending(w.ops[t]) == crate::world::run_pending(run));
                    if w.runs[t].contains(slot) {
                        let k = choose|k: int| 0 <= k < w.runs[t].len() && w.runs[t][k] == slot;
                        assert(w.place[w.runs[t][k] as int] == Place::Moving(t));
                    }
                },
                _ => {},
            }
        },
        _ => {},
    }
}

/// A slot that is handed out while a deferral is open, whatever becomes of it, is not handed out
/// to anybody else before that deferral is closed, unless the slab's owner flushes.
pub proof fn law_no_reuse_during_deferral(
    capacity: usize,
    steps: Seq<Move>,
    from: nat,
    to: nat,
    g: nat,
    slot: usize,
)
    requires
        possible(capacity, steps),
        from <= to <= steps.len(),
        forall|n: nat|
            from <= n <= to ==> holds_deferral(#[trigger] history(capacity, steps, n), g),
        forall|n: nat|
            from <= n < to ==> !by_flush(#[trigger] history(capacity, steps, n), steps[n as int]),
        slot < capacity,
        !reusable(history(capacity, steps, from), slot),
    ensures
        !reusable(history(capacity, steps, to), slot),
        to < steps.len() ==> !hands_out(history(capacity, steps, to), steps[to as int], slot),
    decreases to,
{
    law_every_history_keeps_inv(capacity, steps, to);
    lemma_capacity(capacity, steps, to);
    if from < to {
        let n = (to - 1) as nat;
        law_no_reuse_during_deferral(capacity, steps, from, n, g, slot);
        law_every_history_keeps_inv(capacity, steps, n);
        lemma_capacity(capacity, steps, n);
        let w = history(capacity, steps, n);
        assert(holds_deferral(history(capacity, steps, to), g));
        assert(!by_flush(w, steps[n as int]));
        law_deferral_holds_back_slots(w, steps[n as int], g, slot);
    }
    if to < steps.len() && hands_out(history(capacity, steps, to), steps[to as int], slot) {
        law_slot_is_handed_out_once(history(capacity, steps, to), steps[to as int], slot);
    }
}

/// The capacity never changes.
proof fn lemma_capacity(capacity: usize, steps: Seq<Move>, n: nat)
    requires
        possible(capacity, steps),
        n <= steps.len(),
    ensures
        history(capacity, steps, n).memory.next.len() == capacity,
    decreases n,
{
    if n > 0 {
        let w = history(capacity, steps, (n - 1) as nat);
        lemma_capacity(capacity, steps, (n - 1) as nat);
        law_every_history_keeps_inv(capacity, steps, (n - 1) as nat);
        assert(w.allows(steps[n - 1]));
        if steps[n - 1] is Step {
            let t = steps[n - 1]->Step_t;
            assert(w.ops[t].wf(w.capacity()));
            assert(w.made(steps[n - 1]).memory == w.memory.changed(w.ops[t].wants(w.capacity())->0));
        }
    }
}

/// Any operation may be started, except that a slot can be given back only while it is handed out
/// and that the slab's owner must have the slab alone; and any operation under way may make its
/// next access. Only a flush by the slab's owner keeps the others waiting.
pub proof fn law_nobody_has_to_wait(w: World, t: nat, u: nat, slot: usize)
    requires
        w.inv(),
        w.memory.defers < usize::MAX,
        forall|x: nat| #![trigger w.ops[x]] w.has(x) ==> !flushes(w.ops[x]),
        !w.has(t),
        w.has(u),
    ensures
        w.allows(Move::Begin { t, op: Op::Defer { why: Opening::Alloc } }),
        w.allows(Move::Begin { t, op: Op::Defer { why: Opening::Guard } }),
        w.allows(Move::Begin { t, op: Op::Hint { sweep: Sweep::Try } }),
        slot < w.capacity() && w.place[slot as int] is Out ==> w.allows(
            Move::Begin { t, op: Op::Hint { sweep: Sweep::Dealloc(slot) } },
        ),
        !(w.ops[u] is Done) ==> w.allows(Move::Step { t: u }),
        w.ops[u] == (Op::Done { outcome: Outcome::Deferred }) ==> w.allows(Move::Release { t: u }),
{
}

/// The slot that a request got, through all that is left of it to do; `None` inside if it got none.
pub open spec fn got(op: Op) -> Option<Option<usize>> {
    match op {
        Op::Hint { sweep: Sweep::Alloc(slot) } => Some(slot),
        Op::Take { sweep: Sweep::Alloc(slot) } => Some(slot),
        Op::Count { sweep: Sweep::Alloc(slot), .. } => Some(slot),
        Op::Walk { run: Run { sweep: Some(Sweep::Alloc(slot)), .. } } => Some(slot),
        Op::Join { run: Run { sweep: Some(Sweep::Alloc(slot)), .. } } => Some(slot),
        Op::Link { run: Run { sweep: Some(Sweep::Alloc(slot)), .. }, .. } => Some(slot),
        Op::Swing { run: Run { sweep: Some(Sweep::Alloc(slot)), .. }, .. } => Some(slot),
        Op::Done { outcome: Outcome::Allocated(slot) } => Some(slot),
        _ => None,
    }
}

/// A request that has got a slot, or none, ends with just that, whatever its accesses find.
pub proof fn law_requests_keep_what_they_got(op: Op, capacity: usize, reply: Reply)
    requires
        got(op) is Some,
    ensures
        got(op.after(capacity, reply)) == got(op),
        op.wants(capacity) is None ==> (op matches Op::Done {
            outcome: Outcome::Allocated(slot),
        } && got(op) == Some(slot)),
{
}

/// A request takes the very slot that it found in front of the free list and puts the slot's link
/// in its place; if another head is found, it tries for that one.
pub proof fn law_requests_try_for_the_head(capacity: usize, head: usize, link: usize, other: usize)
    ensures
        head < capacity ==> {
            let next = Op::Head.after(capacity, Reply::Value(head));
            let exchange = next.after(capacity, Reply::Value(link));
            &&& next.wants(capacity) == Some(Access::LoadNext { index: head })
            &&& exchange.wants(capacity) == Some(
                Access::ExchangeHead { list: List::Free, expected: head, replacement: link },
            )
            &&& got(exchange.after(capacity, Reply::Exchanged)) == Some(Some(head))
            &&& exchange.after(capacity, Reply::Refused(other)) == Op::Head.after(
                capacity,
                Reply::Value(other),
            )
        },
        head >= capacity ==> got(Op::Head.after(capacity, Reply::Value(head))) == Some(None::<usize>),
        Op::Head.wants(capacity) == Some(Access::LoadHead { list: List::Free }),
{
}

/// A run of slots is put in front of a list by linking its end to the head that was found and
/// making its start the head instead; if another head is found then, it is linked to that one.
pub proof fn law_runs_join_their_list(run: Run, capacity: usize, head: usize, other: usize)
    ensures
        ({
            let link = (Op::Join { run }).after(capacity, Reply::Value(head));
            let swing = link.after(capacity, Reply::Stored);
            let again = swing.after(capacity, Reply::Refused(other));
            &&& (Op::Join { run }).wants(capacity) == Some(Access::LoadHead { list: run.list })
            &&& link.wants(capacity) == Some(Access::StoreNext { index: run.last, link: head })
            &&& swing.wants(capacity) == Some(
                Access::ExchangeHead { list: run.list, expected: head, replacement: run.first },
            )
            &&& again.wants(capacity) == Some(Access::StoreNext { index: run.last, link: other })
        }),
{
}

} // verus!
