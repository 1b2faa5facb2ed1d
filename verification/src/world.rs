//! What holds of a shared slab however the accesses of its operations are interleaved.
//!
//! A [`World`] is the shared memory of a slab together with all operations under way on it and
//! with an account of where each slot is. Operations take turns, one access at a time, in any
//! order; [`World::inv`] holds of a new slab and every [`Move`] keeps it.
//!
//! An access takes effect at once and for all: the world knows no memory in which two threads
//! see accesses in different orders.
use vstd::prelude::*;

use crate::list::List;
use crate::protocol::{Access, Op, Opening, Outcome, Reply, Run, Sweep};

verus! {

/// Where a slot is.
pub enum Place {
    /// On the free list.
    Free,
    /// On the garbage list.
    Garbage,
    /// In the run that the operation is moving.
    Moving(nat),
    /// Given to the operation to be taken back.
    Pending(nat),
    /// Handed out.
    Out,
}

/// The words that the operations share.
pub struct Memory {
    pub defers: nat,
    pub free_head: usize,
    pub garbage_head: usize,
    pub next: Seq<usize>,
}

impl Memory {
    /// The number of slots.
    pub open spec fn capacity(self) -> usize {
        self.next.len() as usize
    }

    /// The head of a list.
    pub open spec fn head(self, list: List) -> usize {
        match list {
            List::Free => self.free_head,
            List::Garbage => self.garbage_head,
        }
    }

    /// The memory with another head of a list.
    pub open spec fn with_head(self, list: List, head: usize) -> Memory {
        match list {
            List::Free => Memory { free_head: head, ..self },
            List::Garbage => Memory { garbage_head: head, ..self },
        }
    }

    /// What an access finds.
    pub open spec fn reply(self, access: Access) -> Reply {
        match access {
            Access::HintDefers => Reply::Value(self.defers as usize),
            Access::CountDefers => Reply::Value(self.defers as usize),
            Access::AddDefer => Reply::Value(self.defers as usize),
            Access::SubDefer => Reply::Value(self.defers as usize),
            Access::SwapGarbage { .. } => Reply::Value(self.garbage_head),
            Access::LoadHead { list } => Reply::Value(self.head(list)),
            Access::LoadNext { index } => Reply::Value(self.next[index as int]),
            Access::StoreNext { .. } => Reply::Stored,
            Access::ExchangeHead { list, expected, .. } => if self.head(list) == expected {
                Reply::Exchanged
            } else {
                Reply::Refused(self.head(list))
            },
        }
    }

    /// What an access leaves behind.
    pub open spec fn changed(self, access: Access) -> Memory {
        match access {
            Access::AddDefer => Memory { defers: self.defers + 1, ..self },
            Access::SubDefer => Memory { defers: (self.defers - 1) as nat, ..self },
            Access::SwapGarbage { replacement } => self.with_head(List::Garbage, replacement),
            Access::StoreNext { index, link } => Memory {
                next: self.next.update(index as int, link),
                ..self
            },
            Access::ExchangeHead { list, expected, replacement } => if self.head(list)
                == expected {
                self.with_head(list, replacement)
            } else {
                self
            },
            _ => self,
        }
    }
}

/// The slot that the operation has yet to start taking back.
pub open spec fn pending(op: Op) -> Option<usize> {
    match op {
        Op::Hint { sweep } => sweep.pending(),
        Op::Take { sweep } => sweep.pending(),
        Op::Count { sweep, .. } => sweep.pending(),
        Op::Walk { run } => run_pending(run),
        Op::Join { run } => run_pending(run),
        Op::Link { run, .. } => run_pending(run),
        Op::Swing { run, .. } => run_pending(run),
        _ => None,
    }
}

/// The slot that follows the run.
pub open spec fn run_pending(run: Run) -> Option<usize> {
    match run.sweep {
        Some(sweep) => sweep.pending(),
        None => None,
    }
}

/// The operation holds a deferral open.
pub open spec fn defers(op: Op) -> bool {
    match op {
        Op::Head => true,
        Op::Next { .. } => true,
        Op::Exchange { .. } => true,
        Op::Hint { sweep } => sweep.closes(),
        Op::Take { sweep } => sweep.closes(),
        Op::Count { sweep, .. } => sweep.closes(),
        Op::Done { outcome: Outcome::Deferred } => true,
        _ => false,
    }
}

/// The operation is moving slots to the free list.
pub open spec fn frees(op: Op) -> bool {
    match op {
        Op::Walk { run } => run.list == List::Free,
        Op::Join { run } => run.list == List::Free,
        Op::Link { run, .. } => run.list == List::Free,
        Op::Swing { run, .. } => run.list == List::Free,
        _ => false,
    }
}

/// The operation is a flush by the slab's owner.
pub open spec fn flushes(op: Op) -> bool {
    match op {
        Op::Hint { sweep } => sweep is Flush,
        Op::Take { sweep } => sweep is Flush,
        Op::Count { sweep, .. } => sweep is Flush,
        Op::Walk { run } => run.sweep == Some(Sweep::Flush),
        Op::Join { run } => run.sweep == Some(Sweep::Flush),
        Op::Link { run, .. } => run.sweep == Some(Sweep::Flush),
        Op::Swing { run, .. } => run.sweep == Some(Sweep::Flush),
        _ => false,
    }
}

/// The slot that the operation has seen in front of the free list and tries for.
pub open spec fn target(op: Op) -> Option<usize> {
    match op {
        Op::Next { index } => Some(index),
        Op::Exchange { index, .. } => Some(index),
        _ => None,
    }
}

/// `slots` is the run that the operation is moving.
pub open spec fn moves(op: Op, next: Seq<usize>, slots: Seq<usize>) -> bool {
    match op {
        Op::Count { taken, .. } => crate::list::linked(next, taken, slots),
        Op::Walk { run } => {
            &&& crate::list::linked(next, run.first, slots)
            &&& slots.contains(run.last)
        },
        Op::Join { run } => crate::list::segment(next, run.first, run.last, slots),
        Op::Link { run, .. } => crate::list::segment(next, run.first, run.last, slots),
        Op::Swing { run, head } => {
            &&& crate::list::segment(next, run.first, run.last, slots)
            &&& next[run.last as int] == head
        },
        _ => slots.len() == 0,
    }
}

/// All slots of a list get the same place.
pub open spec fn moved(place: Seq<Place>, list: Seq<usize>, to: Place) -> Seq<Place> {
    Seq::new(
        place.len(),
        |i: int|
            if list.contains(i as usize) {
                to
            } else {
                place[i]
            },
    )
}

/// The place that stands for a list.
pub open spec fn place_of(list: List) -> Place {
    match list {
        List::Free => Place::Free,
        List::Garbage => Place::Garbage,
    }
}

/// A slab's shared memory, the operations under way on it by their numbers, the lists, the run
/// that each operation is moving, and the place of each slot.
pub struct World {
    pub memory: Memory,
    pub ops: Map<nat, Op>,
    pub free: Seq<usize>,
    pub garbage: Seq<usize>,
    pub runs: Map<nat, Seq<usize>>,
    pub place: Seq<Place>,
}

/// What may happen next.
pub enum Move {
    /// An operation is started under a number that is not in use.
    Begin { t: nat, op: Op },
    /// An operation makes its next access.
    Step { t: nat },
    /// The holder of an open deferral starts to close it.
    Release { t: nat },
    /// An operation that has nothing left to do is forgotten.
    Finish { t: nat },
}

impl World {
    /// A new slab with no operation under way.
    pub open spec fn initial(capacity: usize) -> World {
        World {
            memory: Memory {
                defers: 0,
                free_head: 0,
                garbage_head: capacity,
                next: Seq::new(capacity as nat, |i: int| (i + 1) as usize),
            },
            ops: Map::empty(),
            free: Seq::new(capacity as nat, |k: int| (capacity - 1 - k) as usize),
            garbage: Seq::empty(),
            runs: Map::empty(),
            place: Seq::new(capacity as nat, |i: int| Place::Free),
        }
    }

    /// The number of slots.
    pub open spec fn capacity(self) -> usize {
        self.memory.capacity()
    }

    /// The operation is under way.
    pub open spec fn has(self, t: nat) -> bool {
        self.ops.dom().contains(t)
    }

    /// The operations that hold a deferral open.
    pub open spec fn deferring(self) -> Set<nat> {
        self.ops.dom().filter(|t: nat| defers(self.ops[t]))
    }

    /// The sequence that describes a list.
    pub open spec fn list(self, list: List) -> Seq<usize> {
        match list {
            List::Free => self.free,
            List::Garbage => self.garbage,
        }
    }

    /// A slot that an operation starts to move on its own becomes its run.
    pub open spec fn picked_up(self, t: nat) -> World {
        match self.ops[t] {
            Op::Join { run: Run { first, sweep: None, .. } } => World {
                runs: self.runs.insert(t, seq![first]),
                place: self.place.update(first as int, Place::Moving(t)),
                ..self
            },
            _ => self,
        }
    }

    /// The run of an operation is put in front of a list.
    pub open spec fn attached(self, t: nat, list: List) -> World {
        let run = self.runs[t];
        let world = World {
            runs: self.runs.insert(t, Seq::empty()),
            place: moved(self.place, run, place_of(list)),
            ..self
        };
        match list {
            List::Free => World { free: self.free + run, ..world },
            List::Garbage => World { garbage: self.garbage + run, ..world },
        }
    }

    /// An operation has made its next access.
    pub open spec fn stepped(self, t: nat) -> World {
        let op = self.ops[t];
        let access = op.wants(self.capacity())->0;
        let reply = self.memory.reply(access);
        let world = World {
            memory: self.memory.changed(access),
            ops: self.ops.insert(t, op.after(self.capacity(), reply)),
            ..self
        };
        match (op, reply) {
            (Op::Exchange { index, .. }, Reply::Exchanged) => World {
                free: self.free.drop_last(),
                place: self.place.update(index as int, Place::Out),
                ..world
            },
            (Op::Take { .. }, _) => World {
                garbage: Seq::empty(),
                runs: self.runs.insert(t, self.garbage),
                place: moved(self.place, self.garbage, Place::Moving(t)),
                ..world
            },
            (Op::Count { .. }, _) => world.picked_up(t),
            (Op::Swing { run, .. }, Reply::Exchanged) => world.attached(t, run.list).picked_up(t),
            _ => world,
        }
    }

    /// An operation has been started.
    pub open spec fn begun(self, t: nat, op: Op) -> World {
        let world = World {
            ops: self.ops.insert(t, op),
            runs: self.runs.insert(t, Seq::empty()),
            ..self
        };
        match pending(op) {
            Some(slot) => World {
                place: self.place.update(slot as int, Place::Pending(t)),
                ..world
            },
            None => world,
        }
    }

    /// Nothing is under way but open deferrals.
    pub open spec fn idle(self) -> bool {
        forall|t: nat|
            #![trigger self.ops[t]]
            self.has(t) ==> self.ops[t] == (Op::Done { outcome: Outcome::Deferred })
    }

    /// No operation but this one is a flush by the slab's owner.
    pub open spec fn undisturbed(self, t: nat) -> bool {
        forall|u: nat| #![trigger self.ops[u]] self.has(u) && u != t ==> !flushes(self.ops[u])
    }

    /// The operation may be started: a slot can be given back only while it is handed out, and the
    /// slab can be flushed by its owner only while nothing else is under way.
    pub open spec fn may_begin(self, op: Op) -> bool {
        match op {
            Op::Defer { .. } => true,
            Op::Hint { sweep: Sweep::Try } => true,
            Op::Take { sweep: Sweep::Flush } => self.idle(),
            Op::Hint { sweep: Sweep::Dealloc(slot) } => {
                &&& slot < self.capacity()
                &&& self.place[slot as int] is Out
            },
            _ => false,
        }
    }

    /// The move may happen. Nothing else happens during a flush by the slab's owner.
    pub open spec fn allows(self, m: Move) -> bool {
        match m {
            Move::Begin { t, op } => {
                &&& !self.has(t)
                &&& self.undisturbed(t)
                &&& self.may_begin(op)
            },
            Move::Step { t } => {
                &&& self.has(t)
                &&& self.undisturbed(t)
                &&& !(self.ops[t] is Done)
                &&& self.ops[t] is Defer ==> self.memory.defers < usize::MAX
            },
            Move::Release { t } => {
                &&& self.has(t)
                &&& self.undisturbed(t)
                &&& self.ops[t] == (Op::Done { outcome: Outcome::Deferred })
            },
            Move::Finish { t } => {
                &&& self.has(t)
                &&& self.undisturbed(t)
                &&& self.ops[t] is Done
                &&& self.ops[t] != (Op::Done { outcome: Outcome::Deferred })
            },
        }
    }

    /// The world after the move.
    pub open spec fn made(self, m: Move) -> World {
        match m {
            Move::Begin { t, op } => self.begun(t, op),
            Move::Step { t } => self.stepped(t),
            Move::Release { t } => World {
                ops: self.ops.insert(t, Op::Hint { sweep: Sweep::Guard }),
                ..self
            },
            Move::Finish { t } => World {
                ops: self.ops.remove(t),
                runs: self.runs.remove(t),
                ..self
            },
        }
    }

    /// The memory holds the two lists.
    pub open spec fn lists_linked(self) -> bool {
        &&& crate::list::linked(self.memory.next, self.memory.free_head, self.free)
        &&& crate::list::linked(self.memory.next, self.memory.garbage_head, self.garbage)
    }

    /// Each slot of a list, of a run or of an operation that is to take it back is accounted for
    /// there.
    pub open spec fn slots_placed(self) -> bool {
        &&& forall|k: int|
            0 <= k < self.free.len() ==> self.place[(#[trigger] self.free[k]) as int] is Free
        &&& forall|k: int|
            0 <= k < self.garbage.len() ==> self.place[(#[trigger] self.garbage[k]) as int]
                is Garbage
        &&& forall|t: nat, k: int|
            #![trigger self.runs[t][k]]
            self.has(t) && 0 <= k < self.runs[t].len() ==> self.place[self.runs[t][k] as int]
                == Place::Moving(t)
        &&& forall|t: nat|
            #![trigger self.ops[t]]
            self.has(t) ==> (pending(self.ops[t]) matches Some(slot) ==> slot < self.capacity()
                && self.place[slot as int] == Place::Pending(t))
    }

    /// The slot is where the account says.
    pub open spec fn slot_found(self, slot: usize) -> bool {
        match self.place[slot as int] {
            Place::Free => self.free.contains(slot),
            Place::Garbage => self.garbage.contains(slot),
            Place::Moving(t) => self.has(t) && self.runs[t].contains(slot),
            Place::Pending(t) => self.has(t) && pending(self.ops[t]) == Some(slot),
            Place::Out => true,
        }
    }

    /// Every operation names slots of this slab only, and its run is linked as it must be.
    pub open spec fn ops_sound(self) -> bool {
        forall|t: nat|
            #![trigger self.ops[t]]
            self.has(t) ==> self.ops[t].wf(self.capacity()) && moves(
                self.ops[t],
                self.memory.next,
                self.runs[t],
            )
    }

    /// The count of open deferrals is right.
    pub open spec fn defers_counted(self) -> bool {
        &&& self.deferring().finite()
        &&& self.memory.defers == self.deferring().len()
        &&& self.memory.defers <= usize::MAX
    }

    /// No slot that some operation tries for is on its way back to the free list.
    pub open spec fn targets_shielded(self) -> bool {
        forall|t: nat, u: nat|
            #![trigger self.ops[t], self.ops[u]]
            self.has(t) && self.has(u) && frees(self.ops[t]) ==> (target(self.ops[u]) matches Some(
                slot,
            ) ==> self.place[slot as int] != Place::Moving(t) && self.place[slot as int]
                != Place::Pending(t))
    }

    /// An operation that is about to take a slot off the free list has its true link, if the slot
    /// is still free.
    pub open spec fn links_current(self) -> bool {
        forall|u: nat|
            #![trigger self.ops[u]]
            self.has(u) ==> (self.ops[u] matches Op::Exchange { index, next }
                ==> self.place[index as int] is Free ==> self.memory.next[index as int] == next)
    }

    /// During a flush by the slab's owner nothing else is under way but open deferrals.
    pub open spec fn flush_exclusive(self) -> bool {
        forall|t: nat, u: nat|
            #![trigger self.ops[t], self.ops[u]]
            self.has(t) && self.has(u) && t != u && flushes(self.ops[t]) ==> self.ops[u] == (
            Op::Done { outcome: Outcome::Deferred })
    }

    /// What every interleaving keeps.
    pub open spec fn inv(self) -> bool {
        &&& self.memory.next.len() <= usize::MAX
        &&& self.place.len() == self.memory.next.len()
        &&& self.runs.dom() == self.ops.dom()
        &&& self.lists_linked()
        &&& self.slots_placed()
        &&& forall|slot: usize| slot < self.capacity() ==> #[trigger] self.slot_found(slot)
        &&& self.ops_sound()
        &&& self.defers_counted()
        &&& self.targets_shielded()
        &&& self.links_current()
        &&& self.flush_exclusive()
    }
}

/// A new slab satisfies the invariant.
pub proof fn law_initial_world(capacity: usize)
    ensures
        World::initial(capacity).inv(),
{
    let w = World::initial(capacity);
    assert(w.deferring() =~= Set::empty());
    assert forall|slot: usize| slot < w.capacity() implies #[trigger] w.slot_found(slot) by {
        assert(w.free[capacity - 1 - slot] == slot);
    }
}

/// Replacing one operation changes the set of deferring operations by that one at most.
proof fn lemma_deferring(w: World, w2: World, t: nat, op: Op)
    requires
        w2.ops == w.ops.insert(t, op),
        w.deferring().finite(),
    ensures
        defers(op) ==> w2.deferring() == w.deferring().insert(t),
        !defers(op) ==> w2.deferring() == w.deferring().remove(t),
        w2.deferring().finite(),
        defers(op) && w.has(t) && defers(w.ops[t]) ==> w2.deferring().len() == w.deferring().len(),
        defers(op) && !(w.has(t) && defers(w.ops[t])) ==> w2.deferring().len()
            == w.deferring().len() + 1,
        !defers(op) && w.has(t) && defers(w.ops[t]) ==> w2.deferring().len() + 1
            == w.deferring().len(),
        !defers(op) && !(w.has(t) && defers(w.ops[t])) ==> w2.deferring().len()
            == w.deferring().len(),
{
    if defers(op) {
        assert(w2.deferring() =~= w.deferring().insert(t));
    } else {
        assert(w2.deferring() =~= w.deferring().remove(t));
    }
}

/// While no other operation is a flush by the slab's owner, replacing one keeps flushes exclusive.
proof fn lemma_flush_exclusive(w: World, w2: World, t: nat)
    requires
        w.flush_exclusive(),
        w.undisturbed(t),
        w2.ops == w.ops.insert(t, w2.ops[t]),
        flushes(w2.ops[t]) ==> w.idle() || w.has(t) && flushes(w.ops[t]),
    ensures
        w2.flush_exclusive(),
{
    assert forall|a: nat, b: nat| #![trigger w2.ops[a], w2.ops[b]]
        w2.has(a) && w2.has(b) && a != b && flushes(w2.ops[a]) implies w2.ops[b] == (Op::Done {
        outcome: Outcome::Deferred,
    }) by {
        if a != t {
            assert(w2.ops[a] == w.ops[a]);
        } else {
            assert(w2.ops[b] == w.ops[b]);
        }
    }
}

/// A step that leaves the lists, the runs and the links alone.
proof fn lemma_quiet(w: World, w2: World, t: nat)
    requires
        w.inv(),
        w.has(t),
        w2.ops == w.ops.insert(t, w2.ops[t]),
        w2.memory.next == w.memory.next,
        w2.memory.free_head == w.memory.free_head,
        w2.memory.garbage_head == w.memory.garbage_head,
        w2.free == w.free,
        w2.garbage == w.garbage,
        w2.runs == w.runs,
        w2.place == w.place,
        w2.defers_counted(),
        pending(w2.ops[t]) == pending(w.ops[t]),
        w2.ops[t].wf(w.capacity()),
        w.undisturbed(t),
        flushes(w2.ops[t]) ==> flushes(w.ops[t]),
        moves(w2.ops[t], w.memory.next, w.runs[t]),
        frees(w2.ops[t]) && !frees(w.ops[t]) ==> forall|u: nat|
            w.has(u) && u != t ==> target(#[trigger] w.ops[u]) is None,
        target(w2.ops[t]) matches Some(slot) ==> target(w.ops[t]) == Some(slot)
            || w.place[slot as int] is Free,
        w2.ops[t] matches Op::Exchange { index, next } ==> w.place[index as int] is Free
            ==> w.memory.next[index as int] == next,
    ensures
        w2.inv(),
{
    lemma_flush_exclusive(w, w2, t);
    assert(w2.runs.dom() =~= w2.ops.dom());
    assert forall|slot: usize| slot < w2.capacity() implies #[trigger] w2.slot_found(slot) by {
        assert(w.slot_found(slot));
    }
    assert(w2.slots_placed()) by {
        assert forall|u: nat| #![trigger w2.ops[u]] w2.has(u) implies (pending(
            w2.ops[u],
        ) matches Some(slot) ==> slot < w2.capacity() && w2.place[slot as int] == Place::Pending(
            u,
        )) by {
            assert(w.has(u));
            assert(pending(w.ops[u]) == pending(w2.ops[u]));
        }
        assert forall|u: nat, k: int| #![trigger w2.runs[u][k]] w2.has(u) && 0 <= k < w2.runs[u].len()
            implies w2.place[w2.runs[u][k] as int] == Place::Moving(u) by {
            assert(w.has(u));
            assert(w.runs[u][k] == w2.runs[u][k]);
        }
    }
    assert(w2.ops_sound()) by {
        assert forall|u: nat| #![trigger w2.ops[u]] w2.has(u) implies w2.ops[u].wf(w2.capacity())
            && moves(w2.ops[u], w2.memory.next, w2.runs[u]) by {
            if u != t {
                assert(w2.ops[u] == w.ops[u]);
            }
        }
    }
    assert(w2.targets_shielded()) by {
        assert forall|a: nat, b: nat| #![trigger w2.ops[a], w2.ops[b]]
            w2.has(a) && w2.has(b) && frees(w2.ops[a]) implies (target(w2.ops[b]) matches Some(slot)
            ==> w2.place[slot as int] != Place::Moving(a) && w2.place[slot as int]
            != Place::Pending(a)) by {
            assert(w.has(a) && w.has(b));
            if a != t {
                assert(w2.ops[a] == w.ops[a]);
            }
            if b != t {
                assert(w2.ops[b] == w.ops[b]);
            }
        }
    }
    assert(w2.links_current()) by {
        assert forall|u: nat| #![trigger w2.ops[u]] w2.has(u) implies (w2.ops[u] matches Op::Exchange {
            index,
            next,
        } ==> w2.place[index as int] is Free ==> w2.memory.next[index as int] == next) by {
            if u != t {
                assert(w2.ops[u] == w.ops[u]);
            }
        }
    }
}

proof fn lemma_step_defer(w: World, t: nat)
    requires
        w.inv(),
        w.allows(Move::Step { t }),
        w.ops[t] is Defer,
    ensures
        w.stepped(t).inv(),
{
    let w2 = w.stepped(t);
    lemma_deferring(w, w2, t, w2.ops[t]);
    lemma_quiet(w, w2, t);
}

proof fn lemma_step_head(w: World, t: nat)
    requires
        w.inv(),
        w.allows(Move::Step { t }),
        w.ops[t] is Head,
    ensures
        w.stepped(t).inv(),
{
    let w2 = w.stepped(t);
    lemma_deferring(w, w2, t, w2.ops[t]);
    lemma_quiet(w, w2, t);
}

proof fn lemma_step_next(w: World, t: nat)
    requires
        w.inv(),
        w.allows(Move::Step { t }),
        w.ops[t] is Next,
    ensures
        w.stepped(t).inv(),
{
    let w2 = w.stepped(t);
    lemma_deferring(w, w2, t, w2.ops[t]);
    lemma_quiet(w, w2, t);
}

proof fn lemma_step_hint(w: World, t: nat)
    requires
        w.inv(),
        w.allows(Move::Step { t }),
        w.ops[t] is Hint,
    ensures
        w.stepped(t).inv(),
{
    let w2 = w.stepped(t);
    lemma_deferring(w, w2, t, w2.ops[t]);
    lemma_quiet(w, w2, t);
}

proof fn lemma_step_walk(w: World, t: nat)
    requires
        w.inv(),
        w.allows(Move::Step { t }),
        w.ops[t] is Walk,
    ensures
        w.stepped(t).inv(),
{
    let w2 = w.stepped(t);
    let slots = w.runs[t];
    let run = w.ops[t]->Walk_run;
    assert(moves(w.ops[t], w.memory.next, slots));
    let j = choose|j: int| 0 <= j < slots.len() && slots[j] == run.last;
    if j > 0 {
        assert(w.memory.next[slots[j] as int] == slots[j - 1]);
        assert(slots.contains(slots[j - 1]));
    }
    lemma_deferring(w, w2, t, w2.ops[t]);
    lemma_quiet(w, w2, t);
}

proof fn lemma_step_join(w: World, t: nat)
    requires
        w.inv(),
        w.allows(Move::Step { t }),
        w.ops[t] is Join,
    ensures
        w.stepped(t).inv(),
{
    let w2 = w.stepped(t);
    lemma_deferring(w, w2, t, w2.ops[t]);
    lemma_quiet(w, w2, t);
}

/// A request takes the slot it tries for, or tries for the one that came before it.
proof fn lemma_step_exchange(w: World, t: nat)
    requires
        w.inv(),
        w.allows(Move::Step { t }),
        w.ops[t] is Exchange,
    ensures
        w.stepped(t).inv(),
{
    let w2 = w.stepped(t);
    let index = w.ops[t]->Exchange_index;
    let next = w.ops[t]->Exchange_next;
    lemma_deferring(w, w2, t, w2.ops[t]);
    lemma_flush_exclusive(w, w2, t);
    if w.memory.free_head == index {
        assert(w.free.len() > 0 && w.free.last() == index);
        assert(w.place[w.free[w.free.len() - 1] as int] is Free);
        assert(w.memory.next[index as int] == next);
        crate::list::lemma_linked_pop(w.memory.next, index, w.free);
        assert(w2.runs.dom() =~= w2.ops.dom());
        assert(w2.lists_linked());
        assert(w2.slots_placed()) by {
            assert forall|k: int| 0 <= k < w2.free.len() implies w2.place[(#[trigger] w2.free[k]) as int]
                is Free by {
                assert(w2.free[k] == w.free[k]);
                assert(w.free[k] != w.free[w.free.len() - 1]);
            }
            assert forall|u: nat, k: int| #![trigger w2.runs[u][k]]
                w2.has(u) && 0 <= k < w2.runs[u].len() implies w2.place[w2.runs[u][k] as int]
                == Place::Moving(u) by {
                assert(w.has(u));
                assert(w.place[w.runs[u][k] as int] == Place::Moving(u));
                lemma_run_in_range(w, u, k);
            }
            assert forall|u: nat| #![trigger w2.ops[u]] w2.has(u) implies (pending(
                w2.ops[u],
            ) matches Some(slot) ==> slot < w2.capacity() && w2.place[slot as int] == Place::Pending(
            u,
        )) by {
                assert(w.has(u));
                assert(pending(w.ops[u]) == pending(w2.ops[u]));
            }
        }
        assert forall|slot: usize| slot < w2.capacity() implies #[trigger] w2.slot_found(slot) by {
            assert(w.slot_found(slot));
            if w.place[slot as int] is Free && slot != index {
                let k = choose|k: int| 0 <= k < w.free.len() && w.free[k] == slot;
                assert(w2.free[k] == slot);
            }
        }
        assert(w2.ops_sound()) by {
            assert forall|u: nat| #![trigger w2.ops[u]] w2.has(u) implies w2.ops[u].wf(w2.capacity())
                && moves(w2.ops[u], w2.memory.next, w2.runs[u]) by {
                if u != t {
                    assert(w2.ops[u] == w.ops[u]);
                }
            }
        }
        assert(w2.targets_shielded()) by {
            assert forall|a: nat, b: nat| #![trigger w2.ops[a], w2.ops[b]]
                w2.has(a) && w2.has(b) && frees(w2.ops[a]) implies (target(w2.ops[b]) matches Some(slot)
                ==> w2.place[slot as int] != Place::Moving(a) && w2.place[slot as int]
                != Place::Pending(a)) by {
                if a != t && b != t {
                    assert(w2.ops[a] == w.ops[a]);
                    assert(w2.ops[b] == w.ops[b]);
                }
            }
        }
        assert(w2.links_current()) by {
            assert forall|u: nat| #![trigger w2.ops[u]] w2.has(u) implies (w2.ops[u] matches Op::Exchange {
                index,
                next,
            } ==> w2.place[index as int] is Free ==> w2.memory.next[index as int] == next) by {
                if u != t {
                    assert(w2.ops[u] == w.ops[u]);
                }
            }
        }
    } else {
        lemma_quiet(w, w2, t);
    }
}

/// A sweep takes the garbage.
proof fn lemma_step_take(w: World, t: nat)
    requires
        w.inv(),
        w.allows(Move::Step { t }),
        w.ops[t] is Take,
    ensures
        w.stepped(t).inv(),
{
    let w2 = w.stepped(t);
    lemma_deferring(w, w2, t, w2.ops[t]);
    lemma_flush_exclusive(w, w2, t);
    assert(moves(w.ops[t], w.memory.next, w.runs[t]));
    assert(w2.runs.dom() =~= w2.ops.dom());
    assert forall|i: int| 0 <= i < w.place.len() && !(w.place[i] is Garbage) implies w2.place[i]
        == w.place[i] by {
        if w.garbage.contains(i as usize) {
            let k = choose|k: int| 0 <= k < w.garbage.len() && w.garbage[k] == i as usize;
            assert(w.place[w.garbage[k] as int] is Garbage);
        }
    }
    assert forall|k: int| 0 <= k < w.garbage.len() implies w2.place[(#[trigger] w.garbage[k]) as int]
        == Place::Moving(t) by {
        assert(w.garbage.contains(w.garbage[k]));
    }
    assert(w2.slots_placed()) by {
        assert forall|u: nat, k: int| #![trigger w2.runs[u][k]] w2.has(u) && 0 <= k < w2.runs[u].len()
            implies w2.place[w2.runs[u][k] as int] == Place::Moving(u) by {
            assert(w.has(u));
            if u != t {
                assert(w.place[w.runs[u][k] as int] == Place::Moving(u));
                lemma_run_in_range(w, u, k);
            }
        }
        assert forall|u: nat| #![trigger w2.ops[u]] w2.has(u) implies (pending(
            w2.ops[u],
        ) matches Some(slot) ==> slot < w2.capacity() && w2.place[slot as int] == Place::Pending(
            u,
        )) by {
            assert(w.has(u));
            assert(pending(w.ops[u]) == pending(w2.ops[u]));
        }
    }
    assert forall|slot: usize| slot < w2.capacity() implies #[trigger] w2.slot_found(slot) by {
        assert(w.slot_found(slot));
        if w.place[slot as int] == Place::Moving(t) {
            assert(w.runs[t].contains(slot));
        }
    }
    assert(w2.ops_sound()) by {
        assert forall|u: nat| #![trigger w2.ops[u]] w2.has(u) implies w2.ops[u].wf(w2.capacity())
            && moves(w2.ops[u], w2.memory.next, w2.runs[u]) by {
            if u != t {
                assert(w2.ops[u] == w.ops[u]);
            }
        }
    }
    assert(w2.targets_shielded()) by {
        assert forall|a: nat, b: nat| #![trigger w2.ops[a], w2.ops[b]]
            w2.has(a) && w2.has(b) && frees(w2.ops[a]) implies (target(w2.ops[b]) matches Some(slot)
            ==> w2.place[slot as int] != Place::Moving(a) && w2.place[slot as int]
            != Place::Pending(a)) by {
            if a != t && b != t {
                assert(w2.ops[a] == w.ops[a]);
                assert(w2.ops[b] == w.ops[b]);
            }
        }
    }
    assert(w2.links_current()) by {
        assert forall|u: nat| #![trigger w2.ops[u]] w2.has(u) implies (w2.ops[u] matches Op::Exchange {
            index,
            next,
        } ==> w2.place[index as int] is Free ==> w2.memory.next[index as int] == next) by {
            if u != t {
                assert(w2.ops[u] == w.ops[u]);
            }
        }
    }
}

/// The slots of a run are slots of the slab.
proof fn lemma_run_in_range(w: World, u: nat, k: int)
    requires
        w.inv(),
        w.has(u),
        0 <= k < w.runs[u].len(),
    ensures
        w.runs[u][k] < w.capacity(),
{
    assert(moves(w.ops[u], w.memory.next, w.runs[u]));
}

/// An operation that has yet to start taking a slot back starts to.
proof fn lemma_pick_up(w: World, t: nat, list: List)
    requires
        w.inv(),
        w.has(t),
        w.undisturbed(t),
        w.ops[t] matches Op::Count { sweep: Sweep::Dealloc(_), taken } && taken >= w.capacity(),
        list == List::Free ==> forall|u: nat|
            w.has(u) ==> target(#[trigger] w.ops[u]) != pending(w.ops[t]),
    ensures
        ({
            let slot = pending(w.ops[t])->0;
            let op = Op::Join { run: Run::single(slot, list) };
            (World { ops: w.ops.insert(t, op), ..w }).picked_up(t).inv()
        }),
{
    let slot = pending(w.ops[t])->0;
    let op = Op::Join { run: Run::single(slot, list) };
    let w1 = World { ops: w.ops.insert(t, op), ..w };
    let w2 = w1.picked_up(t);
    assert(w.place[slot as int] == Place::Pending(t));
    assert(moves(w.ops[t], w.memory.next, w.runs[t]));
    assert(w.runs[t].len() == 0);
    lemma_deferring(w, w2, t, op);
    lemma_flush_exclusive(w, w2, t);
    assert(w2.runs.dom() =~= w2.ops.dom());
    assert(seq![slot][0] == slot);
    assert(w2.slots_placed()) by {
        assert forall|u: nat, k: int| #![trigger w2.runs[u][k]] w2.has(u) && 0 <= k < w2.runs[u].len()
            implies w2.place[w2.runs[u][k] as int] == Place::Moving(u) by {
            assert(w.has(u));
            if u != t {
                assert(w.place[w.runs[u][k] as int] == Place::Moving(u));
                lemma_run_in_range(w, u, k);
            }
        }
        assert forall|u: nat| #![trigger w2.ops[u]] w2.has(u) implies (pending(
            w2.ops[u],
        ) matches Some(s) ==> s < w2.capacity() && w2.place[s as int] == Place::Pending(u)) by {
            assert(w.has(u));
            if u != t {
                assert(w2.ops[u] == w.ops[u]);
            }
        }
    }
    assert forall|s: usize| s < w2.capacity() implies #[trigger] w2.slot_found(s) by {
        assert(w.slot_found(s));
        if s == slot {
            assert(w2.runs[t].contains(s));
        }
    }
    assert(w2.ops_sound()) by {
        assert forall|u: nat| #![trigger w2.ops[u]] w2.has(u) implies w2.ops[u].wf(w2.capacity())
            && moves(w2.ops[u], w2.memory.next, w2.runs[u]) by {
            if u != t {
                assert(w2.ops[u] == w.ops[u]);
            }
        }
    }
    assert(w2.targets_shielded()) by {
        assert forall|a: nat, b: nat| #![trigger w2.ops[a], w2.ops[b]]
            w2.has(a) && w2.has(b) && frees(w2.ops[a]) implies (target(w2.ops[b]) matches Some(s)
            ==> w2.place[s as int] != Place::Moving(a) && w2.place[s as int] != Place::Pending(a)) by {
            assert(w.has(a) && w.has(b));
            if b != t {
                assert(w2.ops[b] == w.ops[b]);
                assert(w.ops[b].wf(w.capacity()));
                if target(w.ops[b]) is Some {
                    let s = target(w.ops[b])->0;
                    assert(w.slot_found(s));
                }
            }
            if a != t {
                assert(w2.ops[a] == w.ops[a]);
            }
        }
    }
    assert(w2.links_current()) by {
        assert forall|u: nat| #![trigger w2.ops[u]] w2.has(u) implies (w2.ops[u] matches Op::Exchange {
            index,
            next,
        } ==> w2.place[index as int] is Free ==> w2.memory.next[index as int] == next) by {
            if u != t {
                assert(w2.ops[u] == w.ops[u]);
            }
        }
    }
}

/// A sweep finds out where its garbage goes.
proof fn lemma_step_count(w: World, t: nat)
    requires
        w.inv(),
        w.allows(Move::Step { t }),
        w.ops[t] is Count,
    ensures
        w.stepped(t).inv(),
{
    let w2 = w.stepped(t);
    let sweep = w.ops[t]->Count_sweep;
    let taken = w.ops[t]->Count_taken;
    assert(moves(w.ops[t], w.memory.next, w.runs[t]));
    lemma_deferring(w, w2, t, w2.ops[t]);
    lemma_flush_exclusive(w, w2, t);
    if sweep.closes() {
        assert(w.deferring().contains(t));
        assert(w.deferring().len() > 0);
    }
    let list = if w2.memory.defers == 0 { List::Free } else { List::Garbage };
    if list == List::Free {
        assert forall|u: nat| w.has(u) && u != t implies target(#[trigger] w.ops[u]) is None
            && !defers(w.ops[u]) by {
            assert(w2.ops[u] == w.ops[u]);
            if defers(w.ops[u]) {
                assert(w2.deferring().contains(u));
                assert(w2.deferring().len() > 0);
            }
        }
    }
    if taken < w.capacity() {
        assert(w.runs[t].last() == taken);
        assert(w.runs[t].contains(taken));
        lemma_quiet(w, w2, t);
    } else {
        assert(w.runs[t].len() == 0);
        if sweep is Dealloc {
            let slot = sweep->Dealloc_0;
            assert forall|u: nat| list == List::Free && w.has(u) implies target(#[trigger] w.ops[u])
                != pending(w.ops[t]) by {
            }
            lemma_pick_up(w, t, list);
            let op = Op::Join { run: Run::single(slot, list) };
            assert(w2.memory == w.memory);
            assert(w2 == (World { ops: w.ops.insert(t, op), ..w }).picked_up(t));
        } else {
            lemma_quiet(w, w2, t);
        }
    }
}

/// The end of a run is linked to where the run goes.
proof fn lemma_step_link(w: World, t: nat)
    requires
        w.inv(),
        w.allows(Move::Step { t }),
        w.ops[t] is Link,
    ensures
        w.stepped(t).inv(),
{
    let w2 = w.stepped(t);
    let run = w.ops[t]->Link_run;
    let head = w.ops[t]->Link_head;
    let before = w.memory.next;
    let after = w2.memory.next;
    let slots = w.runs[t];
    assert(moves(w.ops[t], before, slots));
    assert(w.place[w.runs[t][0] as int] == Place::Moving(t));
    lemma_deferring(w, w2, t, w2.ops[t]);
    lemma_flush_exclusive(w, w2, t);
    assert(w2.runs.dom() =~= w2.ops.dom());
    assert(!w.free.contains(run.last));
    assert(!w.garbage.contains(run.last));
    crate::list::lemma_linked_frame(before, w.memory.free_head, w.free, run.last, head);
    crate::list::lemma_linked_frame(before, w.memory.garbage_head, w.garbage, run.last, head);
    crate::list::lemma_segment_frame(before, run.first, run.last, slots, head);
    assert(w2.slots_placed()) by {
        assert forall|u: nat, k: int| #![trigger w2.runs[u][k]] w2.has(u) && 0 <= k < w2.runs[u].len()
            implies w2.place[w2.runs[u][k] as int] == Place::Moving(u) by {
            assert(w.has(u));
            assert(w.place[w.runs[u][k] as int] == Place::Moving(u));
        }
        assert forall|u: nat| #![trigger w2.ops[u]] w2.has(u) implies (pending(
            w2.ops[u],
        ) matches Some(slot) ==> slot < w2.capacity() && w2.place[slot as int] == Place::Pending(
            u,
        )) by {
            assert(w.has(u));
            assert(pending(w.ops[u]) == pending(w2.ops[u]));
        }
    }
    assert forall|slot: usize| slot < w2.capacity() implies #[trigger] w2.slot_found(slot) by {
        assert(w.slot_found(slot));
    }
    assert(w2.ops_sound()) by {
        assert forall|u: nat| #![trigger w2.ops[u]] w2.has(u) implies w2.ops[u].wf(w2.capacity())
            && moves(w2.ops[u], w2.memory.next, w2.runs[u]) by {
            if u != t {
                assert(w2.ops[u] == w.ops[u]);
                assert(w.has(u));
                lemma_moves_frame(w, u, run.last, head);
            }
        }
    }
    assert(w2.targets_shielded()) by {
        assert forall|a: nat, b: nat| #![trigger w2.ops[a], w2.ops[b]]
            w2.has(a) && w2.has(b) && frees(w2.ops[a]) implies (target(w2.ops[b]) matches Some(slot)
            ==> w2.place[slot as int] != Place::Moving(a) && w2.place[slot as int]
            != Place::Pending(a)) by {
            assert(w.has(a) && w.has(b));
            if a != t {
                assert(w2.ops[a] == w.ops[a]);
            }
            if b != t {
                assert(w2.ops[b] == w.ops[b]);
            }
        }
    }
    assert(w2.links_current()) by {
        assert forall|u: nat| #![trigger w2.ops[u]] w2.has(u) implies (w2.ops[u] matches Op::Exchange {
            index,
            next,
        } ==> w2.place[index as int] is Free ==> w2.memory.next[index as int] == next) by {
            if u != t {
                assert(w2.ops[u] == w.ops[u]);
            }
        }
    }
}

/// Changing the link of a slot outside an operation's run leaves the run as it is.
proof fn lemma_moves_frame(w: World, u: nat, slot: usize, link: usize)
    requires
        w.inv(),
        w.has(u),
        slot < w.capacity(),
        w.place[slot as int] != Place::Moving(u),
    ensures
        moves(w.ops[u], w.memory.next.update(slot as int, link), w.runs[u]),
{
    let slots = w.runs[u];
    assert(moves(w.ops[u], w.memory.next, slots));
    assert forall|k: int| 0 <= k < slots.len() implies #[trigger] slots[k] != slot by {
        assert(w.place[w.runs[u][k] as int] == Place::Moving(u));
    }
}

/// A run takes its place in front of a list.
proof fn lemma_attach(w: World, t: nat, op: Op)
    requires
        w.inv(),
        w.has(t),
        w.ops[t] matches Op::Swing { run, head } && w.memory.head(run.list) == head,
        op.wf(w.capacity()),
        pending(op) == pending(w.ops[t]),
        moves(op, w.memory.next, Seq::empty()),
        w.undisturbed(t),
        !flushes(op),
        !frees(op),
        target(op) is None,
        !defers(op),
    ensures
        ({
            let run = w.ops[t]->Swing_run;
            (World {
                memory: w.memory.with_head(run.list, run.first),
                ops: w.ops.insert(t, op),
                ..w
            }).attached(t, run.list).inv()
        }),
{
    let run = w.ops[t]->Swing_run;
    let head = w.ops[t]->Swing_head;
    let w1 = World {
        memory: w.memory.with_head(run.list, run.first),
        ops: w.ops.insert(t, op),
        ..w
    };
    let w2 = w1.attached(t, run.list);
    let slots = w.runs[t];
    let next = w.memory.next;
    assert(moves(w.ops[t], next, slots));
    lemma_deferring(w, w2, t, op);
    lemma_flush_exclusive(w, w2, t);
    assert(w2.runs.dom() =~= w2.ops.dom());
    assert forall|k: int| 0 <= k < slots.len() implies w.place[(#[trigger] slots[k]) as int]
        == Place::Moving(t) by {
        assert(w.place[w.runs[t][k] as int] == Place::Moving(t));
    }
    assert(crate::list::disjoint(w.free, slots));
    assert(crate::list::disjoint(w.garbage, slots));
    crate::list::lemma_linked_concat(next, head, w.list(run.list), run.first, run.last, slots);
    assert(w2.lists_linked());
    assert forall|i: int| 0 <= i < w.place.len() && w.place[i] != Place::Moving(t) implies w2.place[i]
        == w.place[i] by {
        if slots.contains(i as usize) {
            let k = choose|k: int| 0 <= k < slots.len() && slots[k] == i as usize;
            assert(w.place[slots[k] as int] == Place::Moving(t));
        }
    }
    assert forall|k: int| 0 <= k < slots.len() implies w2.place[(#[trigger] slots[k]) as int]
        == place_of(run.list) by {
        assert(slots.contains(slots[k]));
    }
    assert(w2.slots_placed()) by {
        assert forall|k: int| 0 <= k < w2.free.len() implies w2.place[(#[trigger] w2.free[k]) as int]
            is Free by {
            if k < w.free.len() {
                assert(w2.free[k] == w.free[k]);
            } else {
                assert(w2.free[k] == slots[k - w.free.len()]);
            }
        }
        assert forall|k: int| 0 <= k < w2.garbage.len() implies w2.place[(
        #[trigger] w2.garbage[k]) as int] is Garbage by {
            if k < w.garbage.len() {
                assert(w2.garbage[k] == w.garbage[k]);
            } else {
                assert(w2.garbage[k] == slots[k - w.garbage.len()]);
            }
        }
        assert forall|u: nat, k: int| #![trigger w2.runs[u][k]] w2.has(u) && 0 <= k < w2.runs[u].len()
            implies w2.place[w2.runs[u][k] as int] == Place::Moving(u) by {
            assert(w.has(u));
            if u != t {
                assert(w.place[w.runs[u][k] as int] == Place::Moving(u));
                lemma_run_in_range(w, u, k);
            }
        }
        assert forall|u: nat| #![trigger w2.ops[u]] w2.has(u) implies (pending(
            w2.ops[u],
        ) matches Some(slot) ==> slot < w2.capacity() && w2.place[slot as int] == Place::Pending(
            u,
        )) by {
            assert(w.has(u));
            assert(pending(w.ops[u]) == pending(w2.ops[u]));
        }
    }
    assert forall|slot: usize| slot < w2.capacity() implies #[trigger] w2.slot_found(slot) by {
        assert(w.slot_found(slot));
        match w.place[slot as int] {
            Place::Free => {
                let k = choose|k: int| 0 <= k < w.free.len() && w.free[k] == slot;
                assert(w2.free[k] == slot);
            },
            Place::Garbage => {
                let k = choose|k: int| 0 <= k < w.garbage.len() && w.garbage[k] == slot;
                assert(w2.garbage[k] == slot);
            },
            Place::Moving(u) => {
                if u == t {
                    let k = choose|k: int| 0 <= k < slots.len() && slots[k] == slot;
                    assert(w2.list(run.list)[w.list(run.list).len() + k] == slot);
                }
            },
            _ => {},
        }
    }
    assert(w2.ops_sound()) by {
        assert forall|u: nat| #![trigger w2.ops[u]] w2.has(u) implies w2.ops[u].wf(w2.capacity())
            && moves(w2.ops[u], w2.memory.next, w2.runs[u]) by {
            if u != t {
                assert(w2.ops[u] == w.ops[u]);
            }
        }
    }
    assert(w2.targets_shielded()) by {
        assert forall|a: nat, b: nat| #![trigger w2.ops[a], w2.ops[b]]
            w2.has(a) && w2.has(b) && frees(w2.ops[a]) implies (target(w2.ops[b]) matches Some(slot)
            ==> w2.place[slot as int] != Place::Moving(a) && w2.place[slot as int]
            != Place::Pending(a)) by {
            if a != t && b != t {
                assert(w2.ops[a] == w.ops[a]);
                assert(w2.ops[b] == w.ops[b]);
            }
        }
    }
    assert(w2.links_current()) by {
        assert forall|u: nat| #![trigger w2.ops[u]] w2.has(u) implies (w2.ops[u] matches Op::Exchange {
            index,
            next,
        } ==> w2.place[index as int] is Free ==> w2.memory.next[index as int] == next) by {
            if u != t && w2.ops[u] is Exchange {
                assert(w2.ops[u] == w.ops[u]);
                assert(w.has(u) && w.has(t));
                let index = w.ops[u]->Exchange_index;
                if run.list == List::Free {
                    assert(frees(w.ops[t]));
                    assert(w.place[index as int] != Place::Moving(t));
                }
            }
        }
    }
}

/// A run takes its place, or is linked to the head that came before it.
proof fn lemma_step_swing(w: World, t: nat)
    requires
        w.inv(),
        w.allows(Move::Step { t }),
        w.ops[t] is Swing,
    ensures
        w.stepped(t).inv(),
{
    let w2 = w.stepped(t);
    let run = w.ops[t]->Swing_run;
    let head = w.ops[t]->Swing_head;
    assert(moves(w.ops[t], w.memory.next, w.runs[t]));
    if w.memory.head(run.list) != head {
        lemma_deferring(w, w2, t, w2.ops[t]);
        lemma_quiet(w, w2, t);
    } else if run_pending(run) is Some {
        // The slot to be taken back waits while the garbage is put in front of it.
        let sweep = run.sweep->0;
        let slot = run_pending(run)->0;
        let waiting = Op::Count { sweep, taken: w.capacity() };
        lemma_attach(w, t, waiting);
        let w1 = (World {
            memory: w.memory.with_head(run.list, run.first),
            ops: w.ops.insert(t, waiting),
            ..w
        }).attached(t, run.list);
        assert forall|u: nat| run.list == List::Free && w1.has(u) implies target(#[trigger] w1.ops[u])
            != pending(w1.ops[t]) by {
            if u != t {
                assert(w.has(u) && w.has(t));
                assert(w1.ops[u] == w.ops[u]);
                assert(pending(w.ops[t]) == Some(slot));
                assert(w.place[slot as int] == Place::Pending(t));
            }
        }
        lemma_pick_up(w1, t, run.list);
        let op = Op::Join { run: Run::single(slot, run.list) };
        assert(w1.ops.insert(t, op) =~= w.ops.insert(t, op));
        assert(w2 == (World { ops: w1.ops.insert(t, op), ..w1 }).picked_up(t));
    } else {
        lemma_attach(w, t, w2.ops[t]);
    }
}

/// An access of any operation keeps the invariant.
proof fn lemma_step(w: World, t: nat)
    requires
        w.inv(),
        w.allows(Move::Step { t }),
    ensures
        w.stepped(t).inv(),
{
    match w.ops[t] {
        Op::Defer { .. } => lemma_step_defer(w, t),
        Op::Head => lemma_step_head(w, t),
        Op::Next { .. } => lemma_step_next(w, t),
        Op::Exchange { .. } => lemma_step_exchange(w, t),
        Op::Hint { .. } => lemma_step_hint(w, t),
        Op::Take { .. } => lemma_step_take(w, t),
        Op::Count { .. } => lemma_step_count(w, t),
        Op::Walk { .. } => lemma_step_walk(w, t),
        Op::Join { .. } => lemma_step_join(w, t),
        Op::Link { .. } => lemma_step_link(w, t),
        Op::Swing { .. } => lemma_step_swing(w, t),
        Op::Done { .. } => {},
    }
}

/// Starting an operation keeps the invariant.
proof fn lemma_begin(w: World, t: nat, op: Op)
    requires
        w.inv(),
        w.allows(Move::Begin { t, op }),
    ensures
        w.begun(t, op).inv(),
{
    let w2 = w.begun(t, op);
    lemma_deferring(w, w2, t, op);
    lemma_flush_exclusive(w, w2, t);
    assert(w2.runs.dom() =~= w2.ops.dom());
    assert forall|slot: usize| slot < w2.capacity() implies #[trigger] w2.slot_found(slot) by {
        assert(w.slot_found(slot));
    }
    assert(w2.slots_placed()) by {
        assert forall|u: nat, k: int| #![trigger w2.runs[u][k]] w2.has(u) && 0 <= k < w2.runs[u].len()
            implies w2.place[w2.runs[u][k] as int] == Place::Moving(u) by {
            assert(w.has(u));
            assert(w.place[w.runs[u][k] as int] == Place::Moving(u));
            lemma_run_in_range(w, u, k);
        }
        assert forall|u: nat| #![trigger w2.ops[u]] w2.has(u) implies (pending(
            w2.ops[u],
        ) matches Some(slot) ==> slot < w2.capacity() && w2.place[slot as int] == Place::Pending(
            u,
        )) by {
            if u != t {
                assert(w2.ops[u] == w.ops[u]);
            }
        }
    }
    assert(w2.ops_sound()) by {
        assert forall|u: nat| #![trigger w2.ops[u]] w2.has(u) implies w2.ops[u].wf(w2.capacity())
            && moves(w2.ops[u], w2.memory.next, w2.runs[u]) by {
            if u != t {
                assert(w2.ops[u] == w.ops[u]);
            }
        }
    }
    assert(w2.targets_shielded()) by {
        assert forall|a: nat, b: nat| #![trigger w2.ops[a], w2.ops[b]]
            w2.has(a) && w2.has(b) && frees(w2.ops[a]) implies (target(w2.ops[b]) matches Some(slot)
            ==> w2.place[slot as int] != Place::Moving(a) && w2.place[slot as int]
            != Place::Pending(a)) by {
            if a != t && b != t {
                assert(w2.ops[a] == w.ops[a]);
                assert(w2.ops[b] == w.ops[b]);
                assert(w.ops[b].wf(w.capacity()));
            }
        }
    }
    assert(w2.links_current()) by {
        assert forall|u: nat| #![trigger w2.ops[u]] w2.has(u) implies (w2.ops[u] matches Op::Exchange {
            index,
            next,
        } ==> w2.place[index as int] is Free ==> w2.memory.next[index as int] == next) by {
            if u != t {
                assert(w2.ops[u] == w.ops[u]);
                assert(w.ops[u].wf(w.capacity()));
            }
        }
    }
}

/// Starting to close a deferral keeps the invariant.
proof fn lemma_release(w: World, t: nat)
    requires
        w.inv(),
        w.allows(Move::Release { t }),
    ensures
        w.made(Move::Release { t }).inv(),
{
    let w2 = w.made(Move::Release { t });
    assert(moves(w.ops[t], w.memory.next, w.runs[t]));
    lemma_deferring(w, w2, t, w2.ops[t]);
    lemma_quiet(w, w2, t);
}

/// Forgetting an operation that is done keeps the invariant.
proof fn lemma_finish(w: World, t: nat)
    requires
        w.inv(),
        w.allows(Move::Finish { t }),
    ensures
        w.made(Move::Finish { t }).inv(),
{
    let w2 = w.made(Move::Finish { t });
    assert(moves(w.ops[t], w.memory.next, w.runs[t]));
    assert(w2.deferring() =~= w.deferring());
    assert(w2.flush_exclusive()) by {
        assert forall|a: nat, b: nat| #![trigger w2.ops[a], w2.ops[b]]
            w2.has(a) && w2.has(b) && a != b && flushes(w2.ops[a]) implies w2.ops[b] == (Op::Done {
            outcome: Outcome::Deferred,
        }) by {
            assert(w2.ops[a] == w.ops[a]);
        }
    }
    assert(w2.runs.dom() =~= w2.ops.dom());
    assert forall|slot: usize| slot < w2.capacity() implies #[trigger] w2.slot_found(slot) by {
        assert(w.slot_found(slot));
    }
    assert(w2.slots_placed()) by {
        assert forall|u: nat, k: int| #![trigger w2.runs[u][k]] w2.has(u) && 0 <= k < w2.runs[u].len()
            implies w2.place[w2.runs[u][k] as int] == Place::Moving(u) by {
            assert(w.has(u));
            assert(w.place[w.runs[u][k] as int] == Place::Moving(u));
        }
        assert forall|u: nat| #![trigger w2.ops[u]] w2.has(u) implies (pending(
            w2.ops[u],
        ) matches Some(slot) ==> slot < w2.capacity() && w2.place[slot as int] == Place::Pending(
            u,
        )) by {
            assert(w2.ops[u] == w.ops[u]);
        }
    }
    assert(w2.ops_sound()) by {
        assert forall|u: nat| #![trigger w2.ops[u]] w2.has(u) implies w2.ops[u].wf(w2.capacity())
            && moves(w2.ops[u], w2.memory.next, w2.runs[u]) by {
            assert(w2.ops[u] == w.ops[u]);
        }
    }
    assert(w2.targets_shielded()) by {
        assert forall|a: nat, b: nat| #![trigger w2.ops[a], w2.ops[b]]
            w2.has(a) && w2.has(b) && frees(w2.ops[a]) implies (target(w2.ops[b]) matches Some(slot)
            ==> w2.place[slot as int] != Place::Moving(a) && w2.place[slot as int]
            != Place::Pending(a)) by {
            assert(w2.ops[a] == w.ops[a]);
            assert(w2.ops[b] == w.ops[b]);
        }
    }
    assert(w2.links_current()) by {
        assert forall|u: nat| #![trigger w2.ops[u]] w2.has(u) implies (w2.ops[u] matches Op::Exchange {
            index,
            next,
        } ==> w2.place[index as int] is Free ==> w2.memory.next[index as int] == next) by {
            assert(w2.ops[u] == w.ops[u]);
        }
    }
}

/// Whatever happens next keeps the invariant.
pub proof fn law_moves_keep_inv(w: World, m: Move)
    requires
        w.inv(),
        w.allows(m),
    ensures
        w.made(m).inv(),
{
    match m {
        Move::Begin { t, op } => lemma_begin(w, t, op),
        Move::Step { t } => lemma_step(w, t),
        Move::Release { t } => lemma_release(w, t),
        Move::Finish { t } => lemma_finish(w, t),
    }
}

/// The world after the first `n` moves of a history.
pub open spec fn history(capacity: usize, moves: Seq<Move>, n: nat) -> World
    decreases n,
{
    if n == 0 {
        World::initial(capacity)
    } else {
        history(capacity, moves, (n - 1) as nat).made(moves[n - 1])
    }
}

/// Each move of the history was allowed when it was made.
pub open spec fn possible(capacity: usize, moves: Seq<Move>) -> bool {
    forall|n: nat|
        n < moves.len() ==> (#[trigger] history(capacity, moves, n)).allows(moves[n as int])
}

/// However many operations are started on a new slab, and however their accesses are
/// interleaved, the invariant holds at every moment.
pub proof fn law_every_history_keeps_inv(capacity: usize, moves: Seq<Move>, n: nat)
    requires
        possible(capacity, moves),
        n <= moves.len(),
    ensures
        history(capacity, moves, n).inv(),
    decreases n,
{
    if n == 0 {
        law_initial_world(capacity);
    } else {
        law_every_history_keeps_inv(capacity, moves, (n - 1) as nat);
        law_moves_keep_inv(history(capacity, moves, (n - 1) as nat), moves[n - 1]);
    }
}

} // verus!
