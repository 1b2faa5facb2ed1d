//! The operations of a slab that threads share, one memory access at a time.
//!
//! The links, the heads of the two lists and the count of open deferrals are words that any
//! thread may change between two accesses of another. An [`Op`] is one operation under way: it
//! says which [`Access`] it makes next, and what becomes of it once the [`Reply`] is in. Making
//! the accesses is left to whoever holds the words; [`crate::shared`] does it with atomics.
//! [`crate::world`] shows what holds however the accesses of many operations are interleaved.
use vstd::prelude::*;

use crate::list::List;

verus! {

/// One access to the shared words.
#[derive(Debug, Clone, Copy, PartialEq, Eq, Structural)]
pub enum Access {
    /// Read the count of open deferrals, as a guide only.
    HintDefers,
    /// Read the count of open deferrals.
    CountDefers,
    /// Add one to the count of open deferrals.
    AddDefer,
    /// Take one from the count of open deferrals.
    SubDefer,
    /// Replace the head of the garbage list.
    SwapGarbage { replacement: usize },
    /// Read the head of a list.
    LoadHead { list: List },
    /// Read the link of a slot.
    LoadNext { index: usize },
    /// Set the link of a slot.
    StoreNext { index: usize, link: usize },
    /// Replace the head of a list, provided that it is the expected one.
    ExchangeHead { list: List, expected: usize, replacement: usize },
}

/// What an access finds.
#[derive(Debug, Clone, Copy, PartialEq, Eq, Structural)]
pub enum Reply {
    /// What the word held before the access.
    Value(usize),
    /// The link is set.
    Stored,
    /// The head was the expected one and is replaced.
    Exchanged,
    /// The head was another one and is unchanged.
    Refused(usize),
}

impl Access {
    /// The reply is one that this access can get.
    pub open spec fn fits(self, reply: Reply) -> bool {
        match self {
            Access::StoreNext { .. } => reply is Stored,
            Access::ExchangeHead { .. } => match reply {
                Reply::Exchanged => true,
                Reply::Refused(_) => true,
                _ => false,
            },
            _ => reply is Value,
        }
    }

    /// The access names no slot beyond the capacity.
    pub open spec fn within(self, capacity: usize) -> bool {
        match self {
            Access::LoadNext { index } => index < capacity,
            Access::StoreNext { index, .. } => index < capacity,
            _ => true,
        }
    }
}

/// What an operation came to.
#[derive(Debug, Clone, Copy, PartialEq, Eq, Structural)]
pub enum Outcome {
    /// The slot that was handed out; `None` if there was none.
    Allocated(Option<usize>),
    /// The deferral is open.
    Deferred,
    /// The deferral is closed.
    Released,
    /// Whether slots that come back may be handed out at once.
    Flushed(bool),
    /// The slot is taken back.
    Deallocated,
}

/// Why a deferral is opened.
#[derive(Debug, Clone, Copy, PartialEq, Eq, Structural)]
pub enum Opening {
    /// To ask for a slot.
    Alloc,
    /// For its own sake.
    Guard,
}

/// On whose behalf the garbage is swept.
#[derive(Debug, Clone, Copy, PartialEq, Eq, Structural)]
pub enum Sweep {
    /// A request for a slot that got this one closes its deferral.
    Alloc(Option<usize>),
    /// A deferral is closed.
    Guard,
    /// A flush is tried.
    Try,
    /// The slab's owner flushes.
    Flush,
    /// A slot is to be taken back.
    Dealloc(usize),
}

impl Sweep {
    /// The sweep closes a deferral.
    pub open spec fn closes(self) -> bool {
        match self {
            Sweep::Alloc(_) => true,
            Sweep::Guard => true,
            _ => false,
        }
    }

    /// The slot that is still to be taken back.
    pub open spec fn pending(self) -> Option<usize> {
        match self {
            Sweep::Dealloc(index) => Some(index),
            _ => None,
        }
    }

    /// Every slot that the sweep names is below the capacity.
    pub open spec fn wf(self, capacity: usize) -> bool {
        match self {
            Sweep::Alloc(Some(slot)) => slot < capacity,
            Sweep::Dealloc(slot) => slot < capacity,
            _ => true,
        }
    }

    /// What happens once the swept garbage has its place in front of `list`.
    pub open spec fn settled(self, list: List) -> Op {
        match self {
            Sweep::Alloc(slot) => Op::Done { outcome: Outcome::Allocated(slot) },
            Sweep::Guard => Op::Done { outcome: Outcome::Released },
            Sweep::Try => Op::Done { outcome: Outcome::Flushed(list == List::Free) },
            Sweep::Flush => Op::Done { outcome: Outcome::Flushed(list == List::Free) },
            Sweep::Dealloc(index) => Op::Join { run: Run::single(index, list) },
        }
    }

    /// Goes on once the swept garbage has its place in front of `list`: a slot that is taken back
    /// follows it there.
    fn settle(self, list: List) -> (op: Op)
        ensures
            op == self.settled(list),
    {
        match self {
            Sweep::Alloc(slot) => Op::Done { outcome: Outcome::Allocated(slot) },
            Sweep::Guard => Op::Done { outcome: Outcome::Released },
            Sweep::Try => Op::Done { outcome: Outcome::Flushed(list == List::Free) },
            Sweep::Flush => Op::Done { outcome: Outcome::Flushed(list == List::Free) },
            Sweep::Dealloc(index) => Op::Join {
                run: Run { first: index, last: index, list, sweep: None },
            },
        }
    }
}

/// A run of linked slots on its way to the front of a list.
#[derive(Debug, Clone, Copy, PartialEq, Eq, Structural)]
pub struct Run {
    /// The slot that is to become the head.
    pub first: usize,
    /// The last slot of the run, as far as it is known.
    pub last: usize,
    /// Where the run goes.
    pub list: List,
    /// On whose behalf the run was swept up; `None` if it is a slot that is taken back.
    pub sweep: Option<Sweep>,
}

impl Run {
    /// The run that is one slot taken back.
    pub open spec fn single(index: usize, list: List) -> Run {
        Run { first: index, last: index, list, sweep: None }
    }

    /// Every slot that the run names is below the capacity.
    pub open spec fn wf(self, capacity: usize) -> bool {
        &&& self.first < capacity
        &&& self.last < capacity
        &&& self.sweep matches Some(sweep) ==> sweep.wf(capacity)
    }

    /// What happens once the run has its place.
    pub open spec fn settled(self) -> Op {
        match self.sweep {
            Some(sweep) => sweep.settled(self.list),
            None => Op::Done { outcome: Outcome::Deallocated },
        }
    }
}

/// An operation under way. Each variant but the last is about to make one access.
#[derive(Debug, Clone, Copy, PartialEq, Eq, Structural)]
pub enum Op {
    /// Count a deferral.
    Defer { why: Opening },
    /// Find the first free slot.
    Head,
    /// Find the slot after it.
    Next { index: usize },
    /// Take the first free slot off its list.
    Exchange { index: usize, next: usize },
    /// See whether the garbage is worth taking.
    Hint { sweep: Sweep },
    /// Take the garbage.
    Take { sweep: Sweep },
    /// See whether a deferral is open.
    Count { sweep: Sweep, taken: usize },
    /// Look for the end of the run.
    Walk { run: Run },
    /// Find the head of the list that the run goes to.
    Join { run: Run },
    /// Link the run's end to that head.
    Link { run: Run, head: usize },
    /// Make the run's start the new head.
    Swing { run: Run, head: usize },
    /// Nothing is left to do.
    Done { outcome: Outcome },
}

impl Op {
    /// Every slot that the operation names is below the capacity.
    pub open spec fn wf(self, capacity: usize) -> bool {
        match self {
            Op::Next { index } => index < capacity,
            Op::Exchange { index, .. } => index < capacity,
            Op::Hint { sweep } => sweep.wf(capacity),
            Op::Take { sweep } => sweep.wf(capacity),
            Op::Count { sweep, .. } => sweep.wf(capacity),
            Op::Walk { run } => run.wf(capacity),
            Op::Join { run } => run.wf(capacity),
            Op::Link { run, .. } => run.wf(capacity),
            Op::Swing { run, .. } => run.wf(capacity),
            Op::Done { outcome: Outcome::Allocated(Some(slot)) } => slot < capacity,
            _ => true,
        }
    }

    /// The access that comes next; `None` once nothing is left to do.
    pub open spec fn wants(self, capacity: usize) -> Option<Access> {
        match self {
            Op::Defer { .. } => Some(Access::AddDefer),
            Op::Head => Some(Access::LoadHead { list: List::Free }),
            Op::Next { index } => Some(Access::LoadNext { index }),
            Op::Exchange { index, next } => Some(
                Access::ExchangeHead { list: List::Free, expected: index, replacement: next },
            ),
            Op::Hint { .. } => Some(Access::HintDefers),
            Op::Take { .. } => Some(Access::SwapGarbage { replacement: capacity }),
            Op::Count { sweep, .. } => if sweep.closes() {
                Some(Access::SubDefer)
            } else {
                Some(Access::CountDefers)
            },
            Op::Walk { run } => Some(Access::LoadNext { index: run.last }),
            Op::Join { run } => Some(Access::LoadHead { list: run.list }),
            Op::Link { run, head } => Some(Access::StoreNext { index: run.last, link: head }),
            Op::Swing { run, head } => Some(
                Access::ExchangeHead { list: run.list, expected: head, replacement: run.first },
            ),
            Op::Done { .. } => None,
        }
    }

    /// A request that finds `head` in front of the free list tries for it, or gives up if the list
    /// is empty.
    pub open spec fn tried(head: usize, capacity: usize) -> Op {
        if head < capacity {
            Op::Next { index: head }
        } else {
            Op::Hint { sweep: Sweep::Alloc(None) }
        }
    }

    /// A sweep that took the garbage from `taken` on brings it to `list`; where there was none, it
    /// is settled at once.
    pub open spec fn swept(sweep: Sweep, taken: usize, list: List, capacity: usize) -> Op {
        if taken < capacity {
            Op::Walk { run: Run { first: taken, last: taken, list, sweep: Some(sweep) } }
        } else {
            sweep.settled(list)
        }
    }

    /// The operation after its access got this reply.
    pub open spec fn after(self, capacity: usize, reply: Reply) -> Op {
        match (self, reply) {
            (Op::Defer { why: Opening::Alloc }, Reply::Value(_)) => Op::Head,
            (Op::Defer { why: Opening::Guard }, Reply::Value(_)) => Op::Done {
                outcome: Outcome::Deferred,
            },
            (Op::Head, Reply::Value(head)) => Op::tried(head, capacity),
            (Op::Next { index }, Reply::Value(next)) => Op::Exchange { index, next },
            (Op::Exchange { index, .. }, Reply::Exchanged) => Op::Hint {
                sweep: Sweep::Alloc(Some(index)),
            },
            (Op::Exchange { .. }, Reply::Refused(head)) => Op::tried(head, capacity),
            (Op::Hint { sweep }, Reply::Value(defers)) => if defers == 1 {
                Op::Take { sweep }
            } else {
                Op::Count { sweep, taken: capacity }
            },
            (Op::Take { sweep: Sweep::Flush }, Reply::Value(taken)) => Op::swept(
                Sweep::Flush,
                taken,
                List::Free,
                capacity,
            ),
            (Op::Take { sweep }, Reply::Value(taken)) => Op::Count { sweep, taken },
            (Op::Count { sweep, taken }, Reply::Value(defers)) => {
                let left = if sweep.closes() { defers - 1 } else { defers as int };
                Op::swept(
                    sweep,
                    taken,
                    if left == 0 { List::Free } else { List::Garbage },
                    capacity,
                )
            },
            (Op::Walk { run }, Reply::Value(next)) => if next < capacity {
                Op::Walk { run: Run { last: next, ..run } }
            } else {
                Op::Join { run }
            },
            (Op::Join { run }, Reply::Value(head)) => Op::Link { run, head },
            (Op::Link { run, head }, Reply::Stored) => Op::Swing { run, head },
            (Op::Swing { run, .. }, Reply::Exchanged) => run.settled(),
            (Op::Swing { run, .. }, Reply::Refused(head)) => Op::Link { run, head },
            _ => self,
        }
    }

    /// Starts a request for a slot.
    pub fn alloc_slot() -> (op: Op)
        ensures
            op == (Op::Defer { why: Opening::Alloc }),
    {
        Op::Defer { why: Opening::Alloc }
    }

    /// Starts opening a deferral.
    pub fn defer_deallocs() -> (op: Op)
        ensures
            op == (Op::Defer { why: Opening::Guard }),
    {
        Op::Defer { why: Opening::Guard }
    }

    /// Starts closing a deferral.
    pub fn release() -> (op: Op)
        ensures
            op == (Op::Hint { sweep: Sweep::Guard }),
    {
        Op::Hint { sweep: Sweep::Guard }
    }

    /// Starts trying a flush.
    pub fn try_flush_deallocs() -> (op: Op)
        ensures
            op == (Op::Hint { sweep: Sweep::Try }),
    {
        Op::Hint { sweep: Sweep::Try }
    }

    /// Starts putting all garbage on the free list, whether or not deferrals are open. No other
    /// operation may be under way until this one is done.
    pub fn flush_deallocs() -> (op: Op)
        ensures
            op == (Op::Take { sweep: Sweep::Flush }),
    {
        Op::Take { sweep: Sweep::Flush }
    }

    /// Starts taking a slot back.
    pub fn dealloc(index: usize) -> (op: Op)
        ensures
            op == (Op::Hint { sweep: Sweep::Dealloc(index) }),
    {
        Op::Hint { sweep: Sweep::Dealloc(index) }
    }

    /// The access that comes next; `None` once nothing is left to do.
    pub fn access(&self, capacity: usize) -> (access: Option<Access>)
        ensures
            access == self.wants(capacity),
            self.wf(capacity) ==> (access matches Some(a) ==> a.within(capacity)),
    {
        match *self {
            Op::Defer { .. } => Some(Access::AddDefer),
            Op::Head => Some(Access::LoadHead { list: List::Free }),
            Op::Next { index } => Some(Access::LoadNext { index }),
            Op::Exchange { index, next } => Some(
                Access::ExchangeHead { list: List::Free, expected: index, replacement: next },
            ),
            Op::Hint { .. } => Some(Access::HintDefers),
            Op::Take { .. } => Some(Access::SwapGarbage { replacement: capacity }),
            Op::Count { sweep, .. } => match sweep {
                Sweep::Alloc(_) => Some(Access::SubDefer),
                Sweep::Guard => Some(Access::SubDefer),
                Sweep::Try => Some(Access::CountDefers),
                Sweep::Flush => Some(Access::CountDefers),
                Sweep::Dealloc(_) => Some(Access::CountDefers),
            },
            Op::Walk { run } => Some(Access::LoadNext { index: run.last }),
            Op::Join { run } => Some(Access::LoadHead { list: run.list }),
            Op::Link { run, head } => Some(Access::StoreNext { index: run.last, link: head }),
            Op::Swing { run, head } => Some(
                Access::ExchangeHead { list: run.list, expected: head, replacement: run.first },
            ),
            Op::Done { .. } => None,
        }
    }

    /// Tries for the slot at the head of the free list, or gives up if the list is empty.
    fn attempt(head: usize, capacity: usize) -> (op: Op)
        ensures
            op == Op::tried(head, capacity),
    {
        if head < capacity {
            Op::Next { index: head }
        } else {
            Op::Hint { sweep: Sweep::Alloc(None) }
        }
    }

    /// Brings the garbage from `taken` on to the free list if no deferral is open, and back to the
    /// garbage list otherwise.
    fn place_garbage(sweep: Sweep, taken: usize, unused: bool, capacity: usize) -> (op: Op)
        ensures
            op == Op::swept(
                sweep,
                taken,
                if unused { List::Free } else { List::Garbage },
                capacity,
            ),
    {
        let list = if unused { List::Free } else { List::Garbage };
        if taken < capacity {
            Op::Walk { run: Run { first: taken, last: taken, list, sweep: Some(sweep) } }
        } else {
            sweep.settle(list)
        }
    }

    /// Goes on with the reply that the access got.
    pub fn resume(self, capacity: usize, reply: Reply) -> (op: Op)
        requires
            self.wants(capacity) matches Some(access) && access.fits(reply),
        ensures
            op == self.after(capacity, reply),
            self.wf(capacity) ==> op.wf(capacity),
    {
        match (self, reply) {
            (Op::Defer { why }, _) => match why {
                Opening::Alloc => Op::Head,
                Opening::Guard => Op::Done { outcome: Outcome::Deferred },
            },
            (Op::Head, Reply::Value(head)) => Op::attempt(head, capacity),
            (Op::Next { index }, Reply::Value(next)) => Op::Exchange { index, next },
            (Op::Exchange { index, .. }, Reply::Exchanged) => Op::Hint {
                sweep: Sweep::Alloc(Some(index)),
            },
            (Op::Exchange { .. }, Reply::Refused(head)) => Op::attempt(head, capacity),
            (Op::Hint { sweep }, Reply::Value(defers)) => if defers == 1 {
                Op::Take { sweep }
            } else {
                Op::Count { sweep, taken: capacity }
            },
            (Op::Take { sweep: Sweep::Flush }, Reply::Value(taken)) => Op::place_garbage(
                Sweep::Flush,
                taken,
                true,
                capacity,
            ),
            (Op::Take { sweep }, Reply::Value(taken)) => Op::Count { sweep, taken },
            (Op::Count { sweep, taken }, Reply::Value(defers)) => {
                let unused = match sweep {
                    Sweep::Alloc(_) => defers == 1,
                    Sweep::Guard => defers == 1,
                    Sweep::Try => defers == 0,
                    Sweep::Flush => defers == 0,
                    Sweep::Dealloc(_) => defers == 0,
                };
                Op::place_garbage(sweep, taken, unused, capacity)
            },
            (Op::Walk { run }, Reply::Value(next)) => if next < capacity {
                Op::Walk { run: Run { last: next, ..run } }
            } else {
                Op::Join { run }
            },
            (Op::Join { run }, Reply::Value(head)) => Op::Link { run, head },
            (Op::Link { run, head }, Reply::Stored) => Op::Swing { run, head },
            (Op::Swing { run, .. }, Reply::Exchanged) => match run.sweep {
                Some(sweep) => sweep.settle(run.list),
                None => Op::Done { outcome: Outcome::Deallocated },
            },
            (Op::Swing { run, .. }, Reply::Refused(head)) => Op::Link { run, head },
            _ => self,
        }
    }
}

} // verus!
