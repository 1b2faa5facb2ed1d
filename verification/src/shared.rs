//! The words of a shared slab, as atomics.
//!
//! Nothing is known here of what another thread has written in the meantime, so what a word holds
//! is left open. The contracts say which atomic operation is made for each access, on which word
//! and with which operands and orders, that the reply is what it returned, and what becomes of an
//! operation for each reply. What follows for all operations together is the subject of
//! [`crate::world`].
use std::sync::atomic::{AtomicUsize, Ordering};

use vstd::prelude::*;

use crate::list::List;
use crate::protocol::{Access, Op, Reply};

verus! {

/// The count of open deferrals, the heads of the two lists, and the link of each slot.
pub struct SharedLinks {
    defer_count: AtomicUsize,
    garbage_list: AtomicUsize,
    free_list: AtomicUsize,
    next: Vec<AtomicUsize>,
}

/// Makes a word. The contract names the function that is called.
fn make_word<F: Fn(usize) -> AtomicUsize>(f: F, value: usize) -> (word: AtomicUsize)
    requires
        call_requires(f, (value,)),
    ensures
        call_ensures(f, (value,), word),
{
    f(value)
}

/// Reads a word. The contract names the function that is called.
fn read_word<F: Fn(&AtomicUsize, Ordering) -> usize>(
    f: F,
    word: &AtomicUsize,
    order: Ordering,
) -> (value: usize)
    requires
        call_requires(f, (word, order)),
    ensures
        call_ensures(f, (word, order), value),
{
    f(word, order)
}

/// Writes a word. The contract names the function that is called.
fn write_word<F: Fn(&AtomicUsize, usize, Ordering)>(
    f: F,
    word: &AtomicUsize,
    value: usize,
    order: Ordering,
)
    requires
        call_requires(f, (word, value, order)),
    ensures
        call_ensures(f, (word, value, order), ()),
{
    f(word, value, order)
}

/// Changes a word and returns what it held before. The contract names the function that is called.
fn update_word<F: Fn(&AtomicUsize, usize, Ordering) -> usize>(
    f: F,
    word: &AtomicUsize,
    operand: usize,
    order: Ordering,
) -> (before: usize)
    requires
        call_requires(f, (word, operand, order)),
    ensures
        call_ensures(f, (word, operand, order), before),
{
    f(word, operand, order)
}

/// Replaces a word if it holds what is expected. The contract names the function that is called.
fn exchange_word<F: Fn(&AtomicUsize, usize, usize, Ordering, Ordering) -> Result<usize, usize>>(
    f: F,
    word: &AtomicUsize,
    expected: usize,
    replacement: usize,
    success: Ordering,
    failure: Ordering,
) -> (found: Result<usize, usize>)
    requires
        call_requires(f, (word, expected, replacement, success, failure)),
    ensures
        call_ensures(f, (word, expected, replacement, success, failure), found),
{
    f(word, expected, replacement, success, failure)
}

impl SharedLinks {
    /// The number of slots.
    pub closed spec fn slots(&self) -> usize {
        self.next.len()
    }

    /// The word that counts the open deferrals.
    pub closed spec fn defer_word(&self) -> AtomicUsize {
        self.defer_count
    }

    /// The word that holds the head of a list.
    pub closed spec fn head_word(&self, list: List) -> AtomicUsize {
        match list {
            List::Free => self.free_list,
            List::Garbage => self.garbage_list,
        }
    }

    /// The word that holds the link of a slot.
    pub closed spec fn link_word(&self, index: usize) -> AtomicUsize {
        self.next@[index as int]
    }

    /// Each word was made with what a slab of free slots starts with: these are the words of the
    /// memory of [`crate::world::World::initial`].
    pub open spec fn made_fresh(&self) -> bool {
        &&& call_ensures(AtomicUsize::new, (0usize,), self.defer_word())
        &&& call_ensures(AtomicUsize::new, (0usize,), self.head_word(List::Free))
        &&& call_ensures(AtomicUsize::new, (self.slots(),), self.head_word(List::Garbage))
        &&& forall|index: usize|
            index < self.slots() ==> call_ensures(
                AtomicUsize::new,
                ((index + 1) as usize,),
                #[trigger] self.link_word(index),
            )
    }

    /// The access was made, and the reply is what came of it: the atomic operation on the word
    /// returned what the reply holds.
    pub open spec fn performed(&self, access: Access, reply: Reply) -> bool {
        match (access, reply) {
            (Access::HintDefers, Reply::Value(v)) => call_ensures(
                AtomicUsize::load,
                (&self.defer_word(), Ordering::Relaxed),
                v,
            ),
            (Access::CountDefers, Reply::Value(v)) => call_ensures(
                AtomicUsize::load,
                (&self.defer_word(), Ordering::Acquire),
                v,
            ),
            (Access::AddDefer, Reply::Value(v)) => call_ensures(
                AtomicUsize::fetch_add,
                (&self.defer_word(), 1usize, Ordering::Acquire),
                v,
            ),
            (Access::SubDefer, Reply::Value(v)) => call_ensures(
                AtomicUsize::fetch_sub,
                (&self.defer_word(), 1usize, Ordering::Release),
                v,
            ),
            (Access::SwapGarbage { replacement }, Reply::Value(v)) => call_ensures(
                AtomicUsize::swap,
                (&self.head_word(List::Garbage), replacement, Ordering::AcqRel),
                v,
            ),
            (Access::LoadHead { list }, Reply::Value(v)) => call_ensures(
                AtomicUsize::load,
                (&self.head_word(list), Ordering::Acquire),
                v,
            ),
            (Access::LoadNext { index }, Reply::Value(v)) => call_ensures(
                AtomicUsize::load,
                (&self.link_word(index), Ordering::Relaxed),
                v,
            ),
            (Access::StoreNext { index, link }, Reply::Stored) => call_ensures(
                AtomicUsize::store,
                (&self.link_word(index), link, Ordering::Relaxed),
                (),
            ),
            (Access::ExchangeHead { list, expected, replacement }, Reply::Exchanged) => exists|
                v: usize,
            | #[trigger]
                call_ensures(
                    AtomicUsize::compare_exchange,
                    (
                        &self.head_word(list),
                        expected,
                        replacement,
                        Ordering::Release,
                        Ordering::Relaxed,
                    ),
                    Ok::<usize, usize>(v),
                ),
            (Access::ExchangeHead { list, expected, replacement }, Reply::Refused(v)) => {
                call_ensures(
                    AtomicUsize::compare_exchange,
                    (
                        &self.head_word(list),
                        expected,
                        replacement,
                        Ordering::Release,
                        Ordering::Relaxed,
                    ),
                    Err::<usize, usize>(v),
                )
            },
            _ => false,
        }
    }

    /// Makes the words of a slab of `capacity` free slots.
    pub fn new(capacity: usize) -> (links: Self)
        ensures
            links.slots() == capacity,
            links.made_fresh(),
    {
        let mut next: Vec<AtomicUsize> = Vec::new();
        let mut i: usize = 0;
        while i < capacity
            invariant
                i <= capacity,
                next@.len() == i,
                forall|k: int|
                    0 <= k < i ==> call_ensures(
                        AtomicUsize::new,
                        ((k + 1) as usize,),
                        #[trigger] next@[k],
                    ),
            decreases capacity - i,
        {
            next.push(make_word(AtomicUsize::new, i + 1));
            i = i + 1;
        }
        SharedLinks {
            defer_count: make_word(AtomicUsize::new, 0),
            garbage_list: make_word(AtomicUsize::new, capacity),
            free_list: make_word(AtomicUsize::new, 0),
            next,
        }
    }

    /// The number of slots.
    pub fn capacity(&self) -> (n: usize)
        ensures
            n == self.slots(),
    {
        self.next.len()
    }

    /// The atomic that holds the head of a list.
    fn head(&self, list: List) -> (head: &AtomicUsize)
        ensures
            *head == self.head_word(list),
    {
        match list {
            List::Free => &self.free_list,
            List::Garbage => &self.garbage_list,
        }
    }

    /// Makes one access. What another thread has written decides which of the fitting replies
    /// comes.
    pub fn perform(&self, access: Access) -> (reply: Reply)
        requires
            access.within(self.slots()),
        ensures
            access.fits(reply),
            self.performed(access, reply),
    {
        match access {
            Access::HintDefers => Reply::Value(
                read_word(AtomicUsize::load, &self.defer_count, Ordering::Relaxed),
            ),
            Access::CountDefers => Reply::Value(
                read_word(AtomicUsize::load, &self.defer_count, Ordering::Acquire),
            ),
            Access::AddDefer => Reply::Value(
                update_word(AtomicUsize::fetch_add, &self.defer_count, 1, Ordering::Acquire),
            ),
            Access::SubDefer => Reply::Value(
                update_word(AtomicUsize::fetch_sub, &self.defer_count, 1, Ordering::Release),
            ),
            Access::SwapGarbage { replacement } => Reply::Value(
                update_word(AtomicUsize::swap, &self.garbage_list, replacement, Ordering::AcqRel),
            ),
            Access::LoadHead { list } => Reply::Value(
                read_word(AtomicUsize::load, self.head(list), Ordering::Acquire),
            ),
            Access::LoadNext { index } => Reply::Value(
                read_word(AtomicUsize::load, &self.next[index], Ordering::Relaxed),
            ),
            Access::StoreNext { index, link } => {
                write_word(AtomicUsize::store, &self.next[index], link, Ordering::Relaxed);
                Reply::Stored
            },
            Access::ExchangeHead { list, expected, replacement } => {
                match exchange_word(
                    AtomicUsize::compare_exchange,
                    self.head(list),
                    expected,
                    replacement,
                    Ordering::Release,
                    Ordering::Relaxed,
                ) {
                    Ok(before) => {
                        assert(call_ensures(
                            AtomicUsize::compare_exchange,
                            (
                                &self.head_word(list),
                                expected,
                                replacement,
                                Ordering::Release,
                                Ordering::Relaxed,
                            ),
                            Ok::<usize, usize>(before),
                        ));
                        Reply::Exchanged
                    },
                    Err(head) => Reply::Refused(head),
                }
            },
        }
    }

    /// Makes the next access of an operation, if it has one left, and goes on with the reply.
    pub fn advance(&self, op: Op) -> (after: Op)
        requires
            op.wf(self.slots()),
        ensures
            after.wf(self.slots()),
            match op.wants(self.slots()) {
                Some(access) => exists|reply: Reply|
                    {
                        &&& access.fits(reply)
                        &&& self.performed(access, reply)
                        &&& after == #[trigger] op.after(self.slots(), reply)
                    },
                None => after == op,
            },
    {
        let capacity: usize = self.capacity();
        match op.access(capacity) {
            Some(access) => {
                let reply = self.perform(access);
                op.resume(capacity, reply)
            },
            None => op,
        }
    }
}

} // verus!
