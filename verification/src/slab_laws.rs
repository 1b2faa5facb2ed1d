//! What holds of every slab, whatever is done with it.
//!
//! The laws speak of [`SlabState`], which the contracts of [`crate::slab::SlabAlloc`] speak of
//! too.
use vstd::prelude::*;

use crate::slab::SlabState;

verus! {

broadcast use vstd::seq_lib::group_seq_properties;

/// The slots of a slab that are handed out.
pub open spec fn allocated_slots<T>(state: SlabState<T>) -> Set<usize> {
    Set::new(|slot: usize| state.allocated(slot))
}

/// The slab after `n` requests for a slot.
pub open spec fn after_allocs<T>(state: SlabState<T>, n: nat) -> SlabState<T>
    decreases n,
{
    if n == 0 {
        state
    } else {
        after_allocs(state, (n - 1) as nat).after_alloc()
    }
}

/// No garbage is left where no deferral is open.
pub open spec fn settled<T>(state: SlabState<T>) -> bool {
    state.defers == 0 ==> state.garbage.len() == 0
}

/// Every operation keeps the lists of a slab apart and free of repetitions.
pub proof fn law_operations_keep_valid<T>(state: SlabState<T>, slot: usize, value: Option<T>)
    requires
        state.valid(),
    ensures
        state.deferred().valid(),
        state.flushed().valid(),
        state.defers > 0 ==> state.released().valid(),
        state.after_alloc().valid(),
        state.allocated(slot) ==> state.returned(slot).valid(),
        slot < state.capacity() ==> state.stored(slot, value).valid(),
{
    lemma_flushed_valid(state);
    if state.defers > 0 {
        lemma_flushed_valid(SlabState { defers: (state.defers - 1) as nat, ..state });
    }
    let popped = state.deferred().popped();
    assert(popped.valid());
    lemma_flushed_valid(SlabState { defers: state.defers, ..popped });
    if state.allocated(slot) {
        assert(state.returned(slot).valid());
    }
}

proof fn lemma_flushed_valid<T>(state: SlabState<T>)
    requires
        state.valid(),
    ensures
        state.flushed().valid(),
{
    let all = state.free + state.garbage;
    assert forall|k: int| 0 <= k < all.len() implies #[trigger] all[k] < state.capacity() by {
        if k < state.free.len() {
            assert(all[k] == state.free[k]);
        } else {
            assert(all[k] == state.garbage[k - state.free.len()]);
        }
    }
    assert(all.no_duplicates()) by {
        assert forall|i: int, j: int| 0 <= i < all.len() && 0 <= j < all.len() && i != j implies all[i]
            != all[j] by {
            let n = state.free.len();
            if i < n && j < n {
            } else if i >= n && j >= n {
                assert(state.garbage[i - n] != state.garbage[j - n]);
            } else if i < n {
                assert(state.free[i] != state.garbage[j - n]);
            } else {
                assert(state.free[j] != state.garbage[i - n]);
            }
        }
    }
}

pub proof fn lemma_contains_concat(a: Seq<usize>, b: Seq<usize>, slot: usize)
    ensures
        (a + b).contains(slot) <==> a.contains(slot) || b.contains(slot),
{
    if a.contains(slot) {
        let i = choose|i: int| 0 <= i < a.len() && a[i] == slot;
        assert((a + b)[i] == slot);
    }
    if b.contains(slot) {
        let i = choose|i: int| 0 <= i < b.len() && b[i] == slot;
        assert((a + b)[a.len() + i] == slot);
    }
}

pub proof fn lemma_contains_push(a: Seq<usize>, last: usize, slot: usize)
    ensures
        a.push(last).contains(slot) <==> a.contains(slot) || slot == last,
{
    assert(a.push(last) =~= a + seq![last]);
    lemma_contains_concat(a, seq![last], slot);
    assert(seq![last][0] == last);
}

proof fn lemma_flushed_allocated<T>(state: SlabState<T>, slot: usize)
    ensures
        state.flushed().allocated(slot) <==> state.allocated(slot),
{
    lemma_contains_concat(state.free, state.garbage, slot);
}

/// A request hands out a slot that was not handed out before, and changes nothing for any other
/// slot; a refused request changes nothing for any slot.
pub proof fn law_alloc_is_exclusive<T>(state: SlabState<T>, slot: usize)
    requires
        state.valid(),
    ensures
        state.free.len() > 0 ==> !state.allocated(state.free.last()),
        state.after_alloc().allocated(slot) <==> {
            ||| state.allocated(slot)
            ||| state.free.len() > 0 && slot == state.free.last()
        },
        state.after_alloc().slots == state.slots,
        state.after_alloc().defers == state.defers,
{
    let popped = SlabState { defers: state.defers, ..state.deferred().popped() };
    lemma_flushed_allocated(popped, slot);
    if state.free.len() > 0 {
        let head = state.free.last();
        assert(state.free.contains(head));
        assert(state.free =~= state.free.drop_last().push(head));
        lemma_contains_push(state.free.drop_last(), head, slot);
        if slot == head {
            assert(!state.free.drop_last().contains(slot)) by {
                if state.free.drop_last().contains(slot) {
                    let i = choose|i: int|
                        0 <= i < state.free.len() - 1 && state.free.drop_last()[i] == slot;
                    assert(state.free[i] == state.free[state.free.len() - 1]);
                }
            }
            assert(!state.garbage.contains(slot)) by {
                if state.garbage.contains(slot) {
                    let j = choose|j: int| 0 <= j < state.garbage.len() && state.garbage[j] == slot;
                    assert(state.free[state.free.len() - 1] != state.garbage[j]);
                }
            }
        }
    }
}

/// Giving a slot back changes nothing for any other slot.
pub proof fn law_dealloc_is_local<T>(state: SlabState<T>, returned: usize, slot: usize)
    requires
        state.valid(),
        state.allocated(returned),
    ensures
        state.returned(returned).allocated(slot) <==> state.allocated(slot) && slot != returned,
        state.returned(returned).slots == state.slots,
        state.returned(returned).defers == state.defers,
{
    lemma_contains_push(state.free, returned, slot);
    lemma_contains_push(state.garbage, returned, slot);
}

/// Opening and releasing a deferral, and flushing, neither hand out nor take back a slot.
pub proof fn law_deferrals_keep_allocations<T>(state: SlabState<T>, slot: usize)
    ensures
        state.deferred().allocated(slot) <==> state.allocated(slot),
        state.released().allocated(slot) <==> state.allocated(slot),
        state.flushed().allocated(slot) <==> state.allocated(slot),
{
    lemma_flushed_allocated(state, slot);
    lemma_flushed_allocated(SlabState { defers: (state.defers - 1) as nat, ..state }, slot);
}

/// The slots that are free, garbage or handed out add up to the capacity.
pub proof fn law_slots_are_conserved<T>(state: SlabState<T>)
    requires
        state.valid(),
        state.capacity() <= usize::MAX,
    ensures
        allocated_slots(state).finite(),
        allocated_slots(state).len() + state.free.len() + state.garbage.len() == state.capacity(),
{
    let n = state.capacity();
    let all = Set::new(|slot: usize| slot < n);
    lemma_slots_below(n);
    let listed = state.free + state.garbage;
    lemma_flushed_valid(state);
    listed.unique_seq_to_set();
    assert(listed.to_set().subset_of(all));
    assert(allocated_slots(state) =~= all.difference(listed.to_set())) by {
        assert forall|slot: usize|
            allocated_slots(state).contains(slot) <==> all.difference(listed.to_set()).contains(
                slot,
            ) by {
            lemma_contains_concat(state.free, state.garbage, slot);
        }
    }
    vstd::set_lib::lemma_set_difference_len(all, listed.to_set());
    assert(all.intersect(listed.to_set()) =~= listed.to_set());
}

proof fn lemma_slots_below(n: nat)
    requires
        n <= usize::MAX,
    ensures
        Set::new(|slot: usize| slot < n).finite(),
        Set::new(|slot: usize| slot < n).len() == n,
    decreases n,
{
    let all = Set::new(|slot: usize| slot < n);
    if n == 0 {
        assert(all =~= Set::empty());
    } else {
        lemma_slots_below((n - 1) as nat);
        let less = Set::new(|slot: usize| slot < (n - 1) as nat);
        assert(all =~= less.insert((n - 1) as usize));
    }
}

/// Where no deferral is open there is no garbage: this is so of a new slab, and every operation
/// but a flush in the middle of a deferral, which leaves no garbage at all, keeps it so.
pub proof fn law_settled<T>(state: SlabState<T>, slot: usize, capacity: usize)
    ensures
        settled(SlabState::<T>::fresh(capacity)),
        settled(state) ==> {
            &&& settled(state.deferred())
            &&& settled(state.released())
            &&& settled(state.flushed())
            &&& settled(state.after_alloc())
            &&& settled(state.returned(slot))
        },
{
}

/// A new slab hands out each of its slots once, the lowest first, and then none.
pub proof fn law_fresh_slab_hands_out_all<T>(capacity: usize, n: nat)
    requires
        n <= capacity,
    ensures
        ({
            let state = after_allocs(SlabState::<T>::fresh(capacity), n);
            &&& state.free == SlabState::<T>::fresh(capacity).free.take(capacity - n)
            &&& state.garbage.len() == 0
            &&& state.defers == 0
            &&& n < capacity ==> state.free.len() > 0 && state.free.last() == n
            &&& n == capacity ==> state.free.len() == 0
        }),
    decreases n,
{
    let fresh = SlabState::<T>::fresh(capacity);
    if n == 0 {
        assert(fresh.free.take(capacity as int) =~= fresh.free);
    } else {
        let m = (n - 1) as nat;
        law_fresh_slab_hands_out_all::<T>(capacity, m);
        let before = after_allocs(fresh, m);
        let after = after_allocs(fresh, n);
        assert(after == before.after_alloc());
        assert(before.free.drop_last() =~= fresh.free.take(capacity - n));
        assert(after.free =~= before.free.drop_last());
    }
}

/// A slab with no deferral open and nothing handed out hands out each of its slots once, and then
/// none: request `n` gets the slot that is `n` places behind the head of the free list.
pub proof fn law_idle_slab_hands_out_all<T>(state: SlabState<T>, n: nat)
    requires
        state.valid(),
        state.capacity() <= usize::MAX,
        settled(state),
        state.defers == 0,
        forall|slot: usize| !#[trigger] state.allocated(slot),
        n <= state.capacity(),
    ensures
        ({
            let after = after_allocs(state, n);
            &&& state.free.len() == state.capacity()
            &&& state.free.no_duplicates()
            &&& after.free == state.free.take(state.capacity() - n)
            &&& after.garbage.len() == 0
            &&& after.defers == 0
            &&& n < state.capacity() ==> after.free.len() > 0 && after.free.last()
                == state.free[state.capacity() - 1 - n]
            &&& n == state.capacity() ==> after.free.len() == 0
        }),
    decreases n,
{
    law_slots_are_conserved(state);
    assert(allocated_slots(state) =~= Set::empty());
    if n == 0 {
        assert(state.free.take(state.capacity() as int) =~= state.free);
    } else {
        let m = (n - 1) as nat;
        law_idle_slab_hands_out_all(state, m);
        let before = after_allocs(state, m);
        let after = after_allocs(state, n);
        assert(after == before.after_alloc());
        assert(before.free.drop_last() =~= state.free.take(state.capacity() - n));
        assert(after.free =~= before.free.drop_last());
    }
}

/// A slot that is given back with no deferral open is the next one to be handed out.
pub proof fn law_returned_slot_is_next<T>(state: SlabState<T>, slot: usize)
    requires
        state.defers == 0,
    ensures
        state.returned(slot).free.len() > 0,
        state.returned(slot).free.last() == slot,
{
}

/// Giving back the slot that was just handed out restores a settled slab.
pub proof fn law_dealloc_undoes_alloc<T>(state: SlabState<T>)
    requires
        state.valid(),
        settled(state),
        state.defers == 0,
        state.free.len() > 0,
    ensures
        state.after_alloc().returned(state.free.last()) == state,
{
    let back = state.after_alloc().returned(state.free.last());
    assert(back.free =~= state.free);
    assert(back.garbage =~= state.garbage);
}

/// While a deferral stays open, garbage stays garbage: a request hands out another slot and
/// leaves the garbage as it is, and so do returning a slot, opening a deferral and releasing one
/// that is not the last.
pub proof fn law_deferral_protects_garbage<T>(state: SlabState<T>, slot: usize, other: usize)
    requires
        state.valid(),
        state.defers > 0,
        state.garbage.contains(slot),
    ensures
        state.free.len() > 0 ==> state.free.last() != slot,
        state.after_alloc().garbage.contains(slot),
        state.returned(other).garbage.contains(slot),
        state.deferred().garbage.contains(slot),
        state.defers > 1 ==> state.released().garbage.contains(slot),
{
    let j = choose|j: int| 0 <= j < state.garbage.len() && state.garbage[j] == slot;
    if state.free.len() > 0 {
        assert(state.free[state.free.len() - 1] != state.garbage[j]);
    }
    lemma_contains_push(state.garbage, other, slot);
}

/// When the last deferral is released, all that was garbage is free.
pub proof fn law_last_release_frees_garbage<T>(state: SlabState<T>, slot: usize)
    requires
        state.defers == 1,
    ensures
        state.released().garbage.len() == 0,
        state.released().free.contains(slot) <==> state.free.contains(slot)
            || state.garbage.contains(slot),
{
    lemma_contains_concat(state.free, state.garbage, slot);
}

/// What is stored in a slot is what is found there, whatever else is handed out, given back,
/// deferred or stored elsewhere.
pub proof fn law_slots_keep_their_contents<T>(
    state: SlabState<T>,
    slot: usize,
    value: Option<T>,
    other: usize,
    other_value: Option<T>,
)
    requires
        slot < state.capacity(),
        other < state.capacity(),
        other != slot,
    ensures
        state.stored(slot, value).slots[slot as int] == value,
        state.stored(other, other_value).slots[slot as int] == state.slots[slot as int],
        state.after_alloc().slots[slot as int] == state.slots[slot as int],
        state.returned(other).slots[slot as int] == state.slots[slot as int],
        state.deferred().slots[slot as int] == state.slots[slot as int],
        state.released().slots[slot as int] == state.slots[slot as int],
        state.flushed().slots[slot as int] == state.slots[slot as int],
{
}

/// One call of an operation.
pub enum Call<T> {
    /// Ask for a slot.
    Alloc,
    /// Give a slot back.
    Dealloc(usize),
    /// Open a deferral.
    Defer,
    /// Release a deferral.
    Release,
    /// Ask whether slots that come back may be handed out at once.
    TryFlush,
    /// Put all garbage in front of the free list.
    Flush,
    /// Store a value in a slot.
    Store(usize, Option<T>),
}

/// The call may be made: only slots that are handed out are given back or stored in, and only open
/// deferrals are released.
pub open spec fn may_call<T>(state: SlabState<T>, call: Call<T>) -> bool {
    match call {
        Call::Dealloc(slot) => state.allocated(slot),
        Call::Release => state.defers > 0,
        Call::Store(slot, _) => state.allocated(slot),
        _ => true,
    }
}

/// The slab after the call.
pub open spec fn called<T>(state: SlabState<T>, call: Call<T>) -> SlabState<T> {
    match call {
        Call::Alloc => state.after_alloc(),
        Call::Dealloc(slot) => state.returned(slot),
        Call::Defer => state.deferred(),
        Call::Release => state.released(),
        Call::TryFlush => state,
        Call::Flush => state.flushed(),
        Call::Store(slot, value) => state.stored(slot, value),
    }
}

/// A new slab after the calls.
pub open spec fn after_calls<T>(capacity: usize, calls: Seq<Call<T>>) -> SlabState<T>
    decreases calls.len(),
{
    if calls.len() == 0 {
        SlabState::fresh(capacity)
    } else {
        called(after_calls(capacity, calls.drop_last()), calls.last())
    }
}

/// Each of the calls may be made in its turn.
pub open spec fn possible<T>(capacity: usize, calls: Seq<Call<T>>) -> bool
    decreases calls.len(),
{
    calls.len() > 0 ==> {
        &&& possible(capacity, calls.drop_last())
        &&& may_call(after_calls(capacity, calls.drop_last()), calls.last())
    }
}

/// The slots that the calls handed out and that were not given back.
pub open spec fn live<T>(capacity: usize, calls: Seq<Call<T>>) -> Set<usize>
    decreases calls.len(),
{
    if calls.len() == 0 {
        Set::empty()
    } else {
        let before = after_calls(capacity, calls.drop_last());
        let slots = live(capacity, calls.drop_last());
        match calls.last() {
            Call::Alloc => if before.free.len() > 0 {
                slots.insert(before.free.last())
            } else {
                slots
            },
            Call::Dealloc(slot) => slots.remove(slot),
            _ => slots,
        }
    }
}

/// The slots that were given back while a deferral was open and have been held back since: neither
/// was the last deferral released, nor all garbage flushed.
pub open spec fn held_back<T>(capacity: usize, calls: Seq<Call<T>>) -> Set<usize>
    decreases calls.len(),
{
    if calls.len() == 0 {
        Set::empty()
    } else {
        let before = after_calls(capacity, calls.drop_last());
        let slots = held_back(capacity, calls.drop_last());
        match calls.last() {
            Call::Dealloc(slot) => if before.defers > 0 {
                slots.insert(slot)
            } else {
                slots
            },
            Call::Release => if before.defers == 1 {
                Set::empty()
            } else {
                slots
            },
            Call::Flush => Set::empty(),
            _ => slots,
        }
    }
}

/// After any calls that may be made, the slab is valid and settled, the slots that are handed out
/// are those that requests got and nobody gave back, and the garbage is what is held back.
pub proof fn law_every_history<T>(capacity: usize, calls: Seq<Call<T>>)
    requires
        possible(capacity, calls),
    ensures
        after_calls(capacity, calls).valid(),
        after_calls(capacity, calls).capacity() == capacity,
        settled(after_calls(capacity, calls)),
        allocated_slots(after_calls(capacity, calls)) == live(capacity, calls),
        after_calls(capacity, calls).garbage.to_set() == held_back(capacity, calls),
    decreases calls.len(),
{
    let state = after_calls(capacity, calls);
    if calls.len() == 0 {
        assert forall|slot: usize| !state.allocated(slot) by {
            if slot < capacity {
                assert(state.free[capacity - 1 - slot] == slot);
            }
        }
        assert(allocated_slots(state) =~= live(capacity, calls));
        assert(state.garbage.to_set() =~= held_back(capacity, calls));
    } else {
        let before = after_calls(capacity, calls.drop_last());
        let call = calls.last();
        law_every_history(capacity, calls.drop_last());
        let slot = match call {
            Call::Dealloc(slot) => slot,
            Call::Store(slot, _) => slot,
            _ => 0,
        };
        let value = match call {
            Call::Store(_, value) => value,
            _ => None,
        };
        law_operations_keep_valid(before, slot, value);
        law_settled(before, slot, capacity);
        assert forall|s: usize| allocated_slots(state).contains(s) <==> live(
            capacity,
            calls,
        ).contains(s) by {
            assert(allocated_slots(before).contains(s) <==> before.allocated(s));
            law_alloc_is_exclusive(before, s);
            law_deferrals_keep_allocations(before, s);
            if call is Dealloc {
                law_dealloc_is_local(before, slot, s);
            }
        }
        assert(allocated_slots(state) =~= live(capacity, calls));
        assert forall|s: usize| state.garbage.to_set().contains(s) <==> held_back(
            capacity,
            calls,
        ).contains(s) by {
            assert(before.garbage.to_set().contains(s) <==> before.garbage.contains(s));
            lemma_contains_push(before.garbage, slot, s);
        }
        assert(state.garbage.to_set() =~= held_back(capacity, calls));
    }
}

/// A request succeeds if and only if the slots that are handed out and those that are held back are
/// together fewer than all slots; where no deferral is open, none is held back.
pub proof fn law_request_succeeds_iff_there_is_room<T>(capacity: usize, calls: Seq<Call<T>>)
    requires
        possible(capacity, calls),
    ensures
        ({
            let state = after_calls(capacity, calls);
            let out = live(capacity, calls);
            let back = held_back(capacity, calls);
            &&& out.finite()
            &&& back.finite()
            &&& state.free.len() > 0 <==> out.len() + back.len() < capacity
            &&& state.defers == 0 ==> (state.free.len() > 0 <==> out.len() < capacity)
        }),
{
    let state = after_calls(capacity, calls);
    law_every_history(capacity, calls);
    law_slots_are_conserved(state);
    state.garbage.unique_seq_to_set();
}

/// The slot that a request gets is one of the slab and nobody else's, and what the slots hold stays
/// as it is.
pub proof fn law_request_gets_a_slot_of_its_own<T>(capacity: usize, calls: Seq<Call<T>>)
    requires
        possible(capacity, calls),
        after_calls(capacity, calls).free.len() > 0,
    ensures
        ({
            let state = after_calls(capacity, calls);
            let slot = state.free.last();
            &&& slot < capacity
            &&& !live(capacity, calls).contains(slot)
            &&& allocated_slots(state.after_alloc()) == live(capacity, calls).insert(slot)
            &&& state.after_alloc().slots == state.slots
        }),
{
    let state = after_calls(capacity, calls);
    let more = calls.push(Call::Alloc);
    law_every_history(capacity, calls);
    assert(more.drop_last() =~= calls);
    law_every_history(capacity, more);
    law_alloc_is_exclusive(state, state.free.last());
    assert(!allocated_slots(state).contains(state.free.last()));
}

/// A request that is refused changes nothing, so the next one is refused too.
pub proof fn law_refused_request_changes_nothing<T>(capacity: usize, calls: Seq<Call<T>>)
    requires
        possible(capacity, calls),
        after_calls(capacity, calls).free.len() == 0,
    ensures
        after_calls(capacity, calls).after_alloc() == after_calls(capacity, calls),
{
    let state = after_calls(capacity, calls);
    law_every_history(capacity, calls);
    assert(state.after_alloc().free =~= state.free);
    assert(state.after_alloc().garbage =~= state.garbage);
    assert(state.after_alloc() =~= state);
}

/// A new slab has as many slots as was asked for, all of them free and none with a value in it.
pub proof fn law_new_slab_is_free<T>(capacity: usize, slot: usize)
    requires
        slot < capacity,
    ensures
        SlabState::<T>::fresh(capacity).capacity() == capacity,
        SlabState::<T>::fresh(capacity).valid(),
        SlabState::<T>::fresh(capacity).free.contains(slot),
        SlabState::<T>::fresh(capacity).free.len() == capacity,
        SlabState::<T>::fresh(capacity).garbage.len() == 0,
        SlabState::<T>::fresh(capacity).defers == 0,
        SlabState::<T>::fresh(capacity).slots[slot as int] is None,
{
    assert(SlabState::<T>::fresh(capacity).free[capacity - 1 - slot] == slot);
}

/// Releasing a deferral undoes opening it.
pub proof fn law_release_undoes_defer<T>(state: SlabState<T>)
    requires
        settled(state),
    ensures
        state.deferred().defers == state.defers + 1,
        state.deferred().free == state.free,
        state.deferred().garbage == state.garbage,
        state.deferred().slots == state.slots,
        state.deferred().released() == state,
{
    let back = state.deferred().released();
    assert(back.free =~= state.free);
    assert(back.garbage =~= state.garbage);
}

/// A deferral that is not the last one to be released leaves the lists as they are.
pub proof fn law_release_before_the_last_keeps_the_lists<T>(state: SlabState<T>)
    requires
        state.defers > 1,
    ensures
        state.released().defers == state.defers - 1,
        state.released().free == state.free,
        state.released().garbage == state.garbage,
        state.released().slots == state.slots,
{
}

/// Garbage that is flushed, by the slab's owner or with the last deferral, comes before the slots
/// that were free, each list in its order: what was given back last is handed out first.
pub proof fn law_flushed_garbage_comes_first<T>(state: SlabState<T>, n: int)
    requires
        0 <= n < state.free.len() + state.garbage.len(),
    ensures
        ({
            let all = state.free.len() + state.garbage.len();
            let flushed = state.flushed();
            &&& flushed.free.len() == all
            &&& n < state.garbage.len() ==> flushed.free[all - 1 - n]
                == state.garbage[state.garbage.len() - 1 - n]
            &&& n >= state.garbage.len() ==> flushed.free[all - 1 - n] == state.free[all - 1 - n]
            &&& flushed.garbage.len() == 0
            &&& flushed.defers == state.defers
            &&& flushed.slots == state.slots
            &&& state.defers == 1 ==> state.released().free == flushed.free
                && state.released().defers == 0 && state.released().slots == state.slots
        }),
{
}

/// A slot that is given back heads the garbage list while a deferral is open and the free list
/// otherwise; the other list stays as it is.
pub proof fn law_returned_slot_heads_its_list<T>(state: SlabState<T>, slot: usize)
    ensures
        ({
            let after = state.returned(slot);
            &&& state.defers > 0 ==> {
                &&& after.garbage.len() > 0
                &&& after.garbage.last() == slot
                &&& after.garbage.drop_last() == state.garbage
                &&& after.free == state.free
            }
            &&& state.defers == 0 ==> {
                &&& after.free.len() > 0
                &&& after.free.last() == slot
                &&& after.free.drop_last() == state.free
                &&& after.garbage == state.garbage
            }
        }),
{
    assert(state.garbage.push(slot).drop_last() =~= state.garbage);
    assert(state.free.push(slot).drop_last() =~= state.free);
}

/// A request takes the head off the free list and leaves the rest; garbage stays where it is while
/// another deferral is open, and comes in front otherwise.
pub proof fn law_request_takes_the_head<T>(state: SlabState<T>)
    ensures
        ({
            let after = state.after_alloc();
            let rest = if state.free.len() > 0 {
                state.free.drop_last()
            } else {
                state.free
            };
            &&& state.defers > 0 ==> after.free == rest && after.garbage == state.garbage
            &&& state.defers == 0 ==> after.free == rest + state.garbage && after.garbage.len()
                == 0
        }),
{
}

/// A run that is put in front of a list comes before all that was on it, in its order; the other
/// list stays as it is.
pub proof fn law_joined_run_comes_first<T>(state: SlabState<T>, run: Seq<usize>)
    ensures
        state.free_joined(run).free == state.free + run,
        state.free_joined(run).garbage == state.garbage,
        state.free_joined(run).defers == state.defers,
        state.free_joined(run).slots == state.slots,
        state.garbage_joined(run).garbage == state.garbage + run,
        state.garbage_joined(run).free == state.free,
        state.garbage_joined(run).defers == state.defers,
        state.garbage_joined(run).slots == state.slots,
        state.garbage_taken().garbage_joined(state.garbage) == state,
        state.garbage_taken().free_joined(state.garbage) == state.flushed(),
{
    assert(Seq::<usize>::empty() + state.garbage =~= state.garbage);
}

} // verus!
