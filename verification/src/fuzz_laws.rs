//! Why the checks that the machines of [`crate::fuzz`] make never fail: each keeps its own list
//! right and leaves the slots of the others alone.
use vstd::prelude::*;

use crate::fuzz::{
    all_returned, apart, ascending, candidate, has_slot, holds, slots_for, Holdings, Stage,
};
use crate::slab::SlabState;
use crate::values::{is_smallest, none_empty, without_handle};

verus! {

broadcast use vstd::seq_lib::group_seq_properties;

/// A slot that is given back by a machine leaves the rest of the machine as it was.
pub proof fn lemma_return_keeps(
    machine: Holdings,
    rest: Holdings,
    state: SlabState<u128>,
    slot: usize,
)
    requires
        state.valid(),
        state.allocated(slot),
        holds(machine, state),
        none_empty(rest),
        forall|key: u128, i: int|
            #![trigger rest[key][i]]
            rest.contains_key(key) && 0 <= i < rest[key].len() ==> rest[key][i] != slot
                && machine.contains_key(key) && machine[key].contains(rest[key][i]),
        forall|key: u128| #[trigger] rest.contains_key(key) ==> rest[key].no_duplicates(),
    ensures
        holds(rest, state.returned(slot)),
{
    assert forall|key: u128, i: int|
        #![trigger rest[key][i]]
        rest.contains_key(key) && 0 <= i < rest[key].len() implies {
        &&& state.returned(slot).allocated(rest[key][i])
        &&& state.returned(slot).slots[rest[key][i] as int] == Some(key)
    } by {
        let j = choose|j: int| 0 <= j < machine[key].len() && machine[key][j] == rest[key][i];
        assert(machine[key][j] == rest[key][i]);
        crate::slab_laws::law_dealloc_is_local(state, slot, rest[key][i]);
    }
}

/// Giving back the first slot of a value leaves the other slots of the machine as they were.
pub proof fn lemma_first_returned(
    others: Holdings,
    key: u128,
    slots: Seq<usize>,
    state: SlabState<u128>,
)
    requires
        state.valid(),
        !others.contains_key(key),
        slots.len() > 0,
        holds(others.insert(key, slots), state),
    ensures
        state.allocated(slots[0]),
        slots.len() > 1 ==> holds(others.insert(key, slots.skip(1)), state.returned(slots[0])),
        slots.len() == 1 ==> holds(others, state.returned(slots[0])),
{
    let machine = others.insert(key, slots);
    let rest = if slots.len() > 1 {
        others.insert(key, slots.skip(1))
    } else {
        others
    };
    let slot = slots[0];
    assert(machine[key][0] == slot);
    assert(machine.contains_key(key));
    assert forall|k: u128, i: int|
        #![trigger rest[k][i]]
        rest.contains_key(k) && 0 <= i < rest[k].len() implies rest[k][i] != slot
        && machine.contains_key(k) && machine[k].contains(rest[k][i]) by {
        if k == key {
            assert(rest[k][i] == slots[i + 1]);
            assert(machine[k].no_duplicates());
            assert(machine[k][i + 1] == rest[k][i]);
        } else {
            assert(rest[k][i] == machine[k][i]);
        }
    }
    assert forall|k: u128| #[trigger] rest.contains_key(k) implies rest[k].no_duplicates()
        && rest[k].len() > 0 by {
        assert(machine.contains_key(k));
        assert(machine[k].no_duplicates());
    }
    lemma_return_keeps(machine, rest, state, slot);
}

/// Storing a value keeps the machine's list right, and that of any other machine, and keeps the
/// machines apart.
pub proof fn law_store_keeps_machines(before: Stage, value: u128, other: Holdings)
    requires
        before.slab.valid(),
        holds(before.machine, before.slab),
        holds(other, before.slab),
        apart(before.machine, other),
    ensures
        before.stored(value).slab.valid(),
        holds(before.stored(value).machine, before.stored(value).slab),
        holds(other, before.stored(value).slab),
        apart(before.stored(value).machine, other),
{
    let after = before.stored(value);
    let slab = before.slab.after_alloc();
    crate::slab_laws::law_operations_keep_valid(before.slab, 0, None);
    assert forall|machine: Holdings, key: u128, i: int|
        #![trigger machine[key][i], holds(machine, before.slab)]
        holds(machine, before.slab) && machine.contains_key(key) && 0 <= i < machine[key].len() implies {
        &&& after.slab.allocated(machine[key][i])
        &&& after.slab.slots[machine[key][i] as int] == Some(key)
        &&& before.slab.free.len() > 0 ==> machine[key][i] != before.slab.free.last()
    } by {
        crate::slab_laws::law_alloc_is_exclusive(before.slab, machine[key][i]);
    }
    if before.slab.free.len() > 0 {
        let slot = before.slab.free.last();
        crate::slab_laws::law_alloc_is_exclusive(before.slab, slot);
        crate::slab_laws::law_operations_keep_valid(slab, slot, Some(value));
        let list = crate::values::handles_for(before.machine, value);
        assert(!list.contains(slot)) by {
            if list.contains(slot) {
                let i = choose|i: int| 0 <= i < list.len() && list[i] == slot;
                assert(before.machine[value][i] == slot);
                assert(holds(before.machine, before.slab));
            }
        }
        assert forall|key: u128, i: int|
            #![trigger after.machine[key][i]]
            after.machine.contains_key(key) && 0 <= i < after.machine[key].len() implies {
            &&& after.slab.allocated(after.machine[key][i])
            &&& after.slab.slots[after.machine[key][i] as int] == Some(key)
        } by {
            if key == value && i == list.len() {
            } else {
                assert(before.machine[key][i] == after.machine[key][i]);
                assert(holds(before.machine, before.slab));
            }
        }
        assert(after.machine[value].no_duplicates());
        assert(holds(after.machine, after.slab));
        assert forall|s: usize|
            #![trigger has_slot(after.machine, s)]
            has_slot(after.machine, s) implies !has_slot(other, s) by {
            let (key, i) = choose|key: u128, i: int|
                #![trigger after.machine[key][i]]
                after.machine.contains_key(key) && 0 <= i < after.machine[key].len()
                    && after.machine[key][i] == s;
            if key == value && i == list.len() {
                if has_slot(other, s) {
                    let (k, j) = choose|k: u128, j: int|
                        #![trigger other[k][j]]
                        other.contains_key(k) && 0 <= j < other[k].len() && other[k][j] == s;
                    assert(other[k][j] == s);
                    assert(holds(other, before.slab));
                }
            } else {
                assert(before.machine[key][i] == s);
                assert(has_slot(before.machine, s));
            }
        }
    }
    assert(holds(other, after.slab)) by {
        assert forall|key: u128, i: int|
            #![trigger other[key][i]]
            other.contains_key(key) && 0 <= i < other[key].len() implies {
            &&& after.slab.allocated(other[key][i])
            &&& after.slab.slots[other[key][i] as int] == Some(key)
        } by {
            assert(holds(other, before.slab));
        }
    }
    assert(holds(after.machine, after.slab)) by {
        if before.slab.free.len() == 0 {
            assert forall|key: u128, i: int|
                #![trigger after.machine[key][i]]
                after.machine.contains_key(key) && 0 <= i < after.machine[key].len() implies {
                &&& after.slab.allocated(after.machine[key][i])
                &&& after.slab.slots[after.machine[key][i] as int] == Some(key)
            } by {
                assert(holds(before.machine, before.slab));
                assert(before.machine[key][i] == after.machine[key][i]);
            }
        }
    }
}

/// What is left of a machine after a slot is taken off its list was there before.
proof fn lemma_without_handle_subset(machine: Holdings, state: SlabState<u128>, key: u128)
    requires
        holds(machine, state),
        machine.contains_key(key),
    ensures
        ({
            let rest = without_handle(machine, key);
            let slot = machine[key].last();
            &&& state.allocated(slot)
            &&& state.slots[slot as int] == Some(key)
            &&& has_slot(machine, slot)
            &&& none_empty(rest)
            &&& forall|k: u128, i: int|
                #![trigger rest[k][i]]
                rest.contains_key(k) && 0 <= i < rest[k].len() ==> rest[k][i] != slot
                    && machine.contains_key(k) && machine[k].contains(rest[k][i])
            &&& forall|k: u128| #[trigger] rest.contains_key(k) ==> rest[k].no_duplicates()
            &&& forall|s: usize| #[trigger] has_slot(rest, s) ==> has_slot(machine, s)
        }),
{
    let rest = without_handle(machine, key);
    let last = machine[key].len() - 1;
    let slot = machine[key][last];
    assert(machine[key].last() == slot);
    assert forall|k: u128, i: int|
        #![trigger rest[k][i]]
        rest.contains_key(k) && 0 <= i < rest[k].len() implies rest[k][i] != slot
        && machine.contains_key(k) && machine[k].contains(rest[k][i]) by {
        assert(machine[k][i] == rest[k][i]);
    }
    assert forall|s: usize| #[trigger] has_slot(rest, s) implies has_slot(machine, s) by {
        let (k, i) = choose|k: u128, i: int|
            #![trigger rest[k][i]]
            rest.contains_key(k) && 0 <= i < rest[k].len() && rest[k][i] == s;
        assert(machine[k][i] == s);
    }
}

/// Two machines that are apart do not list the same slot.
proof fn lemma_apart(machine: Holdings, other: Holdings, slot: usize)
    requires
        apart(machine, other),
        has_slot(machine, slot),
    ensures
        forall|k: u128, i: int|
            #![trigger other[k][i]]
            other.contains_key(k) && 0 <= i < other[k].len() ==> other[k][i] != slot,
{
    assert forall|k: u128, i: int|
        #![trigger other[k][i]]
        other.contains_key(k) && 0 <= i < other[k].len() implies other[k][i] != slot by {
        if other[k][i] == slot {
            assert(has_slot(other, slot));
        }
    }
}

/// Giving back a slot keeps the machine's list right, and that of any other machine, and keeps the
/// machines apart.
pub proof fn law_discard_keeps_machines(before: Stage, bound: u128, other: Holdings)
    requires
        before.slab.valid(),
        holds(before.machine, before.slab),
        holds(other, before.slab),
        apart(before.machine, other),
    ensures
        before.discarded(bound).slab.valid(),
        holds(before.discarded(bound).machine, before.discarded(bound).slab),
        holds(other, before.discarded(bound).slab),
        apart(before.discarded(bound).machine, other),
{
    if candidate(before.machine, bound) is Some {
        let key = choose|key: u128| is_smallest(before.machine, key) && key <= bound;
        let slot = before.machine[key].last();
        let rest = without_handle(before.machine, key);
        lemma_without_handle_subset(before.machine, before.slab, key);
        crate::slab_laws::law_operations_keep_valid(before.slab, slot, None);
        lemma_return_keeps(before.machine, rest, before.slab, slot);
        lemma_apart(before.machine, other, slot);
        assert forall|k: u128, i: int|
            #![trigger other[k][i]]
            other.contains_key(k) && 0 <= i < other[k].len() implies other[k].contains(
            other[k][i],
        ) by {}
        lemma_return_keeps(other, other, before.slab, slot);
    }
}

/// Replacing the value in a slot keeps the machine's list right, and that of any other machine,
/// and keeps the machines apart.
pub proof fn law_replace_keeps_machines(before: Stage, key: u128, value: u128, other: Holdings)
    requires
        before.slab.valid(),
        before.machine.contains_key(key),
        holds(before.machine, before.slab),
        holds(other, before.slab),
        apart(before.machine, other),
    ensures
        before.replaced(key, value).slab.valid(),
        holds(before.replaced(key, value).machine, before.replaced(key, value).slab),
        holds(other, before.replaced(key, value).slab),
        apart(before.replaced(key, value).machine, other),
{
    let after = before.replaced(key, value);
    let slot = before.machine[key].last();
    let rest = without_handle(before.machine, key);
    lemma_without_handle_subset(before.machine, before.slab, key);
    lemma_apart(before.machine, other, slot);
    crate::slab_laws::law_operations_keep_valid(before.slab, slot, Some(value));
    assert forall|k: u128, i: int|
        #![trigger rest[k][i]]
        rest.contains_key(k) && 0 <= i < rest[k].len() implies {
        &&& after.slab.allocated(rest[k][i])
        &&& after.slab.slots[rest[k][i] as int] == Some(k)
    } by {
        let j = choose|j: int|
            0 <= j < before.machine[k].len() && before.machine[k][j] == rest[k][i];
        assert(before.machine[k][j] == rest[k][i]);
    }
    let list = crate::values::handles_for(rest, value);
    assert(!list.contains(slot)) by {
        if list.contains(slot) {
            let i = choose|i: int| 0 <= i < list.len() && list[i] == slot;
            assert(rest[value][i] == slot);
        }
    }
    let dropped = before.machine[key].len() == 1 && value == key;
    assert(holds(after.machine, after.slab)) by {
        assert forall|k: u128, i: int|
            #![trigger after.machine[k][i]]
            after.machine.contains_key(k) && 0 <= i < after.machine[k].len() implies {
            &&& after.slab.allocated(after.machine[k][i])
            &&& after.slab.slots[after.machine[k][i] as int] == Some(k)
        } by {
            if !dropped && k == value && i == list.len() {
            } else {
                assert(rest[k][i] == after.machine[k][i]);
            }
        }
        if !dropped {
            assert(after.machine[value].no_duplicates());
        }
    }
    assert forall|s: usize| #![trigger has_slot(after.machine, s)] has_slot(
        after.machine,
        s,
    ) implies !has_slot(other, s) by {
        let (k, i) = choose|k: u128, i: int|
            #![trigger after.machine[k][i]]
            after.machine.contains_key(k) && 0 <= i < after.machine[k].len()
                && after.machine[k][i] == s;
        if !dropped && k == value && i == list.len() {
            assert(s == slot);
        } else {
            assert(rest[k][i] == s);
            assert(has_slot(rest, s));
        }
        assert(has_slot(before.machine, s));
    }
}

/// A value that is stored goes to a slot that nobody had and is found there; the machine lists the
/// slot under that value, after the slots it had for it, and every other slot keeps its value. If
/// no slot is free, the machine and the slots stay as they are.
pub proof fn law_store_puts_the_value(before: Stage, value: u128, key: u128, other: usize)
    requires
        before.slab.valid(),
    ensures
        ({
            let after = before.stored(value);
            let slot = before.slab.free.last();
            let there = if before.machine.contains_key(value) {
                before.machine[value]
            } else {
                Seq::empty()
            };
            &&& before.slab.free.len() > 0 ==> {
                &&& !before.slab.allocated(slot)
                &&& after.slab.allocated(slot)
                &&& after.slab.slots[slot as int] == Some(value)
                &&& after.machine.contains_key(value)
                &&& after.machine[value] == there.push(slot)
                &&& key != value ==> (after.machine.contains_key(key)
                    <==> before.machine.contains_key(key))
                &&& key != value && before.machine.contains_key(key) ==> after.machine[key]
                    == before.machine[key]
                &&& other != slot ==> (after.slab.allocated(other) <==> before.slab.allocated(
                    other,
                ))
                &&& other != slot && other < before.slab.capacity()
                    ==> after.slab.slots[other as int] == before.slab.slots[other as int]
            }
            &&& before.slab.free.len() == 0 ==> {
                &&& after.machine == before.machine
                &&& after.slab.slots == before.slab.slots
                &&& after.slab.allocated(other) <==> before.slab.allocated(other)
            }
            &&& after.slab.defers == before.slab.defers
            &&& after.slab.capacity() == before.slab.capacity()
        }),
{
    crate::slab_laws::law_alloc_is_exclusive(before.slab, other);
    if before.slab.free.len() > 0 {
        crate::slab_laws::law_alloc_is_exclusive(before.slab, before.slab.free.last());
    }
}

/// The value that a machine chooses is the smallest that it has, and no larger than the bound; it
/// chooses none only if it has none that small.
pub proof fn law_smallest_value_is_chosen(machine: Holdings, bound: u128, key: u128)
    requires
        machine.contains_key(key),
        forall|k: u128| #[trigger] machine.contains_key(k) ==> key <= k,
    ensures
        key <= bound ==> candidate(machine, bound) == Some(key),
        key > bound ==> candidate(machine, bound) is None,
        candidate(Map::<u128, Seq<usize>>::empty(), bound) is None,
{
    if key <= bound {
        assert(is_smallest(machine, key));
        let chosen = choose|k: u128| is_smallest(machine, k) && k <= bound;
        assert(is_smallest(machine, chosen));
    } else if candidate(machine, bound) is Some {
        let chosen = choose|k: u128| is_smallest(machine, k) && k <= bound;
        assert(machine.contains_key(chosen));
    }
    assert forall|k: u128| !is_smallest(Map::<u128, Seq<usize>>::empty(), k) by {}
}

/// A discard gives back the last slot of the smallest value, if that is no larger than the bound:
/// the slot is no longer handed out nor listed, and every other slot stays as it is. If the
/// smallest value is too large, nothing happens.
pub proof fn law_discard_gives_back_a_slot(
    before: Stage,
    bound: u128,
    key: u128,
    other_key: u128,
    other: usize,
)
    requires
        before.slab.valid(),
        holds(before.machine, before.slab),
        before.machine.contains_key(key),
        forall|k: u128| #[trigger] before.machine.contains_key(k) ==> key <= k,
    ensures
        ({
            let after = before.discarded(bound);
            let slot = before.machine[key].last();
            &&& key <= bound ==> {
                &&& before.slab.allocated(slot)
                &&& !after.slab.allocated(slot)
                &&& other != slot ==> (after.slab.allocated(other) <==> before.slab.allocated(
                    other,
                ))
                &&& after.slab.slots == before.slab.slots
                &&& after.slab.defers == before.slab.defers
                &&& before.machine[key].len() > 1 ==> after.machine.contains_key(key)
                    && after.machine[key].push(slot) == before.machine[key]
                &&& before.machine[key].len() == 1 ==> !after.machine.contains_key(key)
                &&& other_key != key ==> (after.machine.contains_key(other_key)
                    <==> before.machine.contains_key(other_key))
                &&& other_key != key && before.machine.contains_key(other_key)
                    ==> after.machine[other_key] == before.machine[other_key]
            }
            &&& key > bound ==> after == before
        }),
{
    law_smallest_value_is_chosen(before.machine, bound, key);
    let slot = before.machine[key].last();
    assert(before.machine[key][before.machine[key].len() - 1] == slot);
    if key <= bound {
        crate::slab_laws::law_dealloc_is_local(before.slab, slot, other);
        crate::slab_laws::law_dealloc_is_local(before.slab, slot, slot);
        crate::values::law_take_removes_the_last_handle(before.machine, key, other_key);
    }
}

/// After a replacement the slot that was chosen holds the value that was read, and every other slot
/// keeps what it held; no slot is handed out or given back. The machine lists the slot under the
/// new value, last, and no longer under the old one, unless it was alone with that same value:
/// then it is no longer listed. The slots of other values stay listed as they are.
pub proof fn law_replaced_value_is_found(
    before: Stage,
    key: u128,
    value: u128,
    other_key: u128,
    other: usize,
)
    requires
        before.machine.contains_key(key),
        before.machine[key].len() > 0,
        before.machine[key].last() < before.slab.capacity(),
    ensures
        ({
            let now = before.replaced(key, value);
            let slot = before.machine[key].last();
            let alone = before.machine[key].len() == 1;
            &&& now.slab.slots[slot as int] == Some(value)
            &&& other != slot && other < before.slab.capacity() ==> now.slab.slots[other as int]
                == before.slab.slots[other as int]
            &&& now.slab.capacity() == before.slab.capacity()
            &&& now.slab.free == before.slab.free
            &&& now.slab.garbage == before.slab.garbage
            &&& now.slab.defers == before.slab.defers
            &&& !(alone && value == key) ==> {
                &&& now.machine.contains_key(value)
                &&& now.machine[value].last() == slot
            }
            &&& value == key && !alone ==> now.machine[key] == before.machine[key]
            &&& value == key && alone ==> !now.machine.contains_key(key)
            &&& value != key && alone ==> !now.machine.contains_key(key)
            &&& value != key && !alone ==> now.machine.contains_key(key)
                && now.machine[key].push(slot) == before.machine[key]
            &&& value != key ==> now.machine[value] == (if before.machine.contains_key(value) {
                before.machine[value]
            } else {
                Seq::empty()
            }).push(slot)
            &&& other_key != key && other_key != value ==> {
                &&& now.machine.contains_key(other_key) <==> before.machine.contains_key(
                    other_key,
                )
                &&& before.machine.contains_key(other_key) ==> now.machine[other_key]
                    == before.machine[other_key]
            }
        }),
{
    let rest = without_handle(before.machine, key);
    let slot = before.machine[key].last();
    crate::values::law_take_removes_the_last_handle(before.machine, key, other_key);
    crate::values::law_take_removes_the_last_handle(before.machine, key, value);
    crate::values::law_put_adds_a_handle(rest, value, slot, other_key);
    crate::values::law_put_adds_a_handle(rest, value, slot, key);
}

/// Giving back slots one after the other: none changes nothing, one is a return, and more are given
/// back as if in two parts.
pub proof fn law_slots_are_given_back_in_turn(
    state: SlabState<u128>,
    slot: usize,
    first: Seq<usize>,
    second: Seq<usize>,
)
    ensures
        all_returned(state, Seq::empty()) == state,
        all_returned(state, seq![slot]) == state.returned(slot),
        all_returned(state, first + second) == all_returned(all_returned(state, first), second),
    decreases second.len(),
{
    assert(seq![slot].drop_last() =~= Seq::empty());
    assert(all_returned(state, seq![slot].drop_last()) == state);
    if second.len() == 0 {
        assert(first + second =~= first);
    } else {
        law_slots_are_given_back_in_turn(state, slot, first, second.drop_last());
        assert((first + second).drop_last() =~= first + second.drop_last());
        assert((first + second).last() == second.last());
    }
}

/// Slots that are given back are no longer handed out, and nothing else changes for any slot.
pub proof fn law_returned_slots_are_not_handed_out(
    state: SlabState<u128>,
    slots: Seq<usize>,
    slot: usize,
)
    ensures
        all_returned(state, slots).allocated(slot) <==> state.allocated(slot) && !slots.contains(
            slot,
        ),
        all_returned(state, slots).slots == state.slots,
        all_returned(state, slots).defers == state.defers,
    decreases slots.len(),
{
    if slots.len() > 0 {
        let before = all_returned(state, slots.drop_last());
        law_returned_slots_are_not_handed_out(state, slots.drop_last(), slot);
        assert(slots =~= slots.drop_last().push(slots.last()));
        crate::slab_laws::lemma_contains_push(slots.drop_last(), slots.last(), slot);
        crate::slab_laws::lemma_contains_push(before.free, slots.last(), slot);
        crate::slab_laws::lemma_contains_push(before.garbage, slots.last(), slot);
    }
}

/// The slots for some values are all slots listed under these, one value after the other.
pub proof fn law_slots_for_values(machine: Holdings, keys: Seq<u128>, more: Seq<u128>, key: u128)
    ensures
        slots_for(machine, seq![key]) == machine[key],
        slots_for(machine, keys + more) == slots_for(machine, keys) + slots_for(machine, more),
    decreases more.len(),
{
    assert(seq![key].drop_last() =~= Seq::empty());
    assert(slots_for(machine, seq![key].drop_last()) =~= Seq::empty());
    assert(slots_for(machine, seq![key]) =~= machine[key]);
    if more.len() == 0 {
        assert(keys + more =~= keys);
        assert(slots_for(machine, keys + more) =~= slots_for(machine, keys) + slots_for(
            machine,
            more,
        ));
    } else {
        law_slots_for_values(machine, keys, more.drop_last(), key);
        assert((keys + more).drop_last() =~= keys + more.drop_last());
        assert((keys + more).last() == more.last());
        assert(slots_for(machine, keys + more) =~= slots_for(machine, keys) + slots_for(
            machine,
            more,
        ));
    }
}

/// A slot is among those for some values if and only if it is listed under one of them.
proof fn lemma_slots_for(machine: Holdings, keys: Seq<u128>, slot: usize)
    ensures
        slots_for(machine, keys).contains(slot) <==> exists|n: int, i: int|
            #![trigger machine[keys[n]][i]]
            0 <= n < keys.len() && 0 <= i < machine[keys[n]].len() && machine[keys[n]][i] == slot,
    decreases keys.len(),
{
    if keys.len() > 0 {
        let less = keys.drop_last();
        let last = keys.len() - 1;
        lemma_slots_for(machine, less, slot);
        crate::slab_laws::lemma_contains_concat(
            slots_for(machine, less),
            machine[keys.last()],
            slot,
        );
        if slots_for(machine, less).contains(slot) {
            let (n, i) = choose|n: int, i: int|
                #![trigger machine[less[n]][i]]
                0 <= n < less.len() && 0 <= i < machine[less[n]].len() && machine[less[n]][i]
                    == slot;
            assert(machine[keys[n]][i] == slot);
        }
        if machine[keys.last()].contains(slot) {
            let i = choose|i: int|
                0 <= i < machine[keys.last()].len() && machine[keys.last()][i] == slot;
            assert(machine[keys[last]][i] == slot);
        }
        if exists|n: int, i: int|
            #![trigger machine[keys[n]][i]]
            0 <= n < keys.len() && 0 <= i < machine[keys[n]].len() && machine[keys[n]][i]
                == slot {
            let (n, i) = choose|n: int, i: int|
                #![trigger machine[keys[n]][i]]
                0 <= n < keys.len() && 0 <= i < machine[keys[n]].len() && machine[keys[n]][i]
                    == slot;
            if n < last {
                assert(machine[less[n]][i] == slot);
            } else {
                assert(machine[keys.last()][i] == slot);
            }
        }
    }
}

/// A machine that is closed gives back every slot that it lists, whatever the value and however
/// many there are, and no other: a slot is handed out then if and only if it was before and the
/// machine does not list it.
pub proof fn law_close_gives_back_every_slot(
    machine: Holdings,
    state: SlabState<u128>,
    keys: Seq<u128>,
    slot: usize,
)
    requires
        forall|key: u128| #[trigger] keys.contains(key) <==> machine.contains_key(key),
    ensures
        ({
            let after = all_returned(state, slots_for(machine, keys));
            let listed = exists|key: u128, i: int|
                #![trigger machine[key][i]]
                machine.contains_key(key) && 0 <= i < machine[key].len() && machine[key][i]
                    == slot;
            &&& after.allocated(slot) <==> state.allocated(slot) && !listed
            &&& after.slots == state.slots
            &&& after.defers == state.defers
        }),
{
    law_returned_slots_are_not_handed_out(state, slots_for(machine, keys), slot);
    lemma_slots_for(machine, keys, slot);
    if exists|key: u128, i: int|
        #![trigger machine[key][i]]
        machine.contains_key(key) && 0 <= i < machine[key].len() && machine[key][i] == slot {
        let (key, i) = choose|key: u128, i: int|
            #![trigger machine[key][i]]
            machine.contains_key(key) && 0 <= i < machine[key].len() && machine[key][i] == slot;
        assert(keys.contains(key));
        let n = choose|n: int| 0 <= n < keys.len() && keys[n] == key;
        assert(machine[keys[n]][i] == slot);
    }
    if exists|n: int, i: int|
        #![trigger machine[keys[n]][i]]
        0 <= n < keys.len() && 0 <= i < machine[keys[n]].len() && machine[keys[n]][i] == slot {
        let (n, i) = choose|n: int, i: int|
            #![trigger machine[keys[n]][i]]
            0 <= n < keys.len() && 0 <= i < machine[keys[n]].len() && machine[keys[n]][i] == slot;
        assert(keys.contains(keys[n]));
        assert(machine[keys[n]][i] == slot);
    }
}

/// A slot that a machine has a right list of is handed out, holds the value that it is listed under
/// and is listed once; a machine that has no slot has a right list.
pub proof fn law_listed_slots_hold_their_value(
    machine: Holdings,
    state: SlabState<u128>,
    key: u128,
    i: int,
    other_key: u128,
    j: int,
)
    requires
        holds(machine, state),
        machine.contains_key(key),
        0 <= i < machine[key].len(),
        machine.contains_key(other_key),
        0 <= j < machine[other_key].len(),
    ensures
        state.allocated(machine[key][i]),
        state.slots[machine[key][i] as int] == Some(key),
        has_slot(machine, machine[key][i]),
        machine[key][i] == machine[other_key][j] ==> key == other_key && i == j,
        holds(Map::empty(), state),
{
    assert(state.slots[machine[other_key][j] as int] == Some(other_key));
    assert(machine[key].no_duplicates());
}

/// Values in ascending order come the smaller one first, and none twice.
pub proof fn law_ascending_values(keys: Seq<u128>, i: int, j: int)
    requires
        ascending(keys),
        0 <= i < j < keys.len(),
    ensures
        keys[i] < keys[j],
{
}

} // verus!
