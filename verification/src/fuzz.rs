//! Machines that exercise a slab: they store values in slots, and check that each slot holds what
//! was stored in it.
use std::mem::ManuallyDrop;
use std::ops::Deref;

use vstd::prelude::*;

use crate::bytes::{le_value, read_u16};
use crate::fuzz_laws::{
    law_close_gives_back_every_slot, law_discard_keeps_machines, law_replace_keeps_machines,
};
use crate::slab::{AllocHandle, SlabAlloc, SlabState};
use crate::stream::{read_bytes, read_count, InputStream};
use crate::values::{is_smallest, none_empty, with_handle, without_handle, Action, Values};

verus! {

broadcast use vstd::seq_lib::group_seq_properties;

/// A slab that machines share, and how many of its slots are handed out.
#[derive(Debug)]
pub struct Shared {
    slab: SlabAlloc<u128>,
    count: usize,
}

impl View for Shared {
    type V = SlabState<u128>;

    closed spec fn view(&self) -> SlabState<u128> {
        self.slab@
    }
}

impl Shared {
    /// How many slots are counted as handed out.
    pub closed spec fn counted(&self) -> usize {
        self.count
    }

    /// The slab is well-formed and the count is right.
    pub closed spec fn wf(&self) -> bool {
        &&& self.slab.wf()
        &&& self.count + self.slab@.free.len() + self.slab@.garbage.len() == self.slab@.capacity()
    }

    /// The count of a well-formed slab is the number of its slots that are handed out.
    pub proof fn law_count_is_right(&self)
        requires
            self.wf(),
        ensures
            self@.valid(),
            self@.capacity() <= usize::MAX,
            self.counted() == crate::slab_laws::allocated_slots(self@).len(),
            self.counted() <= self@.capacity(),
    {
        self.slab.lemma_valid();
        crate::slab_laws::law_slots_are_conserved(self@);
    }

    /// Shares a slab of which nothing is handed out.
    pub fn new(slab: SlabAlloc<u128>) -> (shared: Self)
        requires
            slab.wf(),
            slab@.free.len() + slab@.garbage.len() == slab@.capacity(),
        ensures
            shared.wf(),
            shared@ == slab@,
            shared.counted() == 0,
    {
        Shared { slab, count: 0 }
    }

    /// Hands out a slot. No more slots are handed out than there are.
    pub fn allocate(&mut self) -> (handle: Option<AllocHandle<u128>>)
        requires
            old(self).wf(),
            old(self)@.defers < usize::MAX,
        ensures
            final(self).wf(),
            final(self)@ == old(self)@.after_alloc(),
            match handle {
                Some(h) => {
                    &&& old(self)@.free.len() > 0
                    &&& h.slot() == old(self)@.free.last()
                    &&& final(self).counted() == old(self).counted() + 1
                    &&& old(self).counted() < old(self)@.capacity()
                },
                None => {
                    &&& old(self)@.free.len() == 0
                    &&& final(self).counted() == old(self).counted()
                },
            },
    {
        let capacity: usize = self.slab.capacity();
        match self.slab.allocate() {
            Ok(handle) => {
                assert(self.count < capacity);
                self.count = self.count + 1;
                Some(handle)
            },
            Err(_) => None,
        }
    }

    /// Takes a slot back.
    pub fn dealloc(&mut self, handle: AllocHandle<u128>)
        requires
            old(self).wf(),
            old(self)@.allocated(handle.slot()),
        ensures
            final(self).wf(),
            final(self)@ == old(self)@.returned(handle.slot()),
            final(self).counted() + 1 == old(self).counted(),
            final(self).counted() <= final(self)@.capacity(),
    {
        proof {
            self.slab.lemma_valid();
            assert(crate::slab_laws::allocated_slots(self@).contains(handle.slot()));
            crate::slab_laws::law_slots_are_conserved(self@);
        }
        self.slab.dealloc(handle);
        self.count = self.count - 1;
    }

    /// The contents of a slot that is handed out.
    fn contents(&mut self, handle: &AllocHandle<u128>) -> (contents: Option<u128>)
        requires
            old(self).wf(),
            old(self)@.allocated(handle.slot()),
        ensures
            final(self).wf(),
            final(self)@ == old(self)@,
            final(self).counted() == old(self).counted(),
            contents == old(self)@.slots[handle.slot() as int],
    {
        let contents = match handle.pointer(&mut self.slab) {
            Some(value) => Some(*ManuallyDrop::deref(value)),
            None => None,
        };
        assert(self@.slots =~= old(self)@.slots);
        contents
    }

    /// Stores a value in a slot that is handed out.
    fn store(&mut self, handle: &AllocHandle<u128>, value: u128)
        requires
            old(self).wf(),
            old(self)@.allocated(handle.slot()),
        ensures
            final(self).wf(),
            final(self)@ == old(self)@.stored(handle.slot(), Some(value)),
            final(self).counted() == old(self).counted(),
    {
        *handle.pointer(&mut self.slab) = Some(ManuallyDrop::new(value));
    }
}

/// Which slots a machine has, by the values it stored in them.
pub type Holdings = Map<u128, Seq<usize>>;

/// Every slot of the machine is handed out and holds the value it is listed under, and none is
/// listed twice.
pub open spec fn holds(machine: Holdings, state: SlabState<u128>) -> bool {
    &&& none_empty(machine)
    &&& forall|key: u128, i: int|
        #![trigger machine[key][i]]
        machine.contains_key(key) && 0 <= i < machine[key].len() ==> {
            &&& state.allocated(machine[key][i])
            &&& state.slots[machine[key][i] as int] == Some(key)
        }
    &&& forall|key: u128| #[trigger] machine.contains_key(key) ==> machine[key].no_duplicates()
}

/// The machine has the slot.
pub open spec fn has_slot(machine: Holdings, slot: usize) -> bool {
    exists|key: u128, i: int|
        #![trigger machine[key][i]]
        machine.contains_key(key) && 0 <= i < machine[key].len() && machine[key][i] == slot
}

/// No slot belongs to both machines.
pub open spec fn apart(a: Holdings, b: Holdings) -> bool {
    forall|slot: usize| #![trigger has_slot(a, slot)] has_slot(a, slot) ==> !has_slot(b, slot)
}

/// A machine and the slab it works on.
#[verifier::ext_equal]
pub struct Stage {
    pub machine: Holdings,
    pub slab: SlabState<u128>,
}

/// The smallest value that the machine has stored, if it is no larger than `bound`.
pub open spec fn candidate(machine: Holdings, bound: u128) -> Option<u128> {
    if exists|key: u128| is_smallest(machine, key) && key <= bound {
        Some(choose|key: u128| is_smallest(machine, key) && key <= bound)
    } else {
        None
    }
}

impl Stage {
    /// A value is stored in a new slot, if there is one.
    pub open spec fn stored(self, value: u128) -> Stage {
        if self.slab.free.len() > 0 {
            let slot = self.slab.free.last();
            Stage {
                machine: with_handle(self.machine, value, slot),
                slab: self.slab.after_alloc().stored(slot, Some(value)),
            }
        } else {
            Stage { slab: self.slab.after_alloc(), ..self }
        }
    }

    /// A slot with the smallest value is given back, if that is no larger than `bound`.
    pub open spec fn discarded(self, bound: u128) -> Stage {
        match candidate(self.machine, bound) {
            Some(key) => Stage {
                machine: without_handle(self.machine, key),
                slab: self.slab.returned(self.machine[key].last()),
            },
            None => self,
        }
    }

    /// The value in a slot with the smallest value is replaced. A slot that was alone with its
    /// value and gets the same one again is no longer listed.
    pub open spec fn replaced(self, key: u128, value: u128) -> Stage {
        let slot = self.machine[key].last();
        let rest = without_handle(self.machine, key);
        Stage {
            machine: if self.machine[key].len() == 1 && value == key {
                rest
            } else {
                with_handle(rest, value, slot)
            },
            slab: self.slab.stored(slot, Some(value)),
        }
    }
}

/// A machine that stores values in the slots of a shared slab.
#[derive(Debug)]
pub struct SlabMachine {
    values: Values<AllocHandle<u128>>,
}

/// The slots behind the handles.
spec fn slots_behind(values: Map<u128, Seq<AllocHandle<u128>>>) -> Holdings {
    values.map_values(
        |handles: Seq<AllocHandle<u128>>| handles.map_values(|h: AllocHandle<u128>| h.slot()),
    )
}

impl View for SlabMachine {
    type V = Holdings;

    closed spec fn view(&self) -> Holdings {
        slots_behind(self.values@)
    }
}

proof fn lemma_with_handle(
    values: Map<u128, Seq<AllocHandle<u128>>>,
    key: u128,
    handle: AllocHandle<u128>,
)
    ensures
        slots_behind(with_handle(values, key, handle)) == with_handle(
            slots_behind(values),
            key,
            handle.slot(),
        ),
{
    let a = slots_behind(with_handle(values, key, handle));
    let b = with_handle(slots_behind(values), key, handle.slot());
    assert(a[key] =~= b[key]);
    assert(a =~= b);
}

proof fn lemma_without_handle(values: Map<u128, Seq<AllocHandle<u128>>>, key: u128)
    requires
        values.contains_key(key),
        values[key].len() > 0,
    ensures
        slots_behind(without_handle(values, key)) == without_handle(slots_behind(values), key),
{
    let a = slots_behind(without_handle(values, key));
    let b = without_handle(slots_behind(values), key);
    if values[key].len() > 1 {
        assert(a[key] =~= b[key]);
    }
    assert(a =~= b);
}

/// Where no slot list is empty, no handle list is.
proof fn lemma_none_empty(values: Map<u128, Seq<AllocHandle<u128>>>)
    requires
        none_empty(slots_behind(values)),
    ensures
        none_empty(values),
{
    assert forall|key: u128| #[trigger] values.contains_key(key) implies values[key].len() > 0 by {
        assert(slots_behind(values).contains_key(key));
    }
}

/// The smallest value of the handles is that of the slots, and its last handle that of its last
/// slot.
proof fn lemma_taken(values: Map<u128, Seq<AllocHandle<u128>>>, key: u128, bound: u128)
    requires
        none_empty(values),
        is_smallest(values, key),
        key <= bound,
    ensures
        candidate(slots_behind(values), bound) == Some(key),
        slots_behind(values).contains_key(key),
        slots_behind(values)[key].len() == values[key].len(),
        slots_behind(values)[key].last() == values[key].last().slot(),
        slots_behind(without_handle(values, key)) == without_handle(slots_behind(values), key),
{
    let machine = slots_behind(values);
    assert forall|other: u128| #[trigger] machine.contains_key(other) implies key <= other by {
        assert(values.contains_key(other));
    }
    assert(is_smallest(machine, key));
    let other = choose|k: u128| is_smallest(machine, k) && k <= bound;
    assert(is_smallest(machine, other));
    lemma_without_handle(values, key);
}

/// Where every value of the handles is too large, every value of the slots is.
proof fn lemma_none_taken(values: Map<u128, Seq<AllocHandle<u128>>>, bound: u128)
    requires
        forall|key: u128| #[trigger] values.contains_key(key) ==> key > bound,
    ensures
        candidate(slots_behind(values), bound) is None,
{
    assert forall|key: u128| !(is_smallest(slots_behind(values), key) && key <= bound) by {
        if slots_behind(values).contains_key(key) {
            assert(values.contains_key(key));
        }
    }
}

impl SlabMachine {
    /// A machine that has no slot.
    pub fn new() -> (machine: Self)
        ensures
            machine@ == Map::<u128, Seq<usize>>::empty(),
    {
        let machine = SlabMachine { values: Values::new() };
        assert(machine@ =~= Map::empty());
        machine
    }

    /// Stores a value in a new slot, if there is one.
    fn store(&mut self, shared: &mut Shared, value: u128)
        requires
            old(shared).wf(),
            old(shared)@.defers < usize::MAX,
            holds(old(self)@, old(shared)@),
        ensures
            final(shared).wf(),
            (Stage { machine: final(self)@, slab: final(shared)@ }) == (Stage {
                machine: old(self)@,
                slab: old(shared)@,
            }).stored(value),
            holds(final(self)@, final(shared)@),
    {
        proof {
            shared.law_count_is_right();
            if shared@.free.len() > 0 {
                crate::slab_laws::law_alloc_is_exclusive(shared@, shared@.free.last());
            }
            let before = Stage { machine: self@, slab: shared@ };
            crate::fuzz_laws::law_store_keeps_machines(before, value, Map::empty());
        }
        match shared.allocate() {
            Some(handle) => {
                shared.store(&handle, value);
                proof {
                    lemma_with_handle(self.values@, value, handle);
                }
                self.values.put(value, handle);
            },
            None => {},
        }
    }

    /// One cycle: an opcode says whether to store a value, to give back a slot or to replace the
    /// value in one, and which slot that is depends on a value that is read first.
    pub fn cycle(&mut self, shared: &mut Shared, opcode: u8, stream: &mut InputStream)
        requires
            old(shared).wf(),
            old(shared)@.defers < usize::MAX,
            holds(old(self)@, old(shared)@),
        ensures
            final(shared).wf(),
            ({
                let before = Stage { machine: old(self)@, slab: old(shared)@ };
                let after = Stage { machine: final(self)@, slab: final(shared)@ };
                let value = le_value(read_bytes(old(stream)@, 16)) as u128;
                let rest = old(stream)@.skip(read_count(old(stream)@, 16) as int);
                if opcode % 3 == 0 {
                    after == before.stored(value) && final(stream)@ == rest
                } else if opcode % 3 == 1 {
                    after == before.discarded(value) && final(stream)@ == rest
                } else {
                    match candidate(before.machine, value) {
                        Some(key) => {
                            &&& after == before.replaced(
                                key,
                                le_value(read_bytes(rest, 16)) as u128,
                            )
                            &&& final(stream)@ == rest.skip(read_count(rest, 16) as int)
                        },
                        None => after == before && final(stream)@ == rest,
                    }
                }
            }),
            holds(final(self)@, final(shared)@),
    {
        proof {
            shared.law_count_is_right();
            lemma_none_empty(self.values@);
        }
        let ghost before = Stage { machine: self@, slab: shared@ };
        let ghost bound = le_value(read_bytes(stream@, 16)) as u128;
        match self.values.decide(opcode, stream) {
            Action::Store { value } => self.store(shared, value),
            Action::Discard { key, handle } => {
                proof {
                    lemma_taken(old(self).values@, key, bound);
                    law_discard_keeps_machines(before, bound, Map::empty());
                }
                let contents = shared.contents(&handle);
                assert(contents == Some(key));
                shared.dealloc(handle);
            },
            Action::Replace { key, handle, value, keep } => {
                proof {
                    lemma_taken(old(self).values@, key, bound);
                    law_replace_keeps_machines(before, key, value, Map::empty());
                }
                let contents = shared.contents(&handle);
                assert(contents == Some(key));
                shared.store(&handle, value);
                if keep {
                    proof {
                        lemma_with_handle(self.values@, value, handle);
                    }
                    self.values.put(value, handle);
                }
            },
            Action::Rest => {
                proof {
                    lemma_none_taken(self.values@, bound);
                }
            },
        }
    }
}

/// The values in ascending order.
pub open spec fn ascending(keys: Seq<u128>) -> bool {
    forall|i: int, j: int|
        #![trigger keys[i], keys[j]]
        0 <= i < j < keys.len() ==> keys[i] < keys[j]
}

/// The machine's slots for the given values, one value after the other.
pub open spec fn slots_for(machine: Holdings, keys: Seq<u128>) -> Seq<usize>
    decreases keys.len(),
{
    if keys.len() == 0 {
        Seq::empty()
    } else {
        slots_for(machine, keys.drop_last()) + machine[keys.last()]
    }
}

/// The slots are given back, one after the other.
pub open spec fn all_returned(state: SlabState<u128>, slots: Seq<usize>) -> SlabState<u128>
    decreases slots.len(),
{
    if slots.len() == 0 {
        state
    } else {
        all_returned(state, slots.drop_last()).returned(slots.last())
    }
}

proof fn lemma_all_returned_push(state: SlabState<u128>, slots: Seq<usize>, slot: usize)
    ensures
        all_returned(state, slots.push(slot)) == all_returned(state, slots).returned(slot),
{
    assert(slots.push(slot).drop_last() =~= slots);
}

/// The slots behind the handles for one value.
spec fn slots_of(handles: Seq<AllocHandle<u128>>) -> Seq<usize> {
    handles.map_values(|h: AllocHandle<u128>| h.slot())
}

/// Gives back all slots for one value, the one that was stored first going first.
fn give_back(
    shared: &mut Shared,
    handles: Vec<AllocHandle<u128>>,
    Ghost(key): Ghost<u128>,
    Ghost(others): Ghost<Holdings>,
    Ghost(start): Ghost<SlabState<u128>>,
    Ghost(done): Ghost<Seq<usize>>,
)
    requires
        old(shared).wf(),
        old(shared)@ == all_returned(start, done),
        !others.contains_key(key),
        handles@.len() > 0,
        holds(others.insert(key, slots_of(handles@)), old(shared)@),
    ensures
        final(shared).wf(),
        holds(others, final(shared)@),
        final(shared)@ == all_returned(start, done + slots_of(handles@)),
{
    let ghost slots = slots_of(handles@);
    let mut handles: Vec<AllocHandle<u128>> = handles;
    let ghost mut n: int = 0;
    assert(slots.skip(0) =~= slots);
    assert(done + slots.take(0) =~= done);
    while handles.len() > 0
        invariant
            shared.wf(),
            !others.contains_key(key),
            0 <= n <= slots.len(),
            slots.skip(n) == slots_of(handles@),
            shared@ == all_returned(start, done + slots.take(n)),
            n < slots.len() ==> holds(others.insert(key, slots.skip(n)), shared@),
            n == slots.len() ==> holds(others, shared@),
        decreases handles@.len(),
    {
        proof {
            shared.law_count_is_right();
            assert(slots.skip(n).len() == handles@.len());
            assert(slots.skip(n)[0] == handles@[0].slot());
            crate::fuzz_laws::lemma_first_returned(others, key, slots.skip(n), shared@);
            assert(slots.skip(n).skip(1) =~= slots.skip(n + 1));
            assert(done + slots.take(n + 1) =~= (done + slots.take(n)).push(slots[n]));
            lemma_all_returned_push(start, done + slots.take(n), slots[n]);
        }
        let ghost before = handles@;
        let handle = handles.remove(0);
        shared.dealloc(handle);
        proof {
            assert(slots.skip(n + 1) =~= slots_of(handles@)) by {
                assert forall|i: int| 0 <= i < handles@.len() implies slots.skip(n + 1)[i]
                    == slots_of(handles@)[i] by {
                    assert(slots.skip(n)[i + 1] == before[i + 1].slot());
                }
            }
            n = n + 1;
        }
    }
    assert(slots.take(n) =~= slots);
}

impl SlabMachine {
    /// Gives back all slots, those with the smallest value first.
    pub fn close(self, shared: &mut Shared)
        requires
            old(shared).wf(),
            holds(self@, old(shared)@),
        ensures
            final(shared).wf(),
            exists|keys: Seq<u128>|
                {
                    &&& ascending(keys)
                    &&& forall|key: u128| #[trigger] keys.contains(key) <==> self@.contains_key(key)
                    &&& final(shared)@ == all_returned(
                        old(shared)@,
                        #[trigger] slots_for(self@, keys),
                    )
                },
            forall|slot: usize| #[trigger]
                final(shared)@.allocated(slot) <==> old(shared)@.allocated(slot) && !has_slot(
                    self@,
                    slot,
                ),
            forall|key: u128, i: int|
                #![trigger self@[key][i]]
                self@.contains_key(key) && 0 <= i < self@[key].len() ==> !final(shared)@.allocated(
                    self@[key][i],
                ),
            final(shared)@.slots == old(shared)@.slots,
            final(shared)@.defers == old(shared)@.defers,
    {
        let ghost all = self@;
        let ghost start = shared@;
        let ghost mut keys: Seq<u128> = Seq::empty();
        let mut machine = self;
        proof {
            machine.values.lemma_finite();
        }
        loop
            invariant
                shared.wf(),
                machine.values@.dom().finite(),
                holds(machine@, shared@),
                ascending(keys),
                forall|key: u128| #[trigger] all.contains_key(key) <==> keys.contains(key)
                    || machine@.contains_key(key),
                forall|key: u128| #[trigger]
                    machine@.contains_key(key) ==> machine@[key] == all[key] && !keys.contains(key),
                forall|i: int, key: u128|
                    #![trigger keys[i], machine@.contains_key(key)]
                    0 <= i < keys.len() && machine@.contains_key(key) ==> keys[i] < key,
                shared@ == all_returned(start, slots_for(all, keys)),
            ensures
                ascending(keys),
                forall|key: u128| #[trigger] keys.contains(key) <==> all.contains_key(key),
                shared.wf(),
                shared@ == all_returned(start, slots_for(all, keys)),
            decreases machine.values@.dom().len(),
        {
            let ghost before = machine;
            match machine.values.take_smallest() {
                Some((key, handles)) => {
                    proof {
                        assert(before@.contains_key(key));
                        assert(machine@ =~= before@.remove(key));
                        assert(machine@.insert(key, slots_of(handles@)) =~= before@);
                        assert(keys.push(key).drop_last() =~= keys);
                        assert forall|k: u128| #[trigger] before@.contains_key(k) implies key <= k by {
                            assert(before.values@.contains_key(k));
                        }
                        assert forall|k: u128| #[trigger]
                            keys.push(key).contains(k) <==> keys.contains(k) || k == key by {
                            if keys.contains(k) {
                                let i = choose|i: int| 0 <= i < keys.len() && keys[i] == k;
                                assert(keys.push(key)[i] == k);
                            }
                            assert(keys.push(key)[keys.len() as int] == key);
                        }
                    }
                    let ghost done = slots_for(all, keys);
                    give_back(
                        shared,
                        handles,
                        Ghost(key),
                        Ghost(machine@),
                        Ghost(start),
                        Ghost(done),
                    );
                    proof {
                        keys = keys.push(key);
                    }
                },
                None => {
                    assert(before@ =~= Map::empty());
                    break ;
                },
            }
        }
        proof {
            assert forall|slot: usize| #[trigger]
                shared@.allocated(slot) <==> old(shared)@.allocated(slot) && !has_slot(
                    all,
                    slot,
                ) by {
                law_close_gives_back_every_slot(all, start, keys, slot);
            }
            law_close_gives_back_every_slot(all, start, keys, 0);
            assert forall|key: u128, i: int|
                #![trigger all[key][i]]
                all.contains_key(key) && 0 <= i < all[key].len() implies !shared@.allocated(
                all[key][i],
            ) by {
                assert(has_slot(all, all[key][i]));
            }
        }
    }
}

/// Makes machines that share one slab. How large the slab is, is read when the first machine is
/// made.
#[derive(Debug)]
pub struct SlabSpawner {
    pub slab: Option<Shared>,
}

impl SlabSpawner {
    /// No slab yet.
    pub fn new() -> (spawner: Self)
        ensures
            spawner.slab is None,
    {
        SlabSpawner { slab: None }
    }

    /// Makes a machine, and the slab if this is the first one.
    pub fn spawn(&mut self, stream: &mut InputStream) -> (machine: SlabMachine)
        ensures
            machine@ == Map::<u128, Seq<usize>>::empty(),
            final(self).slab is Some,
            match old(self).slab {
                Some(_) => {
                    &&& final(self).slab == old(self).slab
                    &&& final(stream)@ == old(stream)@
                },
                None => {
                    let capacity = le_value(read_bytes(old(stream)@, 2)) as usize;
                    &&& final(self).slab->0.wf()
                    &&& final(self).slab->0@ == SlabState::<u128>::fresh(capacity)
                    &&& final(stream)@ == old(stream)@.skip(
                        read_count(old(stream)@, 2) as int,
                    )
                },
            },
    {
        if self.slab.is_none() {
            let capacity: usize = read_u16(stream) as usize;
            let slab = SlabAlloc::new(capacity);
            self.slab = Some(Shared::new(slab));
        }
        SlabMachine::new()
    }
}

} // verus!
