//! Handles by the value that is stored behind them.
use std::collections::BTreeMap;

use vstd::prelude::*;
use vstd::std_specs::cmp::OrdSpec;
use vstd::std_specs::iter::IteratorSpec;

use crate::bytes::{le_value, read_u128};
use crate::stream::{read_bytes, read_count, InputStream};

verus! {

/// Handles by value. Of two handles for the same value, the later one is given out first.
#[derive(Debug)]
pub struct Values<H> {
    map: BTreeMap<u128, Vec<H>>,
}

impl<H> View for Values<H> {
    type V = Map<u128, Seq<H>>;

    closed spec fn view(&self) -> Map<u128, Seq<H>> {
        contents(self.map@)
    }
}

/// The handles in the map.
spec fn contents<H>(map: Map<u128, Vec<H>>) -> Map<u128, Seq<H>> {
    map.map_values(|handles: Vec<H>| handles@)
}

/// `key` is the smallest value that is held.
pub open spec fn is_smallest<H>(values: Map<u128, Seq<H>>, key: u128) -> bool {
    &&& values.contains_key(key)
    &&& forall|other: u128| #[trigger] values.contains_key(other) ==> key <= other
}

/// No value is held without a handle.
pub open spec fn none_empty<H>(values: Map<u128, Seq<H>>) -> bool {
    forall|key: u128| #[trigger] values.contains_key(key) ==> values[key].len() > 0
}

/// The handles for a value.
pub open spec fn handles_for<H>(values: Map<u128, Seq<H>>, key: u128) -> Seq<H> {
    if values.contains_key(key) {
        values[key]
    } else {
        Seq::empty()
    }
}

/// One more handle is held for a value.
pub open spec fn with_handle<H>(values: Map<u128, Seq<H>>, key: u128, handle: H) -> Map<
    u128,
    Seq<H>,
> {
    values.insert(key, handles_for(values, key).push(handle))
}

/// The last handle for a value is gone, and with the only one the value.
pub open spec fn without_handle<H>(values: Map<u128, Seq<H>>, key: u128) -> Map<u128, Seq<H>> {
    if values[key].len() <= 1 {
        values.remove(key)
    } else {
        values.insert(key, values[key].drop_last())
    }
}

/// What there is to do in one cycle.
#[derive(Debug)]
pub enum Action<H> {
    /// Store the value in a new slot, and hold the handle for that value.
    Store { value: u128 },
    /// Give back the slot, which holds `key`.
    Discard { key: u128, handle: H },
    /// Store the value in the slot, which holds `key`; hold the handle for the new value if `keep`
    /// is set.
    Replace { key: u128, handle: H, value: u128, keep: bool },
    /// Nothing.
    Rest,
}

impl<H> Values<H> {
    #[verifier::type_invariant]
    spec fn wf(self) -> bool {
        none_empty(self@)
    }

    /// Finitely many values are held.
    pub proof fn lemma_finite(&self)
        ensures
            self@.dom().finite(),
    {
        let keys = vstd::std_specs::btree::spec_keys_iter(&self.map).remaining().unref();
        assert(keys.to_set() == self.map@.dom());
        assert(self@.dom() =~= keys.to_set());
    }

    /// No handles.
    pub fn new() -> (values: Self)
        ensures
            values@ == Map::<u128, Seq<H>>::empty(),
    {
        let values = Values { map: BTreeMap::new() };
        assert(values@ =~= Map::empty());
        values
    }

    /// The smallest value that is held.
    fn smallest(&self) -> (key: Option<u128>)
        ensures
            match key {
                Some(key) => is_smallest(self@, key),
                None => self@ == Map::<u128, Seq<H>>::empty(),
            },
    {
        for key in keys: self.map.keys()
            invariant
                keys.index() == 0,
                keys.seq() == vstd::std_specs::btree::spec_keys_iter(&self.map).remaining(),
        {
            proof {
                let sorted = keys.seq();
                assert(sorted[0] == key);
                assert(sorted.unref()[0] == *key);
                assert(vstd::laws_cmp::obeys_cmp::<&u128>());
                assert forall|other: u128| #[trigger]
                    self@.contains_key(other) implies *key <= other by {
                    assert(sorted.unref().to_set().contains(other));
                    let i = choose|i: int|
                        0 <= i < sorted.unref().len() && sorted.unref()[i] == other;
                    assert(*sorted[i] == other);
                    if i > 0 {
                        assert(OrdSpec::cmp_spec(&sorted[0], &sorted[i]) is Less);
                    }
                }
            }
            return Some(*key);
        }
        assert(self@ =~= Map::empty());
        None
    }

    /// Gives out all handles for a value.
    fn remove(&mut self, key: u128) -> (handles: Option<Vec<H>>)
        ensures
            match handles {
                Some(handles) => {
                    &&& old(self)@.contains_key(key)
                    &&& handles@ == old(self)@[key]
                    &&& handles@.len() > 0
                    &&& final(self)@ == old(self)@.remove(key)
                },
                None => {
                    &&& !old(self)@.contains_key(key)
                    &&& final(self)@ == old(self)@
                },
            },
    {
        proof {
            use_type_invariant(&*self);
        }
        let mut map: BTreeMap<u128, Vec<H>> = BTreeMap::new();
        std::mem::swap(&mut map, &mut self.map);
        let handles = map.remove(&key);
        assert(contents(map@) =~= old(self)@.remove(key));
        assert(handles is Some ==> old(self)@.contains_key(key));
        self.map = map;
        assert(handles is None ==> self@ =~= old(self)@);
        handles
    }

    /// Holds the handles, and no others, for a value.
    fn insert(&mut self, key: u128, handles: Vec<H>)
        requires
            handles@.len() > 0,
        ensures
            final(self)@ == old(self)@.insert(key, handles@),
    {
        proof {
            use_type_invariant(&*self);
        }
        let mut map: BTreeMap<u128, Vec<H>> = BTreeMap::new();
        std::mem::swap(&mut map, &mut self.map);
        map.insert(key, handles);
        assert(contents(map@) =~= old(self)@.insert(key, handles@));
        self.map = map;
    }

    /// Holds a handle for a value.
    pub fn put(&mut self, key: u128, handle: H)
        ensures
            final(self)@ == with_handle(old(self)@, key, handle),
    {
        let mut handles: Vec<H> = match self.remove(key) {
            Some(handles) => handles,
            None => Vec::new(),
        };
        handles.push(handle);
        self.insert(key, handles);
        assert(self@ =~= with_handle(old(self)@, key, handle));
    }

    /// Gives out the last handle for the smallest value, if that value is no larger than `bound`,
    /// and says whether it was the only one.
    pub fn take_at_most(&mut self, bound: u128) -> (taken: Option<(u128, H, bool)>)
        ensures
            match taken {
                Some((key, handle, alone)) => {
                    &&& is_smallest(old(self)@, key)
                    &&& alone == (old(self)@[key].len() == 1)
                    &&& key <= bound
                    &&& handle == old(self)@[key].last()
                    &&& final(self)@ == without_handle(old(self)@, key)
                },
                None => {
                    &&& forall|key: u128| #[trigger] old(self)@.contains_key(key) ==> key > bound
                    &&& final(self)@ == old(self)@
                },
            },
    {
        let key: u128 = match self.smallest() {
            Some(key) => key,
            None => return None,
        };
        if key > bound {
            return None;
        }
        let mut handles: Vec<H> = match self.remove(key) {
            Some(handles) => handles,
            None => return None,
        };
        match handles.pop() {
            Some(handle) => {
                let alone = handles.is_empty();
                if !alone {
                    self.insert(key, handles);
                }
                assert(self@ =~= without_handle(old(self)@, key));
                Some((key, handle, alone))
            },
            None => None,
        }
    }

    /// Decides what to do in a cycle. An opcode says whether to store a value, to give back a slot
    /// or to replace the value in one. A number that is read first is the value to store, or else
    /// bounds the value of the slot; a replacement is read after it. A slot that is alone with its
    /// value and gets the same one again is not kept.
    pub fn decide(&mut self, opcode: u8, stream: &mut InputStream) -> (action: Action<H>)
        ensures
            ({
                let number = le_value(read_bytes(old(stream)@, 16)) as u128;
                let rest = old(stream)@.skip(read_count(old(stream)@, 16) as int);
                match action {
                    Action::Store { value } => {
                        &&& opcode % 3 == 0
                        &&& value == number
                        &&& final(self)@ == old(self)@
                        &&& final(stream)@ == rest
                    },
                    Action::Discard { key, handle } => {
                        &&& opcode % 3 == 1
                        &&& is_smallest(old(self)@, key)
                        &&& key <= number
                        &&& handle == old(self)@[key].last()
                        &&& final(self)@ == without_handle(old(self)@, key)
                        &&& final(stream)@ == rest
                    },
                    Action::Replace { key, handle, value, keep } => {
                        &&& opcode % 3 == 2
                        &&& is_smallest(old(self)@, key)
                        &&& key <= number
                        &&& handle == old(self)@[key].last()
                        &&& value == le_value(read_bytes(rest, 16))
                        &&& keep == !(old(self)@[key].len() == 1 && value == key)
                        &&& final(self)@ == without_handle(old(self)@, key)
                        &&& final(stream)@ == rest.skip(read_count(rest, 16) as int)
                    },
                    Action::Rest => {
                        &&& opcode % 3 != 0
                        &&& forall|key: u128| #[trigger]
                            old(self)@.contains_key(key) ==> key > number
                        &&& final(self)@ == old(self)@
                        &&& final(stream)@ == rest
                    },
                }
            }),
    {
        let number: u128 = read_u128(stream);
        let kind: u8 = opcode % 3;
        if kind == 0 {
            return Action::Store { value: number };
        }
        match self.take_at_most(number) {
            Some((key, handle, alone)) => {
                if kind == 1 {
                    Action::Discard { key, handle }
                } else {
                    let value: u128 = read_u128(stream);
                    Action::Replace { key, handle, value, keep: !(alone && value == key) }
                }
            },
            None => Action::Rest,
        }
    }

    /// Gives out all handles for the smallest value.
    pub fn take_smallest(&mut self) -> (taken: Option<(u128, Vec<H>)>)
        ensures
            match taken {
                Some((key, handles)) => {
                    &&& is_smallest(old(self)@, key)
                    &&& handles@ == old(self)@[key]
                    &&& final(self)@ == old(self)@.remove(key)
                },
                None => {
                    &&& old(self)@ == Map::<u128, Seq<H>>::empty()
                    &&& final(self)@ == old(self)@
                },
            },
    {
        match self.smallest() {
            Some(key) => match self.remove(key) {
                Some(handles) => Some((key, handles)),
                None => None,
            },
            None => None,
        }
    }
}

/// One more handle for a value comes after those there were, and the other values keep theirs.
pub proof fn law_put_adds_a_handle<H>(values: Map<u128, Seq<H>>, key: u128, handle: H, other: u128)
    ensures
        ({
            let after = with_handle(values, key, handle);
            let there = if values.contains_key(key) {
                values[key]
            } else {
                Seq::empty()
            };
            &&& after.contains_key(key)
            &&& after[key] == there.push(handle)
            &&& other != key ==> (after.contains_key(other) <==> values.contains_key(other))
            &&& other != key && values.contains_key(other) ==> after[other] == values[other]
        }),
{
}

/// Without its last handle a value has the handles that came before, and is gone if there are none;
/// the other values keep theirs.
pub proof fn law_take_removes_the_last_handle<H>(
    values: Map<u128, Seq<H>>,
    key: u128,
    other: u128,
)
    requires
        values.contains_key(key),
        values[key].len() > 0,
    ensures
        ({
            let after = without_handle(values, key);
            &&& values[key].len() > 1 ==> after.contains_key(key) && after[key].push(
                values[key].last(),
            ) == values[key]
            &&& values[key].len() == 1 ==> !after.contains_key(key)
            &&& other != key ==> (after.contains_key(other) <==> values.contains_key(other))
            &&& other != key && values.contains_key(other) ==> after[other] == values[other]
        }),
{
    if values[key].len() > 1 {
        assert(without_handle(values, key)[key].push(values[key].last()) =~= values[key]);
    }
}

/// Taking a handle undoes putting it.
pub proof fn law_take_undoes_put<H>(values: Map<u128, Seq<H>>, key: u128, handle: H)
    requires
        forall|k: u128| #[trigger] values.contains_key(k) ==> values[k].len() > 0,
    ensures
        with_handle(values, key, handle)[key].last() == handle,
        without_handle(with_handle(values, key, handle), key) == values,
{
    let there = handles_for(values, key);
    assert(there.push(handle).drop_last() =~= there);
    assert(without_handle(with_handle(values, key, handle), key) =~= values);
}

/// The smallest value is held, no value that is held is smaller, and there is only one such value.
pub proof fn law_smallest_value<H>(values: Map<u128, Seq<H>>, key: u128, other: u128)
    requires
        is_smallest(values, key),
    ensures
        values.contains_key(key),
        values.contains_key(other) ==> key <= other,
        is_smallest(values, other) ==> other == key,
{
}

} // verus!
