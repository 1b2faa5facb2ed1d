//! A slab whose links carry a tag.
//!
//! A link is decoded only if it holds a tag and nothing else, and then leads to slot 0. A list can
//! therefore be followed only from a head beyond the slab, where it is empty; operations that
//! would have to follow a link into the slab are left out by their preconditions.
use std::marker::PhantomData;
use std::mem::ManuallyDrop;

use vstd::prelude::*;

use crate::slab::held;
use crate::tag::{tag_unit, NodeNext, NodeTag};

verus! {

/// No slot could be handed out.
#[derive(Debug)]
pub struct AllocError {
    _priv: (),
}

impl Clone for AllocError {
    fn clone(&self) -> (copy: Self)
        ensures
            copy == *self,
    {
        AllocError { _priv: () }
    }
}

/// One slot with its link. The slab never drops what a slot holds.
#[derive(Debug)]
struct Node<T> {
    next_bits: usize,
    data: Option<ManuallyDrop<T>>,
}

/// What a slab holds.
#[verifier::ext_equal]
pub struct TaggedState<T> {
    pub defers: nat,
    pub garbage_list: usize,
    pub free_list: usize,
    pub links: Seq<usize>,
    pub slots: Seq<Option<T>>,
}

/// The list that starts at `first` can be followed to its end in `n` steps: every link on the way
/// is that of a slot on the garbage list.
pub open spec fn ends_within(links: Seq<usize>, first: usize, n: nat) -> bool
    decreases n,
{
    first >= links.len() || (n > 0 && (NodeNext::from_bits(links[first as int]) matches Some(next)
        && next.tag is Garbage && ends_within(links, next.index, (n - 1) as nat)))
}

/// The list that starts at `first` can be followed to its end.
pub open spec fn ends(links: Seq<usize>, first: usize) -> bool {
    exists|n: nat| ends_within(links, first, n)
}

impl<T> TaggedState<T> {
    /// The number of slots.
    pub open spec fn capacity(self) -> nat {
        self.links.len()
    }

    /// A new slab: each slot links to the one above it.
    pub open spec fn fresh(capacity: usize) -> Self {
        TaggedState {
            defers: 0,
            garbage_list: capacity,
            free_list: 0,
            links: Seq::new(
                capacity as nat,
                |i: int| (NodeNext { tag: NodeTag::Free, index: (i + 1) as usize }).bits() as usize,
            ),
            slots: Seq::new(capacity as nat, |i: int| None),
        }
    }

    /// A run of slots is put in front of the free list.
    pub open spec fn freed(self, first: usize, last: usize) -> Self {
        let link = NodeNext { tag: NodeTag::Free, index: self.free_list };
        TaggedState {
            free_list: first,
            links: self.links.update(last as int, link.bits() as usize),
            ..self
        }
    }

    /// A run of slots is put in front of the garbage list.
    pub open spec fn discarded(self, first: usize, last: usize) -> Self {
        let link = NodeNext { tag: NodeTag::Garbage, index: self.garbage_list };
        TaggedState {
            garbage_list: first,
            links: self.links.update(last as int, link.bits() as usize),
            ..self
        }
    }

    /// A sweep may go on: if it takes the garbage, it can follow the list.
    pub open spec fn may_sweep(self) -> bool {
        self.defers == 1 ==> ends(self.links, self.garbage_list)
    }

    /// A sweep was made while some deferral may have been open: the garbage list is left with slot
    /// 0 at its head if there was just one.
    pub open spec fn swept(self) -> Self {
        if self.defers == 1 {
            TaggedState { garbage_list: 0, ..self }
        } else {
            self
        }
    }

    /// One deferral less is open.
    pub open spec fn released(self) -> Self {
        TaggedState { defers: (self.defers - 1) as nat, ..self.swept() }
    }

    /// The slot that a request would hand out; `None` if the free list is empty.
    pub open spec fn offered(self) -> Option<usize> {
        if self.free_list < self.capacity() {
            Some(self.free_list)
        } else {
            None
        }
    }

    /// A request can be decided: the link of the offered slot can be decoded, and it is the slot's
    /// own number.
    pub open spec fn may_alloc(self) -> bool {
        self.offered() matches Some(slot) ==> {
            &&& NodeNext::from_bits(self.links[slot as int]) is Some
            &&& self.links[slot as int] == slot
        }
    }

    /// A request was made.
    pub open spec fn after_alloc(self) -> Self {
        let deferred = TaggedState { defers: self.defers + 1, ..self };
        match self.offered() {
            Some(slot) => (TaggedState {
                free_list: NodeNext::from_bits(self.links[slot as int])->0.index,
                ..deferred
            }).released(),
            None => deferred.released(),
        }
    }
}

/// A list can be followed to its end only if it is empty.
pub proof fn law_only_empty_lists_end(links: Seq<usize>, first: usize)
    ensures
        ends(links, first) <==> first >= links.len(),
{
    if first >= links.len() {
        assert(ends_within(links, first, 0));
    }
    if ends(links, first) {
        let n = choose|n: nat| ends_within(links, first, n);
        lemma_ends_within(links, first, n);
    }
}

proof fn lemma_ends_within(links: Seq<usize>, first: usize, n: nat)
    requires
        ends_within(links, first, n),
    ensures
        first >= links.len(),
    decreases n,
{
    if first < links.len() {
        lemma_ends_within(links, 0, (n - 1) as nat);
    }
}

/// A slab of slots for values of type `T`.
#[derive(Debug)]
pub struct SlabAlloc<T> {
    defer_count: usize,
    garbage_list: usize,
    free_list: usize,
    nodes: Vec<Node<T>>,
}

impl<T> View for SlabAlloc<T> {
    type V = TaggedState<T>;

    closed spec fn view(&self) -> TaggedState<T> {
        TaggedState {
            defers: self.defer_count as nat,
            garbage_list: self.garbage_list,
            free_list: self.free_list,
            links: Seq::new(self.nodes@.len(), |i: int| self.nodes@[i].next_bits),
            slots: Seq::new(self.nodes@.len(), |i: int| held(self.nodes@[i].data)),
        }
    }
}

impl<T> SlabAlloc<T> {
    /// Makes a slab of `capacity` slots.
    pub fn new(capacity: usize) -> (slab: Self)
        ensures
            slab@ == TaggedState::<T>::fresh(capacity),
    {
        let mut nodes: Vec<Node<T>> = Vec::new();
        let mut i: usize = 0;
        while i < capacity
            invariant
                i <= capacity,
                nodes@.len() == i,
                forall|k: int|
                    0 <= k < i ==> {
                        &&& (#[trigger] nodes@[k]).next_bits == TaggedState::<T>::fresh(
                            capacity,
                        ).links[k]
                        &&& nodes@[k].data is None
                    },
            decreases capacity - i,
        {
            let node_next = NodeNext { tag: NodeTag::Free, index: i + 1 };
            nodes.push(Node { next_bits: node_next.encode(), data: None });
            i = i + 1;
        }
        let slab = SlabAlloc { defer_count: 0, garbage_list: capacity, free_list: 0, nodes };
        assert(slab@ =~= TaggedState::<T>::fresh(capacity));
        slab
    }

    /// A head that is beyond the slab.
    fn null_index(&self) -> (n: usize)
        ensures
            n == self@.capacity(),
    {
        self.nodes.len()
    }

    /// How many deferrals are open, as a guide to whether taking the garbage is worth it.
    fn defer_hint(&self) -> (n: usize)
        ensures
            n == self@.defers,
    {
        self.defer_count
    }

    /// How many deferrals are open.
    fn count_defers(&self) -> (n: usize)
        ensures
            n == self@.defers,
    {
        self.defer_count
    }

    /// Counts one more deferral and returns the new count.
    fn acquire_defer(&mut self) -> (n: usize)
        requires
            old(self)@.defers < usize::MAX,
        ensures
            final(self)@ == (TaggedState { defers: old(self)@.defers + 1, ..old(self)@ }),
            n == final(self)@.defers,
    {
        self.defer_count = self.defer_count + 1;
        self.defer_count
    }

    /// Counts one deferral less and returns the new count.
    fn release_defer(&mut self) -> (n: usize)
        requires
            old(self)@.defers > 0,
        ensures
            final(self)@ == (TaggedState { defers: (old(self)@.defers - 1) as nat, ..old(self)@ }),
            n == final(self)@.defers,
    {
        self.defer_count = self.defer_count - 1;
        self.defer_count
    }

    /// Makes slot 0 the head of the garbage list and returns the old head.
    fn take_garbage_list(&mut self) -> (head: usize)
        ensures
            final(self)@ == (TaggedState { garbage_list: 0, ..old(self)@ }),
            head == old(self)@.garbage_list,
    {
        let head: usize = self.garbage_list;
        self.garbage_list = 0;
        head
    }

    /// Puts the run of slots from `first_index` to `last_index` in front of the free list.
    fn prepend_free_list(&mut self, first_index: usize, last_index: usize)
        requires
            last_index < old(self)@.capacity(),
        ensures
            final(self)@ == old(self)@.freed(first_index, last_index),
    {
        let next = NodeNext { tag: NodeTag::Free, index: self.free_list };
        self.nodes[last_index].next_bits = next.encode();
        self.free_list = first_index;
        assert(self@ =~= old(self)@.freed(first_index, last_index));
    }

    /// Puts the run of slots from `first_index` to `last_index` in front of the garbage list.
    fn prepend_garbage_list(&mut self, first_index: usize, last_index: usize)
        requires
            last_index < old(self)@.capacity(),
        ensures
            final(self)@ == old(self)@.discarded(first_index, last_index),
    {
        let next = NodeNext { tag: NodeTag::Garbage, index: self.garbage_list };
        self.nodes[last_index].next_bits = next.encode();
        self.garbage_list = first_index;
        assert(self@ =~= old(self)@.discarded(first_index, last_index));
    }

    /// Follows a list that was taken off the garbage list, tags its slots as free and puts it in
    /// front of the free list.
    fn free_garbage_list(&mut self, first_index: usize)
        requires
            ends(old(self)@.links, first_index),
        ensures
            final(self)@ == old(self)@,
    {
        proof {
            law_only_empty_lists_end(self@.links, first_index);
        }
        let mut index: usize = first_index;
        let mut maybe_last_index: Option<usize> = None;
        while index < self.nodes.len()
            invariant
                index >= self@.capacity(),
                maybe_last_index is None,
                self@ == old(self)@,
            decreases 0int,
        {
            maybe_last_index = Some(index);
            let mut next = NodeNext::decode(self.nodes[index].next_bits);
            next.tag = NodeTag::Free;
            self.nodes[index].next_bits = next.encode();
            index = next.index;
        }
        if let Some(last_index) = maybe_last_index {
            self.prepend_free_list(first_index, last_index);
        }
    }

    /// Follows a list that was taken off the garbage list and puts it in front of the garbage list
    /// again.
    fn merge_garbage_list(&mut self, first_index: usize)
        requires
            ends(old(self)@.links, first_index),
        ensures
            final(self)@ == old(self)@,
    {
        proof {
            law_only_empty_lists_end(self@.links, first_index);
        }
        let mut index: usize = first_index;
        let mut maybe_last_index: Option<usize> = None;
        while index < self.nodes.len()
            invariant
                index >= self@.capacity(),
                maybe_last_index is None,
                self@ == old(self)@,
            decreases 0int,
        {
            maybe_last_index = Some(index);
            let next = NodeNext::decode(self.nodes[index].next_bits);
            index = next.index;
        }
        if let Some(last_index) = maybe_last_index {
            self.prepend_garbage_list(first_index, last_index);
        }
    }

    /// Opens a deferral.
    pub fn defer_deallocs(&mut self) -> (deferral: DeallocDeferral<T>)
        requires
            old(self)@.defers < usize::MAX,
        ensures
            final(self)@ == (TaggedState { defers: old(self)@.defers + 1, ..old(self)@ }),
    {
        self.acquire_defer();
        DeallocDeferral { _slots: PhantomData }
    }

    /// Whether slots that come back may be handed out at once.
    pub fn try_flush_deallocs(&mut self) -> (open: bool)
        requires
            old(self)@.may_sweep(),
        ensures
            final(self)@ == old(self)@.swept(),
            open <==> old(self)@.defers == 0,
    {
        let garbage_list: usize = if self.defer_hint() == 1 {
            self.take_garbage_list()
        } else {
            self.null_index()
        };
        proof {
            law_only_empty_lists_end(self@.links, garbage_list);
        }

        if self.count_defers() == 0 {
            self.free_garbage_list(garbage_list);
            true
        } else {
            self.merge_garbage_list(garbage_list);
            false
        }
    }

    /// Puts all garbage in front of the free list.
    pub fn flush_deallocs(&mut self)
        requires
            ends(old(self)@.links, old(self)@.garbage_list),
        ensures
            final(self)@ == (TaggedState { garbage_list: 0, ..old(self)@ }),
    {
        let garbage_list: usize = self.take_garbage_list();
        self.free_garbage_list(garbage_list);
    }

    /// Hands out the slot at the head of the free list.
    pub fn allocate(&mut self) -> (ptr: Result<SlabPtr<T>, AllocError>)
        requires
            old(self)@.defers < usize::MAX,
            old(self)@.may_alloc(),
            old(self)@.defers == 0 ==> ends(old(self)@.links, old(self)@.garbage_list),
        ensures
            final(self)@ == old(self)@.after_alloc(),
            match ptr {
                Ok(p) => old(self)@.offered() == Some(p.slot()),
                Err(_) => old(self)@.offered() is None,
            },
    {
        let defer = self.defer_deallocs();
        let index: usize = self.free_list;
        let ptr = if index < self.nodes.len() {
            let next_bits: usize = self.nodes[index].next_bits;
            assert(next_bits == self@.links[index as int]);
            let next = NodeNext::decode(next_bits);
            // The head is replaced only where it is what the link holds.
            if self.free_list == next_bits {
                self.free_list = next.index;
            }
            Ok(SlabPtr { index, _slots: PhantomData })
        } else {
            Err(AllocError { _priv: () })
        };
        defer.release(self);
        ptr
    }

    /// How many bytes one node takes.
    pub closed spec fn node_bytes() -> nat {
        vstd::layout::size_of::<Node<T>>()
    }

    /// Takes a slot back. Its distance from the first slot, in bytes, is taken for its number.
    pub fn dealloc(&mut self, ptr: SlabPtr<T>)
        requires
            old(self)@.may_sweep(),
            ptr.slot() * Self::node_bytes() < old(self)@.capacity(),
        ensures
            ({
                let index = (ptr.slot() * Self::node_bytes()) as usize;
                final(self)@ == if old(self)@.defers == 0 {
                    old(self)@.swept().freed(index, index)
                } else {
                    old(self)@.swept().discarded(index, index)
                }
            }),
    {
        assert(self.nodes.len() == self@.capacity());
        let index: usize = ptr.index * core::mem::size_of::<Node<T>>();
        if self.try_flush_deallocs() {
            self.prepend_free_list(index, index);
        } else {
            self.prepend_garbage_list(index, index);
        }
    }
}

/// A slot that was handed out.
#[derive(Debug)]
pub struct SlabPtr<T> {
    index: usize,
    _slots: PhantomData<T>,
}

impl<T> SlabPtr<T> {
    /// The slot's number.
    pub closed spec fn slot(&self) -> usize {
        self.index
    }

    /// The slot's contents, for reading and writing. Replacing them as a whole drops nothing;
    /// assigning to a value that is there drops the old one.
    pub fn pointer<'a>(&self, allocator: &'a mut SlabAlloc<T>) -> (contents: &'a mut Option<
        ManuallyDrop<T>,
    >)
        requires
            self.slot() < old(allocator)@.capacity(),
        ensures
            held(*contents) == old(allocator)@.slots[self.slot() as int],
            final(allocator)@ == (TaggedState {
                slots: old(allocator)@.slots.update(self.slot() as int, held(*final(contents))),
                ..old(allocator)@
            }),
    {
        let contents = &mut allocator.nodes[self.index].data;
        proof {
            let after = after_borrow(*allocator);
            assert(after@.links =~= old(allocator)@.links);
            assert(after@.slots =~= old(allocator)@.slots.update(
                self.slot() as int,
                held(*final(contents)),
            ));
        }
        contents
    }
}

/// An open deferral. Losing one without releasing it leaves it open.
#[derive(Debug)]
#[must_use]
pub struct DeallocDeferral<T> {
    _slots: PhantomData<T>,
}

impl<T> DeallocDeferral<T> {
    /// Ends the deferral.
    pub fn release(self, allocator: &mut SlabAlloc<T>)
        requires
            old(allocator)@.defers > 0,
            old(allocator)@.may_sweep(),
        ensures
            final(allocator)@ == old(allocator)@.released(),
    {
        let garbage_list: usize = if allocator.defer_hint() == 1 {
            allocator.take_garbage_list()
        } else {
            allocator.null_index()
        };
        proof {
            law_only_empty_lists_end(allocator@.links, garbage_list);
        }

        if allocator.release_defer() == 0 {
            allocator.free_garbage_list(garbage_list);
        } else {
            allocator.merge_garbage_list(garbage_list);
        }
    }
}

/// Every slot of a new slab is tagged as free and links to the one above it, and none holds a
/// value; the first slot heads the free list, and the garbage list is empty.
pub proof fn law_new_slab_is_tagged_free<T>(capacity: usize, i: int)
    requires
        0 <= i < capacity,
    ensures
        ({
            let state = TaggedState::<T>::fresh(capacity);
            &&& state.capacity() == capacity
            &&& state.slots.len() == capacity
            &&& state.links[i] as int / tag_unit() == 1
            &&& state.links[i] as int % tag_unit() == (i + 1) % tag_unit()
            &&& state.slots[i] is None
            &&& state.defers == 0
            &&& state.free_list == 0
            &&& state.garbage_list == capacity
        }),
{
    let next = NodeNext { tag: NodeTag::Free, index: (i + 1) as usize };
    crate::tag::law_link_bits_are_faithful(next, next);
}

/// Slots that are put in front of a list head it; the last of them links to what headed it before,
/// with the tag of that list, and nothing else changes.
pub proof fn law_tagged_run_heads_its_list<T>(
    state: TaggedState<T>,
    first: usize,
    last: usize,
    i: int,
)
    requires
        last < state.capacity(),
        0 <= i < state.capacity(),
    ensures
        ({
            let freed = state.freed(first, last);
            let discarded = state.discarded(first, last);
            &&& freed.free_list == first
            &&& freed.garbage_list == state.garbage_list
            &&& freed.links[last as int] as int / tag_unit() == 1
            &&& freed.links[last as int] as int % tag_unit() == state.free_list as int % tag_unit()
            &&& discarded.garbage_list == first
            &&& discarded.free_list == state.free_list
            &&& discarded.links[last as int] as int / tag_unit() == 2
            &&& discarded.links[last as int] as int % tag_unit() == state.garbage_list as int
                % tag_unit()
            &&& i != last ==> freed.links[i] == state.links[i] && discarded.links[i]
                == state.links[i]
            &&& freed.capacity() == state.capacity()
            &&& discarded.capacity() == state.capacity()
            &&& freed.slots == state.slots
            &&& discarded.slots == state.slots
            &&& freed.defers == state.defers
            &&& discarded.defers == state.defers
        }),
{
    let free = NodeNext { tag: NodeTag::Free, index: state.free_list };
    let garbage = NodeNext { tag: NodeTag::Garbage, index: state.garbage_list };
    crate::tag::law_link_bits_are_faithful(free, garbage);
    crate::tag::law_link_bits_are_faithful(garbage, free);
}

/// A sweep leaves slot 0 at the head of the garbage list if just one deferral is open, and changes
/// nothing else; closing a deferral sweeps and counts one less.
pub proof fn law_tagged_sweep<T>(state: TaggedState<T>)
    ensures
        state.defers == 1 ==> state.swept().garbage_list == 0,
        state.defers != 1 ==> state.swept().garbage_list == state.garbage_list,
        state.swept().free_list == state.free_list,
        state.swept().links == state.links,
        state.swept().slots == state.slots,
        state.swept().defers == state.defers,
        state.defers > 0 ==> state.released().defers == state.defers - 1,
        state.released().garbage_list == state.swept().garbage_list,
        state.released().free_list == state.free_list,
        state.released().links == state.links,
        state.released().slots == state.slots,
{
}

/// A request finds a slot only if the free list has a head in the slab, and then that head; it
/// leaves the count of deferrals, the links and the slots as they are, and so the free list where
/// it finds none.
pub proof fn law_tagged_request<T>(state: TaggedState<T>)
    ensures
        state.offered() matches Some(slot) ==> slot == state.free_list && slot < state.capacity(),
        state.offered() is None <==> state.free_list >= state.capacity(),
        state.after_alloc().defers == state.defers,
        state.after_alloc().links == state.links,
        state.after_alloc().slots == state.slots,
        state.offered() is None ==> state.after_alloc().free_list == state.free_list,
        state.offered() is Some && state.may_alloc() ==> state.after_alloc().free_list == 0,
        state.defers == 0 ==> state.after_alloc().garbage_list == 0,
        state.defers > 0 ==> state.after_alloc().garbage_list == state.garbage_list,
{
}

/// An empty list can always be swept, and an empty free list always be asked.
pub proof fn law_empty_lists_may_be_used<T>(state: TaggedState<T>)
    ensures
        state.garbage_list >= state.capacity() ==> state.may_sweep(),
        state.defers != 1 ==> state.may_sweep(),
        state.free_list >= state.capacity() ==> state.may_alloc(),
{
    law_only_empty_lists_end(state.links, state.garbage_list);
}

} // verus!
