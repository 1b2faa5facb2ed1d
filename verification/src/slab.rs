//! A fixed-capacity slab of slots for values of one type.
//!
//! A slab hands out slots from a free list and takes them back. While a deferral is open, slots
//! that come back are kept on a garbage list instead, so that none of them is handed out again
//! before the last deferral is released.
//!
//! [`SlabAlloc`] is the form with a single owner: each operation has the slab to itself. The form
//! that threads share performs the same operations one memory access at a time; see
//! [`crate::protocol`].
use std::marker::PhantomData;
use std::mem::ManuallyDrop;

use vstd::prelude::*;

use crate::list::List;

verus! {

broadcast use vstd::seq_lib::group_seq_properties;

/// There was no free slot.
#[derive(Debug)]
pub struct AllocError {
    _priv: (),
}

impl Clone for AllocError {
    fn clone(&self) -> (copy: Self)
        ensures
            copy == *self,
    {
        AllocError { _priv: () }
    }
}

/// One slot with its link. The slab never drops what a slot holds.
#[derive(Debug)]
struct Node<T> {
    next: usize,
    data: Option<ManuallyDrop<T>>,
}

/// The value that a slot holds, if anything was stored in it.
pub open spec fn held<T>(contents: Option<ManuallyDrop<T>>) -> Option<T> {
    match contents {
        Some(value) => Some(value@),
        None => None,
    }
}

/// What a slab holds: its two lists, how many deferrals are open, and the contents of its slots.
///
/// The lists are written from their end to their head (see [`crate::list`]).
#[verifier::ext_equal]
pub struct SlabState<T> {
    pub free: Seq<usize>,
    pub garbage: Seq<usize>,
    pub defers: nat,
    pub slots: Seq<Option<T>>,
}

impl<T> SlabState<T> {
    /// The number of slots.
    pub open spec fn capacity(self) -> nat {
        self.slots.len()
    }

    /// Each list holds slots of this slab, none of them twice, and no slot is on both lists.
    pub open spec fn valid(self) -> bool {
        &&& crate::list::distinct_slots(self.capacity(), self.free)
        &&& crate::list::distinct_slots(self.capacity(), self.garbage)
        &&& crate::list::disjoint(self.free, self.garbage)
    }

    /// The slot is handed out: it is on neither list.
    pub open spec fn allocated(self, slot: usize) -> bool {
        &&& slot < self.capacity()
        &&& !self.free.contains(slot)
        &&& !self.garbage.contains(slot)
    }

    /// The slab that nothing was taken from: all slots are free, the lowest first.
    pub open spec fn fresh(capacity: usize) -> Self {
        SlabState {
            free: Seq::new(capacity as nat, |k: int| (capacity - 1 - k) as usize),
            garbage: Seq::empty(),
            defers: 0,
            slots: Seq::new(capacity as nat, |i: int| None),
        }
    }

    /// One more deferral is open.
    pub open spec fn deferred(self) -> Self {
        SlabState { defers: self.defers + 1, ..self }
    }

    /// All garbage is put in front of the free list.
    pub open spec fn flushed(self) -> Self {
        SlabState { free: self.free + self.garbage, garbage: Seq::empty(), ..self }
    }

    /// The garbage is taken off its list.
    pub open spec fn garbage_taken(self) -> Self {
        SlabState { garbage: Seq::empty(), ..self }
    }

    /// A run of slots is put in front of the garbage list.
    pub open spec fn garbage_joined(self, run: Seq<usize>) -> Self {
        SlabState { garbage: self.garbage + run, ..self }
    }

    /// A run of slots is put in front of the free list.
    pub open spec fn free_joined(self, run: Seq<usize>) -> Self {
        SlabState { free: self.free + run, ..self }
    }

    /// One deferral less is open; the last one to go flushes the garbage.
    pub open spec fn released(self) -> Self {
        let left = SlabState { defers: (self.defers - 1) as nat, ..self };
        if left.defers == 0 {
            left.flushed()
        } else {
            left
        }
    }

    /// The head of the free list, if there is one, is handed out.
    pub open spec fn popped(self) -> Self {
        if self.free.len() > 0 {
            SlabState { free: self.free.drop_last(), ..self }
        } else {
            self
        }
    }

    /// The slot is put in front of the free list, or of the garbage list while a deferral is open.
    pub open spec fn returned(self, slot: usize) -> Self {
        if self.defers == 0 {
            SlabState { free: self.free.push(slot), ..self }
        } else {
            SlabState { garbage: self.garbage.push(slot), ..self }
        }
    }

    /// A slot was asked for: the request counts as a deferral of its own while it lasts.
    pub open spec fn after_alloc(self) -> Self {
        self.deferred().popped().released()
    }

    /// The contents of one slot are replaced.
    pub open spec fn stored(self, slot: usize, value: Option<T>) -> Self {
        SlabState { slots: self.slots.update(slot as int, value), ..self }
    }
}

/// A slab of slots for values of type `T`.
#[derive(Debug)]
pub struct SlabAlloc<T> {
    defer_count: usize,
    garbage_list: usize,
    free_list: usize,
    nodes: Vec<Node<T>>,
}

impl<T> View for SlabAlloc<T> {
    type V = SlabState<T>;

    closed spec fn view(&self) -> SlabState<T> {
        SlabState {
            free: crate::list::list_from(self.links(), self.free_list),
            garbage: crate::list::list_from(self.links(), self.garbage_list),
            defers: self.defer_count as nat,
            slots: Seq::new(self.nodes@.len(), |i: int| held(self.nodes@[i].data)),
        }
    }
}

impl<T> SlabAlloc<T> {
    /// The links of all slots.
    pub closed spec fn links(&self) -> Seq<usize> {
        Seq::new(self.nodes@.len(), |i: int| self.nodes@[i].next)
    }

    /// The head of a list.
    pub closed spec fn head(&self, list: List) -> usize {
        match list {
            List::Free => self.free_list,
            List::Garbage => self.garbage_list,
        }
    }

    /// The list that starts at `first`.
    pub open spec fn list_at(&self, first: usize) -> Seq<usize> {
        crate::list::list_from(self.links(), first)
    }

    /// A list starts at `first`, and none of its slots is free or garbage.
    pub open spec fn loose(&self, first: usize) -> bool {
        &&& crate::list::linked(self.links(), first, self.list_at(first))
        &&& crate::list::disjoint(self@.free, self.list_at(first))
        &&& crate::list::disjoint(self@.garbage, self.list_at(first))
    }

    /// The links after a run of slots that ends at `last` was put in front of a list.
    pub open spec fn links_joined(&self, last: usize, dest: List) -> Seq<usize> {
        self.links().update(last as int, self.head(dest))
    }

    /// The links make up the two lists, and the lists share no slot.
    pub closed spec fn wf(&self) -> bool {
        &&& crate::list::linked(self.links(), self.free_list, self@.free)
        &&& crate::list::linked(self.links(), self.garbage_list, self@.garbage)
        &&& crate::list::disjoint(self@.free, self@.garbage)
    }

    /// The state of a well-formed slab is valid, and its capacity is one that can be counted.
    pub proof fn lemma_valid(&self)
        requires
            self.wf(),
        ensures
            self@.valid(),
            self@.capacity() <= usize::MAX,
    {
        assert(self.nodes.len() == self@.capacity());
    }

    /// Makes a slab of `capacity` free slots.
    pub fn new(capacity: usize) -> (slab: Self)
        ensures
            slab.wf(),
            slab@ == SlabState::<T>::fresh(capacity),
    {
        let mut nodes: Vec<Node<T>> = Vec::new();
        let mut i: usize = 0;
        while i < capacity
            invariant
                i <= capacity,
                nodes@.len() == i,
                forall|k: int|
                    0 <= k < i ==> (#[trigger] nodes@[k]).next == k + 1 && nodes@[k].data is None,
            decreases capacity - i,
        {
            nodes.push(Node { next: i + 1, data: None });
            i = i + 1;
        }
        let slab = SlabAlloc {
            defer_count: 0,
            garbage_list: capacity,
            free_list: 0,
            nodes,
        };
        proof {
            let free = SlabState::<T>::fresh(capacity).free;
            crate::list::lemma_list_from(slab.links(), 0, free);
            crate::list::lemma_list_from(slab.links(), capacity, Seq::empty());
        }
        assert(slab@.slots =~= SlabState::<T>::fresh(capacity).slots);
        slab
    }

    /// The number of slots.
    pub fn capacity(&self) -> (n: usize)
        ensures
            n == self@.capacity(),
    {
        self.nodes.len()
    }

    /// The link that ends a list, and the head that stands for no list.
    pub(crate) fn null_index(&self) -> (n: usize)
        ensures
            n == self@.capacity(),
            self.loose(n),
            self.list_at(n) == Seq::<usize>::empty(),
    {
        proof {
            crate::list::lemma_list_from(self.links(), self.nodes.len(), Seq::empty());
        }
        self.nodes.len()
    }

    /// How many deferrals are open, as a guide to whether taking the garbage is worth it.
    fn defer_hint(&self) -> (n: usize)
        ensures
            n == self@.defers,
    {
        self.defer_count
    }

    /// How many deferrals are open.
    fn count_defers(&self) -> (n: usize)
        ensures
            n == self@.defers,
    {
        self.defer_count
    }

    /// Counts one more deferral and returns the new count.
    fn acquire_defer(&mut self) -> (n: usize)
        requires
            old(self).wf(),
            old(self)@.defers < usize::MAX,
        ensures
            final(self).wf(),
            final(self)@ == old(self)@.deferred(),
            n == final(self)@.defers,
            final(self).links() == old(self).links(),
    {
        self.defer_count = self.defer_count + 1;
        assert(self.links() =~= old(self).links());
        self.defer_count
    }

    /// Counts one deferral less and returns the new count.
    fn release_defer(&mut self) -> (n: usize)
        requires
            old(self).wf(),
            old(self)@.defers > 0,
        ensures
            final(self).wf(),
            final(self)@ == (SlabState { defers: (old(self)@.defers - 1) as nat, ..old(self)@ }),
            n == final(self)@.defers,
            final(self).links() == old(self).links(),
    {
        self.defer_count = self.defer_count - 1;
        assert(self.links() =~= old(self).links());
        self.defer_count
    }

    /// Empties the garbage list and returns its old head.
    pub(crate) fn take_garbage_list(&mut self) -> (head: usize)
        requires
            old(self).wf(),
        ensures
            final(self).wf(),
            final(self)@ == old(self)@.garbage_taken(),
            final(self).links() == old(self).links(),
            head == old(self).head(List::Garbage),
            final(self).head(List::Garbage) == old(self)@.capacity(),
            final(self).loose(head),
            final(self).list_at(head) == old(self)@.garbage,
            old(self).gave_garbage(head, final(self)),
    {
        let head: usize = self.garbage_list;
        self.garbage_list = self.null_index();
        assert(self.links() =~= old(self).links());
        proof {
            crate::list::lemma_list_from(self.links(), self.garbage_list, Seq::empty());
        }
        head
    }

    /// The garbage was taken from the slab: `head` was the head of its garbage list, and `after` is
    /// the slab without it. The links are as they were.
    pub open spec fn gave_garbage(&self, head: usize, after: &Self) -> bool {
        &&& head == self.head(List::Garbage)
        &&& after@ == self@.garbage_taken()
        &&& after.links() == self.links()
        &&& after.head(List::Garbage) == self@.capacity()
    }

    /// The list that starts at `first` was put in front of the garbage list: `after` is the slab
    /// with it.
    pub open spec fn merged_garbage(&self, first: usize, after: &Self) -> bool {
        &&& self.loose(first)
        &&& after@ == self@.garbage_joined(self.list_at(first))
    }

    /// Merging undoes taking: if the garbage is taken and then merged again, the slab is what it
    /// was.
    pub proof fn law_merge_undoes_take(&self, head: usize, between: &Self, after: &Self)
        requires
            self.wf(),
            self.gave_garbage(head, between),
            between.merged_garbage(head, after),
        ensures
            after@ == self@,
    {
        assert(between.list_at(head) == self@.garbage);
        assert(after@.garbage =~= self@.garbage);
    }

    /// A merge of no list, which is what a head beyond the slab stands for, changes nothing.
    pub proof fn law_merge_of_nothing(&self, first: usize, after: &Self)
        requires
            first >= self@.capacity(),
            self.merged_garbage(first, after),
        ensures
            after@ == self@,
    {
        crate::list::lemma_list_from(self.links(), first, Seq::empty());
        assert(after@.garbage =~= self@.garbage);
    }

    /// Taking the garbage empties its list and changes nothing else, so a second take gives the
    /// head beyond the slab, which stands for no list, and leaves the slab as it is.
    pub proof fn law_second_take_finds_nothing(
        &self,
        first: usize,
        between: &Self,
        second: usize,
        after: &Self,
    )
        requires
            self.gave_garbage(first, between),
            between.gave_garbage(second, after),
        ensures
            between@.garbage.len() == 0,
            between@.free == self@.free,
            between@.defers == self@.defers,
            between@.slots == self@.slots,
            second == self@.capacity(),
            after@ == between@,
    {
    }

    /// The end of the list that starts at `first_index`; `None` if the list is empty.
    fn find_last_node(&self, first_index: usize) -> (last: Option<usize>)
        requires
            crate::list::linked(self.links(), first_index, self.list_at(first_index)),
        ensures
            match last {
                Some(i) => self.list_at(first_index).len() > 0 && i == self.list_at(first_index)[0],
                None => self.list_at(first_index).len() == 0,
            },
    {
        let ghost next = self.links();
        let ghost list = self.list_at(first_index);
        let ghost mut rest = list;
        let mut index: usize = first_index;
        let mut last_index: Option<usize> = None;
        while index < self.nodes.len()
            invariant
                next == self.links(),
                crate::list::linked(next, index, rest),
                rest == list.take(rest.len() as int),
                rest.len() <= list.len(),
                last_index is None <==> rest.len() == list.len(),
                last_index matches Some(i) ==> i == list[rest.len() as int],
            decreases rest.len(),
        {
            last_index = Some(index);
            proof {
                crate::list::lemma_linked_pop(next, index, rest);
                assert(rest.last() == list[rest.len() - 1]);
                assert(rest.drop_last() =~= list.take(rest.len() - 1));
                rest = rest.drop_last();
            }
            index = self.nodes[index].next;
        }
        last_index
    }

    /// Puts the run of slots from `first_index` to `last_index` in front of a list.
    fn prepend(
        &mut self,
        first_index: usize,
        last_index: usize,
        dest: List,
        Ghost(run): Ghost<Seq<usize>>,
    )
        requires
            old(self).wf(),
            crate::list::segment(old(self).links(), first_index, last_index, run),
            crate::list::disjoint(old(self)@.free, run),
            crate::list::disjoint(old(self)@.garbage, run),
        ensures
            final(self).wf(),
            final(self)@ == match dest {
                List::Free => old(self)@.free_joined(run),
                List::Garbage => old(self)@.garbage_joined(run),
            },
            final(self).links() == old(self).links_joined(last_index, dest),
            final(self).head(dest) == first_index,
    {
        let dest_first: usize = match dest {
            List::Free => self.free_list,
            List::Garbage => self.garbage_list,
        };
        self.nodes[last_index].next = dest_first;
        match dest {
            List::Free => self.free_list = first_index,
            List::Garbage => self.garbage_list = first_index,
        }
        proof {
            let before = old(self).links();
            let after = self.links();
            let free = old(self)@.free;
            let garbage = old(self)@.garbage;
            assert(after =~= before.update(last_index as int, dest_first));
            crate::list::lemma_linked_frame(before, old(self).free_list, free, last_index, dest_first);
            crate::list::lemma_linked_frame(
                before, old(self).garbage_list, garbage, last_index, dest_first,
            );
            crate::list::lemma_segment_frame(before, first_index, last_index, run, dest_first);
            match dest {
                List::Free => {
                    crate::list::lemma_linked_concat(
                        after, old(self).free_list, free, first_index, last_index, run,
                    );
                    crate::list::lemma_list_from(after, first_index, free + run);
                    crate::list::lemma_list_from(after, self.garbage_list, garbage);
                },
                List::Garbage => {
                    crate::list::lemma_linked_concat(
                        after, old(self).garbage_list, garbage, first_index, last_index, run,
                    );
                    crate::list::lemma_list_from(after, first_index, garbage + run);
                    crate::list::lemma_list_from(after, self.free_list, free);
                },
            }
            assert(self@.slots =~= old(self)@.slots);
        }
    }

    /// Puts the run of slots from `first_index` to `last_index` in front of the free list.
    fn prepend_free_list(
        &mut self,
        first_index: usize,
        last_index: usize,
        Ghost(run): Ghost<Seq<usize>>,
    )
        requires
            old(self).wf(),
            crate::list::segment(old(self).links(), first_index, last_index, run),
            crate::list::disjoint(old(self)@.free, run),
            crate::list::disjoint(old(self)@.garbage, run),
        ensures
            final(self).wf(),
            final(self)@ == old(self)@.free_joined(run),
            final(self).links() == old(self).links_joined(last_index, List::Free),
    {
        self.prepend(first_index, last_index, List::Free, Ghost(run));
    }

    /// Puts the run of slots from `first_index` to `last_index` in front of the garbage list.
    fn prepend_garbage_list(
        &mut self,
        first_index: usize,
        last_index: usize,
        Ghost(run): Ghost<Seq<usize>>,
    )
        requires
            old(self).wf(),
            crate::list::segment(old(self).links(), first_index, last_index, run),
            crate::list::disjoint(old(self)@.free, run),
            crate::list::disjoint(old(self)@.garbage, run),
        ensures
            final(self).wf(),
            final(self)@ == old(self)@.garbage_joined(run),
            final(self).links() == old(self).links_joined(last_index, List::Garbage),
    {
        self.prepend(first_index, last_index, List::Garbage, Ghost(run));
    }

    /// Puts a list that was taken off the garbage list in front of the free list.
    pub(crate) fn free_garbage_list(&mut self, first_index: usize)
        requires
            old(self).wf(),
            old(self).loose(first_index),
        ensures
            final(self).wf(),
            final(self)@ == old(self)@.free_joined(old(self).list_at(first_index)),
            final(self).links() == if old(self).list_at(first_index).len() > 0 {
                old(self).links_joined(old(self).list_at(first_index)[0], List::Free)
            } else {
                old(self).links()
            },
    {
        let ghost taken = self.list_at(first_index);
        match self.find_last_node(first_index) {
            Some(last_index) => self.prepend_free_list(first_index, last_index, Ghost(taken)),
            None => {
                assert(self@.free + taken =~= self@.free);
            },
        }
    }

    /// Puts a list that was taken off the garbage list in front of the garbage list again.
    pub(crate) fn merge_garbage_list(&mut self, first_index: usize)
        requires
            old(self).wf(),
            old(self).loose(first_index),
        ensures
            final(self).wf(),
            final(self)@ == old(self)@.garbage_joined(old(self).list_at(first_index)),
            final(self).links() == if old(self).list_at(first_index).len() > 0 {
                old(self).links_joined(old(self).list_at(first_index)[0], List::Garbage)
            } else {
                old(self).links()
            },
            old(self).merged_garbage(first_index, final(self)),
    {
        let ghost taken = self.list_at(first_index);
        match self.find_last_node(first_index) {
            Some(last_index) => self.prepend_garbage_list(first_index, last_index, Ghost(taken)),
            None => {
                assert(self@.garbage + taken =~= self@.garbage);
            },
        }
    }

    /// Opens a deferral: until it is released, slots that come back are not handed out again.
    pub fn defer_deallocs(&mut self) -> (deferral: DeallocDeferral<T>)
        requires
            old(self).wf(),
            old(self)@.defers < usize::MAX,
        ensures
            final(self).wf(),
            final(self)@ == old(self)@.deferred(),
    {
        self.acquire_defer();
        DeallocDeferral { _slots: PhantomData }
    }

    /// Whether slots that come back may be handed out at once. Garbage that is taken to be freed
    /// goes back where it was if a deferral turns out to be open.
    pub fn try_flush_deallocs(&mut self) -> (open: bool)
        requires
            old(self).wf(),
        ensures
            final(self).wf(),
            final(self)@ == old(self)@,
            open <==> old(self)@.defers == 0,
    {
        let garbage_list: usize = if self.defer_hint() == 1 {
            self.take_garbage_list()
        } else {
            self.null_index()
        };

        if self.count_defers() == 0 {
            self.free_garbage_list(garbage_list);
            assert(self@ =~= old(self)@);
            true
        } else {
            self.merge_garbage_list(garbage_list);
            assert(self@ =~= old(self)@);
            false
        }
    }

    /// Puts all garbage in front of the free list, whether or not deferrals are open.
    pub fn flush_deallocs(&mut self)
        requires
            old(self).wf(),
        ensures
            final(self).wf(),
            final(self)@ == old(self)@.flushed(),
    {
        let garbage_list: usize = self.take_garbage_list();
        self.free_garbage_list(garbage_list);
    }

    /// Hands out the slot at the head of the free list. If no other deferral is open, garbage is
    /// freed afterwards.
    pub fn allocate(&mut self) -> (handle: Result<AllocHandle<T>, AllocError>)
        requires
            old(self).wf(),
            old(self)@.defers < usize::MAX,
        ensures
            final(self).wf(),
            final(self)@ == old(self)@.after_alloc(),
            match handle {
                Ok(h) => old(self)@.free.len() > 0 && h.slot() == old(self)@.free.last(),
                Err(_) => old(self)@.free.len() == 0,
            },
    {
        let defer = self.defer_deallocs();
        let ghost deferred = *self;
        let index: usize = self.free_list;
        let handle = if index < self.nodes.len() {
            let next: usize = self.nodes[index].next;
            self.free_list = next;
            proof {
                let free = old(self)@.free;
                assert(self.links() =~= deferred.links());
                crate::list::lemma_linked_pop(self.links(), index, free);
                crate::list::lemma_list_from(self.links(), next, free.drop_last());
            }
            Ok(AllocHandle { index, _slots: PhantomData })
        } else {
            Err(AllocError { _priv: () })
        };
        defer.release(self);
        handle
    }

    /// Takes a slot back. What it holds stays in it.
    pub fn dealloc(&mut self, ptr: AllocHandle<T>)
        requires
            old(self).wf(),
            old(self)@.allocated(ptr.slot()),
        ensures
            final(self).wf(),
            final(self)@ == old(self)@.returned(ptr.slot()),
    {
        let index: usize = ptr.index;
        let ghost run = seq![index];
        if self.try_flush_deallocs() {
            self.prepend_free_list(index, index, Ghost(run));
            assert(self@.free =~= old(self)@.free.push(index));
        } else {
            self.prepend_garbage_list(index, index, Ghost(run));
            assert(self@.garbage =~= old(self)@.garbage.push(index));
        }
    }
}

/// A slot that was handed out.
#[derive(Debug)]
pub struct AllocHandle<T> {
    index: usize,
    _slots: PhantomData<T>,
}

impl<T> AllocHandle<T> {
    /// The slot's number.
    pub closed spec fn slot(&self) -> usize {
        self.index
    }

    /// The slot's contents, for reading and writing. Replacing them as a whole drops nothing;
    /// assigning to a value that is there drops the old one.
    pub fn pointer<'a>(&self, allocator: &'a mut SlabAlloc<T>) -> (contents: &'a mut Option<
        ManuallyDrop<T>,
    >)
        requires
            old(allocator).wf(),
            old(allocator)@.allocated(self.slot()),
        ensures
            held(*contents) == old(allocator)@.slots[self.slot() as int],
            final(allocator).wf(),
            final(allocator)@ == old(allocator)@.stored(self.slot(), held(*final(contents))),
    {
        let contents = &mut allocator.nodes[self.index].data;
        proof {
            let after = after_borrow(*allocator);
            assert(after.links() =~= old(allocator).links());
            assert(after@.slots =~= old(allocator)@.slots.update(
                self.slot() as int,
                held(*final(contents)),
            ));
        }
        contents
    }
}

/// An open deferral. Losing one without releasing it leaves it open.
#[derive(Debug)]
#[must_use]
pub struct DeallocDeferral<T> {
    _slots: PhantomData<T>,
}

impl<T> DeallocDeferral<T> {
    /// Ends the deferral. If it was the last one, all garbage becomes free.
    pub fn release(self, allocator: &mut SlabAlloc<T>)
        requires
            old(allocator).wf(),
            old(allocator)@.defers > 0,
        ensures
            final(allocator).wf(),
            final(allocator)@ == old(allocator)@.released(),
    {
        let garbage_list: usize = if allocator.defer_hint() == 1 {
            allocator.take_garbage_list()
        } else {
            allocator.null_index()
        };

        if allocator.release_defer() == 0 {
            allocator.free_garbage_list(garbage_list);
        } else {
            allocator.merge_garbage_list(garbage_list);
        }
        assert(allocator@ =~= old(allocator)@.released());
    }
}

} // verus!
