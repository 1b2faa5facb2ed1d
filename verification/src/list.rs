//! Singly linked lists threaded through a table of links.
//!
//! A table of `n` links holds, for each slot, the slot that follows it. Any link that is not
//! below `n` ends a list; the canonical end is `n` itself. Lists are described from the end to
//! the head: element 0 of the sequence is the end of the list and the last element its head, so
//! that prepending extends the sequence and taking the head off shortens it.
use vstd::prelude::*;

verus! {

/// Which of the two lists of a slab.
#[derive(Debug, Clone, Copy, PartialEq, Eq, Structural)]
pub enum List {
    /// Slots ready to be handed out.
    Free,
    /// Slots given back while a deferral was open.
    Garbage,
}

/// All elements of `list` are slots of a table of `n` slots, and none occurs twice.
pub open spec fn distinct_slots(n: nat, list: Seq<usize>) -> bool {
    &&& list.no_duplicates()
    &&& forall|k: int| 0 <= k < list.len() ==> #[trigger] list[k] < n
}

/// Each element of `list` but the one at its end links to the element before it.
pub open spec fn chained(next: Seq<usize>, list: Seq<usize>) -> bool {
    forall|j: int, k: int|
        #![trigger list[j], list[k]]
        0 <= j && k == j + 1 && k < list.len() ==> next[list[k] as int] == list[j]
}

/// `list` is a non-empty run of slots from `first` down to `last`; where `last` links to is left
/// open.
pub open spec fn segment(next: Seq<usize>, first: usize, last: usize, list: Seq<usize>) -> bool {
    &&& list.len() > 0
    &&& distinct_slots(next.len(), list)
    &&& chained(next, list)
    &&& list.last() == first
    &&& list[0] == last
}

/// `list` is the whole list that starts at `head`.
pub open spec fn linked(next: Seq<usize>, head: usize, list: Seq<usize>) -> bool {
    &&& distinct_slots(next.len(), list)
    &&& chained(next, list)
    &&& list.len() == 0 ==> head >= next.len()
    &&& list.len() > 0 ==> head == list.last() && next[list[0] as int] >= next.len()
}

/// The list that starts at `head`, where there is one.
pub open spec fn list_from(next: Seq<usize>, head: usize) -> Seq<usize> {
    choose|list: Seq<usize>| linked(next, head, list)
}

/// No slot is in both lists.
pub open spec fn disjoint(a: Seq<usize>, b: Seq<usize>) -> bool {
    forall|i: int, j: int|
        #![trigger a[i], b[j]]
        0 <= i < a.len() && 0 <= j < b.len() ==> a[i] != b[j]
}

/// Changing the link of a slot outside a list leaves the list as it is.
pub proof fn lemma_linked_frame(
    next: Seq<usize>,
    head: usize,
    list: Seq<usize>,
    slot: usize,
    link: usize,
)
    requires
        linked(next, head, list),
        slot < next.len(),
        !list.contains(slot),
    ensures
        linked(next.update(slot as int, link), head, list),
{
}

/// Changing the link of the slot at the end of a segment leaves the segment as it is.
pub proof fn lemma_segment_frame(
    next: Seq<usize>,
    first: usize,
    last: usize,
    list: Seq<usize>,
    link: usize,
)
    requires
        segment(next, first, last, list),
    ensures
        segment(next.update(last as int, link), first, last, list),
{
    assert forall|j: int, k: int| 0 <= j && k == j + 1 && k < list.len() implies next.update(
        last as int,
        link,
    )[list[k] as int] == list[j] by {
        assert(list[k] != list[0]);
    }
}

/// A segment whose end links to the head of a disjoint list makes one list with it.
pub proof fn lemma_linked_concat(
    next: Seq<usize>,
    head: usize,
    list: Seq<usize>,
    first: usize,
    last: usize,
    front: Seq<usize>,
)
    requires
        linked(next, head, list),
        segment(next, first, last, front),
        next[last as int] == head,
        disjoint(list, front),
    ensures
        linked(next, first, list + front),
{
    let whole = list + front;
    assert forall|j: int, k: int| 0 <= j && k == j + 1 && k < whole.len() implies next[whole[k] as int]
        == whole[j] by {
        if k < list.len() {
            assert(next[list[k] as int] == list[j]);
        } else if k > list.len() {
            assert(whole[k] == front[k - list.len()]);
            assert(whole[j] == front[j - list.len()]);
        } else {
            assert(whole[k] == front[0]);
            assert(whole[j] == list.last());
        }
    }
    assert(whole.last() == front.last());
    if list.len() > 0 {
        assert(whole[0] == list[0]);
    } else {
        assert(whole[0] == front[0]);
    }
    assert forall|k: int| 0 <= k < whole.len() implies #[trigger] whole[k] < next.len() by {
        if k < list.len() {
            assert(whole[k] == list[k]);
        } else {
            assert(whole[k] == front[k - list.len()]);
        }
    }
}

/// Taking the head off a non-empty list leaves a list that starts where the head linked to.
pub proof fn lemma_linked_pop(next: Seq<usize>, head: usize, list: Seq<usize>)
    requires
        linked(next, head, list),
        list.len() > 0,
    ensures
        linked(next, next[head as int], list.drop_last()),
{
    let rest = list.drop_last();
    if rest.len() > 0 {
        let k = list.len() - 1;
        assert(next[list[k] as int] == list[k - 1]);
        assert(rest.last() == list[k - 1]);
        assert(rest[0] == list[0]);
    }
}

/// A table has one list from each head: two sequences that both describe it are equal.
pub proof fn lemma_linked_unique(next: Seq<usize>, head: usize, a: Seq<usize>, b: Seq<usize>)
    requires
        linked(next, head, a),
        linked(next, head, b),
    ensures
        a == b,
    decreases a.len(),
{
    if a.len() > 0 && b.len() > 0 {
        lemma_linked_pop(next, head, a);
        lemma_linked_pop(next, head, b);
        lemma_linked_unique(next, next[head as int], a.drop_last(), b.drop_last());
        assert(a =~= a.drop_last().push(head));
        assert(b =~= b.drop_last().push(head));
    } else {
        assert(a =~= b);
    }
}

/// `list_from` gives the sequence that describes the list.
pub proof fn lemma_list_from(next: Seq<usize>, head: usize, list: Seq<usize>)
    requires
        linked(next, head, list),
    ensures
        list_from(next, head) == list,
{
    lemma_linked_unique(next, head, list_from(next, head), list);
}

} // verus!
