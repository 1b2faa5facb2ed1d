//! The words of a shared slab are the memory of [`crate::world`]: a new slab starts with the
//! initial memory, and each access hands its word what the memory holds after that access.
use std::sync::atomic::{AtomicUsize, Ordering};

use vstd::prelude::*;

use crate::list::List;
use crate::protocol::{Access, Reply};
use crate::shared::SharedLinks;
use crate::world::{Memory, World};

verus! {

/// Each word of a new slab is made with what the initial memory holds in its place: no deferral is
/// open, the first slot heads the free list, the garbage list is empty, and every slot links to
/// the one above it.
pub proof fn law_new_words_are_the_initial_memory(links: SharedLinks, capacity: usize)
    requires
        links.made_fresh(),
        links.slots() == capacity,
    ensures
        ({
            let memory = World::initial(capacity).memory;
            &&& World::initial(capacity).inv()
            &&& memory.next.len() == capacity
            &&& call_ensures(AtomicUsize::new, (memory.defers as usize,), links.defer_word())
            &&& call_ensures(AtomicUsize::new, (memory.free_head,), links.head_word(List::Free))
            &&& call_ensures(
                AtomicUsize::new,
                (memory.garbage_head,),
                links.head_word(List::Garbage),
            )
            &&& forall|index: usize|
                index < capacity ==> call_ensures(
                    AtomicUsize::new,
                    (memory.next[index as int],),
                    #[trigger] links.link_word(index),
                )
        }),
{
    crate::world::law_initial_world(capacity);
}

/// The initial memory holds these numbers.
pub proof fn law_initial_memory(capacity: usize, index: int)
    requires
        0 <= index < capacity,
    ensures
        World::initial(capacity).memory.defers == 0,
        World::initial(capacity).memory.free_head == 0,
        World::initial(capacity).memory.garbage_head == capacity,
        World::initial(capacity).memory.next.len() == capacity,
        World::initial(capacity).memory.next[index] == index + 1,
{
}

/// Setting a link stores in the slot's word what the memory then holds as the slot's link, which is
/// the link that was asked for.
pub proof fn law_store_next_is_the_memorys(
    links: SharedLinks,
    memory: Memory,
    index: usize,
    link: usize,
    reply: Reply,
    i: int,
    stored: usize,
)
    requires
        links.performed(Access::StoreNext { index, link }, reply),
        i == index,
        i < memory.next.len(),
        stored == memory.changed(Access::StoreNext { index, link }).next[i],
    ensures
        stored == link,
        call_ensures(
            AtomicUsize::store,
            (&links.link_word(index), stored, Ordering::Relaxed),
            (),
        ),
        reply == memory.reply(Access::StoreNext { index, link }),
        reply == Reply::Stored,
{
}

/// Reading a link reads the slot's word; if the word holds the slot's link in the memory, the reply
/// is the memory's.
pub proof fn law_load_next_is_the_memorys(
    links: SharedLinks,
    memory: Memory,
    index: usize,
    reply: Reply,
    i: int,
)
    requires
        links.performed(Access::LoadNext { index }, reply),
        i == index,
        i < memory.next.len(),
    ensures
        exists|v: usize|
            {
                &&& #[trigger] call_ensures(
                    AtomicUsize::load,
                    (&links.link_word(index), Ordering::Relaxed),
                    v,
                )
                &&& reply == Reply::Value(v)
                &&& v == memory.next[i] ==> reply == memory.reply(Access::LoadNext { index })
            },
{
    let v = reply->Value_0;
    assert(call_ensures(AtomicUsize::load, (&links.link_word(index), Ordering::Relaxed), v));
}

/// Reading the head of a list reads the list's word; if the word holds the head in the memory, the
/// reply is the memory's.
pub proof fn law_load_head_is_the_memorys(
    links: SharedLinks,
    memory: Memory,
    list: List,
    reply: Reply,
)
    requires
        links.performed(Access::LoadHead { list }, reply),
    ensures
        exists|v: usize|
            {
                &&& #[trigger] call_ensures(
                    AtomicUsize::load,
                    (&links.head_word(list), Ordering::Acquire),
                    v,
                )
                &&& reply == Reply::Value(v)
                &&& v == (match list {
                    List::Free => memory.free_head,
                    List::Garbage => memory.garbage_head,
                }) ==> reply == memory.reply(Access::LoadHead { list })
            },
{
    let v = reply->Value_0;
    assert(call_ensures(AtomicUsize::load, (&links.head_word(list), Ordering::Acquire), v));
}

/// Taking the garbage puts in the word of its list what the memory then holds as its head, which is
/// the replacement that was asked for; if the word held the head in the memory, the reply is the
/// memory's.
pub proof fn law_swap_garbage_is_the_memorys(
    links: SharedLinks,
    memory: Memory,
    replacement: usize,
    reply: Reply,
)
    requires
        links.performed(Access::SwapGarbage { replacement }, reply),
    ensures
        memory.changed(Access::SwapGarbage { replacement }).garbage_head == replacement,
        exists|v: usize|
            {
                &&& #[trigger] call_ensures(
                    AtomicUsize::swap,
                    (
                        &links.head_word(List::Garbage),
                        memory.changed(Access::SwapGarbage { replacement }).garbage_head,
                        Ordering::AcqRel,
                    ),
                    v,
                )
                &&& reply == Reply::Value(v)
                &&& v == memory.garbage_head ==> reply == memory.reply(
                    Access::SwapGarbage { replacement },
                )
            },
{
    let v = reply->Value_0;
    assert(call_ensures(
        AtomicUsize::swap,
        (&links.head_word(List::Garbage), replacement, Ordering::AcqRel),
        v,
    ));
}

/// Opening a deferral adds to the word of the count what the memory adds to its count, which is
/// one; if the word held the count, the reply is the memory's.
pub proof fn law_add_defer_is_the_memorys(
    links: SharedLinks,
    memory: Memory,
    reply: Reply,
    step: usize,
)
    requires
        links.performed(Access::AddDefer, reply),
        memory.changed(Access::AddDefer).defers == memory.defers + step,
        memory.defers <= usize::MAX,
    ensures
        step == 1,
        exists|v: usize|
            {
                &&& #[trigger] call_ensures(
                    AtomicUsize::fetch_add,
                    (&links.defer_word(), step, Ordering::Acquire),
                    v,
                )
                &&& reply == Reply::Value(v)
                &&& v == memory.defers ==> reply == memory.reply(Access::AddDefer)
            },
{
    let v = reply->Value_0;
    assert(call_ensures(
        AtomicUsize::fetch_add,
        (&links.defer_word(), 1usize, Ordering::Acquire),
        v,
    ));
}

/// Closing a deferral takes from the word of the count what the memory takes from its count, which
/// is one; if the word held the count, the reply is the memory's.
pub proof fn law_sub_defer_is_the_memorys(
    links: SharedLinks,
    memory: Memory,
    reply: Reply,
    step: usize,
)
    requires
        links.performed(Access::SubDefer, reply),
        0 < memory.defers <= usize::MAX,
        memory.changed(Access::SubDefer).defers == memory.defers - step,
    ensures
        step == 1,
        exists|v: usize|
            {
                &&& #[trigger] call_ensures(
                    AtomicUsize::fetch_sub,
                    (&links.defer_word(), step, Ordering::Release),
                    v,
                )
                &&& reply == Reply::Value(v)
                &&& v == memory.defers ==> reply == memory.reply(Access::SubDefer)
            },
{
    let v = reply->Value_0;
    assert(call_ensures(
        AtomicUsize::fetch_sub,
        (&links.defer_word(), 1usize, Ordering::Release),
        v,
    ));
}

/// Asking for the count of deferrals reads its word, with acquire order where the count decides; if
/// the word holds the count, the reply is the memory's.
pub proof fn law_counting_is_the_memorys(
    links: SharedLinks,
    memory: Memory,
    hint: Reply,
    count: Reply,
)
    requires
        links.performed(Access::HintDefers, hint),
        links.performed(Access::CountDefers, count),
        memory.defers <= usize::MAX,
    ensures
        exists|v: usize|
            {
                &&& #[trigger] call_ensures(
                    AtomicUsize::load,
                    (&links.defer_word(), Ordering::Relaxed),
                    v,
                )
                &&& hint == Reply::Value(v)
                &&& v == memory.defers ==> hint == memory.reply(Access::HintDefers)
            },
        exists|v: usize|
            {
                &&& #[trigger] call_ensures(
                    AtomicUsize::load,
                    (&links.defer_word(), Ordering::Acquire),
                    v,
                )
                &&& count == Reply::Value(v)
                &&& v == memory.defers ==> count == memory.reply(Access::CountDefers)
            },
{
    let v = hint->Value_0;
    assert(call_ensures(AtomicUsize::load, (&links.defer_word(), Ordering::Relaxed), v));
    let v = count->Value_0;
    assert(call_ensures(AtomicUsize::load, (&links.defer_word(), Ordering::Acquire), v));
}

/// Replacing the head of a list exchanges its word, if it holds the head for which the memory does
/// the exchange, for what the memory then holds as the head, which is the replacement that was
/// asked for. A reply that it was refused gives the head that the word held instead.
pub proof fn law_exchange_head_is_the_memorys(
    links: SharedLinks,
    memory: Memory,
    list: List,
    replacement: usize,
    reply: Reply,
    expected: usize,
    after: usize,
)
    requires
        links.performed(Access::ExchangeHead { list, expected, replacement }, reply),
        expected == match list {
            List::Free => memory.free_head,
            List::Garbage => memory.garbage_head,
        },
        after == match list {
            List::Free => memory.changed(
                Access::ExchangeHead { list, expected, replacement },
            ).free_head,
            List::Garbage => memory.changed(
                Access::ExchangeHead { list, expected, replacement },
            ).garbage_head,
        },
    ensures
        after == replacement,
        memory.reply(Access::ExchangeHead { list, expected, replacement }) == Reply::Exchanged,
        exists|found: Result<usize, usize>|
            {
                &&& #[trigger] call_ensures(
                    AtomicUsize::compare_exchange,
                    (
                        &links.head_word(list),
                        expected,
                        after,
                        Ordering::Release,
                        Ordering::Relaxed,
                    ),
                    found,
                )
                &&& found is Ok ==> reply == Reply::Exchanged
                &&& found matches Err(v) ==> reply == Reply::Refused(v)
            },
{
    match reply {
        Reply::Refused(v) => {
            assert(call_ensures(
                AtomicUsize::compare_exchange,
                (
                    &links.head_word(list),
                    expected,
                    replacement,
                    Ordering::Release,
                    Ordering::Relaxed,
                ),
                Err::<usize, usize>(v),
            ));
        },
        _ => {
            let v = choose|v: usize| #[trigger]
                call_ensures(
                    AtomicUsize::compare_exchange,
                    (
                        &links.head_word(list),
                        expected,
                        replacement,
                        Ordering::Release,
                        Ordering::Relaxed,
                    ),
                    Ok::<usize, usize>(v),
                );
            assert(call_ensures(
                AtomicUsize::compare_exchange,
                (
                    &links.head_word(list),
                    expected,
                    replacement,
                    Ordering::Release,
                    Ordering::Relaxed,
                ),
                Ok::<usize, usize>(v),
            ));
        },
    }
}

/// A link that is set is found again, and no other word changes.
pub proof fn law_stored_link_is_found(memory: Memory, index: usize, link: usize, other: usize)
    requires
        index < memory.next.len(),
        other < memory.next.len(),
    ensures
        ({
            let after = memory.changed(Access::StoreNext { index, link });
            &&& after.reply(Access::LoadNext { index }) == Reply::Value(link)
            &&& other != index ==> after.reply(Access::LoadNext { index: other }) == memory.reply(
                Access::LoadNext { index: other },
            )
            &&& after.next.len() == memory.next.len()
            &&& after.free_head == memory.free_head
            &&& after.garbage_head == memory.garbage_head
            &&& after.defers == memory.defers
        }),
{
}

/// A head that replaces another is found again and nothing else changes; where another head than
/// the expected one is found, it is told and stays.
pub proof fn law_exchanged_head_is_found(
    memory: Memory,
    list: List,
    expected: usize,
    replacement: usize,
)
    ensures
        ({
            let access = Access::ExchangeHead { list, expected, replacement };
            let after = memory.changed(access);
            let load = Access::LoadHead { list };
            &&& memory.reply(load) == Reply::Value(expected) ==> {
                &&& memory.reply(access) == Reply::Exchanged
                &&& after.reply(load) == Reply::Value(replacement)
            }
            &&& memory.reply(load) != Reply::Value(expected) ==> {
                &&& memory.reply(load) matches Reply::Value(head) && memory.reply(access)
                    == Reply::Refused(head)
                &&& after == memory
            }
            &&& after.next == memory.next
            &&& after.defers == memory.defers
            &&& list is Free ==> after.garbage_head == memory.garbage_head
            &&& list is Garbage ==> after.free_head == memory.free_head
        }),
{
}

/// Taking the garbage gives its head and leaves the replacement, and nothing else changes.
pub proof fn law_swapped_garbage_is_found(memory: Memory, replacement: usize)
    ensures
        ({
            let swap = Access::SwapGarbage { replacement };
            let load = Access::LoadHead { list: List::Garbage };
            let after = memory.changed(swap);
            &&& memory.reply(swap) == memory.reply(load)
            &&& after.reply(load) == Reply::Value(replacement)
            &&& after.free_head == memory.free_head
            &&& after.next == memory.next
            &&& after.defers == memory.defers
        }),
{
}

/// Reading a word changes nothing.
pub proof fn law_reading_changes_nothing(memory: Memory, list: List, index: usize)
    ensures
        memory.changed(Access::HintDefers) == memory,
        memory.changed(Access::CountDefers) == memory,
        memory.changed(Access::LoadHead { list }) == memory,
        memory.changed(Access::LoadNext { index }) == memory,
{
}

/// The count of deferrals is told before it is changed, by one; closing undoes opening.
pub proof fn law_deferrals_are_counted(memory: Memory)
    requires
        memory.defers < usize::MAX,
    ensures
        ({
            let after = memory.changed(Access::AddDefer);
            &&& memory.reply(Access::AddDefer) == Reply::Value(memory.defers as usize)
            &&& memory.reply(Access::CountDefers) == Reply::Value(memory.defers as usize)
            &&& memory.reply(Access::HintDefers) == Reply::Value(memory.defers as usize)
            &&& memory.reply(Access::SubDefer) == Reply::Value(memory.defers as usize)
            &&& after.reply(Access::CountDefers) == Reply::Value((memory.defers + 1) as usize)
            &&& after.changed(Access::SubDefer) == memory
            &&& after.next == memory.next
            &&& after.free_head == memory.free_head
            &&& after.garbage_head == memory.garbage_head
        }),
{
}

} // verus!
