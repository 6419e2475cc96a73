//! Registry-wide laws, each proved over the registry's map view. The
//! operations' own contracts describe every step exactly; these lemmas spell
//! out what the contracts together promise across calls.

use vstd::prelude::*;
use crate::event_manager::EventRecord;
use crate::event_manager::fresh_record;

verus! {

/// A newly created event reads back at once: after a successful create of an
/// id not yet present, a get of that id finds the given name and an empty
/// attendee list.
pub proof fn created_event_reads_back(
    pre: Map<u32, EventRecord>,
    post: Map<u32, EventRecord>,
    id: u32,
    name: Seq<char>,
)
    requires
        !pre.contains_key(id),
        post == pre.insert(id, fresh_record(name)),
    ensures
        post.contains_key(id),
        post[id].name == name,
        post[id].attendees.len() == 0,
{
}

/// Renaming an event twice leaves it under the second name alone: a lookup
/// by the first new name no longer matches the id, one by the second does.
pub proof fn rename_twice_moves_the_match(
    pre: Map<u32, EventRecord>,
    mid: Map<u32, EventRecord>,
    post: Map<u32, EventRecord>,
    id: u32,
    first: Seq<char>,
    second: Seq<char>,
)
    requires
        pre.contains_key(id),
        mid == pre.insert(id, EventRecord { name: first, attendees: pre[id].attendees }),
        post == mid.insert(id, EventRecord { name: second, attendees: mid[id].attendees }),
        first != second,
    ensures
        post.contains_key(id),
        post[id].name == second,
        post[id].name != first,
{
}

/// A successful registration puts the attendee on the list, so an identical
/// registration right after must be refused, and grows the list by exactly
/// one entry.
pub proof fn registered_attendee_stays_listed(
    pre: Map<u32, EventRecord>,
    post: Map<u32, EventRecord>,
    id: u32,
    who: Seq<char>,
)
    requires
        pre.contains_key(id),
        !pre[id].attendees.contains(who),
        post == pre.insert(
            id,
            EventRecord { name: pre[id].name, attendees: pre[id].attendees.push(who) },
        ),
    ensures
        post.contains_key(id),
        post[id].attendees.contains(who),
        post[id].attendees.len() == pre[id].attendees.len() + 1,
{
    assert(post[id].attendees[pre[id].attendees.len() as int] == who);
}

/// A deleted id is gone for good: once a delete succeeds, the registry no
/// longer holds the id, so a get and a second delete of it both miss.
pub proof fn deleted_event_stays_gone(
    pre: Map<u32, EventRecord>,
    post: Map<u32, EventRecord>,
    id: u32,
)
    requires
        pre.contains_key(id),
        post == pre.remove(id),
    ensures
        !post.contains_key(id),
{
}

} // verus!
