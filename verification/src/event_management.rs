//! Free-function adapters over an explicit [`EventManager`] instance, for
//! hosts that keep one registry and route calls through plain functions.

use vstd::prelude::*;
use crate::event_manager::EventManagementError;
use crate::event_manager::EventManager;
use crate::event_manager::EventRecord;
use crate::event_manager::fresh_record;

verus! {

/// Create an event with the given id and name; an id already taken is
/// rejected with `DuplicateEvent` and nothing changes.
pub fn add_event(manager: &mut EventManager, id: u32, name: &str) -> (r: Result<
    (),
    EventManagementError,
>)
    requires
        old(manager).wf(),
    ensures
        final(manager).wf(),
        match r {
            Ok(()) => !old(manager)@.contains_key(id) && final(manager)@ == old(manager)@.insert(
                id,
                fresh_record(name@),
            ),
            Err(e) => e == EventManagementError::DuplicateEvent && old(manager)@.contains_key(id)
                && final(manager)@ == old(manager)@,
        },
{
    manager.create_event(id, name)
}

/// Register a participant for an event; a missing event or a participant
/// already on the list is rejected, and nothing changes.
pub fn add_participant_to_event(
    manager: &mut EventManager,
    event_id: u32,
    participant_name: &str,
) -> (r: Result<(), EventManagementError>)
    requires
        old(manager).wf(),
    ensures
        final(manager).wf(),
        match r {
            Ok(()) => old(manager)@.contains_key(event_id) && !old(manager)@[event_id].attendees
                .contains(participant_name@) && final(manager)@ == old(manager)@.insert(
                event_id,
                EventRecord {
                    name: old(manager)@[event_id].name,
                    attendees: old(manager)@[event_id].attendees.push(participant_name@),
                },
            ),
            Err(e) => final(manager)@ == old(manager)@ && match e {
                EventManagementError::EventNotFound => !old(manager)@.contains_key(event_id),
                EventManagementError::AttendeeError(_) => old(manager)@.contains_key(event_id)
                    && old(manager)@[event_id].attendees.contains(participant_name@),
                _ => false,
            },
        },
{
    manager.register_to_event(event_id, participant_name)
}

/// Rename an event; a missing event is rejected and nothing changes.
pub fn change_event_name(manager: &mut EventManager, event_id: u32, new_name: &str) -> (r: Result<
    (),
    EventManagementError,
>)
    requires
        old(manager).wf(),
    ensures
        final(manager).wf(),
        match r {
            Ok(()) => old(manager)@.contains_key(event_id) && final(manager)@ == old(
                manager,
            )@.insert(
                event_id,
                EventRecord { name: new_name@, attendees: old(manager)@[event_id].attendees },
            ),
            Err(e) => e == EventManagementError::EventNotFound && !old(manager)@.contains_key(
                event_id,
            ) && final(manager)@ == old(manager)@,
        },
{
    manager.update_event(event_id, new_name)
}

} // verus!
