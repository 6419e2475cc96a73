//! An in-memory registry of events.
//!
//! Each event has a caller-assigned numeric id, a name, and an ordered list
//! of attendees. The registry keeps a secondary index from names to ids so
//! that events can be looked up by name without scanning the whole store.

pub mod event_management;
pub mod event_manager;
pub mod laws;

pub use event_management::add_event;
pub use event_management::add_participant_to_event;
pub use event_management::change_event_name;
pub use event_manager::Event;
pub use event_manager::EventManagementError;
pub use event_manager::EventManager;
