use event_manager::add_event;
use event_manager::add_participant_to_event;
use event_manager::change_event_name;
use event_manager::Event;
use event_manager::EventManagementError;
use event_manager::EventManager;

#[test]
fn test_add_event() {
    let mut manager = EventManager::new();
    let result = add_event(&mut manager, 1, "Tech Conference");
    assert!(result.is_ok());
}

#[test]
fn test_add_participant_to_event() {
    let mut manager = EventManager::new();
    add_event(&mut manager, 2, "Music Festival").unwrap();
    let result = add_participant_to_event(&mut manager, 2, "Alice");
    assert!(result.is_ok());
}

#[test]
fn test_change_event_name_success() {
    let mut manager = EventManager::new();
    add_event(&mut manager, 3, "Art Show").unwrap();
    let result = change_event_name(&mut manager, 3, "Annual Art Show");
    assert!(result.is_ok());
}

#[test]
fn test_duplicate_event_creation_error() {
    let mut manager = EventManager::new();
    add_event(&mut manager, 4, "Science Fair").unwrap();
    let result = add_event(&mut manager, 4, "Science Fair 2.0");
    assert!(result.is_err());
}

#[test]
fn test_add_participant_to_nonexistent_event_error() {
    let mut manager = EventManager::new();
    let result = add_participant_to_event(&mut manager, 999, "Bob");
    assert!(result.is_err());
}

#[test]
fn created_event_reads_back_with_empty_attendees() {
    let mut manager = EventManager::new();
    assert!(manager.create_event(7, "Launch Party").is_ok());
    let event = manager.get_event(7).unwrap();
    assert_eq!(event.id, 7);
    assert_eq!(event.name, "Launch Party");
    assert!(event.attendees.is_empty());
}

#[test]
fn duplicate_create_keeps_the_existing_event() {
    let mut manager = EventManager::new();
    manager.create_event(5, "Original").unwrap();
    manager.register_to_event(5, "Carol").unwrap();
    let result = manager.create_event(5, "Impostor");
    assert_eq!(result, Err(EventManagementError::DuplicateEvent));
    let event = manager.get_event(5).unwrap();
    assert_eq!(event.name, "Original");
    assert_eq!(event.attendees, vec!["Carol".to_string()]);
}

#[test]
fn rename_twice_moves_the_name_match() {
    let mut manager = EventManager::new();
    manager.create_event(11, "Kickoff").unwrap();
    manager.update_event(11, "Summit").unwrap();
    manager.update_event(11, "Retreat").unwrap();
    let ids = |events: Vec<Event>| events.iter().map(|e| e.id).collect::<Vec<u32>>();
    assert!(!ids(manager.find_events_by_name("Summit")).contains(&11));
    assert!(ids(manager.find_events_by_name("Retreat")).contains(&11));
    assert!(manager.find_events_by_name("Kickoff").is_empty());
}

#[test]
fn duplicate_attendee_is_refused() {
    let mut manager = EventManager::new();
    manager.create_event(8, "Workshop").unwrap();
    assert!(manager.register_to_event(8, "Alice").is_ok());
    let second = manager.register_to_event(8, "Alice");
    assert!(matches!(second, Err(EventManagementError::AttendeeError(_))));
    assert_eq!(manager.list_attendees_for_event(8).unwrap().len(), 1);
}

#[test]
fn deleted_event_stays_gone() {
    let mut manager = EventManager::new();
    manager.create_event(9, "Closing").unwrap();
    assert!(manager.delete_event(9).is_ok());
    assert_eq!(
        manager.get_event(9).err(),
        Some(EventManagementError::EventNotFound)
    );
    assert_eq!(
        manager.delete_event(9),
        Err(EventManagementError::EventNotFound)
    );
    assert!(manager.find_events_by_name("Closing").is_empty());
}

#[test]
fn find_by_unknown_name_returns_empty() {
    let mut manager = EventManager::new();
    manager.create_event(1, "Known").unwrap();
    let found = manager.find_events_by_name("no-such-name");
    assert!(found.is_empty());
}

#[test]
fn shared_names_resolve_to_all_carriers() {
    let mut manager = EventManager::new();
    manager.create_event(1, "Conf").unwrap();
    manager.create_event(2, "Conf").unwrap();
    manager.register_to_event(1, "Alice").unwrap();
    manager.register_to_event(1, "Bob").unwrap();
    manager.update_event(1, "Conf2024").unwrap();

    let conf_ids: Vec<u32> = manager.find_events_by_name("Conf").iter().map(|e| e.id).collect();
    assert_eq!(conf_ids, vec![2]);
    let conf2024_ids: Vec<u32> =
        manager.find_events_by_name("Conf2024").iter().map(|e| e.id).collect();
    assert_eq!(conf2024_ids, vec![1]);
    assert_eq!(
        manager.list_attendees_for_event(1).unwrap(),
        vec!["Alice".to_string(), "Bob".to_string()]
    );
    assert_eq!(manager.get_event(1).unwrap().name, "Conf2024");
}

#[test]
fn list_events_snapshots_every_event() {
    let mut manager = EventManager::new();
    manager.create_event(1, "A").unwrap();
    manager.create_event(2, "B").unwrap();
    manager.create_event(3, "C").unwrap();
    manager.delete_event(2).unwrap();
    let mut ids: Vec<u32> = manager.list_events().iter().map(|e| e.id).collect();
    ids.sort();
    assert_eq!(ids, vec![1, 3]);
}

#[test]
fn missing_event_is_reported_by_every_operation() {
    let mut manager = EventManager::new();
    assert_eq!(
        manager.update_event(404, "New Name"),
        Err(EventManagementError::EventNotFound)
    );
    assert_eq!(
        manager.register_to_event(404, "Dana"),
        Err(EventManagementError::EventNotFound)
    );
    assert_eq!(
        manager.list_attendees_for_event(404).err(),
        Some(EventManagementError::EventNotFound)
    );
}

#[test]
fn error_messages_name_the_condition() {
    assert_eq!(
        EventManagementError::EventNotFound.message(),
        "Event not found."
    );
    assert_eq!(
        EventManagementError::DuplicateEvent.message(),
        "Event with the same ID already exists."
    );
    assert_eq!(
        EventManagementError::AttendeeError("Attendee already registered.".to_string()).message(),
        "Error managing attendee: Attendee already registered."
    );
    assert_eq!(
        EventManagementError::DatabaseError.message(),
        "An internal database error occurred"
    );
}

#[test]
fn rename_keeps_attendees() {
    let mut manager = EventManager::new();
    manager.create_event(21, "Before").unwrap();
    manager.register_to_event(21, "Eve").unwrap();
    change_event_name(&mut manager, 21, "After").unwrap();
    assert_eq!(
        manager.list_attendees_for_event(21).unwrap(),
        vec!["Eve".to_string()]
    );
    assert_eq!(manager.get_event(21).unwrap().name, "After");
}
