use rs_events::EventError;

#[test]
fn other_errors_compare_by_message() {
    let a = EventError::other("disk full");
    let b = EventError::Other("disk full".to_string());
    let c = EventError::other("disk empty");
    assert_eq!(a, b);
    assert_ne!(a, c);
    assert_ne!(a, EventError::EventNotFound);
}

#[test]
fn kinds_compare_by_kind() {
    assert_eq!(EventError::OverloadedEvent, EventError::OverloadedEvent);
    assert_eq!(EventError::ListenerNotFound, EventError::ListenerNotFound);
    assert_eq!(EventError::EventNotFound, EventError::EventNotFound);
    assert_ne!(EventError::OverloadedEvent, EventError::ListenerNotFound);
    assert_ne!(EventError::ListenerNotFound, EventError::EventNotFound);
}

#[test]
fn messages() {
    assert_eq!(EventError::OverloadedEvent.message(), "Too many listeners for event");
    assert_eq!(EventError::ListenerNotFound.message(), "Listener not found");
    assert_eq!(EventError::EventNotFound.message(), "Event not found");
    assert_eq!(EventError::other("boom").message(), "Error: boom");
}
