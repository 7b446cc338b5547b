use vstd::prelude::*;

use vstd::std_specs::cmp::PartialEqSpec;

verus! {

/// Errors that the event registry reports.
///
/// `Other` carries the rendered message of an underlying failure; two such
/// errors are equal exactly when their messages are equal.
#[derive(Debug)]
pub enum EventError {
    /// `add` was refused because the event already holds `max_listeners` listeners.
    OverloadedEvent,
    /// `remove` found the event, but no listener matching the identifier.
    ListenerNotFound,
    /// `remove` or `emit` named an event that has no listener.
    EventNotFound,
    /// Any other failure, kept as its rendered message.
    Other(String),
}

/// Value equality of errors: `Other` compares by message, the other kinds by kind.
pub open spec fn same_error(a: EventError, b: EventError) -> bool {
    match (a, b) {
        (EventError::OverloadedEvent, EventError::OverloadedEvent) => true,
        (EventError::ListenerNotFound, EventError::ListenerNotFound) => true,
        (EventError::EventNotFound, EventError::EventNotFound) => true,
        (EventError::Other(x), EventError::Other(y)) => x@ == y@,
        _ => false,
    }
}

/// The text that describes an error.
pub open spec fn message_of(e: EventError) -> Seq<char> {
    match e {
        EventError::OverloadedEvent => "Too many listeners for event"@,
        EventError::ListenerNotFound => "Listener not found"@,
        EventError::EventNotFound => "Event not found"@,
        EventError::Other(m) => "Error: "@ + m@,
    }
}

impl PartialEq for EventError {
    fn eq(&self, other: &EventError) -> (r: bool) {
        match (self, other) {
            (EventError::OverloadedEvent, EventError::OverloadedEvent) => true,
            (EventError::ListenerNotFound, EventError::ListenerNotFound) => true,
            (EventError::EventNotFound, EventError::EventNotFound) => true,
            (EventError::Other(x), EventError::Other(y)) => x.eq(y),
            _ => false,
        }
    }
}

impl vstd::std_specs::cmp::PartialEqSpecImpl for EventError {
    open spec fn obeys_eq_spec() -> bool {
        true
    }

    open spec fn eq_spec(&self, other: &EventError) -> bool {
        same_error(*self, *other)
    }
}

impl Eq for EventError {}

impl EventError {
    /// An `Other` error that carries the rendered text of an underlying failure.
    pub fn other(message: &str) -> (r: EventError)
        ensures
            r matches EventError::Other(m) && m@ == message@,
    {
        EventError::Other(message.to_owned())
    }

    /// The human-readable description of this error.
    pub fn message(&self) -> (r: String)
        ensures
            r@ == message_of(*self),
    {
        match self {
            EventError::OverloadedEvent => "Too many listeners for event".to_owned(),
            EventError::ListenerNotFound => "Listener not found".to_owned(),
            EventError::EventNotFound => "Event not found".to_owned(),
            EventError::Other(m) => {
                let prefix = "Error: ".to_owned();
                prefix.concat(m.as_str())
            },
        }
    }
}

/// Two `Other` errors are equal exactly when their rendered messages are
/// equal, and an `Other` error never equals an error of another kind.
pub proof fn lemma_other_equality(a: String, b: String, e: EventError)
    ensures
        EventError::Other(a).eq_spec(&EventError::Other(b)) <==> a@ == b@,
        !(e matches EventError::Other(_)) ==> !EventError::Other(a).eq_spec(&e),
{
}

} // verus!
