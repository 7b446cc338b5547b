use vstd::prelude::*;
use crate::emitter::{EmitterView, EventEmitter, listeners_of, has_match, with_added, with_removed, with_emitted, tag_arg_view};
use crate::error::EventError;
use crate::listener::{ListenerHandle, ListenerId, ListenerView, accepts_every_payload};

verus! {

/// What `add` returns and how it changes the state: success exactly when the
/// event has room, with the listener appended and the next handle used.
pub open spec fn add_outcome(
    pre: EmitterView,
    post: EmitterView,
    event: Seq<char>,
    tag: Option<Seq<char>>,
    lifetime: Option<u64>,
    r: Result<ListenerHandle, EventError>,
) -> bool {
    &&& post.max_listeners == pre.max_listeners
    &&& match r {
        Ok(h) => {
            &&& listeners_of(pre.events, event).len() < pre.max_listeners
            &&& h.id == pre.next_handle
            &&& post.next_handle == pre.next_handle + 1
            &&& post.events == with_added(pre.events, event, ListenerView { handle: h.id, tag, lifetime })
        },
        Err(e) => {
            &&& e == EventError::OverloadedEvent
            &&& listeners_of(pre.events, event).len() >= pre.max_listeners
            &&& post == pre
        },
    }
}

/// What `remove` returns and how it changes the state.
pub open spec fn remove_outcome(
    pre: EmitterView,
    post: EmitterView,
    event: Seq<char>,
    id: ListenerId,
    r: Result<(), EventError>,
) -> bool {
    &&& post.max_listeners == pre.max_listeners
    &&& post.next_handle == pre.next_handle
    &&& if !pre.events.contains_key(event) {
        r == Err::<(), EventError>(EventError::EventNotFound) && post == pre
    } else if !has_match(pre.events[event], id) {
        r == Err::<(), EventError>(EventError::ListenerNotFound) && post == pre
    } else {
        r == Ok::<(), EventError>(()) && post.events == with_removed(pre.events, event, id)
    }
}

/// What `emit` returns and how it changes the state.
pub open spec fn emit_outcome(pre: EmitterView, post: EmitterView, event: Seq<char>, r: Result<(), EventError>) -> bool {
    &&& post.max_listeners == pre.max_listeners
    &&& post.next_handle == pre.next_handle
    &&& if pre.events.contains_key(event) {
        r == Ok::<(), EventError>(()) && post.events == with_emitted(pre.events, event)
    } else {
        r == Err::<(), EventError>(EventError::EventNotFound) && post == pre
    }
}

/// Something that manages listeners of events and dispatches payloads of type
/// `T` to callbacks of type `C`.
pub trait EventHandler<T, C: Fn(&T)>: Sized {
    /// The state of the handler.
    spec fn model(&self) -> EmitterView;

    /// The handler's internal invariant.
    spec fn valid(&self) -> bool;

    /// Registers a listener under `event`, after those already there.
    fn add(&mut self, event: &str, tag: Option<&str>, callback: C, lifetime: Option<u64>) -> (r: Result<ListenerHandle, EventError>)
        requires
            old(self).valid(),
            accepts_every_payload::<T, C>(callback),
            old(self).model().next_handle < u64::MAX,
        ensures
            final(self).valid(),
            add_outcome(old(self).model(), final(self).model(), event@, tag_arg_view(tag), lifetime, r),
    ;

    /// Removes from `event` every listener that `id` names.
    fn remove(&mut self, event: &str, id: &ListenerId) -> (r: Result<(), EventError>)
        requires
            old(self).valid(),
        ensures
            final(self).valid(),
            remove_outcome(old(self).model(), final(self).model(), event@, *id, r),
    ;

    /// Invokes every listener of `event` with `payload`, in registration order.
    fn emit(&mut self, event: &str, payload: &T) -> (r: Result<(), EventError>)
        requires
            old(self).valid(),
        ensures
            final(self).valid(),
            emit_outcome(old(self).model(), final(self).model(), event@, r),
    ;
}

impl<T, C: Fn(&T)> EventHandler<T, C> for EventEmitter<T, C> {
    open spec fn model(&self) -> EmitterView {
        self@
    }

    open spec fn valid(&self) -> bool {
        self.wf()
    }

    fn add(&mut self, event: &str, tag: Option<&str>, callback: C, lifetime: Option<u64>) -> (r: Result<ListenerHandle, EventError>) {
        EventEmitter::add(self, event, tag, callback, lifetime)
    }

    fn remove(&mut self, event: &str, id: &ListenerId) -> (r: Result<(), EventError>) {
        EventEmitter::remove(self, event, id)
    }

    fn emit(&mut self, event: &str, payload: &T) -> (r: Result<(), EventError>) {
        EventEmitter::emit(self, event, payload)
    }
}

} // verus!
