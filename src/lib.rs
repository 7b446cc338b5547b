//! An in-process publish/subscribe registry: listeners are registered under
//! string-named events and invoked, in registration order, when a payload is
//! emitted to their event.

pub mod emitter;
pub mod error;
pub mod handler;
pub mod laws;
pub mod listener;

pub use crate::emitter::{EmitterView, EventEmitter, DEFAULT_MAX_LISTENERS};
pub use crate::error::EventError;
pub use crate::handler::EventHandler;
pub use crate::listener::{Listener, ListenerHandle, ListenerId, ListenerView};
