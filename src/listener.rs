use vstd::prelude::*;

verus! {

/// The identity of a registered listener, unique within its emitter.
#[derive(Clone, Copy, Debug, PartialEq, Eq, Structural)]
pub struct ListenerHandle {
    pub id: u64,
}

/// What a removal call names: every listener carrying a tag, or the single
/// listener behind a handle.
#[derive(Debug)]
pub enum ListenerId {
    Tag(String),
    Handle(ListenerHandle),
}

/// A callback stored under an event, with an optional tag and an optional
/// count of invocations left before it is dropped.
pub struct Listener<C> {
    pub tag: Option<String>,
    pub callback: C,
    pub lifetime: Option<u64>,
    pub handle: ListenerHandle,
}

/// The state of a listener that matters to the registry: everything but the callback.
pub struct ListenerView {
    pub handle: u64,
    pub tag: Option<Seq<char>>,
    pub lifetime: Option<u64>,
}

pub open spec fn tag_view(tag: Option<String>) -> Option<Seq<char>> {
    match tag {
        Some(t) => Some(t@),
        None => None,
    }
}

impl<C> View for Listener<C> {
    type V = ListenerView;

    open spec fn view(&self) -> ListenerView {
        ListenerView { handle: self.handle.id, tag: tag_view(self.tag), lifetime: self.lifetime }
    }
}

/// The views of a sequence of listeners, in order.
pub open spec fn views<C>(s: Seq<Listener<C>>) -> Seq<ListenerView> {
    s.map_values(|l: Listener<C>| l@)
}

/// Whether a listener is one that `id` names.
pub open spec fn matches_id(l: ListenerView, id: ListenerId) -> bool {
    match id {
        ListenerId::Tag(t) => l.tag == Some(t@),
        ListenerId::Handle(h) => l.handle == h.id,
    }
}

/// What remains of a listener after one invocation: nothing once its last
/// allowed invocation is spent (a lifetime of zero or one), else itself with
/// one invocation fewer left (unchanged when it has no lifetime).
pub open spec fn after_invoke(l: ListenerView) -> Option<ListenerView> {
    match l.lifetime {
        None => Some(l),
        Some(n) => if n <= 1 {
            None
        } else {
            Some(ListenerView { lifetime: Some((n - 1) as u64), ..l })
        },
    }
}

/// A callback that can be called on every payload.
pub open spec fn accepts_every_payload<T, C: Fn(&T)>(c: C) -> bool {
    forall|p: &T| #[trigger] c.requires((p,))
}

impl<C> Listener<C> {
    /// Calls the callback with the payload and counts the invocation against
    /// the lifetime; returns whether the listener is now spent and must go.
    pub fn invoke<T>(&mut self, payload: &T) -> (spent: bool)
        where C: Fn(&T),
        requires
            old(self).callback.requires((payload,)),
        ensures
            final(self).callback == old(self).callback,
            final(self).handle == old(self).handle,
            final(self).tag == old(self).tag,
            spent == (after_invoke(old(self)@) is None),
            !spent ==> after_invoke(old(self)@) == Some(final(self)@),
    {
        (self.callback)(payload);
        match self.lifetime {
            None => false,
            Some(n) => {
                if n <= 1 {
                    true
                } else {
                    self.lifetime = Some(n - 1);
                    false
                }
            },
        }
    }
}

} // verus!
