use vstd::prelude::*;
use crate::error::EventError;
use crate::listener::{
    Listener, ListenerHandle, ListenerId, ListenerView, views, matches_id, after_invoke,
    accepts_every_payload,
};

verus! {

/// The number of listeners an event may hold when no other bound is given.
pub const DEFAULT_MAX_LISTENERS: usize = 10;

/// One event of the registry and its listeners, in registration order.
struct EventEntry<C> {
    name: String,
    listeners: Vec<Listener<C>>,
}

/// The abstract state of an emitter: the listeners of each event that has any,
/// the bound on their number, and the handle the next listener will get.
pub struct EmitterView {
    pub events: Map<Seq<char>, Seq<ListenerView>>,
    pub max_listeners: nat,
    pub next_handle: u64,
}

/// The listeners registered under `event`, none when the event is absent.
pub open spec fn listeners_of(events: Map<Seq<char>, Seq<ListenerView>>, event: Seq<char>) -> Seq<ListenerView> {
    if events.contains_key(event) {
        events[event]
    } else {
        Seq::empty()
    }
}

/// The registry after `list` became the listeners of `event`: the event is
/// dropped when `list` is empty.
pub open spec fn with_listeners(
    events: Map<Seq<char>, Seq<ListenerView>>,
    event: Seq<char>,
    list: Seq<ListenerView>,
) -> Map<Seq<char>, Seq<ListenerView>> {
    if list.len() == 0 {
        events.remove(event)
    } else {
        events.insert(event, list)
    }
}

/// The listeners that a removal by `id` keeps, in their order.
pub open spec fn retain_unmatched(s: Seq<ListenerView>, id: ListenerId) -> Seq<ListenerView> {
    s.filter(|l: ListenerView| !matches_id(l, id))
}

/// The listeners after each of `s` was invoked once, in their order.
pub open spec fn after_emit(s: Seq<ListenerView>) -> Seq<ListenerView> {
    s.filter_map(|l: ListenerView| after_invoke(l))
}

/// The handles of a sequence of listeners, in order.
pub open spec fn handles_of(s: Seq<ListenerView>) -> Seq<u64> {
    s.map_values(|l: ListenerView| l.handle)
}

/// The tag of a listener as given to `add`.
pub open spec fn tag_arg_view(tag: Option<&str>) -> Option<Seq<char>> {
    match tag {
        Some(t) => Some(t@),
        None => None,
    }
}

/// The registry after `l` was appended to the listeners of `event`.
pub open spec fn with_added(
    events: Map<Seq<char>, Seq<ListenerView>>,
    event: Seq<char>,
    l: ListenerView,
) -> Map<Seq<char>, Seq<ListenerView>> {
    events.insert(event, listeners_of(events, event).push(l))
}

/// The registry after a removal by `id` from `event`.
pub open spec fn with_removed(
    events: Map<Seq<char>, Seq<ListenerView>>,
    event: Seq<char>,
    id: ListenerId,
) -> Map<Seq<char>, Seq<ListenerView>> {
    with_listeners(events, event, retain_unmatched(listeners_of(events, event), id))
}

/// The registry after one emission to `event`.
pub open spec fn with_emitted(
    events: Map<Seq<char>, Seq<ListenerView>>,
    event: Seq<char>,
) -> Map<Seq<char>, Seq<ListenerView>> {
    with_listeners(events, event, after_emit(listeners_of(events, event)))
}

/// Whether some listener of `s` is one that `id` names.
pub open spec fn has_match(s: Seq<ListenerView>, id: ListenerId) -> bool {
    exists|i: int| 0 <= i < s.len() && matches_id(s[i], id)
}

/// Handles strictly increase along `s`: each listener is identified by its handle.
pub open spec fn handles_increasing(s: Seq<ListenerView>) -> bool {
    forall|i: int, j: int| 0 <= i < j < s.len() ==> s[i].handle < s[j].handle
}

/// Whether some listener of `s` has the handle `h`.
pub open spec fn has_handle(s: Seq<ListenerView>, h: u64) -> bool {
    exists|m: int| 0 <= m < s.len() && #[trigger] s[m].handle == h
}

/// Every handle of `r` is the handle of some listener of `s`.
pub open spec fn handles_drawn_from(r: Seq<ListenerView>, s: Seq<ListenerView>) -> bool {
    forall|j: int| 0 <= j < r.len() ==> has_handle(s, #[trigger] r[j].handle)
}

/// Every handle of `s` lies below `bound`.
pub open spec fn handles_below(s: Seq<ListenerView>, bound: u64) -> bool {
    forall|i: int| 0 <= i < s.len() ==> s[i].handle < bound
}

/// What holds of the state of every emitter: each present event holds between
/// one and `max_listeners` listeners, whose handles increase in registration
/// order and lie below the next handle to be given out.
pub open spec fn view_wf(v: EmitterView) -> bool {
    forall|e: Seq<char>| #[trigger] v.events.contains_key(e) ==> {
        &&& 0 < v.events[e].len() <= v.max_listeners
        &&& handles_increasing(v.events[e])
        &&& handles_below(v.events[e], v.next_handle)
    }
}

/// The registry: for each event name, its listeners in registration order.
pub struct EventEmitter<T, C> {
    events: Vec<EventEntry<C>>,
    max_listeners: usize,
    next_handle: u64,
    payload: core::marker::PhantomData<T>,
}

spec fn entry_names<C>(s: Seq<EventEntry<C>>) -> Seq<Seq<char>> {
    s.map_values(|e: EventEntry<C>| e.name@)
}

spec fn events_map<C>(s: Seq<EventEntry<C>>) -> Map<Seq<char>, Seq<ListenerView>> {
    Map::new(
        |k: Seq<char>| exists|i: int| 0 <= i < s.len() && s[i].name@ == k,
        |k: Seq<char>| views(s[choose|i: int| 0 <= i < s.len() && s[i].name@ == k].listeners@),
    )
}

spec fn names_unique<C>(s: Seq<EventEntry<C>>) -> bool {
    forall|i: int, j: int| 0 <= i < s.len() && 0 <= j < s.len() && i != j ==> s[i].name@ != s[j].name@
}

proof fn lemma_events_map_at<C>(s: Seq<EventEntry<C>>, i: int)
    requires
        names_unique(s),
        0 <= i < s.len(),
    ensures
        events_map(s).contains_key(s[i].name@),
        events_map(s)[s[i].name@] == views(s[i].listeners@),
{
    let k = s[i].name@;
    assert(exists|j: int| 0 <= j < s.len() && s[j].name@ == k);
    let j = choose|j: int| 0 <= j < s.len() && s[j].name@ == k;
    assert(j == i);
}

proof fn lemma_events_map_remove<C>(s: Seq<EventEntry<C>>, i: int)
    requires
        names_unique(s),
        0 <= i < s.len(),
    ensures
        names_unique(s.remove(i)),
        events_map(s.remove(i)) == events_map(s).remove(s[i].name@),
{
    let r = s.remove(i);
    assert forall|a: int, b: int| 0 <= a < r.len() && 0 <= b < r.len() && a != b implies r[a].name@ != r[b].name@ by {
        let a2 = if a < i { a } else { a + 1 };
        let b2 = if b < i { b } else { b + 1 };
        assert(r[a] == s[a2]);
        assert(r[b] == s[b2]);
    }
    let m1 = events_map(r);
    let m2 = events_map(s).remove(s[i].name@);
    assert forall|k: Seq<char>| m1.contains_key(k) <==> m2.contains_key(k) by {
        if m1.contains_key(k) {
            let a = choose|a: int| 0 <= a < r.len() && r[a].name@ == k;
            let a2 = if a < i { a } else { a + 1 };
            assert(r[a] == s[a2]);
        }
        if m2.contains_key(k) {
            let a2 = choose|a: int| 0 <= a < s.len() && s[a].name@ == k;
            let a = if a2 < i { a2 } else { a2 - 1 };
            assert(r[a] == s[a2]);
        }
    }
    assert forall|k: Seq<char>| m1.contains_key(k) implies m1[k] == m2[k] by {
        let a = choose|a: int| 0 <= a < r.len() && r[a].name@ == k;
        let a2 = if a < i { a } else { a + 1 };
        assert(r[a] == s[a2]);
        lemma_events_map_at(r, a);
        lemma_events_map_at(s, a2);
    }
    assert(m1 =~= m2);
}

proof fn lemma_events_map_push<C>(s: Seq<EventEntry<C>>, e: EventEntry<C>)
    requires
        names_unique(s),
        !events_map(s).contains_key(e.name@),
    ensures
        names_unique(s.push(e)),
        events_map(s.push(e)) == events_map(s).insert(e.name@, views(e.listeners@)),
{
    let r = s.push(e);
    assert forall|a: int, b: int| 0 <= a < r.len() && 0 <= b < r.len() && a != b implies r[a].name@ != r[b].name@ by {
        if a < s.len() && b < s.len() {
            assert(r[a] == s[a] && r[b] == s[b]);
        } else if a < s.len() {
            assert(r[a] == s[a]);
        } else {
            assert(r[b] == s[b]);
        }
    }
    let m1 = events_map(r);
    let m2 = events_map(s).insert(e.name@, views(e.listeners@));
    assert forall|k: Seq<char>| m1.contains_key(k) <==> m2.contains_key(k) by {
        if m1.contains_key(k) {
            let a = choose|a: int| 0 <= a < r.len() && r[a].name@ == k;
            if a < s.len() {
                assert(r[a] == s[a]);
            }
        }
        if m2.contains_key(k) && k != e.name@ {
            let a = choose|a: int| 0 <= a < s.len() && s[a].name@ == k;
            assert(r[a] == s[a]);
        }
        if k == e.name@ {
            assert(r[s.len() as int] == e);
        }
    }
    assert forall|k: Seq<char>| m1.contains_key(k) implies m1[k] == m2[k] by {
        let a = choose|a: int| 0 <= a < r.len() && r[a].name@ == k;
        lemma_events_map_at(r, a);
        if a < s.len() {
            assert(r[a] == s[a]);
            lemma_events_map_at(s, a);
        }
    }
    assert(m1 =~= m2);
}

impl<T, C: Fn(&T)> View for EventEmitter<T, C> {
    type V = EmitterView;

    closed spec fn view(&self) -> EmitterView {
        EmitterView {
            events: events_map(self.events@),
            max_listeners: self.max_listeners as nat,
            next_handle: self.next_handle,
        }
    }
}

impl<T, C: Fn(&T)> EventEmitter<T, C> {
    /// The emitter's internal invariant: event names are unique, every event
    /// holds between one and `max_listeners` listeners, and every callback can
    /// be called on any payload.
    pub closed spec fn wf(&self) -> bool {
        &&& names_unique(self.events@)
        &&& forall|i: int| 0 <= i < self.events@.len() ==> {
            &&& 0 < (#[trigger] self.events@[i]).listeners@.len() <= self.max_listeners
            &&& handles_increasing(views(self.events@[i].listeners@))
            &&& handles_below(views(self.events@[i].listeners@), self.next_handle)
            &&& forall|j: int| 0 <= j < self.events@[i].listeners@.len()
                ==> accepts_every_payload::<T, C>(#[trigger] self.events@[i].listeners@[j].callback)
        }
    }

    /// The invariant, as seen through the view.
    pub proof fn lemma_view_wf(&self)
        requires
            self.wf(),
        ensures
            view_wf(self@),
    {
        assert forall|e: Seq<char>| #[trigger] self@.events.contains_key(e) implies {
            &&& 0 < self@.events[e].len() <= self@.max_listeners
            &&& handles_increasing(self@.events[e])
            &&& handles_below(self@.events[e], self@.next_handle)
        } by {
            let i = choose|i: int| 0 <= i < self.events@.len() && self.events@[i].name@ == e;
            lemma_events_map_at(self.events@, i);
        }
    }

    /// An empty emitter whose events hold at most `max_listeners` listeners each.
    pub fn with_max_listeners(max_listeners: usize) -> (r: Self)
        ensures
            r.wf(),
            r@.events == Map::<Seq<char>, Seq<ListenerView>>::empty(),
            r@.max_listeners == max_listeners,
            r@.next_handle == 0,
    {
        let r = EventEmitter {
            events: Vec::new(),
            max_listeners,
            next_handle: 0,
            payload: core::marker::PhantomData,
        };
        assert(r@.events =~= Map::<Seq<char>, Seq<ListenerView>>::empty());
        r
    }

    /// An empty emitter with the default bound on listeners per event.
    pub fn new() -> (r: Self)
        ensures
            r.wf(),
            r@.events == Map::<Seq<char>, Seq<ListenerView>>::empty(),
            r@.max_listeners == DEFAULT_MAX_LISTENERS,
            r@.next_handle == 0,
    {
        Self::with_max_listeners(DEFAULT_MAX_LISTENERS)
    }

    /// The bound on the number of listeners of one event.
    pub fn max_listeners(&self) -> (r: usize)
        ensures
            r == self@.max_listeners,
    {
        self.max_listeners
    }

    /// Registers a listener under `event`, after those already there, and
    /// returns its handle; refused with `OverloadedEvent`, and nothing
    /// changed, when the event already holds `max_listeners` listeners.
    pub fn add(&mut self, event: &str, tag: Option<&str>, callback: C, lifetime: Option<u64>) -> (r: Result<ListenerHandle, EventError>)
        requires
            old(self).wf(),
            accepts_every_payload::<T, C>(callback),
            old(self)@.next_handle < u64::MAX,
        ensures
            final(self).wf(),
            final(self)@.max_listeners == old(self)@.max_listeners,
            match r {
                Ok(h) => {
                    &&& listeners_of(old(self)@.events, event@).len() < old(self)@.max_listeners
                    &&& h.id == old(self)@.next_handle
                    &&& final(self)@.next_handle == old(self)@.next_handle + 1
                    &&& final(self)@.events == with_added(
                        old(self)@.events,
                        event@,
                        ListenerView { handle: h.id, tag: tag_arg_view(tag), lifetime },
                    )
                },
                Err(e) => {
                    &&& e == EventError::OverloadedEvent
                    &&& listeners_of(old(self)@.events, event@).len() >= old(self)@.max_listeners
                    &&& final(self)@ == old(self)@
                },
            },
    {
        let name = event.to_owned();
        let handle = ListenerHandle { id: self.next_handle };
        let owned_tag = match tag {
            Some(t) => Some(t.to_owned()),
            None => None,
        };
        let listener = Listener { tag: owned_tag, callback, lifetime, handle };
        assert(listener@ == (ListenerView { handle: handle.id, tag: tag_arg_view(tag), lifetime }));
        let ghost old_events = self.events@;
        match self.find(&name) {
            Some(k) => {
                proof {
                    lemma_events_map_at(old_events, k as int);
                }
                if self.events[k].listeners.len() >= self.max_listeners {
                    return Err(EventError::OverloadedEvent);
                }
                let mut entry = self.events.remove(k);
                let ghost before = entry.listeners@;
                entry.listeners.push(listener);
                assert(views(entry.listeners@) =~= views(before).push(listener@));
                proof {
                    lemma_events_map_remove(old_events, k as int);
                    lemma_events_map_push(self.events@, entry);
                }
                self.events.push(entry);
            },
            None => {
                if self.max_listeners == 0 {
                    return Err(EventError::OverloadedEvent);
                }
                let mut listeners = Vec::new();
                listeners.push(listener);
                let entry = EventEntry { name, listeners };
                assert(views(entry.listeners@) =~= seq![listener@]);
                assert(Seq::<ListenerView>::empty().push(listener@) =~= seq![listener@]);
                proof {
                    lemma_events_map_push(old_events, entry);
                }
                self.events.push(entry);
            },
        }
        self.next_handle = self.next_handle + 1;
        Ok(handle)
    }

    /// Invokes every listener of `event` with the shared `payload`, in
    /// registration order, and returns their handles in the order of
    /// invocation. Afterwards each lifetime is one lower; a listener whose
    /// lifetime ran out is dropped, and so is the event when none is left.
    /// Fails with `EventNotFound`, and changes nothing, when the event has no
    /// listener.
    pub fn dispatch(&mut self, event: &str, payload: &T) -> (r: Result<Vec<ListenerHandle>, EventError>)
        requires
            old(self).wf(),
        ensures
            final(self).wf(),
            final(self)@.max_listeners == old(self)@.max_listeners,
            final(self)@.next_handle == old(self)@.next_handle,
            match r {
                Ok(invoked) => {
                    &&& old(self)@.events.contains_key(event@)
                    &&& invoked@.map_values(|h: ListenerHandle| h.id) == handles_of(old(self)@.events[event@])
                    &&& final(self)@.events == with_emitted(old(self)@.events, event@)
                },
                Err(e) => {
                    &&& !old(self)@.events.contains_key(event@)
                    &&& e == EventError::EventNotFound
                    &&& final(self)@ == old(self)@
                },
            },
    {
        let name = event.to_owned();
        let ghost old_events = self.events@;
        match self.find(&name) {
            None => Err(EventError::EventNotFound),
            Some(k) => {
                proof {
                    lemma_events_map_at(old_events, k as int);
                }
                let entry = self.events.remove(k);
                proof {
                    lemma_events_map_remove(old_events, k as int);
                }
                let EventEntry { name, listeners } = entry;
                assert(forall|j: int| 0 <= j < listeners@.len()
                    ==> accepts_every_payload::<T, C>(#[trigger] listeners@[j].callback)) by {
                    assert(old_events[k as int].listeners@ == listeners@);
                }
                let (kept, invoked) = Self::invoke_in_order(listeners, payload);
                if kept.len() > 0 {
                    let entry = EventEntry { name, listeners: kept };
                    proof {
                        lemma_events_map_push(self.events@, entry);
                    }
                    self.events.push(entry);
                } else {
                    assert(self@.events =~= with_emitted(old(self)@.events, event@));
                }
                Ok(invoked)
            },
        }
    }

    /// Invokes every listener of `event` with the shared `payload`, in
    /// registration order, then counts down lifetimes and drops the spent
    /// listeners as `dispatch` does. Fails with `EventNotFound`, and changes
    /// nothing, when the event has no listener.
    pub fn emit(&mut self, event: &str, payload: &T) -> (r: Result<(), EventError>)
        requires
            old(self).wf(),
        ensures
            final(self).wf(),
            final(self)@.max_listeners == old(self)@.max_listeners,
            final(self)@.next_handle == old(self)@.next_handle,
            old(self)@.events.contains_key(event@) ==> {
                &&& r == Ok::<(), EventError>(())
                &&& final(self)@.events == with_emitted(old(self)@.events, event@)
            },
            !old(self)@.events.contains_key(event@) ==> {
                &&& r == Err::<(), EventError>(EventError::EventNotFound)
                &&& final(self)@ == old(self)@
            },
    {
        match self.dispatch(event, payload) {
            Ok(_) => Ok(()),
            Err(e) => Err(e),
        }
    }

    /// Invokes each of `ls` with `payload`, front to back; returns those not
    /// spent, in their order, and the handles of all of them in the order of
    /// invocation.
    fn invoke_in_order(ls: Vec<Listener<C>>, payload: &T) -> (r: (Vec<Listener<C>>, Vec<ListenerHandle>))
        requires
            forall|j: int| 0 <= j < ls@.len() ==> accepts_every_payload::<T, C>(#[trigger] ls@[j].callback),
            handles_increasing(views(ls@)),
        ensures
            views(r.0@) == after_emit(views(ls@)),
            r.0@.len() <= ls@.len(),
            forall|j: int| 0 <= j < r.0@.len() ==> accepts_every_payload::<T, C>(#[trigger] r.0@[j].callback),
            r.1@.map_values(|h: ListenerHandle| h.id) == handles_of(views(ls@)),
            handles_increasing(views(r.0@)),
            handles_drawn_from(views(r.0@), views(ls@)),
    {
        let ghost orig = ls@;
        let n = ls.len();
        let mut rest = ls;
        let mut kept: Vec<Listener<C>> = Vec::new();
        let mut invoked: Vec<ListenerHandle> = Vec::new();
        let mut i: usize = 0;
        while i < n
            invariant
                n == orig.len(),
                i <= n,
                rest@ == orig.subrange(i as int, n as int),
                kept@.len() <= i,
                views(kept@) == after_emit(views(orig).subrange(0, i as int)),
                invoked@.len() == i,
                forall|j: int| 0 <= j < i ==> (#[trigger] invoked@[j]).id == orig[j].handle.id,
                forall|j: int| 0 <= j < orig.len() ==> accepts_every_payload::<T, C>(#[trigger] orig[j].callback),
                forall|j: int| 0 <= j < kept@.len() ==> accepts_every_payload::<T, C>(#[trigger] kept@[j].callback),
                handles_increasing(views(orig)),
                handles_increasing(views(kept@)),
                forall|j: int, m: int| 0 <= j < kept@.len() && i <= m < n
                    ==> #[trigger] views(kept@)[j].handle < #[trigger] views(orig)[m].handle,
                handles_drawn_from(views(kept@), views(orig).subrange(0, i as int)),
            decreases n - i,
        {
            let mut l = rest.remove(0);
            assert(l == orig[i as int]);
            let ghost prefix = views(orig).subrange(0, i as int + 1);
            assert(prefix.drop_last() =~= views(orig).subrange(0, i as int));
            assert(prefix.last() == l@);
            let ghost before = kept@;
            let ghost l_before = l@;
            let spent = l.invoke(payload);
            invoked.push(l.handle);
            if !spent {
                kept.push(l);
                assert(views(kept@) =~= views(before) + seq![l@]);
            }
            i += 1;
            assert(rest@ =~= orig.subrange(i as int, n as int));
        }
        assert(views(orig).subrange(0, n as int) =~= views(orig));
        assert(invoked@.map_values(|h: ListenerHandle| h.id) =~= handles_of(views(orig)));
        (kept, invoked)
    }

    /// Removes from `event` every listener that `id` names: all those with
    /// the tag, or the one with the handle. The event goes once it has no
    /// listener left. Fails with `EventNotFound` when the event is absent and
    /// with `ListenerNotFound` when no listener of it matches; nothing changes then.
    pub fn remove(&mut self, event: &str, id: &ListenerId) -> (r: Result<(), EventError>)
        requires
            old(self).wf(),
        ensures
            final(self).wf(),
            final(self)@.max_listeners == old(self)@.max_listeners,
            final(self)@.next_handle == old(self)@.next_handle,
            !old(self)@.events.contains_key(event@) ==> {
                &&& r == Err::<(), EventError>(EventError::EventNotFound)
                &&& final(self)@ == old(self)@
            },
            old(self)@.events.contains_key(event@) && !has_match(old(self)@.events[event@], *id) ==> {
                &&& r == Err::<(), EventError>(EventError::ListenerNotFound)
                &&& final(self)@ == old(self)@
            },
            old(self)@.events.contains_key(event@) && has_match(old(self)@.events[event@], *id) ==> {
                &&& r == Ok::<(), EventError>(())
                &&& final(self)@.events == with_removed(old(self)@.events, event@, *id)
            },
    {
        let name = event.to_owned();
        let ghost old_events = self.events@;
        match self.find(&name) {
            None => Err(EventError::EventNotFound),
            Some(k) => {
                proof {
                    lemma_events_map_at(old_events, k as int);
                }
                if !Self::any_match(&self.events[k].listeners, id) {
                    return Err(EventError::ListenerNotFound);
                }
                let entry = self.events.remove(k);
                proof {
                    lemma_events_map_remove(old_events, k as int);
                }
                let EventEntry { name, listeners } = entry;
                assert(forall|j: int| 0 <= j < listeners@.len()
                    ==> accepts_every_payload::<T, C>(#[trigger] listeners@[j].callback)) by {
                    assert(old_events[k as int].listeners@ == listeners@);
                }
                let kept = Self::retain_unmatched_listeners(listeners, id);
                if kept.len() > 0 {
                    let entry = EventEntry { name, listeners: kept };
                    proof {
                        lemma_events_map_push(self.events@, entry);
                    }
                    self.events.push(entry);
                } else {
                    assert(self@.events =~= with_removed(old(self)@.events, event@, *id));
                }
                Ok(())
            },
        }
    }

    /// Whether `l` is a listener that `id` names.
    fn is_match(l: &Listener<C>, id: &ListenerId) -> (r: bool)
        ensures
            r == matches_id(l@, *id),
    {
        match id {
            ListenerId::Tag(t) => match &l.tag {
                Some(lt) => lt.eq(t),
                None => false,
            },
            ListenerId::Handle(h) => l.handle.id == h.id,
        }
    }

    /// Whether some listener of `ls` is one that `id` names.
    fn any_match(ls: &Vec<Listener<C>>, id: &ListenerId) -> (r: bool)
        ensures
            r == has_match(views(ls@), *id),
    {
        let mut i: usize = 0;
        while i < ls.len()
            invariant
                i <= ls@.len(),
                forall|j: int| 0 <= j < i ==> !matches_id(#[trigger] views(ls@)[j], *id),
            decreases ls@.len() - i,
        {
            if Self::is_match(&ls[i], id) {
                assert(matches_id(views(ls@)[i as int], *id));
                return true;
            }
            i += 1;
        }
        false
    }

    /// The listeners of `ls` that `id` does not name, in their order.
    fn retain_unmatched_listeners(ls: Vec<Listener<C>>, id: &ListenerId) -> (r: Vec<Listener<C>>)
        requires
            forall|j: int| 0 <= j < ls@.len() ==> accepts_every_payload::<T, C>(#[trigger] ls@[j].callback),
            handles_increasing(views(ls@)),
        ensures
            views(r@) == retain_unmatched(views(ls@), *id),
            r@.len() <= ls@.len(),
            forall|j: int| 0 <= j < r@.len() ==> accepts_every_payload::<T, C>(#[trigger] r@[j].callback),
            handles_increasing(views(r@)),
            handles_drawn_from(views(r@), views(ls@)),
    {
        let ghost orig = ls@;
        let n = ls.len();
        let mut rest = ls;
        let mut kept: Vec<Listener<C>> = Vec::new();
        let mut i: usize = 0;
        while i < n
            invariant
                n == orig.len(),
                i <= n,
                rest@ == orig.subrange(i as int, n as int),
                kept@.len() <= i,
                views(kept@) == retain_unmatched(views(orig).subrange(0, i as int), *id),
                forall|j: int| 0 <= j < orig.len() ==> accepts_every_payload::<T, C>(#[trigger] orig[j].callback),
                forall|j: int| 0 <= j < kept@.len() ==> accepts_every_payload::<T, C>(#[trigger] kept@[j].callback),
                handles_increasing(views(orig)),
                handles_increasing(views(kept@)),
                forall|j: int, m: int| 0 <= j < kept@.len() && i <= m < n
                    ==> #[trigger] views(kept@)[j].handle < #[trigger] views(orig)[m].handle,
                handles_drawn_from(views(kept@), views(orig).subrange(0, i as int)),
            decreases n - i,
        {
            let l = rest.remove(0);
            assert(l == orig[i as int]);
            let ghost prefix = views(orig).subrange(0, i as int + 1);
            assert(prefix.drop_last() =~= views(orig).subrange(0, i as int));
            assert(prefix.last() == l@);
            proof {
                reveal(Seq::filter);
            }
            assert(retain_unmatched(prefix, *id) == if matches_id(l@, *id) {
                retain_unmatched(prefix.drop_last(), *id)
            } else {
                retain_unmatched(prefix.drop_last(), *id).push(l@)
            });
            if !Self::is_match(&l, id) {
                let ghost before = kept@;
                kept.push(l);
                assert(views(kept@) =~= views(before).push(l@));
            }
            i += 1;
            assert(rest@ =~= orig.subrange(i as int, n as int));
        }
        assert(views(orig).subrange(0, n as int) =~= views(orig));
        kept
    }

    /// The number of listeners registered under `event`.
    pub fn listener_count(&self, event: &str) -> (r: usize)
        requires
            self.wf(),
        ensures
            r == listeners_of(self@.events, event@).len(),
    {
        let name = event.to_owned();
        match self.find(&name) {
            Some(k) => {
                proof {
                    lemma_events_map_at(self.events@, k as int);
                }
                self.events[k].listeners.len()
            },
            None => 0,
        }
    }

    /// Whether `event` has a listener.
    pub fn has_event(&self, event: &str) -> (r: bool)
        requires
            self.wf(),
        ensures
            r == self@.events.contains_key(event@),
    {
        let name = event.to_owned();
        match self.find(&name) {
            Some(k) => {
                proof {
                    lemma_events_map_at(self.events@, k as int);
                }
                true
            },
            None => false,
        }
    }

    /// The position of the entry named `name`, if there is one.
    fn find(&self, name: &String) -> (r: Option<usize>)
        requires
            self.wf(),
        ensures
            match r {
                Some(k) => k < self.events@.len() && self.events@[k as int].name@ == name@,
                None => !self@.events.contains_key(name@),
            },
    {
        let mut k: usize = 0;
        while k < self.events.len()
            invariant
                k <= self.events@.len(),
                forall|i: int| 0 <= i < k ==> self.events@[i].name@ != name@,
            decreases self.events@.len() - k,
        {
            if self.events[k].name.eq(name) {
                return Some(k);
            }
            k += 1;
        }
        None
    }
}

impl<T, C: Fn(&T)> Default for EventEmitter<T, C> {
    fn default() -> (r: Self)
        ensures
            r.wf(),
            r@.events == Map::<Seq<char>, Seq<ListenerView>>::empty(),
            r@.max_listeners == DEFAULT_MAX_LISTENERS,
            r@.next_handle == 0,
    {
        Self::new()
    }
}

} // verus!
