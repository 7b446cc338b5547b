use vstd::prelude::*;
use crate::emitter::{
    listeners_of, with_added, with_removed, with_emitted, retain_unmatched, after_emit,
    handles_of, handles_increasing, handles_below, view_wf, EmitterView,
};
use crate::listener::{ListenerHandle, ListenerId, ListenerView, matches_id, after_invoke};

verus! {

broadcast use vstd::seq_lib::group_filter_ensures;

/// An event that has no listener is absent from the registry of a valid
/// emitter; `emit` and `dispatch` report `EventNotFound` for it.
pub proof fn lemma_no_listeners_means_absent(v: EmitterView, e: Seq<char>)
    requires
        view_wf(v),
        listeners_of(v.events, e).len() == 0,
    ensures
        !v.events.contains_key(e),
{
}

/// Registration order is kept: `add` puts the new listener after every
/// listener already registered under the event, and touches no other event.
pub proof fn lemma_add_appends(events: Map<Seq<char>, Seq<ListenerView>>, e: Seq<char>, l: ListenerView)
    ensures
        listeners_of(with_added(events, e, l), e) == listeners_of(events, e).push(l),
        handles_of(listeners_of(with_added(events, e, l), e)) == handles_of(listeners_of(events, e)).push(l.handle),
        forall|k: Seq<char>| k != e ==> listeners_of(with_added(events, e, l), k) == listeners_of(events, k),
{
    assert(handles_of(listeners_of(events, e).push(l)) =~= handles_of(listeners_of(events, e)).push(l.handle));
}

/// Listeners added one after another to an event that had none are
/// dispatched in the order they were added.
pub proof fn lemma_three_in_registration_order(
    events: Map<Seq<char>, Seq<ListenerView>>,
    e: Seq<char>,
    l1: ListenerView,
    l2: ListenerView,
    l3: ListenerView,
)
    requires
        !events.contains_key(e),
    ensures
        handles_of(listeners_of(with_added(with_added(with_added(events, e, l1), e, l2), e, l3), e))
            == seq![l1.handle, l2.handle, l3.handle],
{
    let m1 = with_added(events, e, l1);
    let m2 = with_added(m1, e, l2);
    lemma_add_appends(events, e, l1);
    lemma_add_appends(m1, e, l2);
    lemma_add_appends(m2, e, l3);
    assert(handles_of(listeners_of(events, e)) =~= Seq::<u64>::empty());
    assert(seq![l1.handle, l2.handle, l3.handle] =~= Seq::<u64>::empty().push(l1.handle).push(l2.handle).push(l3.handle));
}

/// A listener with a lifetime of one runs in the emission that follows its
/// registration and is gone after it: no listener left under the event has
/// its handle, so no later emission invokes it.
pub proof fn lemma_single_use(s: Seq<ListenerView>, i: int)
    requires
        handles_increasing(s),
        0 <= i < s.len(),
        s[i].lifetime == Some(1u64),
    ensures
        forall|j: int| 0 <= j < s.len() && j != i ==> s[j].handle != s[i].handle,
        forall|j: int| 0 <= j < after_emit(s).len() ==> #[trigger] after_emit(s)[j].handle != s[i].handle,
{
    assert forall|j: int| 0 <= j < after_emit(s).len() implies #[trigger] after_emit(s)[j].handle != s[i].handle by {
        let x = after_emit(s)[j];
        let f = |l: ListenerView| after_invoke(l);
        assert(s.filter_map(f).contains(x));
        s.lemma_filter_map_contains(f, x);
        let t = choose|t: ListenerView| #[trigger] s.contains(t) && f(t) == Some(x);
        let m = choose|m: int| 0 <= m < s.len() && s[m] == t;
        if x.handle == s[i].handle {
            assert(t.handle == x.handle);
            if m < i {
                assert(s[m].handle < s[i].handle);
            } else if m > i {
                assert(s[i].handle < s[m].handle);
            }
            assert(m == i);
        }
    }
}

/// When a single-use listener is the only one of its event, the event is
/// gone after one emission: the next emission reports `EventNotFound`.
pub proof fn lemma_single_use_sole(events: Map<Seq<char>, Seq<ListenerView>>, e: Seq<char>, l: ListenerView)
    requires
        listeners_of(events, e) == seq![l],
        l.lifetime == Some(1u64),
    ensures
        !with_emitted(events, e).contains_key(e),
{
    Seq::lemma_filter_map_singleton(l, |x: ListenerView| after_invoke(x));
}

/// Removal by tag takes from the event every listener with that tag and
/// keeps, in order, every listener with another tag or none; other events
/// stay as they were.
pub proof fn lemma_remove_by_tag(events: Map<Seq<char>, Seq<ListenerView>>, e: Seq<char>, t: String)
    ensures
        forall|x: ListenerView| #[trigger] listeners_of(with_removed(events, e, ListenerId::Tag(t)), e).contains(x)
            ==> x.tag != Some(t@) && listeners_of(events, e).contains(x),
        forall|x: ListenerView| #[trigger] listeners_of(events, e).contains(x) && x.tag != Some(t@)
            ==> listeners_of(with_removed(events, e, ListenerId::Tag(t)), e).contains(x),
        forall|k: Seq<char>| k != e ==> listeners_of(with_removed(events, e, ListenerId::Tag(t)), k) == listeners_of(events, k),
{
    let id = ListenerId::Tag(t);
    let s = listeners_of(events, e);
    let pred = |l: ListenerView| !matches_id(l, id);
    let kept = retain_unmatched(s, id);
    assert(listeners_of(with_removed(events, e, id), e) == kept);
    assert forall|x: ListenerView| #[trigger] kept.contains(x) implies x.tag != Some(t@) && s.contains(x) by {
        let j = choose|j: int| 0 <= j < kept.len() && kept[j] == x;
        assert(pred(s.filter(pred)[j]));
        s.lemma_filter_contains_rev(pred, x);
    }
    assert forall|x: ListenerView| #[trigger] s.contains(x) && x.tag != Some(t@) implies kept.contains(x) by {
        let j = choose|j: int| 0 <= j < s.len() && s[j] == x;
        assert(s.filter(pred).contains(s[j]));
    }
}

/// Removing by its handle a listener just added undoes the addition: the
/// registry is as before, so an event that had no other listener is absent
/// again.
pub proof fn lemma_add_then_remove(events: Map<Seq<char>, Seq<ListenerView>>, e: Seq<char>, l: ListenerView)
    requires
        events.contains_key(e) ==> events[e].len() > 0,
        handles_below(listeners_of(events, e), l.handle),
    ensures
        with_removed(with_added(events, e, l), e, ListenerId::Handle(ListenerHandle { id: l.handle })) == events,
        !events.contains_key(e) ==> !with_removed(with_added(events, e, l), e, ListenerId::Handle(ListenerHandle { id: l.handle })).contains_key(e),
{
    let id = ListenerId::Handle(ListenerHandle { id: l.handle });
    let s = listeners_of(events, e);
    let pred = |x: ListenerView| !matches_id(x, id);
    lemma_filter_all_kept(s, pred);
    reveal(Seq::filter);
    assert(s.push(l).drop_last() =~= s);
    assert(retain_unmatched(s.push(l), id) == s);
    assert(listeners_of(with_added(events, e, l), e) == s.push(l));
    if events.contains_key(e) {
        assert(with_removed(with_added(events, e, l), e, id) =~= events);
    } else {
        assert(with_removed(with_added(events, e, l), e, id) =~= events);
    }
}

proof fn lemma_filter_all_kept(s: Seq<ListenerView>, pred: spec_fn(ListenerView) -> bool)
    requires
        forall|i: int| 0 <= i < s.len() ==> pred(s[i]),
    ensures
        s.filter(pred) == s,
    decreases s.len(),
{
    reveal(Seq::filter);
    if s.len() > 0 {
        lemma_filter_all_kept(s.drop_last(), pred);
        assert(s.drop_last().push(s.last()) =~= s);
    }
}

} // verus!
