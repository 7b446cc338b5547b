use rs_events::{EventEmitter, EventError, ListenerHandle, ListenerId, DEFAULT_MAX_LISTENERS};
use std::cell::RefCell;
use std::rc::Rc;

type Callback = Box<dyn Fn(&String)>;

fn recorder(log: &Rc<RefCell<Vec<String>>>, name: &str) -> Callback {
    let log = Rc::clone(log);
    let name = name.to_string();
    Box::new(move |payload: &String| log.borrow_mut().push(format!("{}:{}", name, payload)))
}

fn silent() -> Callback {
    Box::new(|_payload: &String| {})
}

#[test]
fn emit_without_listeners_is_event_not_found() {
    let mut emitter: EventEmitter<String, Callback> = EventEmitter::new();
    assert_eq!(emitter.emit("nobody", &"hi".to_string()), Err(EventError::EventNotFound));
    emitter.add("somebody", None, silent(), None).unwrap();
    assert_eq!(emitter.emit("nobody", &"hi".to_string()), Err(EventError::EventNotFound));
    assert!(!emitter.has_event("nobody"));
}

#[test]
fn add_at_capacity_is_overloaded_and_changes_nothing() {
    let mut emitter: EventEmitter<String, Callback> = EventEmitter::with_max_listeners(3);
    for _ in 0..3 {
        emitter.add("x", None, silent(), None).unwrap();
    }
    assert_eq!(emitter.listener_count("x"), 3);
    assert_eq!(emitter.add("x", Some("late"), silent(), None), Err(EventError::OverloadedEvent));
    assert_eq!(emitter.listener_count("x"), 3);
    assert!(emitter.add("y", None, silent(), None).is_ok());
}

#[test]
fn zero_capacity_refuses_every_listener() {
    let mut emitter: EventEmitter<String, Callback> = EventEmitter::with_max_listeners(0);
    assert_eq!(emitter.add("x", None, silent(), None), Err(EventError::OverloadedEvent));
    assert!(!emitter.has_event("x"));
}

#[test]
fn default_bound_is_used_by_new_and_default() {
    let emitter: EventEmitter<String, Callback> = EventEmitter::new();
    assert_eq!(emitter.max_listeners(), DEFAULT_MAX_LISTENERS);
    let emitter: EventEmitter<String, Callback> = EventEmitter::default();
    assert_eq!(emitter.max_listeners(), DEFAULT_MAX_LISTENERS);
    let mut emitter: EventEmitter<String, Callback> = EventEmitter::new();
    for _ in 0..DEFAULT_MAX_LISTENERS {
        emitter.add("x", None, silent(), None).unwrap();
    }
    assert_eq!(emitter.add("x", None, silent(), None), Err(EventError::OverloadedEvent));
}

#[test]
fn dispatch_follows_registration_order() {
    let log = Rc::new(RefCell::new(Vec::new()));
    let mut emitter: EventEmitter<String, Callback> = EventEmitter::new();
    let h1 = emitter.add("x", None, recorder(&log, "L1"), None).unwrap();
    let h2 = emitter.add("x", None, recorder(&log, "L2"), None).unwrap();
    let h3 = emitter.add("x", None, recorder(&log, "L3"), None).unwrap();
    emitter.add("other", None, recorder(&log, "O"), None).unwrap();
    let invoked = emitter.dispatch("x", &"p".to_string()).unwrap();
    assert_eq!(invoked, vec![h1, h2, h3]);
    assert_eq!(*log.borrow(), vec!["L1:p", "L2:p", "L3:p"]);
    assert_eq!(emitter.emit("x", &"q".to_string()), Ok(()));
    assert_eq!(*log.borrow(), vec!["L1:p", "L2:p", "L3:p", "L1:q", "L2:q", "L3:q"]);
}

#[test]
fn handles_are_distinct() {
    let mut emitter: EventEmitter<String, Callback> = EventEmitter::new();
    let a: ListenerHandle = emitter.add("x", None, silent(), None).unwrap();
    let b: ListenerHandle = emitter.add("y", None, silent(), None).unwrap();
    let c: ListenerHandle = emitter.add("x", None, silent(), None).unwrap();
    assert_ne!(a, b);
    assert_ne!(a, c);
    assert_ne!(b, c);
}

#[test]
fn single_use_listener_runs_once() {
    let log = Rc::new(RefCell::new(Vec::new()));
    let mut emitter: EventEmitter<String, Callback> = EventEmitter::new();
    emitter.add("x", None, recorder(&log, "once"), Some(1)).unwrap();
    assert_eq!(emitter.emit("x", &"a".to_string()), Ok(()));
    assert_eq!(emitter.emit("x", &"b".to_string()), Err(EventError::EventNotFound));
    assert_eq!(*log.borrow(), vec!["once:a"]);
    assert!(!emitter.has_event("x"));
}

#[test]
fn single_use_listener_beside_permanent_one() {
    let log = Rc::new(RefCell::new(Vec::new()));
    let mut emitter: EventEmitter<String, Callback> = EventEmitter::new();
    emitter.add("x", None, recorder(&log, "once"), Some(1)).unwrap();
    emitter.add("x", None, recorder(&log, "always"), None).unwrap();
    for payload in ["a", "b", "c"] {
        assert_eq!(emitter.emit("x", &payload.to_string()), Ok(()));
    }
    assert_eq!(*log.borrow(), vec!["once:a", "always:a", "always:b", "always:c"]);
    assert_eq!(emitter.listener_count("x"), 1);
}

#[test]
fn lifetime_counts_down_per_emit() {
    let log = Rc::new(RefCell::new(Vec::new()));
    let mut emitter: EventEmitter<String, Callback> = EventEmitter::new();
    emitter.add("x", None, recorder(&log, "three"), Some(3)).unwrap();
    for payload in ["a", "b", "c"] {
        assert_eq!(emitter.emit("x", &payload.to_string()), Ok(()));
    }
    assert_eq!(emitter.emit("x", &"d".to_string()), Err(EventError::EventNotFound));
    assert_eq!(*log.borrow(), vec!["three:a", "three:b", "three:c"]);
}

#[test]
fn zero_lifetime_runs_once() {
    let log = Rc::new(RefCell::new(Vec::new()));
    let mut emitter: EventEmitter<String, Callback> = EventEmitter::new();
    emitter.add("x", None, recorder(&log, "zero"), Some(0)).unwrap();
    assert_eq!(emitter.emit("x", &"a".to_string()), Ok(()));
    assert!(!emitter.has_event("x"));
    assert_eq!(*log.borrow(), vec!["zero:a"]);
}

#[test]
fn remove_by_tag_removes_every_match_and_nothing_else() {
    let log = Rc::new(RefCell::new(Vec::new()));
    let mut emitter: EventEmitter<String, Callback> = EventEmitter::new();
    emitter.add("x", Some("ui"), recorder(&log, "ui1"), None).unwrap();
    emitter.add("x", Some("log"), recorder(&log, "log"), None).unwrap();
    emitter.add("x", Some("ui"), recorder(&log, "ui2"), None).unwrap();
    emitter.add("x", None, recorder(&log, "plain"), None).unwrap();
    emitter.add("y", Some("ui"), recorder(&log, "ui_y"), None).unwrap();
    assert_eq!(emitter.remove("x", &ListenerId::Tag("ui".to_string())), Ok(()));
    assert_eq!(emitter.listener_count("x"), 2);
    assert_eq!(emitter.listener_count("y"), 1);
    emitter.emit("x", &"p".to_string()).unwrap();
    emitter.emit("y", &"p".to_string()).unwrap();
    assert_eq!(*log.borrow(), vec!["log:p", "plain:p", "ui_y:p"]);
}

#[test]
fn remove_errors() {
    let mut emitter: EventEmitter<String, Callback> = EventEmitter::new();
    let tag = ListenerId::Tag("t".to_string());
    assert_eq!(emitter.remove("x", &tag), Err(EventError::EventNotFound));
    let h = emitter.add("x", Some("u"), silent(), None).unwrap();
    assert_eq!(emitter.remove("x", &tag), Err(EventError::ListenerNotFound));
    assert_eq!(emitter.remove("y", &ListenerId::Handle(h)), Err(EventError::EventNotFound));
    assert_eq!(emitter.listener_count("x"), 1);
    assert_eq!(emitter.remove("x", &ListenerId::Handle(h)), Ok(()));
    assert_eq!(emitter.remove("x", &ListenerId::Handle(h)), Err(EventError::EventNotFound));
}

#[test]
fn add_then_remove_by_handle_leaves_event_absent() {
    let mut emitter: EventEmitter<String, Callback> = EventEmitter::new();
    let h = emitter.add("x", None, silent(), None).unwrap();
    assert_eq!(emitter.remove("x", &ListenerId::Handle(h)), Ok(()));
    assert!(!emitter.has_event("x"));
    assert_eq!(emitter.emit("x", &"p".to_string()), Err(EventError::EventNotFound));
}

#[test]
fn remove_by_handle_removes_exactly_one() {
    let log = Rc::new(RefCell::new(Vec::new()));
    let mut emitter: EventEmitter<String, Callback> = EventEmitter::new();
    emitter.add("x", Some("same"), recorder(&log, "a"), None).unwrap();
    let hb = emitter.add("x", Some("same"), recorder(&log, "b"), None).unwrap();
    emitter.add("x", Some("same"), recorder(&log, "c"), None).unwrap();
    assert_eq!(emitter.remove("x", &ListenerId::Handle(hb)), Ok(()));
    emitter.emit("x", &"p".to_string()).unwrap();
    assert_eq!(*log.borrow(), vec!["a:p", "c:p"]);
}

#[test]
fn capacity_of_two_scenario() {
    let mut emitter: EventEmitter<String, Callback> = EventEmitter::with_max_listeners(2);
    let h1 = emitter.add("click", None, silent(), None).unwrap();
    let _h2 = emitter.add("click", None, silent(), None).unwrap();
    assert_eq!(emitter.add("click", None, silent(), None), Err(EventError::OverloadedEvent));
    assert_eq!(emitter.remove("click", &ListenerId::Handle(h1)), Ok(()));
    assert!(emitter.add("click", None, silent(), None).is_ok());
    assert_eq!(emitter.listener_count("click"), 2);
}
