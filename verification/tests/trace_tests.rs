use polarcoaster::trace::{Event, Trace, TraceError};

fn rules(n: usize) -> Vec<Event> {
    let mut events = Vec::new();
    for i in 0..n {
        events.push(Event::Rule { rule: format!("rule{}", i) });
    }
    events
}

#[test]
fn accepts_a_small_tree() {
    let trace = Trace::new(2, vec![0, 1, 2, 1, 2], rules(5)).unwrap();
    assert_eq!(trace.len(), 5);
    assert_eq!(trace.max_depth(), 2);
    assert_eq!(trace.depths(), &vec![0, 1, 2, 1, 2]);
    assert_eq!(trace.events().len(), 5);
    assert_eq!(trace.events()[3], Event::Rule { rule: String::from("rule3") });
}

#[test]
fn keeps_queries_and_rules_apart() {
    let events = vec![
        Event::Query { term: String::from("f(x)") },
        Event::Rule { rule: String::from("f(1);") },
    ];
    let trace = Trace::new(1, vec![0, 1], events).unwrap();
    assert_eq!(trace.events()[0], Event::Query { term: String::from("f(x)") });
    assert_eq!(trace.events()[1], Event::Rule { rule: String::from("f(1);") });
    assert_ne!(trace.events()[0], Event::Rule { rule: String::from("f(x)") });
}

#[test]
fn accepts_a_lone_root() {
    let trace = Trace::new(0, vec![0], rules(1)).unwrap();
    assert_eq!(trace.len(), 1);
}

#[test]
fn accepts_a_maximum_depth_above_the_deepest_node() {
    let trace = Trace::new(7, vec![0, 1, 1], rules(3)).unwrap();
    assert_eq!(trace.max_depth(), 7);
}

#[test]
fn accepts_a_run_at_the_root_level() {
    assert!(Trace::new(1, vec![0, 0, 1], rules(3)).is_ok());
}

#[test]
fn rejects_an_empty_trace() {
    assert_eq!(Trace::new(0, vec![], vec![]).unwrap_err(), TraceError::Empty);
    assert_eq!(Trace::new(3, vec![], rules(2)).unwrap_err(), TraceError::Empty);
}

#[test]
fn rejects_a_wrong_number_of_events() {
    assert_eq!(Trace::new(1, vec![0, 1], rules(1)).unwrap_err(), TraceError::EventCount);
    assert_eq!(Trace::new(1, vec![0, 1], rules(3)).unwrap_err(), TraceError::EventCount);
    assert_eq!(Trace::new(1, vec![1, 5], rules(0)).unwrap_err(), TraceError::EventCount);
}

#[test]
fn rejects_a_root_below_depth_zero() {
    assert_eq!(Trace::new(1, vec![1], rules(1)).unwrap_err(), TraceError::RootDepth);
    assert_eq!(Trace::new(9, vec![2, 9, 0], rules(3)).unwrap_err(), TraceError::RootDepth);
}

#[test]
fn rejects_a_depth_above_the_maximum() {
    assert_eq!(
        Trace::new(1, vec![0, 1, 2], rules(3)).unwrap_err(),
        TraceError::DepthAboveMax { index: 2 }
    );
}

#[test]
fn rejects_a_jump_down_the_tree() {
    assert_eq!(
        Trace::new(5, vec![0, 2], rules(2)).unwrap_err(),
        TraceError::DepthJump { index: 1 }
    );
    assert_eq!(
        Trace::new(5, vec![0, 1, 2, 1, 3], rules(5)).unwrap_err(),
        TraceError::DepthJump { index: 4 }
    );
}

#[test]
fn rejects_a_return_to_the_root_level() {
    assert_eq!(
        Trace::new(1, vec![0, 1, 0], rules(3)).unwrap_err(),
        TraceError::BacktrackToRoot { index: 2 }
    );
}

#[test]
fn reports_the_first_fault() {
    assert_eq!(
        Trace::new(1, vec![0, 3, 0], rules(3)).unwrap_err(),
        TraceError::DepthAboveMax { index: 1 }
    );
    assert_eq!(
        Trace::new(4, vec![0, 1, 0, 4], rules(4)).unwrap_err(),
        TraceError::BacktrackToRoot { index: 2 }
    );
}

#[test]
fn shows_the_event_under_the_pointer() {
    let trace = Trace::new(2, vec![0, 1, 2, 1, 2], rules(5)).unwrap();
    assert_eq!(trace.display_event(Some(3), 1), Some(&Event::Rule { rule: String::from("rule3") }));
    assert_eq!(trace.display_event(Some(0), 4), Some(&Event::Rule { rule: String::from("rule0") }));
}

#[test]
fn shows_the_event_of_the_cart_when_the_pointer_is_elsewhere() {
    let trace = Trace::new(2, vec![0, 1, 2, 1, 2], rules(5)).unwrap();
    assert_eq!(trace.display_event(None, 1), Some(&Event::Rule { rule: String::from("rule1") }));
    assert_eq!(trace.display_event(None, 4), Some(&Event::Rule { rule: String::from("rule4") }));
}

#[test]
fn shows_nothing_for_an_entry_outside_the_trace() {
    let trace = Trace::new(2, vec![0, 1, 2, 1, 2], rules(5)).unwrap();
    assert_eq!(trace.display_event(Some(5), 1), None);
    assert_eq!(trace.display_event(None, 5), None);
}
