use std::cell::RefCell;
use std::cmp::Ordering;
use std::collections::HashMap;
use std::rc::Rc;

use desru::{Action, Event, EventScheduler};

struct Callback(Box<dyn FnMut(&mut EventScheduler<Callback>) -> Option<String>>);

impl Action for Callback {
    fn call(&mut self, scheduler: &mut EventScheduler<Callback>) -> Option<String> {
        (self.0)(scheduler)
    }
}

fn act(f: impl FnMut(&mut EventScheduler<Callback>) -> Option<String> + 'static) -> Option<Callback> {
    Some(Callback(Box::new(f)))
}

type LogFilter = fn(&Event<Callback>, &Option<String>) -> bool;

fn named(name: &str) -> Option<HashMap<String, String>> {
    let mut context = HashMap::new();
    context.insert("name".to_string(), name.to_string());
    Some(context)
}

fn name_of(event: &Event<Callback>) -> String {
    event.context.get("name").cloned().unwrap_or_default()
}

fn never(_: &EventScheduler<Callback>) -> bool {
    false
}

#[test]
fn events_run_in_time_order() {
    let seen = Rc::new(RefCell::new(Vec::new()));
    let mut scheduler = EventScheduler::new();
    for t in [3, 1, 2, 5, 4] {
        let seen = seen.clone();
        scheduler.schedule(Event::new(
            t,
            act(move |s| {
                seen.borrow_mut().push((t, s.current_time));
                None
            }),
            None,
        ));
    }
    let log = scheduler.run(never, None::<LogFilter>);
    assert_eq!(*seen.borrow(), vec![(1, 1), (2, 2), (3, 3), (4, 4), (5, 5)]);
    let times: Vec<i64> = log.iter().map(|(e, _)| e.time).collect();
    assert_eq!(times, vec![1, 2, 3, 4, 5]);
    assert_eq!(scheduler.current_time, 5);
    assert!(scheduler.event_queue.is_empty());
}

#[test]
fn equal_times_run_in_scheduling_order() {
    let mut scheduler: EventScheduler<Callback> = EventScheduler::new();
    scheduler.schedule(Event::new(2, None, named("b")));
    scheduler.schedule(Event::new(1, None, named("a")));
    scheduler.schedule(Event::new(2, None, named("c")));
    scheduler.schedule(Event::new(2, None, named("d")));
    let log = scheduler.run(never, None::<LogFilter>);
    let names: Vec<String> = log.iter().map(|(e, _)| name_of(e)).collect();
    assert_eq!(names, vec!["a", "b", "c", "d"]);
}

#[test]
fn deactivated_event_is_dequeued_and_logged_without_effect() {
    let calls = Rc::new(RefCell::new(0));
    let counter = calls.clone();
    let mut event = Event::new(
        7,
        act(move |s| {
            *counter.borrow_mut() += 1;
            s.timeout(1, None, None);
            Some("ran".to_string())
        }),
        None,
    );
    event.deactivate();
    assert!(!event.active);
    let mut scheduler = EventScheduler::new();
    scheduler.schedule(event);
    let log = scheduler.run(never, None::<LogFilter>);
    assert_eq!(*calls.borrow(), 0);
    assert_eq!(log.len(), 1);
    assert_eq!(log[0].0.time, 7);
    assert!(!log[0].0.active);
    assert_eq!(log[0].1, None);
    assert_eq!(scheduler.current_time, 7);
    assert!(scheduler.event_queue.is_empty());
}

#[test]
fn reactivated_event_runs() {
    let mut scheduler = EventScheduler::new();
    let mut event = Event::new(0, act(|_| Some("on".to_string())), None);
    event.deactivate();
    event.activate();
    assert!(event.active);
    assert_eq!(event.run(&mut scheduler), Some("on".to_string()));
}

#[test]
fn event_without_action_yields_nothing() {
    let mut scheduler: EventScheduler<Callback> = EventScheduler::new();
    let mut event = Event::new(4, None, None);
    assert!(event.context.is_empty());
    assert!(event.active);
    assert_eq!(event.run(&mut scheduler), None);
    assert!(scheduler.event_queue.is_empty());
}

#[test]
fn action_schedules_between_pending_events() {
    let mut scheduler = EventScheduler::new();
    scheduler.schedule(Event::new(
        1,
        act(|s| {
            let at = s.current_time + 2;
            s.schedule(Event::new(at, None, named("new")));
            None
        }),
        named("first"),
    ));
    scheduler.schedule(Event::new(2, None, named("two")));
    scheduler.schedule(Event::new(3, None, named("three")));
    scheduler.schedule(Event::new(4, None, named("four")));
    let log = scheduler.run(never, None::<LogFilter>);
    let names: Vec<String> = log.iter().map(|(e, _)| name_of(e)).collect();
    assert_eq!(names, vec!["first", "two", "three", "new", "four"]);
}

#[test]
fn max_time_leaves_later_event_queued() {
    let mut scheduler = EventScheduler::new();
    scheduler.timeout(5, act(|_| Some("five".to_string())), None);
    scheduler.timeout(15, act(|_| Some("fifteen".to_string())), None);
    let log = scheduler.run_until_max_time(10);
    assert_eq!(log.len(), 1);
    assert_eq!(log[0].0.time, 5);
    assert_eq!(log[0].1, Some("five".to_string()));
    assert_eq!(scheduler.current_time, 5);
    assert_eq!(scheduler.event_queue.len(), 1);
    assert_eq!(scheduler.event_queue[0].time, 15);
}

#[test]
fn max_time_excludes_event_at_the_bound() {
    let mut scheduler: EventScheduler<Callback> = EventScheduler::new();
    scheduler.timeout(10, None, None);
    let log = scheduler.run_until_max_time(10);
    assert!(log.is_empty());
    assert_eq!(scheduler.current_time, 0);
    assert_eq!(scheduler.event_queue.len(), 1);
}

#[test]
fn max_time_on_empty_scheduler_does_nothing() {
    let mut scheduler: EventScheduler<Callback> = EventScheduler::new();
    let log = scheduler.run_until_max_time(100);
    assert!(log.is_empty());
    assert_eq!(scheduler.current_time, 0);
}

#[test]
fn max_time_follows_chain_of_timeouts() {
    fn park(s: &mut EventScheduler<Callback>) -> Option<String> {
        s.timeout(5, act(drive), None);
        Some(format!("park {}", s.current_time))
    }
    fn drive(s: &mut EventScheduler<Callback>) -> Option<String> {
        s.timeout(2, act(park), None);
        Some(format!("drive {}", s.current_time))
    }
    let mut scheduler = EventScheduler::new();
    scheduler.schedule(Event::new(0, act(park), None));
    let log = scheduler.run_until_max_time(15);
    let results: Vec<String> = log.iter().map(|(_, r)| r.clone().unwrap()).collect();
    assert_eq!(results, vec!["park 0", "drive 5", "park 7", "drive 12", "park 14"]);
    assert_eq!(scheduler.current_time, 14);
    assert_eq!(scheduler.next_time(), Some(19));
}

#[test]
fn filter_rejecting_all_keeps_log_empty() {
    let calls = Rc::new(RefCell::new(0));
    let mut scheduler = EventScheduler::new();
    for t in [1, 2, 3] {
        let counter = calls.clone();
        scheduler.schedule(Event::new(
            t,
            act(move |_| {
                *counter.borrow_mut() += 1;
                Some("done".to_string())
            }),
            None,
        ));
    }
    let log = scheduler.run(never, Some(|_: &Event<Callback>, _: &Option<String>| false));
    assert!(log.is_empty());
    assert_eq!(*calls.borrow(), 3);
    assert_eq!(scheduler.current_time, 3);
    assert!(scheduler.event_queue.is_empty());
}

#[test]
fn filter_selects_logged_entries() {
    let mut scheduler = EventScheduler::new();
    scheduler.timeout(1, act(|_| Some("keep".to_string())), None);
    scheduler.timeout(2, act(|_| None), None);
    scheduler.timeout(3, act(|_| Some("keep".to_string())), None);
    let log = scheduler.run(never, Some(|_: &Event<Callback>, r: &Option<String>| r.is_some()));
    let times: Vec<i64> = log.iter().map(|(e, _)| e.time).collect();
    assert_eq!(times, vec![1, 3]);
}

#[test]
fn logged_copy_keeps_context_and_has_no_action() {
    let mut scheduler = EventScheduler::new();
    scheduler.schedule(Event::new(2, act(|_| Some("once".to_string())), named("job")));
    let log = scheduler.run(never, None::<LogFilter>);
    assert_eq!(log.len(), 1);
    assert_eq!(log[0].1, Some("once".to_string()));
    let mut copy = log[0].0.clone();
    assert!(copy.action.is_none());
    assert_eq!(copy.context, named("job").unwrap());
    assert_eq!(copy.time, 2);
    assert_eq!(copy.run(&mut scheduler), None);
    assert!(scheduler.event_log[0].0.action.is_none());
}

#[test]
fn run_with_true_predicate_changes_nothing() {
    let mut scheduler = EventScheduler::new();
    scheduler.timeout(1, act(|_| Some("a".to_string())), None);
    scheduler.timeout(2, act(|_| Some("b".to_string())), None);
    let first = scheduler.run(|s: &EventScheduler<Callback>| s.current_time >= 1, None::<LogFilter>);
    assert_eq!(first.len(), 1);
    let again = scheduler.run(|_: &EventScheduler<Callback>| true, None::<LogFilter>);
    assert_eq!(again.len(), 1);
    assert_eq!(again[0].0.time, first[0].0.time);
    assert_eq!(again[0].1, first[0].1);
    assert_eq!(scheduler.event_queue.len(), 1);
    assert_eq!(scheduler.current_time, 1);
}

#[test]
fn run_returns_whole_log() {
    let mut scheduler = EventScheduler::new();
    scheduler.timeout(1, act(|_| Some("a".to_string())), None);
    scheduler.timeout(2, act(|_| Some("b".to_string())), None);
    scheduler.run_until_max_time(2);
    let log = scheduler.run_until_max_time(10);
    let results: Vec<Option<String>> = log.into_iter().map(|(_, r)| r).collect();
    assert_eq!(results, vec![Some("a".to_string()), Some("b".to_string())]);
}

#[test]
fn timeout_is_relative_to_clock_and_may_reach_the_past() {
    let mut scheduler: EventScheduler<Callback> = EventScheduler::new();
    scheduler.timeout(10, None, None);
    scheduler.run(never, None::<LogFilter>);
    assert_eq!(scheduler.current_time, 10);
    scheduler.timeout(-4, None, named("past"));
    assert_eq!(scheduler.event_queue[0].time, 6);
    assert_eq!(scheduler.event_queue[0].context, named("past").unwrap());
    assert!(scheduler.event_queue[0].active);
    scheduler.run(never, None::<LogFilter>);
    assert_eq!(scheduler.current_time, 6);
}

#[test]
fn advance_takes_earliest_and_moves_clock() {
    let mut scheduler: EventScheduler<Callback> = EventScheduler::new();
    assert!(scheduler.advance().is_none());
    assert_eq!(scheduler.next_time(), None);
    scheduler.schedule(Event::new(8, None, named("x")));
    scheduler.schedule(Event::new(3, None, named("y")));
    scheduler.schedule(Event::new(3, None, named("z")));
    assert_eq!(scheduler.next_time(), Some(3));
    let e = scheduler.advance().unwrap();
    assert_eq!(name_of(&e), "y");
    assert_eq!(scheduler.current_time, 3);
    let names: Vec<String> = scheduler.event_queue.iter().map(name_of).collect();
    assert_eq!(names, vec!["x", "z"]);
    assert!(scheduler.event_log.is_empty());
}

#[test]
fn has_reached_checks_clock_and_next_event() {
    let mut scheduler: EventScheduler<Callback> = EventScheduler::new();
    assert!(scheduler.has_reached(5));
    scheduler.schedule(Event::new(4, None, None));
    assert!(!scheduler.has_reached(5));
    assert!(scheduler.has_reached(4));
    scheduler.current_time = 5;
    assert!(scheduler.has_reached(5));
}

#[test]
fn events_compare_by_time() {
    let a: Event<Callback> = Event::new(1, None, named("a"));
    let b: Event<Callback> = Event::new(1, None, named("b"));
    let c: Event<Callback> = Event::new(2, None, None);
    assert!(a == b);
    assert!(a != c);
    assert!(a < c);
    assert!(c > b);
    assert_eq!(a.partial_cmp(&c), Some(Ordering::Less));
    assert_eq!(c.partial_cmp(&a), Some(Ordering::Greater));
    assert_eq!(a.partial_cmp(&b), Some(Ordering::Equal));
}

#[test]
fn new_scheduler_is_empty() {
    let scheduler: EventScheduler<Callback> = EventScheduler::new();
    assert_eq!(scheduler.current_time, 0);
    assert!(scheduler.event_queue.is_empty());
    assert!(scheduler.event_log.is_empty());
}

#[test]
fn idle_events_with_rejecting_filter_leave_log_unchanged() {
    let mut scheduler: EventScheduler<Callback> = EventScheduler::new();
    scheduler.schedule(Event::new(1, None, named("kept")));
    scheduler.run(never, None::<LogFilter>);
    assert_eq!(scheduler.event_log.len(), 1);
    let mut inactive = Event::new(3, act(|_| Some("never".to_string())), None);
    inactive.deactivate();
    scheduler.schedule(inactive);
    scheduler.schedule(Event::new(2, None, None));
    let log = scheduler.run(never, Some(|_: &Event<Callback>, _: &Option<String>| false));
    assert_eq!(log.len(), 1);
    assert_eq!(name_of(&log[0].0), "kept");
    assert_eq!(scheduler.current_time, 3);
    assert!(scheduler.event_queue.is_empty());
}

#[test]
fn event_run_lets_action_schedule() {
    let mut scheduler = EventScheduler::new();
    let mut event = Event::new(
        0,
        act(|s| {
            s.schedule(Event::new(3, None, None));
            Some("x".to_string())
        }),
        None,
    );
    assert_eq!(event.run(&mut scheduler), Some("x".to_string()));
    assert_eq!(scheduler.event_queue.len(), 1);
    assert_eq!(scheduler.next_time(), Some(3));
    assert_eq!(scheduler.current_time, 0);
    assert!(scheduler.event_log.is_empty());
    assert_eq!(event.time, 0);
    assert!(event.active);
}

#[test]
fn run_until_max_time_twice_changes_nothing() {
    let mut scheduler = EventScheduler::new();
    scheduler.timeout(5, act(|_| Some("five".to_string())), None);
    scheduler.timeout(15, act(|_| Some("fifteen".to_string())), None);
    let first = scheduler.run_until_max_time(10);
    let second = scheduler.run_until_max_time(10);
    assert_eq!(first.len(), 1);
    assert_eq!(second.len(), 1);
    assert_eq!(scheduler.current_time, 5);
    assert_eq!(scheduler.event_queue.len(), 1);
}
