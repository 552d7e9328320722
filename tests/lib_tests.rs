use std::collections::HashMap;

use desru::{Action, Event, EventScheduler};

struct Callback(Box<dyn FnMut(&mut EventScheduler<Callback>) -> Option<String>>);

impl Action for Callback {
    fn call(&mut self, scheduler: &mut EventScheduler<Callback>) -> Option<String> {
        (self.0)(scheduler)
    }
}

fn act(f: impl FnMut(&mut EventScheduler<Callback>) -> Option<String> + 'static) -> Option<Callback> {
    Some(Callback(Box::new(f)))
}

type LogFilter = fn(&Event<Callback>, &Option<String>) -> bool;

#[test]
fn lib_test_event_run() {
    let mut _scheduler = EventScheduler::new();
    let mut event = Event::new(0, act(|_scheduler| Some("Executed".to_string())), None);
    let result = event.run(&mut _scheduler);

    assert_eq!(result, Some("Executed".to_string()));
}

#[test]
fn lib_test_inactive_event_run() {
    let mut _scheduler = EventScheduler::new();
    let mut event = Event::new(0, act(|_scheduler| Some("Executed".to_string())), None);
    event.active = false;
    let result = event.run(&mut _scheduler);

    assert_eq!(result, None);
}

#[test]
fn lib_test_event_cloning() {
    let mut _scheduler = EventScheduler::new();
    let mut context = HashMap::new();
    context.insert("key".to_string(), "value".to_string());
    let source_event =
        Event::new(5, act(|_scheduler| Some("Executed".to_string())), Some(context));

    let mut cloned_event = source_event.clone();
    assert_eq!(cloned_event.time, source_event.time);
    assert_eq!(cloned_event.context.get("key"), Some(&"value".to_string()));
    assert!(cloned_event.run(&mut _scheduler).is_none());
}

#[test]
fn lib_test_event_scheduling() {
    let mut scheduler: EventScheduler<Callback> = EventScheduler::new();
    let event = Event::new(5, None, None);
    scheduler.schedule(event);

    assert_eq!(scheduler.event_queue.len(), 1);
}

#[test]
fn lib_test_timeout_functionality() {
    let mut scheduler = EventScheduler::new();
    scheduler.timeout(10, act(|_| Some("Timeout Event".to_string())), None);

    assert_eq!(scheduler.event_queue.len(), 1);
}

#[test]
fn lib_test_run_until_max_time() {
    let mut scheduler = EventScheduler::new();
    scheduler.timeout(5, act(|_| Some("Event 1".to_string())), None);
    scheduler.timeout(15, act(|_| Some("Event 2".to_string())), None);

    let executed_events = scheduler.run_until_max_time(10);
    assert_eq!(executed_events.len(), 1);
}

#[test]
fn lib_test_stop_condition_functionality() {
    let mut _scheduler = EventScheduler::new();
    _scheduler.timeout(5, act(|_scheduler| Some("Event A".to_string())), None);

    let stop_fn = |s: &EventScheduler<Callback>| s.current_time >= 5;
    let executed_events = _scheduler.run(stop_fn, None::<LogFilter>);

    assert_eq!(executed_events.len(), 1);
}
