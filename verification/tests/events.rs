use axon_core::duration::Duration;
use axon_core::events::{EventKind, EventMonitor};

#[test]
fn test_event_monitor_create_trigger_take() {
    let mut monitor = EventMonitor::new();
    let handle = monitor.create_event(EventKind::DeadlineMissed, 0);
    monitor.trigger_event(handle, 1);
    let (count, _instant, _, _) = monitor.take_event(handle).unwrap();
    assert_eq!(count, 1);
    assert!(monitor.take_event(handle).is_none());
    monitor.destroy_event(handle);
}

#[test]
fn test_event_monitor_multiple_triggers() {
    let mut monitor = EventMonitor::new();
    let handle = monitor.create_event(EventKind::LivelinessLost, 0);
    for _ in 0..5 {
        monitor.trigger_event(handle, 1);
    }
    let (count, _instant, _, _) = monitor.take_event(handle).unwrap();
    assert_eq!(count, 5);
    monitor.destroy_event(handle);
}

#[test]
fn test_event_monitor_destroy() {
    let mut monitor = EventMonitor::new();
    let handle = monitor.create_event(EventKind::MessageLost, 0);
    monitor.destroy_event(handle);
    assert!(monitor.take_event(handle).is_none());
}

#[test]
fn events_have_numbers_of_their_own() {
    let mut monitor = EventMonitor::new();
    let a = monitor.create_event(EventKind::MessageLost, 0);
    let b = monitor.create_event(EventKind::MessageLost, 0);
    assert_ne!(a, 0);
    assert_ne!(a, b);
    monitor.trigger_event(b, 4);
    assert!(monitor.take_event(a).is_none());
    assert_eq!(monitor.take_event(b), Some((1, 4, 0, 0)));
}

#[test]
fn a_change_of_liveliness_sets_the_counts() {
    let mut monitor = EventMonitor::new();
    let h = monitor.create_event(EventKind::LivelinessChanged, 0);
    monitor.update_liveliness_counts(h, 3, 1);
    assert!(monitor.take_event(h).is_none());
    monitor.trigger_liveliness_changed(h, 2, 5, 9);
    assert_eq!(monitor.take_event(h), Some((1, 9, 2, 5)));
}

#[test]
fn a_deadline_is_missed_only_where_nothing_came() {
    let ms = 1_000_000u64;
    let mut monitor = EventMonitor::new();
    let h = monitor.create_event(EventKind::DeadlineMissed, 0);
    monitor.register_deadline_monitor(h, 7, 8, Duration::from_millis(10), 0);
    monitor.check_deadlines(5 * ms);
    assert!(monitor.take_event(h).is_none());
    monitor.update_deadline_publish_time(7, 8, 9 * ms);
    monitor.check_deadlines(15 * ms);
    assert!(monitor.take_event(h).is_none());
    monitor.check_deadlines(40 * ms);
    let (count, at, _, _) = monitor.take_event(h).unwrap();
    assert_eq!((count, at), (1, 40 * ms));
}

#[test]
fn a_lease_that_runs_out_is_told_once_asserted_lives() {
    let ms = 1_000_000u64;
    let mut monitor = EventMonitor::new();
    let h = monitor.create_event(EventKind::LivelinessLost, 0);
    monitor.register_liveliness_monitor(h, 5, Duration::from_millis(10), 0);
    monitor.assert_liveliness(5, 8 * ms);
    monitor.check_liveliness(12 * ms);
    assert!(monitor.take_event(h).is_none());
    monitor.check_liveliness(60 * ms);
    assert!(monitor.take_event(h).is_some());
}
