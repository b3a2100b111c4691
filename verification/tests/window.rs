//! Sliding windows.

use outbound::time::{Duration, Instant};
use outbound::types::WindowLimit;
use outbound::window::{RollingWindow, WindowSet};

fn at(secs: u64) -> Instant {
    Instant::from_nanos(secs * 1_000_000_000)
}

fn limit(capacity: u32, secs: u64) -> WindowLimit {
    WindowLimit::new(capacity, Duration::from_secs(secs))
}

#[test]
fn a_window_admits_its_capacity_per_span() {
    let mut window = RollingWindow::new(limit(3, 10));
    assert!(window.can_consume(at(0), 3));
    window.consume(at(0), 2);
    assert!(window.can_consume(at(1), 1));
    assert!(!window.can_consume(at(1), 2));
    window.consume(at(1), 1);
    assert!(!window.can_consume(at(9), 1));
    // the first entry leaves after exactly one span
    assert!(window.can_consume(at(10), 2));
    assert!(!window.can_consume(at(10), 3));
    assert!(window.can_consume(at(11), 3));
    assert!(window.is_idle(at(11)));
}

#[test]
fn a_window_tells_when_it_has_room() {
    let mut window = RollingWindow::new(limit(3, 10));
    assert_eq!(window.earliest_for(at(0), 1), Some(at(0)));
    window.consume(at(0), 2);
    window.consume(at(4), 1);
    assert_eq!(window.earliest_for(at(5), 1), Some(at(10)));
    assert_eq!(window.earliest_for(at(5), 3), Some(at(14)));
    assert_eq!(window.earliest_for(at(5), 4), None);
}

#[test]
fn every_window_of_a_set_must_have_room() {
    let limits = vec![limit(1, 1), limit(2, 10)];
    let mut set = WindowSet::new(&limits);
    assert!(set.can_consume(at(0), 1));
    assert!(!set.can_consume(at(0), 2));
    set.consume(at(0), 1);
    assert_eq!(set.earliest_for(at(0), 1), Some(at(1)));
    assert!(set.can_consume(at(1), 1));
    set.consume(at(1), 1);
    assert_eq!(set.earliest_for(at(1), 1), Some(at(10)));
    assert!(!set.is_idle(at(1)));
    assert!(set.is_idle(at(11)));
}

#[test]
fn an_empty_set_admits_everything() {
    let mut set = WindowSet::new(&Vec::new());
    assert!(set.can_consume(at(0), u32::MAX));
    assert!(set.is_idle(at(0)));
}
