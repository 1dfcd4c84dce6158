//! Core types.

use wperf::graph::types::{ThreadId, TimeWindow};

#[test]
fn time_window_duration() {
    assert_eq!(TimeWindow::new(10, 50).duration(), 40);
    assert_eq!(TimeWindow::new(0, 0).duration(), 0);
}

#[test]
fn time_window_overlap() {
    let a = TimeWindow::new(0, 100);
    let b = TimeWindow::new(20, 80);
    assert_eq!(a.overlap(&b), Some(TimeWindow::new(20, 80)));

    let c = TimeWindow::new(50, 150);
    assert_eq!(a.overlap(&c), Some(TimeWindow::new(50, 100)));

    let d = TimeWindow::new(100, 200);
    assert_eq!(a.overlap(&d), None); // adjacent = disjoint (half-open)
}

#[test]
fn time_window_contains() {
    let w = TimeWindow::new(10, 50);
    assert!(w.contains(10));
    assert!(w.contains(49));
    assert!(!w.contains(50)); // half-open
    assert!(!w.contains(9));
}

#[test]
fn thread_id_display() {
    assert_eq!(ThreadId(-4).label(), "NIC");
    assert_eq!(ThreadId(-5).label(), "Disk");
    assert_eq!(ThreadId(1234).label(), "T1234");
}
