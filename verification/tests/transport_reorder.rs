//! The reorder buffer.

use wperf::format::event::WperfEvent;
use wperf::transport::ReorderBuf;

fn make_event(ts: u64) -> WperfEvent {
    WperfEvent {
        timestamp_ns: ts,
        pid: 0,
        tid: 0,
        prev_tid: 0,
        next_tid: 0,
        prev_pid: 0,
        next_pid: 0,
        cpu: 0,
        event_type: 1,
        prev_state: 0,
        flags: 0,
    }
}

fn times(events: &[WperfEvent]) -> Vec<u64> {
    events.iter().map(|e| e.timestamp_ns).collect()
}

#[test]
fn empty_buffer() {
    let buf = ReorderBuf::new();
    assert!(buf.is_empty());
    assert_eq!(buf.len(), 0);
}

#[test]
fn events_within_window_are_buffered() {
    let mut buf = ReorderBuf::with_window(100);
    let mut out = vec![];
    buf.push(make_event(10), &mut out);
    buf.push(make_event(50), &mut out);

    // Both events are within 100ns window of newest (50), so nothing flushed.
    assert!(out.is_empty());
    assert_eq!(buf.len(), 2);
}

#[test]
fn events_outside_window_are_flushed_in_order() {
    let mut buf = ReorderBuf::with_window(100);
    let mut out = vec![];

    buf.push(make_event(10), &mut out);
    buf.push(make_event(50), &mut out);
    // Push event at ts=200; cutoff = 200 - 100 = 100.
    // Events at ts=10 and ts=50 are both <= 100, so both flushed.
    buf.push(make_event(200), &mut out);

    assert_eq!(times(&out), vec![10, 50]);
    assert_eq!(buf.len(), 1); // ts=200 still buffered
}

#[test]
fn out_of_order_events_are_sorted() {
    let mut buf = ReorderBuf::with_window(50);
    let mut out = vec![];

    // Insert out of CPU order: cpu0=100, cpu1=80, cpu2=90
    buf.push(make_event(100), &mut out);
    buf.push(make_event(80), &mut out);
    buf.push(make_event(90), &mut out);

    // Nothing flushed yet (all within 50ns of newest=100).
    assert!(out.is_empty());

    // Push event at ts=200; cutoff = 200 - 50 = 150.
    // All three (80, 90, 100) are <= 150, flushed in sorted order.
    buf.push(make_event(200), &mut out);

    assert_eq!(times(&out), vec![80, 90, 100]);
}

#[test]
fn drain_flushes_all_in_order() {
    let mut buf = ReorderBuf::with_window(1_000_000);
    let mut out = vec![];

    buf.push(make_event(300), &mut Vec::new());
    buf.push(make_event(100), &mut Vec::new());
    buf.push(make_event(200), &mut Vec::new());

    let drained = buf.drain(&mut out);
    assert_eq!(drained, 3);
    assert_eq!(times(&out), vec![100, 200, 300]);
    assert!(buf.is_empty());
}

#[test]
fn default_window_is_50ms() {
    let buf = ReorderBuf::default();
    assert_eq!(buf.window_ns(), 50_000_000);
}

#[test]
fn zero_window_flushes_immediately() {
    let mut buf = ReorderBuf::with_window(0);
    let mut out = vec![];

    buf.push(make_event(10), &mut out);
    // With window=0, cutoff = 10 - 0 = 10, so event at ts=10 is flushed.
    assert_eq!(times(&out), vec![10]);
    assert!(buf.is_empty());
}

#[test]
fn push_returns_flush_count() {
    let mut buf = ReorderBuf::with_window(50);

    let count = buf.push(make_event(10), &mut Vec::new());
    assert_eq!(count, 0);

    let count = buf.push(make_event(100), &mut Vec::new());
    assert_eq!(count, 1); // ts=10 flushed (100 - 50 = 50 cutoff, 10 <= 50)
}

#[test]
fn duplicate_timestamps_handled() {
    let mut buf = ReorderBuf::with_window(10);
    let mut out = vec![];

    buf.push(make_event(100), &mut Vec::new());
    buf.push(make_event(100), &mut Vec::new());
    buf.push(make_event(100), &mut Vec::new());

    let drained = buf.drain(&mut out);
    assert_eq!(drained, 3);
    assert_eq!(times(&out), vec![100, 100, 100]);
}

#[test]
fn monotonically_increasing_events_flush_progressively() {
    let mut buf = ReorderBuf::with_window(100);
    let mut out = vec![];

    for ts in (0..10).map(|i| i * 50) {
        buf.push(make_event(ts), &mut out);
    }

    // Events flushed as each new event pushes older ones past the window.
    // Final drain to get remaining.
    buf.drain(&mut out);

    // All events should appear in sorted order.
    let sorted: Vec<u64> = (0..10).map(|i| i * 50).collect();
    assert_eq!(times(&out), sorted);
}

#[test]
fn nothing_ages_out_before_a_window_has_passed() {
    let mut buf = ReorderBuf::with_window(100);
    let mut out = Vec::new();
    assert_eq!(buf.push(make_event(0), &mut out), 0);
    assert_eq!(buf.push(make_event(99), &mut out), 0);
    assert_eq!(buf.push(make_event(100), &mut out), 1);
    assert_eq!(times(&out), vec![0]);
    assert_eq!(buf.len(), 2);
}
