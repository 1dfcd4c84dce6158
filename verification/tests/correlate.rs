//! Correlation of events.

use wperf::correlate::{
    correlate_any_events, correlate_events, CorrelationStats, DEFAULT_SPURIOUS_THRESHOLD_NS,
};
use wperf::format::event::{futex_op, EventType, WperfEvent};
use wperf::graph::types::{ThreadId, WaitType};
use wperf::graph::wfg::WaitForGraph;

fn correlate(events: &[WperfEvent]) -> (WaitForGraph, CorrelationStats) {
    correlate_events(events, DEFAULT_SPURIOUS_THRESHOLD_NS)
}

fn switch_event(ts: u64, prev_tid: u32, next_tid: u32, prev_state: u8) -> WperfEvent {
    WperfEvent {
        timestamp_ns: ts,
        pid: 0,
        tid: 0,
        prev_tid,
        next_tid,
        prev_pid: 0,
        next_pid: 0,
        cpu: 0,
        event_type: EventType::Switch.to_u8(),
        prev_state,
        flags: 0,
    }
}

fn wakeup_event(ts: u64, source: u32, target: u32) -> WperfEvent {
    WperfEvent {
        timestamp_ns: ts,
        pid: 0,
        tid: 0,
        prev_tid: source,
        next_tid: target,
        prev_pid: 0,
        next_pid: 0,
        cpu: 0,
        event_type: EventType::Wakeup.to_u8(),
        prev_state: 0,
        flags: 0,
    }
}

fn exit_event(ts: u64, tid: u32) -> WperfEvent {
    WperfEvent {
        timestamp_ns: ts,
        pid: 0,
        tid,
        prev_tid: 0,
        next_tid: 0,
        prev_pid: 0,
        next_pid: 0,
        cpu: 0,
        event_type: EventType::Exit.to_u8(),
        prev_state: 0,
        flags: 0,
    }
}

#[test]
fn empty_input() {
    let (graph, stats) = correlate(&[]);
    assert_eq!(graph.node_count(), 0);
    assert_eq!(stats.events_processed, 0);
    assert_eq!(stats.edges_created, 0);
}

#[test]
fn simple_switch_wakeup_switch() {
    // Thread 100 goes off-CPU, thread 200 wakes it, thread 100 comes back.
    let events = vec![
        switch_event(1_000_000, 100, 200, 1), // T100 off-CPU (INTERRUPTIBLE)
        wakeup_event(2_000_000, 200, 100),    // T200 wakes T100
        switch_event(3_000_000, 200, 100, 0), // T100 comes on-CPU
    ];

    let (graph, stats) = correlate(&events);

    assert_eq!(stats.events_processed, 3);
    assert_eq!(stats.edges_created, 1);
    assert_eq!(stats.unmatched_wakeup_count, 0);

    // Edge: T100 (waiter) → T200 (waitee)
    let edges = graph.all_edges();
    assert_eq!(edges.len(), 1);
    let (_, src_tid, dst_tid, ew) = &edges[0];
    assert_eq!(*src_tid, ThreadId(100));
    assert_eq!(*dst_tid, ThreadId(200));
    assert_eq!(ew.raw_wait_ms, 2); // 3M - 1M = 2M ns = 2ms
}

#[test]
fn preempted_thread_no_edge() {
    // Thread 100 is preempted (prev_state=0=RUNNING), no off-CPU record.
    let events = vec![
        switch_event(1_000_000, 100, 200, 0), // T100 preempted
        switch_event(2_000_000, 200, 100, 0), // T100 back
    ];

    let (graph, stats) = correlate(&events);

    assert_eq!(stats.edges_created, 0);
    assert_eq!(stats.unmatched_switch_in_count, 2); // both next_tids have no off-CPU record
    assert_eq!(graph.node_count(), 0);
}

#[test]
fn unmatched_wakeup() {
    // Wakeup for a thread not in off-CPU table.
    let events = vec![wakeup_event(1_000_000, 200, 100)];

    let (_, stats) = correlate(&events);

    assert_eq!(stats.unmatched_wakeup_count, 1);
    assert_eq!(stats.edges_created, 0);
}

#[test]
fn switch_in_without_prior_switch_out() {
    // Thread appears on-CPU without prior switch-out (trace start).
    let events = vec![switch_event(1_000_000, 200, 100, 0)];

    let (_, stats) = correlate(&events);

    assert_eq!(stats.unmatched_switch_in_count, 1);
}

#[test]
fn multi_wakeup_last_wins() {
    // Thread 100 off-CPU, T200 wakes it, then T300 wakes it again.
    // Last-wake-wins: edge should point to T300.
    let events = vec![
        switch_event(1_000_000, 100, 200, 1), // T100 off-CPU
        wakeup_event(2_000_000, 200, 100),    // T200 wakes T100
        wakeup_event(3_000_000, 300, 100),    // T300 wakes T100 (overwrites)
        switch_event(4_000_000, 300, 100, 0), // T100 comes on-CPU
    ];

    let (graph, stats) = correlate(&events);

    assert_eq!(stats.edges_created, 1);
    let edges = graph.all_edges();
    let (_, src_tid, dst_tid, ew) = &edges[0];
    assert_eq!(*src_tid, ThreadId(100));
    assert_eq!(*dst_tid, ThreadId(300)); // last waker wins
    assert_eq!(ew.raw_wait_ms, 3); // 4M - 1M = 3ms
}

#[test]
fn switch_in_without_waker() {
    // Thread goes off-CPU but is switched back in without a wakeup event.
    // This can happen with timer-based reschedule.
    let events = vec![
        switch_event(1_000_000, 100, 200, 1), // T100 off-CPU
        switch_event(3_000_000, 200, 100, 0), // T100 on-CPU, no wakeup
    ];

    let (_, stats) = correlate(&events);

    assert_eq!(stats.edges_created, 0);
    assert_eq!(stats.switch_in_without_waker_count, 1);
}

#[test]
fn exit_cleans_up_off_cpu() {
    // Thread goes off-CPU then exits — no edge, no dangling state.
    let events = vec![
        switch_event(1_000_000, 100, 200, 1), // T100 off-CPU
        exit_event(2_000_000, 100),           // T100 exits
    ];

    let (_, stats) = correlate(&events);

    assert_eq!(stats.edges_created, 0);
    assert_eq!(stats.events_processed, 2);
}

#[test]
fn wakeup_new_same_as_wakeup() {
    // WakeupNew should be handled identically to Wakeup.
    let events = vec![
        switch_event(1_000_000, 100, 200, 1), // T100 off-CPU
        WperfEvent {
            timestamp_ns: 2_000_000,
            pid: 0,
            tid: 0,
            prev_tid: 200, // waker
            next_tid: 100, // wakee
            prev_pid: 0,
            next_pid: 0,
            cpu: 0,
            event_type: EventType::WakeupNew.to_u8(),
            prev_state: 0,
            flags: 0,
        },
        switch_event(3_000_000, 200, 100, 0), // T100 on-CPU
    ];

    let (graph, stats) = correlate(&events);

    assert_eq!(stats.edges_created, 1);
    let edges = graph.all_edges();
    assert_eq!(edges[0].2, ThreadId(200));
}

#[test]
fn multiple_threads_concurrent() {
    // Two threads go off-CPU independently, both get woken up.
    let events = vec![
        switch_event(1_000_000, 100, 300, 1), // T100 off-CPU
        switch_event(1_500_000, 200, 300, 2), // T200 off-CPU (UNINTERRUPTIBLE)
        wakeup_event(2_000_000, 300, 100),    // T300 wakes T100
        wakeup_event(2_500_000, 400, 200),    // T400 wakes T200
        switch_event(3_000_000, 300, 100, 0), // T100 on-CPU
        switch_event(3_500_000, 300, 200, 0), // T200 on-CPU
    ];

    let (graph, stats) = correlate(&events);

    assert_eq!(stats.edges_created, 2);
    assert_eq!(graph.node_count(), 4); // T100, T200, T300, T400
}

#[test]
fn idle_thread_zero_ignored() {
    // tid 0 (idle/swapper) should not create off-CPU records or edges.
    let events = vec![
        switch_event(1_000_000, 0, 100, 1), // idle goes off (ignored)
        switch_event(2_000_000, 100, 0, 0), // T100 switches to idle (next=0 ignored)
    ];

    let (graph, stats) = correlate(&events);

    assert_eq!(stats.edges_created, 0);
    assert_eq!(graph.node_count(), 0);
}

#[test]
fn wakeup_from_idle_ignored() {
    // Wakeup with source=0 (idle/kernel context) should not record a waker.
    // The thread should switch-in without a waker, not create an edge to tid 0.
    let events = vec![
        switch_event(1_000_000, 100, 200, 1), // T100 off-CPU
        wakeup_event(2_000_000, 0, 100),      // idle "wakes" T100 (ignored)
        switch_event(3_000_000, 200, 100, 0), // T100 on-CPU
    ];

    let (graph, stats) = correlate(&events);

    assert_eq!(stats.edges_created, 0);
    assert_eq!(stats.switch_in_without_waker_count, 1);
    assert_eq!(graph.node_count(), 0); // no tid 0 node
}

#[test]
fn unknown_event_type_skipped() {
    let events = vec![WperfEvent {
        timestamp_ns: 1_000_000,
        pid: 0,
        tid: 0,
        prev_tid: 0,
        next_tid: 0,
        prev_pid: 0,
        next_pid: 0,
        cpu: 0,
        event_type: 255, // unknown
        prev_state: 0,
        flags: 0,
    }];

    let (_, stats) = correlate(&events);

    assert_eq!(stats.events_processed, 1);
    assert_eq!(stats.edges_created, 0);
}

#[test]
fn stats_default() {
    let stats = CorrelationStats::default();
    assert_eq!(stats.events_processed, 0);
    assert_eq!(stats.edges_created, 0);
    assert_eq!(stats.unmatched_wakeup_count, 0);
    assert_eq!(stats.unmatched_switch_in_count, 0);
    assert_eq!(stats.switch_in_without_waker_count, 0);
    assert_eq!(stats.false_wakeup_filtered_count, 0);
}

#[test]
fn time_window_precision() {
    let events = vec![
        switch_event(1_500_000, 100, 200, 1),
        wakeup_event(5_800_000, 200, 100),
        switch_event(10_200_000, 200, 100, 0),
    ];

    let (graph, stats) = correlate(&events);

    assert_eq!(stats.edges_created, 1);
    let edges = graph.all_edges();
    let ew = edges[0].3;
    assert_eq!(ew.raw_wait_ms, 8);
    assert_eq!(ew.time_window.start_ms, 1);
    assert_eq!(ew.time_window.end_ms, 9);
}

fn futex_event(ts: u64, tid: u32, op: u32) -> WperfEvent {
    WperfEvent {
        timestamp_ns: ts,
        pid: 0,
        tid,
        prev_tid: 0,
        next_tid: 0,
        prev_pid: 0,
        next_pid: 0,
        cpu: 0,
        event_type: EventType::FutexWait.to_u8(),
        prev_state: 0,
        flags: op,
    }
}

#[test]
fn futex_wait_annotates_edge() {
    let events = vec![
        futex_event(900_000, 100, futex_op::FUTEX_WAIT),
        switch_event(1_000_000, 100, 200, 1),
        wakeup_event(2_000_000, 200, 100),
        switch_event(3_000_000, 200, 100, 0),
    ];

    let (graph, stats) = correlate(&events);

    assert_eq!(stats.edges_created, 1);
    let edges = graph.all_edges();
    assert_eq!(edges[0].3.wait_type, Some(WaitType::FutexWait));
}

#[test]
fn futex_lock_pi_annotates_edge() {
    let events = vec![
        futex_event(900_000, 100, futex_op::FUTEX_LOCK_PI),
        switch_event(1_000_000, 100, 200, 1),
        wakeup_event(2_000_000, 200, 100),
        switch_event(3_000_000, 200, 100, 0),
    ];

    let (graph, _) = correlate(&events);
    let edges = graph.all_edges();
    assert_eq!(edges[0].3.wait_type, Some(WaitType::FutexLockPi));
}

#[test]
fn futex_wait_bitset_annotates_edge() {
    let events = vec![
        futex_event(900_000, 100, futex_op::FUTEX_WAIT_BITSET),
        switch_event(1_000_000, 100, 200, 1),
        wakeup_event(2_000_000, 200, 100),
        switch_event(3_000_000, 200, 100, 0),
    ];

    let (graph, _) = correlate(&events);
    let edges = graph.all_edges();
    assert_eq!(edges[0].3.wait_type, Some(WaitType::FutexWaitBitset));
}

#[test]
fn futex_wait_requeue_pi_annotates_edge() {
    let events = vec![
        futex_event(900_000, 100, futex_op::FUTEX_WAIT_REQUEUE_PI),
        switch_event(1_000_000, 100, 200, 1),
        wakeup_event(2_000_000, 200, 100),
        switch_event(3_000_000, 200, 100, 0),
    ];

    let (graph, _) = correlate(&events);
    let edges = graph.all_edges();
    assert_eq!(edges[0].3.wait_type, Some(WaitType::FutexWaitRequeuePi));
}

#[test]
fn no_futex_event_gives_unknown_wait_type() {
    let events = vec![
        switch_event(1_000_000, 100, 200, 1),
        wakeup_event(2_000_000, 200, 100),
        switch_event(3_000_000, 200, 100, 0),
    ];

    let (graph, _) = correlate(&events);
    let edges = graph.all_edges();
    assert_eq!(edges[0].3.wait_type, None);
}

#[test]
fn futex_consumed_on_switch_out() {
    // Futex event for T100, T100 goes off-CPU (consuming it),
    // then T100 comes back and goes off again without futex → Unknown.
    let events = vec![
        futex_event(900_000, 100, futex_op::FUTEX_WAIT),
        switch_event(1_000_000, 100, 200, 1), // consumes futex
        wakeup_event(2_000_000, 200, 100),
        switch_event(3_000_000, 200, 100, 0), // T100 back
        switch_event(4_000_000, 100, 200, 1), // T100 off again, no futex
        wakeup_event(5_000_000, 200, 100),
        switch_event(6_000_000, 200, 100, 0),
    ];

    let (graph, stats) = correlate(&events);

    assert_eq!(stats.edges_created, 2);
    let edges = graph.all_edges();
    assert_eq!(edges[0].3.wait_type, Some(WaitType::FutexWait));
    assert_eq!(edges[1].3.wait_type, None);
}

#[test]
fn futex_cleared_on_exit() {
    let events = vec![
        futex_event(900_000, 100, futex_op::FUTEX_WAIT),
        exit_event(1_000_000, 100),
    ];

    let (_, stats) = correlate(&events);
    assert_eq!(stats.edges_created, 0);
}

#[test]
fn futex_for_different_thread_no_cross_contamination() {
    // Futex for T100, but T200 goes off-CPU → T200's edge should be Unknown.
    let events = vec![
        futex_event(900_000, 100, futex_op::FUTEX_LOCK_PI),
        switch_event(1_000_000, 200, 300, 1), // T200 off (not T100)
        wakeup_event(2_000_000, 300, 200),
        switch_event(3_000_000, 300, 200, 0),
    ];

    let (graph, stats) = correlate(&events);

    assert_eq!(stats.edges_created, 1);
    let edges = graph.all_edges();
    assert_eq!(edges[0].3.wait_type, None);
}

#[test]
fn stale_futex_discarded_outside_window() {
    // Futex returns -EAGAIN (no block), thread later blocks on IO.
    // The futex event is >1ms before the switch → stale, discarded.
    let events = vec![
        futex_event(1_000_000, 100, futex_op::FUTEX_WAIT),
        // >1ms gap (futex returned -EAGAIN, thread did other work)
        switch_event(5_000_000, 100, 200, 1), // T100 off (IO block)
        wakeup_event(6_000_000, 200, 100),
        switch_event(7_000_000, 200, 100, 0),
    ];

    let (graph, stats) = correlate(&events);

    assert_eq!(stats.edges_created, 1);
    let edges = graph.all_edges();
    assert_eq!(edges[0].3.wait_type, None); // stale futex discarded
}

#[test]
fn futex_within_window_accepted() {
    // Futex event <1ms before switch → valid correlation.
    let events = vec![
        futex_event(999_500, 100, futex_op::FUTEX_WAIT),
        switch_event(1_000_000, 100, 200, 1), // 500ns later
        wakeup_event(2_000_000, 200, 100),
        switch_event(3_000_000, 200, 100, 0),
    ];

    let (graph, _) = correlate(&events);
    let edges = graph.all_edges();
    assert_eq!(edges[0].3.wait_type, Some(WaitType::FutexWait));
}

#[test]
fn futex_at_window_boundary_accepted() {
    // Exactly at 1ms boundary → accepted (<=).
    let events = vec![
        futex_event(0, 100, futex_op::FUTEX_LOCK_PI),
        switch_event(1_000_000, 100, 200, 1), // exactly 1ms
        wakeup_event(2_000_000, 200, 100),
        switch_event(3_000_000, 200, 100, 0),
    ];

    let (graph, _) = correlate(&events);
    let edges = graph.all_edges();
    assert_eq!(edges[0].3.wait_type, Some(WaitType::FutexLockPi));
}

#[test]
fn spurious_wakeup_filtered() {
    // Thread wakes, runs for 20μs (< 50μs threshold), sleeps again → spurious.
    let events = vec![
        switch_event(1_000_000, 100, 200, 1), // T100 off-CPU
        wakeup_event(2_000_000, 200, 100),    // T200 wakes T100
        switch_event(3_000_000, 200, 100, 0), // T100 on-CPU
        switch_event(3_020_000, 100, 200, 1), // T100 off after 20μs → spurious
        wakeup_event(5_000_000, 200, 100),    // T200 wakes T100 again
        switch_event(6_000_000, 200, 100, 0), // T100 on-CPU (real this time)
    ];

    let (graph, stats) = correlate(&events);

    assert_eq!(stats.false_wakeup_filtered_count, 1);
    assert_eq!(stats.edges_created, 1);
    assert_eq!(graph.edge_count(), 1);
}

#[test]
fn spurious_wakeup_at_threshold_kept() {
    // Thread runs for exactly 50μs (= threshold) → NOT spurious (< is strict).
    let events = vec![
        switch_event(1_000_000, 100, 200, 1),
        wakeup_event(2_000_000, 200, 100),
        switch_event(3_000_000, 200, 100, 0), // T100 on-CPU
        switch_event(3_050_000, 100, 200, 1), // T100 off after exactly 50μs
    ];

    let (graph, stats) = correlate(&events);

    assert_eq!(stats.false_wakeup_filtered_count, 0);
    assert_eq!(stats.edges_created, 1);
    assert_eq!(graph.edge_count(), 1);
}

#[test]
fn spurious_wakeup_above_threshold_kept() {
    // Thread runs for 100μs (> 50μs threshold) → kept.
    let events = vec![
        switch_event(1_000_000, 100, 200, 1),
        wakeup_event(2_000_000, 200, 100),
        switch_event(3_000_000, 200, 100, 0),
        switch_event(3_100_000, 100, 200, 1), // 100μs on-CPU
    ];

    let (graph, stats) = correlate(&events);

    assert_eq!(stats.false_wakeup_filtered_count, 0);
    assert_eq!(stats.edges_created, 1);
    assert_eq!(graph.edge_count(), 1);
}

#[test]
fn spurious_preempted_always_committed() {
    let events = vec![
        switch_event(1_000_000, 100, 200, 1),
        wakeup_event(2_000_000, 200, 100),
        switch_event(3_000_000, 200, 100, 0), // T100 on-CPU
        switch_event(3_010_000, 100, 200, 0), // preempted after 10μs (RUNNING)
    ];

    let (graph, stats) = correlate(&events);

    assert_eq!(stats.false_wakeup_filtered_count, 0);
    assert_eq!(stats.edges_created, 1);
    assert_eq!(graph.edge_count(), 1);
}

#[test]
fn spurious_edge_not_committed_at_trace_end() {
    let events = vec![
        switch_event(1_000_000, 100, 200, 1),
        wakeup_event(2_000_000, 200, 100),
        switch_event(3_000_000, 200, 100, 0),
    ];

    let (graph, stats) = correlate(&events);

    assert_eq!(stats.false_wakeup_filtered_count, 0);
    assert_eq!(stats.edges_created, 1);
    assert_eq!(graph.edge_count(), 1);
}

#[test]
fn spurious_exit_commits_edge() {
    let events = vec![
        switch_event(1_000_000, 100, 200, 1),
        wakeup_event(2_000_000, 200, 100),
        switch_event(3_000_000, 200, 100, 0),
        exit_event(3_010_000, 100), // exits after 10μs
    ];

    let (graph, stats) = correlate(&events);

    assert_eq!(stats.false_wakeup_filtered_count, 0);
    assert_eq!(stats.edges_created, 1);
    assert_eq!(graph.edge_count(), 1);
}

#[test]
fn spurious_threshold_zero_disables_filter() {
    // With threshold=0, even 0μs on-CPU is kept (0 < 0 is false).
    let events = vec![
        switch_event(1_000_000, 100, 200, 1),
        wakeup_event(2_000_000, 200, 100),
        switch_event(3_000_000, 200, 100, 0),
        switch_event(3_000_000, 100, 200, 1), // 0ns on-CPU
    ];

    let (graph, stats) = correlate_events(&events, 0);

    assert_eq!(stats.false_wakeup_filtered_count, 0);
    assert_eq!(stats.edges_created, 1);
    assert_eq!(graph.edge_count(), 1);
}

#[test]
fn spurious_condvar_pattern() {
    let events = vec![
        futex_event(900_000, 100, futex_op::FUTEX_WAIT),
        switch_event(1_000_000, 100, 200, 1), // T100 off (futex)
        wakeup_event(2_000_000, 200, 100),
        switch_event(3_000_000, 200, 100, 0), // T100 on-CPU
        // T100 checks predicate, not satisfied, goes back to futex_wait
        futex_event(3_010_000, 100, futex_op::FUTEX_WAIT),
        switch_event(3_020_000, 100, 200, 1), // T100 off after 20μs → spurious
        wakeup_event(5_000_000, 200, 100),
        switch_event(6_000_000, 200, 100, 0), // real wakeup
    ];

    let (graph, stats) = correlate(&events);

    assert_eq!(stats.false_wakeup_filtered_count, 1);
    assert_eq!(stats.edges_created, 1);
    let edges = graph.all_edges();
    assert_eq!(edges[0].3.wait_type, Some(WaitType::FutexWait));
}

#[test]
fn spurious_multiple_threads_independent() {
    // Two threads both have spurious wakeups — independent tracking.
    let events = vec![
        switch_event(1_000_000, 100, 300, 1), // T100 off
        switch_event(1_500_000, 200, 300, 1), // T200 off
        wakeup_event(2_000_000, 300, 100),    // T300 wakes T100
        wakeup_event(2_500_000, 300, 200),    // T300 wakes T200
        switch_event(3_000_000, 300, 100, 0), // T100 on (T300 preempted)
        switch_event(3_010_000, 100, 300, 1), // T100 off after 10μs → spurious
        switch_event(3_500_000, 300, 200, 0), // T200 on (T300 preempted)
        switch_event(3_510_000, 200, 300, 1), // T200 off after 10μs → spurious
    ];

    let (graph, stats) = correlate(&events);

    assert_eq!(stats.false_wakeup_filtered_count, 2);
    assert_eq!(stats.edges_created, 0);
    assert_eq!(graph.edge_count(), 0);
}

#[test]
fn higher_thresholds_only_drop_waits() {
    let events = vec![
        switch_event(1_000_000, 100, 300, 1),
        wakeup_event(2_000_000, 300, 100),
        switch_event(3_000_000, 300, 100, 0),
        switch_event(3_020_000, 100, 200, 1), // after 20 us
        wakeup_event(4_000_000, 200, 100),
        switch_event(5_000_000, 200, 100, 0),
        switch_event(5_070_000, 100, 200, 1), // after 70 us
        wakeup_event(6_000_000, 300, 999),
    ];
    let mut last: Option<(u64, Vec<(i64, i64)>)> = None;
    for (threshold, created) in [(0, 2), (50_000, 1), (100_000, 0)] {
        let (graph, stats) = correlate_any_events(&events, threshold).unwrap();
        assert_eq!(stats.edges_created, created);
        assert_eq!(stats.edges_created + stats.false_wakeup_filtered_count, 2);
        assert_eq!(stats.unmatched_wakeup_count, 1);
        let edges: Vec<(i64, i64)> =
            graph.all_edges().iter().map(|(_, s, d, _)| (s.0, d.0)).collect();
        if let Some((_, more)) = &last {
            assert!(edges.iter().all(|e| more.contains(e)));
        }
        last = Some((threshold, edges));
    }
}
