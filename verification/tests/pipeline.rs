//! From trace to graph.

use wperf::correlate::DEFAULT_SPURIOUS_THRESHOLD_NS;
use wperf::format::event::{EventType, WperfEvent};
use wperf::format::header::ARCH_X86_64;
use wperf::format::reader::{ReaderError, WperfReader};
use wperf::format::stream::{MemStream, StreamError};
use wperf::format::writer::WperfWriter;
use wperf::graph::types::ThreadId;
use wperf::pipeline::{build_wait_for_graph, PipelineError};

/// Helper: write events to an in-memory .wperf file, then open a reader.
fn write_and_read(events: &[WperfEvent]) -> WperfReader<MemStream> {
    let mut writer = WperfWriter::new(MemStream::new(Vec::new()), ARCH_X86_64).unwrap();
    for ev in events {
        writer.write_event(ev).unwrap();
    }
    let buf = writer.finish(0).unwrap().into_inner();
    WperfReader::open(MemStream::new(buf)).unwrap()
}

fn switch_event(ts: u64, prev_tid: u32, next_tid: u32, prev_state: u8) -> WperfEvent {
    WperfEvent {
        timestamp_ns: ts,
        pid: 0,
        tid: 0,
        prev_tid,
        next_tid,
        prev_pid: 0,
        next_pid: 0,
        cpu: 0,
        event_type: EventType::Switch.to_u8(),
        prev_state,
        flags: 0,
    }
}

fn wakeup_event(ts: u64, source: u32, target: u32) -> WperfEvent {
    WperfEvent {
        timestamp_ns: ts,
        pid: 0,
        tid: 0,
        prev_tid: source,
        next_tid: target,
        prev_pid: 0,
        next_pid: 0,
        cpu: 0,
        event_type: EventType::Wakeup.to_u8(),
        prev_state: 0,
        flags: 0,
    }
}

#[test]
fn empty_trace_returns_empty_graph() {
    let mut reader = write_and_read(&[]);
    let (graph, stats) = build_wait_for_graph(&mut reader, DEFAULT_SPURIOUS_THRESHOLD_NS).unwrap();

    assert_eq!(graph.node_count(), 0);
    assert_eq!(graph.edge_count(), 0);
    assert_eq!(stats.events_read, 0);
    assert_eq!(stats.correlation.events_processed, 0);
}

#[test]
fn single_event_no_edges() {
    let events = vec![switch_event(1_000_000, 100, 200, 0)];
    let mut reader = write_and_read(&events);
    let (graph, stats) = build_wait_for_graph(&mut reader, DEFAULT_SPURIOUS_THRESHOLD_NS).unwrap();

    assert_eq!(graph.edge_count(), 0);
    assert_eq!(stats.events_read, 1);
    assert_eq!(stats.correlation.events_processed, 1);
}

#[test]
fn simple_chain_produces_edge() {
    let events = vec![
        switch_event(1_000_000, 100, 200, 1),
        wakeup_event(2_000_000, 200, 100),
        switch_event(3_000_000, 200, 100, 0),
    ];
    let mut reader = write_and_read(&events);
    let (graph, stats) = build_wait_for_graph(&mut reader, DEFAULT_SPURIOUS_THRESHOLD_NS).unwrap();

    assert_eq!(stats.events_read, 3);
    assert_eq!(stats.correlation.edges_created, 1);
    assert_eq!(graph.edge_count(), 1);

    let edges = graph.all_edges();
    assert_eq!(edges[0].1, ThreadId(100));
    assert_eq!(edges[0].2, ThreadId(200));
}

#[test]
fn unsorted_events_are_sorted_before_correlation() {
    // Write events out of timestamp order — pipeline must sort them.
    let events = vec![
        switch_event(3_000_000, 200, 100, 0), // switch-in (written first, ts=3)
        wakeup_event(2_000_000, 200, 100),    // wakeup (written second, ts=2)
        switch_event(1_000_000, 100, 200, 1), // switch-out (written last, ts=1)
    ];
    let mut reader = write_and_read(&events);
    let (graph, stats) = build_wait_for_graph(&mut reader, DEFAULT_SPURIOUS_THRESHOLD_NS).unwrap();

    // After sorting: switch-out(1) → wakeup(2) → switch-in(3) → 1 edge
    assert_eq!(stats.events_read, 3);
    assert_eq!(stats.correlation.edges_created, 1);
    assert_eq!(graph.edge_count(), 1);
}

#[test]
fn pipeline_stats_includes_correlation_stats() {
    let events = vec![
        wakeup_event(1_000_000, 200, 100), // unmatched wakeup
    ];
    let mut reader = write_and_read(&events);
    let (_, stats) = build_wait_for_graph(&mut reader, DEFAULT_SPURIOUS_THRESHOLD_NS).unwrap();

    assert_eq!(stats.events_read, 1);
    assert_eq!(stats.correlation.unmatched_wakeup_count, 1);
    assert_eq!(stats.correlation.edges_created, 0);
}

#[test]
fn pipeline_error_display() {
    let err = PipelineError::Reader(ReaderError::Io(StreamError::other("file not found")));
    let msg = err.message();
    assert!(msg.contains("reader error"));
}

#[test]
fn pipeline_error_source() {
    let err = PipelineError::Reader(ReaderError::Io(StreamError::other("test")));
    assert!(err.source().is_some());
}

#[test]
fn files_with_the_same_events_give_the_same_graph() {
    let ms = 1_000_000;
    let events = [
        switch_event(ms, 1, 2, 1),
        wakeup_event(3 * ms, 2, 1),
        switch_event(4 * ms, 2, 1, 1),
        switch_event(9 * ms, 1, 3, 1),
    ];
    let (graph, stats) = build_wait_for_graph(&mut write_and_read(&events), 0).unwrap();
    assert_eq!(graph.edge_count(), 1);
    assert_eq!(stats.events_read, 4);
    assert_eq!(stats.correlation.events_processed, 4);
    for order in [[3, 2, 1, 0], [1, 3, 0, 2], [2, 0, 3, 1]] {
        let shuffled: Vec<WperfEvent> = order.iter().map(|&i: &usize| events[i]).collect();
        let (other, figures) = build_wait_for_graph(&mut write_and_read(&shuffled), 0).unwrap();
        assert_eq!(figures, stats);
        assert_eq!(other.all_edges(), graph.all_edges());
    }
}
