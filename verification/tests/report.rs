//! Reports.

use wperf::correlate::DEFAULT_SPURIOUS_THRESHOLD_NS;
use wperf::format::event::{EventType, WperfEvent};
use wperf::format::header::ARCH_X86_64;
use wperf::format::reader::{ReaderError, WperfReader};
use wperf::format::stream::{MemStream, StreamError};
use wperf::format::writer::WperfWriter;
use wperf::graph::types::{NodeKind, ThreadId, TimeWindow, WaitType, DISK_TID};
use wperf::graph::wfg::WaitForGraph;
use wperf::pipeline::PipelineError;
use wperf::report::{build_report, compute_io_attributed_delay_ratio, ReportError};

fn write_and_read(events: &[WperfEvent], drop_count: u64) -> WperfReader<MemStream> {
    let mut writer = WperfWriter::new(MemStream::new(Vec::new()), ARCH_X86_64).unwrap();
    for ev in events {
        writer.write_event(ev).unwrap();
    }
    let buf = writer.finish(drop_count).unwrap().into_inner();
    WperfReader::open(MemStream::new(buf)).unwrap()
}

fn switch_event(ts: u64, prev_tid: u32, next_tid: u32, prev_state: u8) -> WperfEvent {
    WperfEvent {
        timestamp_ns: ts,
        pid: 0,
        tid: 0,
        prev_tid,
        next_tid,
        prev_pid: 0,
        next_pid: 0,
        cpu: 0,
        event_type: EventType::Switch.to_u8(),
        prev_state,
        flags: 0,
    }
}

fn wakeup_event(ts: u64, source: u32, target: u32) -> WperfEvent {
    WperfEvent {
        timestamp_ns: ts,
        pid: 0,
        tid: 0,
        prev_tid: source,
        next_tid: target,
        prev_pid: 0,
        next_pid: 0,
        cpu: 0,
        event_type: EventType::Wakeup.to_u8(),
        prev_state: 0,
        flags: 0,
    }
}

#[test]
fn attributed_delay_ratio_none_when_no_io_edges() {
    // Non-IO graph: ratio should be None (not measured).

    let mut g = WaitForGraph::new();
    g.add_node(ThreadId(100), NodeKind::UserThread);
    g.add_node(ThreadId(200), NodeKind::UserThread);
    g.add_edge(ThreadId(100), ThreadId(200), TimeWindow::new(0, 100));

    assert!(compute_io_attributed_delay_ratio(&g).is_none());
}

#[test]
fn attributed_delay_ratio_some_on_io_edges() {

    let mut g = WaitForGraph::new();
    g.add_node(ThreadId(100), NodeKind::UserThread);
    g.add_node(ThreadId(DISK_TID), NodeKind::PseudoDisk);
    // User→Disk (IoBlock), raw=10 — counts (dst=PseudoDisk).
    g.add_edge_with_wait_type(
        ThreadId(100),
        ThreadId(DISK_TID),
        TimeWindow::new(0, 10),
        WaitType::IoBlock,
    );
    // Disk→User (IoBlock), raw=10 — excluded (dst=UserThread).
    g.add_edge_with_wait_type(
        ThreadId(DISK_TID),
        ThreadId(100),
        TimeWindow::new(0, 10),
        WaitType::IoBlock,
    );

    let map = compute_io_attributed_delay_ratio(&g).expect("IO edges present");
    let entry = map.iter().find(|r| r.device == "disk").expect("disk entry present");
    let disk = entry.attributed_ms as f64 / entry.raw_ms as f64;
    assert!(
        (disk - 1.0).abs() < 1e-9,
        "expected disk ratio=1.0, got {disk}"
    );
    assert_eq!(map.len(), 1, "only disk pseudo-thread observed");
}

#[test]
fn attributed_delay_ratio_none_when_all_io_edges_zero_duration() {
    // Sub-ms I/Os collapse to zero-duration windows. Ratio is undefined
    // when the raw denominator sums to zero — must return None, not NaN.

    let mut g = WaitForGraph::new();
    g.add_node(ThreadId(100), NodeKind::UserThread);
    g.add_node(ThreadId(DISK_TID), NodeKind::PseudoDisk);
    g.add_edge_with_wait_type(
        ThreadId(100),
        ThreadId(DISK_TID),
        TimeWindow::new(5, 5),
        WaitType::IoBlock,
    );

    assert!(compute_io_attributed_delay_ratio(&g).is_none());
}

#[test]
fn empty_trace_produces_valid_report() {
    let mut reader = write_and_read(&[], 0);
    let report =
        build_report(&mut reader, DEFAULT_SPURIOUS_THRESHOLD_NS).unwrap();

    assert_eq!(report.cascade.edges.len(), 0);
    assert!(report.critical_path.is_none());
    assert!(report.knots.is_empty());
    assert_eq!(report.stats.events_read, 0);
}

#[test]
fn figure4_report() {
    // T1 waits on T2, T2 waits on T3 — linear chain
    let events = vec![
        switch_event(1_000_000, 100, 200, 1), // T100 off-CPU
        wakeup_event(2_000_000, 200, 100),    // T200 wakes T100
        switch_event(3_000_000, 200, 100, 0), // T100 back on-CPU
    ];
    let mut reader = write_and_read(&events, 0);
    let report =
        build_report(&mut reader, DEFAULT_SPURIOUS_THRESHOLD_NS).unwrap();

    assert_eq!(report.stats.events_read, 3);
    assert_eq!(report.stats.correlation.edges_created, 1);
    assert_eq!(report.cascade.edges.len(), 1);
    assert!(report.cascade.graph_metrics.invariants_ok);

    // Edge: T100 → T200 (T100 waited on T200)
    let edge = &report.cascade.edges[0];
    assert_eq!(edge.src, ThreadId(100));
    assert_eq!(edge.dst, ThreadId(200));
    assert!(edge.raw_wait_ms > 0);
}

#[test]
fn report_includes_drop_count() {
    let mut reader = write_and_read(&[], 42);
    let report =
        build_report(&mut reader, DEFAULT_SPURIOUS_THRESHOLD_NS).unwrap();

    assert_eq!(report.health.drop_count, Some(42));
}

#[test]
fn health_metrics_actual_values() {
    let events = vec![
        switch_event(1_000_000, 100, 200, 1),
        wakeup_event(2_000_000, 200, 100),
        switch_event(3_000_000, 200, 100, 0),
    ];
    let mut reader = write_and_read(&events, 7);
    let report =
        build_report(&mut reader, DEFAULT_SPURIOUS_THRESHOLD_NS).unwrap();

    assert!(report.health.invariants_ok);
    assert_eq!(report.health.drop_count, Some(7));
    assert_eq!(report.health.unmatched_wakeup_count, 0);
}

#[test]
fn health_metrics_unmatched_wakeup() {
    // Wakeup with no matching off-CPU switch → unmatched
    let events = vec![wakeup_event(1_000_000, 200, 100)];
    let mut reader = write_and_read(&events, 0);
    let report =
        build_report(&mut reader, DEFAULT_SPURIOUS_THRESHOLD_NS).unwrap();

    assert_eq!(report.health.unmatched_wakeup_count, 1);
}

#[test]
fn health_metrics_unavailable_are_null() {
    let mut reader = write_and_read(&[], 0);
    let report =
        build_report(&mut reader, DEFAULT_SPURIOUS_THRESHOLD_NS).unwrap();

    // Unavailable metrics — not yet measured, serialized as null
    assert!(report.health.partial_stack_count.is_none());
    assert!(report.health.cascade_depth_truncation_count.is_none());
    assert_eq!(report.health.false_wakeup_filtered_count, Some(0));
}

#[test]
fn corrupted_metadata_propagates_error() {
    // Write a valid trace, then corrupt the section table so the metadata
    // size exceeds MAX_PAYLOAD_SIZE — build_report must return an error,
    // not silently produce drop_count: null.
    let writer = WperfWriter::new(MemStream::new(Vec::new()), ARCH_X86_64).unwrap();
    let mut buf = writer.finish(0).unwrap().into_inner();

    // The section table entry is at header.section_table_offset.
    // Entry layout: section_id(4) + offset(8) + size(8) = 20 bytes.
    // Corrupt the size field (bytes 12..20 of the entry) to exceed MAX_PAYLOAD_SIZE.
    let st_offset = u64::from_le_bytes(buf[16..24].try_into().unwrap()) as usize;
    let size_field_offset = st_offset + 12; // skip section_id(4) + offset(8)
    let bad_size: u64 = (16 * 1024 * 1024) + 1; // MAX_PAYLOAD_SIZE + 1
    buf[size_field_offset..size_field_offset + 8].copy_from_slice(&bad_size.to_le_bytes());

    let mut reader = WperfReader::open(MemStream::new(buf)).unwrap();
    let result = build_report(&mut reader, DEFAULT_SPURIOUS_THRESHOLD_NS);
    assert!(result.is_err(), "corrupted metadata must propagate error");
}

#[test]
fn report_error_display() {
    let err = ReportError::Io(StreamError::other("test"));
    assert!(err.message().contains("I/O error"));

    let err = ReportError::Pipeline(PipelineError::Reader(ReaderError::Io(
        StreamError::other("test"),
    )));
    assert!(err.message().contains("pipeline error"));

    let err = ReportError::GraphvizNotFound;
    let msg = err.message();
    assert!(msg.contains("not found in PATH"));
    assert!(msg.contains("--format dot"));

    let err = ReportError::GraphvizFailed {
        exit_code: Some(1),
        stderr: "syntax error".to_string(),
    };
    let msg = err.message();
    assert!(msg.contains("exit code 1"));
    assert!(msg.contains("syntax error"));

    let err = ReportError::GraphvizFailed {
        exit_code: None,
        stderr: String::new(),
    };
    let msg = err.message();
    assert!(msg.contains("failed"));
}

#[test]
fn report_error_source() {
    let err = ReportError::Io(StreamError::other("test"));
    assert!(err.source_message().is_some());

    let err = ReportError::GraphvizNotFound;
    assert!(err.source_message().is_none());

    let err = ReportError::GraphvizFailed {
        exit_code: Some(1),
        stderr: "test".into(),
    };
    assert!(err.source_message().is_none());
}
