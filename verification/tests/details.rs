//! Exact texts, edge cases and laws on concrete values.

use wperf::cascade::engine::cascade_engine;
use wperf::cascade::invariants::{check_depth_monotonicity, ConservationError, InvariantError};
use wperf::correlate::correlate_events;
use wperf::dot::{dot_id, render_dot, svg_of_run, DotRun};
use wperf::format::event::{EventType, WperfEvent};
use wperf::format::reader::ReaderError;
use wperf::format::stream::StreamError;
use wperf::graph::types::{EdgeKind, NodeKind, ThreadId, TimeWindow, WaitType, DISK_TID};
use wperf::graph::wfg::WaitForGraph;
use wperf::output::{CascadeResult, EdgeOutput};
use wperf::pipeline::{graph_of_events, PipelineStats};
use wperf::probe::features::{
    bpf_loop_answer, feature_matrix, file_contains_line, probe_kprobe, FileLines, ProbeError,
    ProbePaths, TracepointMode, TransportMode,
};
use wperf::report::{
    compute_io_attributed_delay_ratio, open_failure, report_on_graph, threshold_ns, ReportError,
};
use wperf::scc::tarjan::build_condensation;

fn user_graph(edges: &[(i64, i64, u64, u64)]) -> WaitForGraph {
    let mut g = WaitForGraph::new();
    for &(s, d, start, end) in edges {
        g.add_node(ThreadId(s), NodeKind::UserThread);
        g.add_node(ThreadId(d), NodeKind::UserThread);
        g.add_edge(ThreadId(s), ThreadId(d), TimeWindow::new(start, end));
    }
    g
}

fn attributed(g: &WaitForGraph, depth: Option<u32>) -> Vec<u64> {
    let result = cascade_engine(g, depth).unwrap();
    result.all_edges().iter().map(|e| e.3.attributed_delay_ms).collect()
}

#[test]
fn chains_conserve_the_wait_of_their_root() {
    let g = user_graph(&[(1, 2, 0, 90), (2, 3, 10, 90), (3, 4, 15, 90), (4, 5, 60, 90)]);
    assert_eq!(attributed(&g, None).iter().sum::<u64>(), 90);
    assert!(check_depth_monotonicity(&g));
}

#[test]
fn a_depth_of_one_attributes_everything() {
    let g = user_graph(&[(1, 2, 0, 90), (2, 3, 10, 90)]);
    assert_eq!(attributed(&g, Some(1)), vec![90, 80]);
    assert_eq!(attributed(&g, Some(0)), vec![90, 80]);
}

#[test]
fn cascades_are_idempotent() {
    let g = user_graph(&[(1, 2, 0, 100), (2, 3, 20, 80), (3, 1, 30, 60), (4, 3, 0, 50)]);
    let once = cascade_engine(&g, None).unwrap();
    let twice = cascade_engine(&once, None).unwrap();
    let list = |g: &WaitForGraph| -> Vec<u64> {
        g.all_edges().iter().map(|e| e.3.attributed_delay_ms).collect()
    };
    assert_eq!(list(&once), list(&twice));
}

#[test]
fn waits_that_do_not_fill_their_windows_are_refused() {
    let mut g = user_graph(&[(1, 2, 0, 100)]);
    let edge = g.all_edges()[0].0;
    g.edge_weight_mut(edge).raw_wait_ms = 99;
    let err = cascade_engine(&g, None).unwrap_err();
    assert!(!err.i7_ok);
    let stats = PipelineStats::default();
    assert!(matches!(
        report_on_graph(&g, stats, None).unwrap_err(),
        ReportError::Cascade(_)
    ));
}

#[test]
fn ways_back_carry_no_blame() {
    let mut g = WaitForGraph::new();
    g.add_node(ThreadId(1), NodeKind::UserThread);
    g.add_node(ThreadId(DISK_TID), NodeKind::PseudoDisk);
    let w = TimeWindow::new(0, 10);
    g.add_edge_with_wait_type(ThreadId(1), ThreadId(DISK_TID), w, WaitType::IoBlock);
    g.add_synthetic_closure_return(ThreadId(DISK_TID), ThreadId(1), w, WaitType::IoBlock);
    let result = cascade_engine(&g, None).unwrap();
    for (_, _, _, w) in result.all_edges() {
        match w.kind {
            EdgeKind::Normal => assert_eq!(w.attributed_delay_ms, 10),
            EdgeKind::SyntheticClosureReturn => assert_eq!(w.attributed_delay_ms, 0),
        }
    }
}

#[test]
fn edges_are_listed_latest_first() {
    let g = user_graph(&[(1, 2, 0, 1), (1, 3, 0, 2), (2, 1, 0, 3), (1, 2, 0, 4)]);
    let one = g.node_index(&ThreadId(1)).unwrap();
    let out: Vec<u64> = g.outgoing_edges(one).iter().map(|e| e.2.raw_wait_ms).collect();
    assert_eq!(out, vec![4, 2, 1]);
    let into: Vec<i64> = g.incoming_edges(one).iter().map(|e| e.1 .0).collect();
    assert_eq!(into, vec![2]);
    let all: Vec<u64> = g.all_edges().iter().map(|e| e.3.raw_wait_ms).collect();
    assert_eq!(all, vec![1, 4, 2, 3]);
}

#[test]
fn links_carry_the_heaviest_edge() {
    let g = user_graph(&[(1, 2, 0, 10), (2, 1, 0, 10), (1, 3, 0, 7), (2, 3, 0, 9), (3, 4, 0, 1)]);
    let cdag = build_condensation(&g);
    assert_eq!((cdag.node_count(), cdag.edge_count()), (3, 2));
    let home = cdag.scc_of(&ThreadId(1)).unwrap();
    assert_eq!(cdag.scc_of(&ThreadId(2)), Some(home));
    assert_eq!(cdag.super_node(home).members, vec![ThreadId(1), ThreadId(2)]);
    assert_eq!(cdag.out_degree(home), 1);
    assert_eq!(cdag.scc_of(&ThreadId(9)), None);
}

fn event(ts: u64, kind: EventType, prev: u32, next: u32, state: u8) -> WperfEvent {
    WperfEvent {
        timestamp_ns: ts,
        pid: 0,
        tid: prev,
        prev_tid: prev,
        next_tid: next,
        prev_pid: 0,
        next_pid: 0,
        cpu: 0,
        event_type: kind.to_u8(),
        prev_state: state,
        flags: 0,
    }
}

#[test]
fn recorded_order_does_not_matter() {
    let mut events = vec![
        event(1_000_000, EventType::Switch, 10, 20, 1),
        event(2_000_000, EventType::Wakeup, 20, 10, 0),
        event(3_000_000, EventType::Switch, 20, 10, 1),
        event(3_000_000, EventType::Wakeup, 30, 20, 0),
        event(9_000_000, EventType::Switch, 30, 20, 0),
    ];
    let (g, stats) = graph_of_events(&events, 50_000);
    events.reverse();
    let (h, other) = graph_of_events(&events, 50_000);
    assert_eq!(stats, other);
    let list = |g: &WaitForGraph| -> Vec<(i64, i64, u64)> {
        g.all_edges().iter().map(|e| (e.1 .0, e.2 .0, e.3.raw_wait_ms)).collect()
    };
    assert_eq!(list(&g), list(&h));
}

#[test]
fn the_last_wakeup_counts() {
    let events = [
        event(1_000_000, EventType::Switch, 10, 20, 1),
        event(2_000_000, EventType::Wakeup, 20, 10, 0),
        event(3_000_000, EventType::Wakeup, 30, 10, 0),
        event(4_000_000, EventType::Switch, 20, 10, 0),
    ];
    let (g, _) = correlate_events(&events, 0);
    let edges = g.all_edges();
    assert_eq!(edges.len(), 1);
    assert_eq!((edges[0].1, edges[0].2), (ThreadId(10), ThreadId(30)));
}

#[test]
fn a_threshold_of_zero_keeps_every_wait() {
    let events = [
        event(1_000_000, EventType::Switch, 10, 20, 1),
        event(2_000_000, EventType::Wakeup, 20, 10, 0),
        event(3_000_000, EventType::Switch, 20, 10, 0),
        event(3_010_000, EventType::Switch, 10, 20, 1),
    ];
    let (kept, stats) = correlate_events(&events, 0);
    assert_eq!((kept.edge_count(), stats.false_wakeup_filtered_count), (1, 0));
    let (dropped, stats) = correlate_events(&events, 50_000);
    assert_eq!((dropped.edge_count(), stats.false_wakeup_filtered_count), (0, 1));
}

#[test]
fn digraphs_to_the_letter() {
    let g = user_graph(&[(7, 9, 0, 5), (7, -4, 0, 3)]);
    let result = cascade_engine(&g, None).unwrap();
    let cascade = CascadeResult::from_graph(&g, &result);
    let expected = "digraph wperf {\n    rankdir=LR;\n    node [shape=box];\n    \
                    neg_4 [label=\"NIC\"];\n    t7 [label=\"T7\"];\n    t9 [label=\"T9\"];\n    \
                    t7 -> neg_4 [label=\"3ms (raw 3ms)\"];\n    \
                    t7 -> t9 [label=\"5ms (raw 5ms)\"];\n}\n";
    assert_eq!(render_dot(&cascade), expected);
    let mut turned = cascade.clone();
    turned.edges.reverse();
    assert_eq!(render_dot(&turned), expected);
    assert_eq!(dot_id(i64::MIN), "neg_9223372036854775808");
}

#[test]
fn thread_names() {
    assert_eq!(ThreadId(-15).label(), "HardIRQ");
    assert_eq!(ThreadId(-16).label(), "SoftIRQ");
    assert_eq!(ThreadId(-3).label(), "T-3");
}

#[test]
fn figures_of_a_cascade() {
    let g = user_graph(&[(1, 2, 0, 100), (2, 3, 20, 100)]);
    let result = cascade_engine(&g, None).unwrap();
    let c = CascadeResult::from_graph(&g, &result);
    assert_eq!(c.graph_metrics.total_raw_wait_ms, 180);
    assert_eq!(c.graph_metrics.total_attributed_delay_ms, 100);
    assert_eq!(
        c.edges[0],
        EdgeOutput {
            src: ThreadId(1),
            dst: ThreadId(2),
            raw_wait_ms: 100,
            attributed_delay_ms: 20,
        }
    );
}

#[test]
fn drawings_and_why_there_is_none() {
    assert!(matches!(
        svg_of_run(DotRun::NotFound).unwrap_err(),
        ReportError::GraphvizNotFound
    ));
    assert!(matches!(
        svg_of_run(DotRun::Failed(StreamError::other("pipe"))).unwrap_err(),
        ReportError::Io(_)
    ));
    let ended = |success: bool| DotRun::Ended {
        unfed: None,
        success,
        exit_code: Some(1),
        stdout: vec![1, 2],
        stderr: "x".repeat(2000),
    };
    assert_eq!(svg_of_run(ended(true)).unwrap(), vec![1, 2]);
    let choked = |success: bool| DotRun::Ended {
        unfed: Some(StreamError::other("broken pipe")),
        success,
        exit_code: Some(3),
        stdout: vec![1],
        stderr: String::new(),
    };
    assert!(matches!(svg_of_run(choked(true)).unwrap_err(), ReportError::Io(_)));
    assert!(matches!(
        svg_of_run(choked(false)).unwrap_err(),
        ReportError::GraphvizFailed { exit_code: Some(3), .. }
    ));
    let text = svg_of_run(ended(false)).unwrap_err().message();
    assert_eq!(text, format!("Graphviz 'dot' failed (exit code 1): {}", "x".repeat(1024)));
}

#[test]
fn errors_in_words() {
    let e = InvariantError { i2_ok: true, i7_ok: false };
    let text = "I-1 VIOLATION: conservation check failed (I-2=true, I-7=false)";
    assert_eq!(e.message(), text);
    assert_eq!(ConservationError { i2_ok: true, i7_ok: false }.message(), text);
    assert_eq!(
        ReportError::Cascade(e).message(),
        format!("cascade invariant error: {text}")
    );
    assert_eq!(
        ReportError::GraphvizFailed { exit_code: None, stderr: String::new() }.message(),
        "Graphviz 'dot' failed"
    );
}

#[test]
fn failures_to_open_are_told_apart() {
    let io = open_failure(ReaderError::Io(StreamError::other("x")));
    assert!(matches!(io, ReportError::Io(_)));
    let other = open_failure(ReaderError::UnknownRecordType(4));
    assert_eq!(
        other.message(),
        "pipeline error: reader error: unknown TLV record type: 4"
    );
    assert_eq!(threshold_ns(50), 50_000);
}

#[test]
fn ratios_by_device() {
    let mut g = WaitForGraph::new();
    g.add_node(ThreadId(1), NodeKind::UserThread);
    g.add_node(ThreadId(-4), NodeKind::PseudoNic);
    g.add_node(ThreadId(-16), NodeKind::PseudoSoftirq);
    g.add_node(ThreadId(-5), NodeKind::PseudoDisk);
    g.add_edge(ThreadId(1), ThreadId(-16), TimeWindow::new(0, 8));
    g.add_edge(ThreadId(1), ThreadId(-4), TimeWindow::new(0, 10));
    g.add_edge(ThreadId(1), ThreadId(-4), TimeWindow::new(0, 6));
    let list = compute_io_attributed_delay_ratio(&g).unwrap();
    let found: Vec<(&str, u64, u64)> =
        list.iter().map(|r| (r.device.as_str(), r.attributed_ms, r.raw_ms)).collect();
    assert_eq!(found, vec![("nic", 16, 16), ("softirq", 8, 8)]);
}

#[test]
fn kernel_files_are_searched_for_words() {
    let lines = |v: Vec<Result<&str, &str>>| {
        FileLines::Lines(
            v.into_iter()
                .map(|l| l.map(|t| t.to_string()).map_err(StreamError::other))
                .collect(),
        )
    };
    let file = lines(vec![Ok("vfs_read_iter [xfs]"), Ok("\u{3000}vfs_read\u{a0}x"), Err("bad")]);
    assert!(file_contains_line(&file, "vfs_read").unwrap());
    assert!(file_contains_line(&file, "[xfs]").unwrap());
    assert_eq!(
        file_contains_line(&file, "vfs").unwrap_err().message(),
        "I/O error during feature probing: bad"
    );
    assert!(!file_contains_line(&lines(vec![Ok(" "), Ok("")]), "").unwrap());

    // What is listed is not looked up.
    let broken = FileLines::Unreadable(StreamError::other("denied"));
    assert!(!probe_kprobe(&file, &broken, "vfs_read").unwrap());
    assert!(probe_kprobe(&FileLines::Missing, &broken, "vfs_read").is_err());
}

#[test]
fn failed_probes_fall_back() {
    let failed = || ProbeError::Syscall("EPERM".to_string());
    let (m, notes) = feature_matrix(
        true,
        &Err(failed()),
        &Ok(TracepointMode::TpBtf),
        &Err(failed()),
        &Ok(true),
    );
    assert_eq!(m.transport, TransportMode::PerfArray);
    assert_eq!(m.tracepoint, TracepointMode::TpBtf);
    assert!(m.has_cgroupv2 && m.has_btf && m.has_fentry && !m.has_bpf_loop);
    assert_eq!(
        notes,
        vec![
            "probe: ringbuf probe failed (syscall probe failed: EPERM), falling back to perfarray",
            "probe: bpf_loop probe failed (syscall probe failed: EPERM), assuming unavailable",
        ]
    );
    assert!(bpf_loop_answer(1).unwrap());
    assert!(!bpf_loop_answer(0).unwrap());
    assert_eq!(
        bpf_loop_answer(-22).unwrap_err().message(),
        "syscall probe failed: libbpf_probe_bpf_helper returned -22"
    );
    assert_eq!(ProbePaths::default().btf_vmlinux, "/sys/kernel/btf/vmlinux");
}
