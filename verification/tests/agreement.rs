//! Attribution on small graphs, worked out by hand.

use wperf::cascade::engine::cascade_engine;
use wperf::graph::types::{NodeKind, ThreadId, TimeWindow};
use wperf::graph::wfg::WaitForGraph;

/// Runs the cascade and compares every edge: source, target, raw wait and
/// attributed delay.
fn compare(g: &WaitForGraph, expected: &[(i64, i64, u64, u64)]) {
    let result = cascade_engine(g, None).unwrap();
    let found: Vec<(i64, i64, u64, u64)> = result
        .all_edges()
        .iter()
        .map(|(_, s, d, w)| (s.0, d.0, w.raw_wait_ms, w.attributed_delay_ms))
        .collect();
    assert_eq!(found, expected);
}

#[test]
fn figure4_agreement() {
    let mut g = WaitForGraph::new();
    g.add_node(ThreadId(1), NodeKind::UserThread);
    g.add_node(ThreadId(2), NodeKind::UserThread);
    g.add_node(ThreadId(3), NodeKind::PseudoNic);
    g.add_edge(ThreadId(1), ThreadId(2), TimeWindow::new(0, 100));
    g.add_edge(ThreadId(2), ThreadId(3), TimeWindow::new(20, 100));

    compare(&g, &[(1, 2, 100, 20), (2, 3, 80, 80)]);
}

#[test]
fn extended_chain_agreement() {
    let mut g = WaitForGraph::new();
    g.add_node(ThreadId(1), NodeKind::UserThread);
    g.add_node(ThreadId(2), NodeKind::UserThread);
    g.add_node(ThreadId(3), NodeKind::PseudoNic);
    g.add_node(ThreadId(4), NodeKind::PseudoDisk);
    g.add_edge(ThreadId(1), ThreadId(2), TimeWindow::new(0, 100));
    g.add_edge(ThreadId(2), ThreadId(3), TimeWindow::new(20, 100));
    g.add_edge(ThreadId(3), ThreadId(4), TimeWindow::new(50, 100));

    compare(&g, &[(1, 2, 100, 20), (2, 3, 80, 30), (3, 4, 50, 50)]);
}

#[test]
fn single_edge_agreement() {
    let mut g = WaitForGraph::new();
    g.add_node(ThreadId(1), NodeKind::UserThread);
    g.add_node(ThreadId(2), NodeKind::UserThread);
    g.add_edge(ThreadId(1), ThreadId(2), TimeWindow::new(0, 50));

    compare(&g, &[(1, 2, 50, 50)]);
}

#[test]
fn overlapping_edges_agreement() {
    let mut g = WaitForGraph::new();
    g.add_node(ThreadId(1), NodeKind::UserThread);
    g.add_node(ThreadId(2), NodeKind::UserThread);
    g.add_node(ThreadId(3), NodeKind::UserThread);
    g.add_node(ThreadId(4), NodeKind::UserThread);
    g.add_edge(ThreadId(1), ThreadId(2), TimeWindow::new(0, 100));
    g.add_edge(ThreadId(2), ThreadId(3), TimeWindow::new(0, 60));
    g.add_edge(ThreadId(2), ThreadId(4), TimeWindow::new(20, 80));

    compare(&g, &[(1, 2, 100, 20), (2, 3, 60, 60), (2, 4, 60, 60)]);
}

#[test]
fn diamond_agreement() {
    let mut g = WaitForGraph::new();
    g.add_node(ThreadId(1), NodeKind::UserThread);
    g.add_node(ThreadId(2), NodeKind::UserThread);
    g.add_node(ThreadId(3), NodeKind::UserThread);
    g.add_node(ThreadId(4), NodeKind::UserThread);
    g.add_node(ThreadId(5), NodeKind::UserThread);
    g.add_edge(ThreadId(1), ThreadId(2), TimeWindow::new(0, 100));
    g.add_edge(ThreadId(2), ThreadId(3), TimeWindow::new(0, 50));
    g.add_edge(ThreadId(2), ThreadId(4), TimeWindow::new(50, 100));
    g.add_edge(ThreadId(3), ThreadId(5), TimeWindow::new(0, 50));
    g.add_edge(ThreadId(4), ThreadId(5), TimeWindow::new(50, 100));

    compare(
        &g,
        &[(1, 2, 100, 0), (2, 3, 50, 0), (2, 4, 50, 0), (3, 5, 50, 50), (4, 5, 50, 50)],
    );
}

#[test]
fn concurrent_waiters_agreement() {
    // Two threads waiting for the same target simultaneously
    let mut g = WaitForGraph::new();
    g.add_node(ThreadId(1), NodeKind::UserThread);
    g.add_node(ThreadId(2), NodeKind::UserThread);
    g.add_node(ThreadId(3), NodeKind::UserThread);
    g.add_edge(ThreadId(1), ThreadId(3), TimeWindow::new(0, 100));
    g.add_edge(ThreadId(2), ThreadId(3), TimeWindow::new(20, 80));

    compare(&g, &[(1, 3, 100, 100), (2, 3, 60, 60)]);
}
