//! Checks on a cascade.

use wperf::cascade::engine::cascade_engine;
use wperf::cascade::invariants::{
    check_depth_monotonicity, check_idempotency, check_locality, check_non_amplification,
    check_non_negativity, check_termination, is_conserved, verify_conservation,
};
use wperf::graph::types::{NodeKind, ThreadId, TimeWindow};
use wperf::graph::wfg::WaitForGraph;

#[test]
fn conservation_passes_on_identity() {
    let mut g = WaitForGraph::new();
    g.add_node(ThreadId(1), NodeKind::UserThread);
    g.add_node(ThreadId(2), NodeKind::UserThread);
    g.add_edge(ThreadId(1), ThreadId(2), TimeWindow::new(0, 50));

    let result = g.clone_with_reset_attribution();
    assert!(is_conserved(&result));
}

#[test]
fn conservation_passes_on_cascade_result() {
    let mut g = WaitForGraph::new();
    g.add_node(ThreadId(1), NodeKind::UserThread);
    g.add_node(ThreadId(2), NodeKind::UserThread);
    g.add_node(ThreadId(3), NodeKind::UserThread);
    g.add_edge(ThreadId(1), ThreadId(2), TimeWindow::new(0, 100));
    g.add_edge(ThreadId(2), ThreadId(3), TimeWindow::new(20, 100));

    let result = cascade_engine(&g, None).unwrap();
    assert!(is_conserved(&result));
}

#[test]
fn conservation_detects_amplification() {
    let mut g = WaitForGraph::new();
    g.add_node(ThreadId(1), NodeKind::UserThread);
    g.add_node(ThreadId(2), NodeKind::UserThread);
    g.add_edge(ThreadId(1), ThreadId(2), TimeWindow::new(0, 50));

    let mut bad = g.clone_with_reset_attribution();
    // Corrupt: set attributed > raw
    let edges = bad.all_edges();
    let eidx = edges[0].0;
    bad.edge_weight_mut(eidx).attributed_delay_ms = 999;
    assert!(!is_conserved(&bad));
}

#[test]
fn verify_conservation_detects_locality_violation() {
    let mut g = WaitForGraph::new();
    g.add_node(ThreadId(1), NodeKind::UserThread);
    g.add_node(ThreadId(2), NodeKind::UserThread);
    g.add_edge(ThreadId(1), ThreadId(2), TimeWindow::new(0, 50));

    // Add an extra edge in result — violates locality
    let mut bad = g.clone_with_reset_attribution();
    bad.add_node(ThreadId(3), NodeKind::UserThread);
    bad.add_edge(ThreadId(1), ThreadId(3), TimeWindow::new(0, 30));
    assert!(verify_conservation(&g, &bad).is_err());
}

#[test]
fn non_amplification_passes() {
    let mut g = WaitForGraph::new();
    g.add_node(ThreadId(1), NodeKind::UserThread);
    g.add_node(ThreadId(2), NodeKind::UserThread);
    g.add_edge(ThreadId(1), ThreadId(2), TimeWindow::new(0, 50));
    assert!(check_non_amplification(&g));
}

#[test]
fn non_amplification_detects_violation() {
    let mut g = WaitForGraph::new();
    g.add_node(ThreadId(1), NodeKind::UserThread);
    g.add_node(ThreadId(2), NodeKind::UserThread);
    g.add_edge(ThreadId(1), ThreadId(2), TimeWindow::new(0, 50));

    let edges = g.all_edges();
    let eidx = edges[0].0;
    g.edge_weight_mut(eidx).attributed_delay_ms = 999;
    assert!(!check_non_amplification(&g));
}

#[test]
fn non_negativity_trivially_true() {
    let mut g = WaitForGraph::new();
    g.add_node(ThreadId(1), NodeKind::UserThread);
    g.add_node(ThreadId(2), NodeKind::UserThread);
    g.add_edge(ThreadId(1), ThreadId(2), TimeWindow::new(0, 50));
    // u64 cannot be negative — this documents the type-level guarantee
    assert!(check_non_negativity(&g));
}

#[test]
fn termination_passes_on_clone() {
    let mut g = WaitForGraph::new();
    g.add_node(ThreadId(1), NodeKind::UserThread);
    g.add_node(ThreadId(2), NodeKind::UserThread);
    g.add_edge(ThreadId(1), ThreadId(2), TimeWindow::new(0, 50));

    let result = g.clone_with_reset_attribution();
    assert!(check_termination(&g, &result));
}

#[test]
fn termination_detects_topology_change() {
    let mut g = WaitForGraph::new();
    g.add_node(ThreadId(1), NodeKind::UserThread);
    g.add_node(ThreadId(2), NodeKind::UserThread);
    g.add_edge(ThreadId(1), ThreadId(2), TimeWindow::new(0, 50));

    let mut bad = g.clone_with_reset_attribution();
    bad.add_node(ThreadId(3), NodeKind::UserThread);
    bad.add_edge(ThreadId(2), ThreadId(3), TimeWindow::new(0, 30));
    assert!(!check_termination(&g, &bad));
}

#[test]
fn idempotency_passes_on_figure4() {
    let mut g = WaitForGraph::new();
    g.add_node(ThreadId(1), NodeKind::UserThread);
    g.add_node(ThreadId(2), NodeKind::UserThread);
    g.add_node(ThreadId(3), NodeKind::UserThread);
    g.add_edge(ThreadId(1), ThreadId(2), TimeWindow::new(0, 100));
    g.add_edge(ThreadId(2), ThreadId(3), TimeWindow::new(20, 100));

    assert!(check_idempotency(&g, 10));
}

#[test]
fn depth_monotonicity_passes_on_chain() {
    let mut g = WaitForGraph::new();
    g.add_node(ThreadId(1), NodeKind::UserThread);
    g.add_node(ThreadId(2), NodeKind::UserThread);
    g.add_node(ThreadId(3), NodeKind::UserThread);
    g.add_node(ThreadId(4), NodeKind::UserThread);
    g.add_edge(ThreadId(1), ThreadId(2), TimeWindow::new(0, 100));
    g.add_edge(ThreadId(2), ThreadId(3), TimeWindow::new(20, 100));
    g.add_edge(ThreadId(3), ThreadId(4), TimeWindow::new(50, 100));

    assert!(check_depth_monotonicity(&g));
}

#[test]
fn locality_passes_on_clone() {
    let mut g = WaitForGraph::new();
    g.add_node(ThreadId(1), NodeKind::UserThread);
    g.add_node(ThreadId(2), NodeKind::UserThread);
    g.add_edge(ThreadId(1), ThreadId(2), TimeWindow::new(0, 50));

    let result = g.clone_with_reset_attribution();
    assert!(check_locality(&g, &result));
}

#[test]
fn locality_detects_extra_edge() {
    let mut g = WaitForGraph::new();
    g.add_node(ThreadId(1), NodeKind::UserThread);
    g.add_node(ThreadId(2), NodeKind::UserThread);
    g.add_edge(ThreadId(1), ThreadId(2), TimeWindow::new(0, 50));

    let mut bad = g.clone_with_reset_attribution();
    bad.add_node(ThreadId(3), NodeKind::UserThread);
    bad.add_edge(ThreadId(1), ThreadId(3), TimeWindow::new(0, 30));
    assert!(!check_locality(&g, &bad));
}

#[test]
fn verify_conservation_returns_ok_on_valid() {
    let mut g = WaitForGraph::new();
    g.add_node(ThreadId(1), NodeKind::UserThread);
    g.add_node(ThreadId(2), NodeKind::UserThread);
    g.add_edge(ThreadId(1), ThreadId(2), TimeWindow::new(0, 50));

    let result = cascade_engine(&g, None).unwrap();
    assert!(verify_conservation(&g, &result).is_ok());
}

#[test]
fn termination_detects_node_only_change() {
    // Same edge count but different node count
    let mut g = WaitForGraph::new();
    g.add_node(ThreadId(1), NodeKind::UserThread);
    g.add_node(ThreadId(2), NodeKind::UserThread);
    g.add_edge(ThreadId(1), ThreadId(2), TimeWindow::new(0, 50));

    let mut bad = g.clone_with_reset_attribution();
    bad.add_node(ThreadId(3), NodeKind::UserThread);
    // Node count differs but edge count is the same
    assert!(!check_termination(&g, &bad));
}

#[test]
fn locality_detects_src_only_change() {
    // Only src endpoint differs, dst is the same
    let mut g = WaitForGraph::new();
    g.add_node(ThreadId(1), NodeKind::UserThread);
    g.add_node(ThreadId(2), NodeKind::UserThread);
    g.add_edge(ThreadId(1), ThreadId(2), TimeWindow::new(0, 50));

    let mut bad = WaitForGraph::new();
    bad.add_node(ThreadId(3), NodeKind::UserThread);
    bad.add_node(ThreadId(2), NodeKind::UserThread);
    bad.add_edge(ThreadId(3), ThreadId(2), TimeWindow::new(0, 50));
    assert!(!check_locality(&g, &bad));
}

#[test]
fn idempotency_actually_runs_cascade() {
    let mut g = WaitForGraph::new();
    g.add_node(ThreadId(1), NodeKind::UserThread);
    g.add_node(ThreadId(2), NodeKind::UserThread);
    g.add_node(ThreadId(3), NodeKind::UserThread);
    g.add_edge(ThreadId(1), ThreadId(2), TimeWindow::new(0, 100));
    g.add_edge(ThreadId(2), ThreadId(3), TimeWindow::new(20, 100));

    // Verify cascade actually changes attributed values
    let result = cascade_engine(&g, Some(10)).unwrap();
    let edges = result.all_edges();
    let e12 = edges
        .iter()
        .find(|(_, s, d, _)| *s == ThreadId(1) && *d == ThreadId(2))
        .unwrap();
    assert_ne!(
        e12.3.attributed_delay_ms, e12.3.raw_wait_ms,
        "cascade must change attribution"
    );

    // Then verify idempotency
    assert!(check_idempotency(&g, 10));
}

#[test]
fn depth_monotonicity_verified_numerically() {
    let mut g = WaitForGraph::new();
    g.add_node(ThreadId(1), NodeKind::UserThread);
    g.add_node(ThreadId(2), NodeKind::UserThread);
    g.add_node(ThreadId(3), NodeKind::UserThread);
    g.add_edge(ThreadId(1), ThreadId(2), TimeWindow::new(0, 100));
    g.add_edge(ThreadId(2), ThreadId(3), TimeWindow::new(0, 100));

    let shallow = cascade_engine(&g, Some(2)).unwrap();
    let deep = cascade_engine(&g, Some(10)).unwrap();
    // Deep cascade propagates more → less total attributed
    assert!(deep.total_attributed() <= shallow.total_attributed());
    assert!(check_depth_monotonicity(&g));
}

#[test]
fn locality_detects_window_change() {
    let mut g = WaitForGraph::new();
    g.add_node(ThreadId(1), NodeKind::UserThread);
    g.add_node(ThreadId(2), NodeKind::UserThread);
    g.add_edge(ThreadId(1), ThreadId(2), TimeWindow::new(0, 50));

    // Create result with different time window
    let mut bad = WaitForGraph::new();
    bad.add_node(ThreadId(1), NodeKind::UserThread);
    bad.add_node(ThreadId(2), NodeKind::UserThread);
    bad.add_edge(ThreadId(1), ThreadId(2), TimeWindow::new(0, 99));
    assert!(!check_locality(&g, &bad));
}
