//! The cascade.

use wperf::cascade::engine::cascade_engine;
use wperf::cascade::invariants::invariants_ok;
use wperf::graph::types::{NodeKind, ThreadId, TimeWindow};
use wperf::graph::wfg::WaitForGraph;

fn figure4_graph() -> WaitForGraph {
    let mut g = WaitForGraph::new();
    g.add_node(ThreadId(1), NodeKind::UserThread);
    g.add_node(ThreadId(2), NodeKind::UserThread);
    g.add_node(ThreadId(3), NodeKind::UserThread);
    g.add_edge(ThreadId(1), ThreadId(2), TimeWindow::new(0, 100));
    g.add_edge(ThreadId(2), ThreadId(3), TimeWindow::new(20, 100));
    g
}

#[test]
fn cascade_single_edge() {
    let mut g = WaitForGraph::new();
    g.add_node(ThreadId(1), NodeKind::UserThread);
    g.add_node(ThreadId(2), NodeKind::UserThread);
    g.add_edge(ThreadId(1), ThreadId(2), TimeWindow::new(0, 50));

    let result = cascade_engine(&g, None).unwrap();
    let edges = result.all_edges();
    assert_eq!(edges[0].3.attributed_delay_ms, 50);
}

#[test]
fn cascade_figure4() {
    let g = figure4_graph();
    let result = cascade_engine(&g, None).unwrap();

    let edges = result.all_edges();
    let user_parser = edges
        .iter()
        .find(|(_, s, d, _)| *s == ThreadId(1) && *d == ThreadId(2))
        .unwrap();
    let parser_network = edges
        .iter()
        .find(|(_, s, d, _)| *s == ThreadId(2) && *d == ThreadId(3))
        .unwrap();

    // User→Parser: raw=100, propagated 80 to Network → attributed=20
    assert_eq!(user_parser.3.attributed_delay_ms, 20, "User→Parser");
    // Parser→Network: raw=80, Network is leaf → attributed=80
    assert_eq!(parser_network.3.attributed_delay_ms, 80, "Parser→Network");
}

#[test]
fn cascade_extended_3node() {
    let mut g = WaitForGraph::new();
    g.add_node(ThreadId(1), NodeKind::UserThread);
    g.add_node(ThreadId(2), NodeKind::UserThread);
    g.add_node(ThreadId(3), NodeKind::UserThread);
    g.add_node(ThreadId(4), NodeKind::UserThread);
    g.add_edge(ThreadId(1), ThreadId(2), TimeWindow::new(0, 100)); // User→Parser
    g.add_edge(ThreadId(2), ThreadId(3), TimeWindow::new(20, 100)); // Parser→Network
    g.add_edge(ThreadId(3), ThreadId(4), TimeWindow::new(50, 100)); // Network→Disk

    let result = cascade_engine(&g, None).unwrap();
    let edges = result.all_edges();

    let up = edges
        .iter()
        .find(|(_, s, d, _)| *s == ThreadId(1) && *d == ThreadId(2))
        .unwrap();
    let pn = edges
        .iter()
        .find(|(_, s, d, _)| *s == ThreadId(2) && *d == ThreadId(3))
        .unwrap();
    let nd = edges
        .iter()
        .find(|(_, s, d, _)| *s == ThreadId(3) && *d == ThreadId(4))
        .unwrap();

    // User→Parser: raw=100, propagated=80 → attributed=20
    assert_eq!(up.3.attributed_delay_ms, 20);
    // Parser→Network: raw=80, propagated=50 → attributed=30
    assert_eq!(pn.3.attributed_delay_ms, 30);
    // Network→Disk: raw=50, leaf → attributed=50
    assert_eq!(nd.3.attributed_delay_ms, 50);
}

#[test]
fn cascade_leaf_nonzero() {
    let g = figure4_graph();
    let result = cascade_engine(&g, None).unwrap();
    let edges = result.all_edges();
    let parser_network = edges
        .iter()
        .find(|(_, s, d, _)| *s == ThreadId(2) && *d == ThreadId(3))
        .unwrap();
    assert!(parser_network.3.attributed_delay_ms > 0);
}

#[test]
fn cascade_invariants_ok() {
    let g = figure4_graph();
    let result = cascade_engine(&g, None).unwrap();
    assert!(invariants_ok(&g, &result));
}

#[test]
fn invariants_ok_false_on_bad_graph() {
    let g = figure4_graph();
    let mut result = cascade_engine(&g, None).unwrap();
    // Corrupt: set attributed > raw on first edge
    let edges = result.all_edges();
    let eidx = edges[0].0;
    result.edge_weight_mut(eidx).attributed_delay_ms = 999;
    assert!(!invariants_ok(&g, &result));
}

#[test]
fn concurrent_waiters_divides_weight() {
    // T1→T2 [0,100), T2→T3 [0,100), T4→T3 [0,100)
    // T3 has 2 incoming edges (from T2 and T4) → external_waiters=2
    // When cascading T1→T2, T2's child T3 has 2 concurrent waiters
    // → transfer is divided by 2
    let mut g = WaitForGraph::new();
    g.add_node(ThreadId(1), NodeKind::UserThread);
    g.add_node(ThreadId(2), NodeKind::UserThread);
    g.add_node(ThreadId(3), NodeKind::UserThread);
    g.add_node(ThreadId(4), NodeKind::UserThread);
    g.add_edge(ThreadId(1), ThreadId(2), TimeWindow::new(0, 100));
    g.add_edge(ThreadId(2), ThreadId(3), TimeWindow::new(0, 100));
    g.add_edge(ThreadId(4), ThreadId(3), TimeWindow::new(0, 100));

    let result = cascade_engine(&g, None).unwrap();
    let edges = result.all_edges();

    let e12 = edges
        .iter()
        .find(|(_, s, d, _)| *s == ThreadId(1) && *d == ThreadId(2))
        .unwrap();

    // Without concurrent_waiters: propagated=100, attributed=0
    // With concurrent_waiters=2: propagated=100/2=50, attributed=50
    assert_eq!(e12.3.attributed_delay_ms, 50, "T1→T2 with 2 waiters on T3");
}

#[test]
fn depth_limit_changes_result() {
    // Chain: T1→T2→T3→T4, overlapping windows
    // With max_depth=1: no propagation (depth starts at 1, immediately hits limit)
    // With max_depth=10: full propagation
    let mut g = WaitForGraph::new();
    g.add_node(ThreadId(1), NodeKind::UserThread);
    g.add_node(ThreadId(2), NodeKind::UserThread);
    g.add_node(ThreadId(3), NodeKind::UserThread);
    g.add_edge(ThreadId(1), ThreadId(2), TimeWindow::new(0, 100));
    g.add_edge(ThreadId(2), ThreadId(3), TimeWindow::new(0, 100));

    let shallow = cascade_engine(&g, Some(1)).unwrap();
    let deep = cascade_engine(&g, Some(10)).unwrap();

    let s_edges = shallow.all_edges();
    let d_edges = deep.all_edges();

    let s12 = s_edges
        .iter()
        .find(|(_, s, d, _)| *s == ThreadId(1) && *d == ThreadId(2))
        .unwrap();
    let d12 = d_edges
        .iter()
        .find(|(_, s, d, _)| *s == ThreadId(1) && *d == ThreadId(2))
        .unwrap();

    // max_depth=1: compute_cascade called with depth=1, hits limit immediately → attributed=raw=100
    assert_eq!(s12.3.attributed_delay_ms, 100, "depth=1 → no cascade");
    // max_depth=10: full cascade → attributed < raw
    assert!(
        d12.3.attributed_delay_ms < 100,
        "depth=10 → cascade reduces attribution"
    );
}

#[test]
fn total_attributed_less_than_raw() {
    let g = figure4_graph();
    let result = cascade_engine(&g, None).unwrap();
    // Total attributed should be less than total raw (weight absorbed by cascade)
    assert!(result.total_attributed() < g.total_raw_wait());
    assert!(result.total_attributed() > 0);
}

#[test]
fn node_indices_returns_all_nodes() {
    let g = figure4_graph();
    let indices = g.node_indices();
    assert_eq!(indices.len(), 3);
}
