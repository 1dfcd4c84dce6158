//! Node weights.

use wperf::cascade::engine::cascade_engine;
use wperf::graph::types::{NodeKind, ThreadId, TimeWindow};
use wperf::graph::wfg::WaitForGraph;
use wperf::scc::heuristic::{apply_max_heuristic, max_heuristic_weight};
use wperf::scc::tarjan::{build_condensation, Scc};

#[test]
fn singleton_weight_from_incident_edges() {
    let mut g = WaitForGraph::new();
    g.add_node(ThreadId(1), NodeKind::UserThread);
    g.add_node(ThreadId(2), NodeKind::UserThread);
    g.add_edge(ThreadId(1), ThreadId(2), TimeWindow::new(0, 50));

    let result = cascade_engine(&g, None).unwrap();
    let scc = Scc {
        members: vec![ThreadId(2)],
    };
    // T2 has incoming edge with attributed=50
    assert_eq!(max_heuristic_weight(&result, &scc), 50);
}

#[test]
fn cycle_weight_from_internal_edges() {
    let mut g = WaitForGraph::new();
    g.add_node(ThreadId(1), NodeKind::UserThread);
    g.add_node(ThreadId(2), NodeKind::UserThread);
    g.add_edge(ThreadId(1), ThreadId(2), TimeWindow::new(0, 100));
    g.add_edge(ThreadId(2), ThreadId(1), TimeWindow::new(0, 60));

    let scc = Scc {
        members: vec![ThreadId(1), ThreadId(2)],
    };
    // Internal edges: T1→T2 (raw=100), T2→T1 (raw=60)
    // Before cascade, attributed = raw
    let w = max_heuristic_weight(&g, &scc);
    assert_eq!(w, 100, "MAX of internal edges");
}

#[test]
fn apply_heuristic_sets_weights() {
    let mut g = WaitForGraph::new();
    g.add_node(ThreadId(1), NodeKind::UserThread);
    g.add_node(ThreadId(2), NodeKind::UserThread);
    g.add_node(ThreadId(3), NodeKind::UserThread);
    g.add_edge(ThreadId(1), ThreadId(2), TimeWindow::new(0, 100));
    g.add_edge(ThreadId(2), ThreadId(3), TimeWindow::new(20, 100));

    let result = cascade_engine(&g, None).unwrap();
    let mut cdag = build_condensation(&result);
    apply_max_heuristic(&mut cdag, &result);

    // All nodes should have non-zero weights
    for (_, sn) in cdag.all_super_nodes() {
        assert!(sn.weight > 0, "super-node {:?} has zero weight", sn.members);
    }
}

#[test]
fn heuristic_on_figure4() {
    let mut g = WaitForGraph::new();
    g.add_node(ThreadId(1), NodeKind::UserThread);
    g.add_node(ThreadId(2), NodeKind::UserThread);
    g.add_node(ThreadId(3), NodeKind::PseudoNic);
    g.add_edge(ThreadId(1), ThreadId(2), TimeWindow::new(0, 100));
    g.add_edge(ThreadId(2), ThreadId(3), TimeWindow::new(20, 100));

    let result = cascade_engine(&g, None).unwrap();
    let mut cdag = build_condensation(&result);
    apply_max_heuristic(&mut cdag, &result);

    // T3 (Network) is the sink with highest attributed (80ms)
    let t3_idx = cdag.scc_of(&ThreadId(3)).unwrap();
    assert_eq!(cdag.super_node(t3_idx).weight, 80);

    // T2 (Parser) has attributed=20 on incoming edge from T1
    let t2_idx = cdag.scc_of(&ThreadId(2)).unwrap();
    assert_eq!(cdag.super_node(t2_idx).weight, 80);
    // T2's max incident edge: outgoing T2→T3 (attributed=80)
}

#[test]
fn isolated_node_zero_weight() {
    let mut g = WaitForGraph::new();
    g.add_node(ThreadId(1), NodeKind::UserThread);

    let scc = Scc {
        members: vec![ThreadId(1)],
    };
    assert_eq!(max_heuristic_weight(&g, &scc), 0);
}
