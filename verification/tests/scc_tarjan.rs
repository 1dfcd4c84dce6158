//! Components and condensation.

use wperf::graph::types::{NodeKind, ThreadId, TimeWindow};
use wperf::graph::wfg::WaitForGraph;
use wperf::scc::tarjan::{build_condensation, find_sccs, internal_edges};

#[test]
fn acyclic_graph_all_singleton_sccs() {
    let mut g = WaitForGraph::new();
    g.add_node(ThreadId(1), NodeKind::UserThread);
    g.add_node(ThreadId(2), NodeKind::UserThread);
    g.add_node(ThreadId(3), NodeKind::UserThread);
    g.add_edge(ThreadId(1), ThreadId(2), TimeWindow::new(0, 100));
    g.add_edge(ThreadId(2), ThreadId(3), TimeWindow::new(20, 100));

    let sccs = find_sccs(&g);
    assert_eq!(sccs.len(), 3, "acyclic graph → 3 singleton SCCs");
    for scc in &sccs {
        assert_eq!(scc.members.len(), 1);
    }
}

#[test]
fn simple_cycle_one_scc() {
    let mut g = WaitForGraph::new();
    g.add_node(ThreadId(1), NodeKind::UserThread);
    g.add_node(ThreadId(2), NodeKind::UserThread);
    g.add_edge(ThreadId(1), ThreadId(2), TimeWindow::new(0, 100));
    g.add_edge(ThreadId(2), ThreadId(1), TimeWindow::new(0, 100));

    let sccs = find_sccs(&g);
    assert_eq!(sccs.len(), 1, "mutual cycle → 1 SCC");
    assert_eq!(sccs[0].members.len(), 2);
}

#[test]
fn three_node_cycle() {
    let mut g = WaitForGraph::new();
    g.add_node(ThreadId(1), NodeKind::UserThread);
    g.add_node(ThreadId(2), NodeKind::UserThread);
    g.add_node(ThreadId(3), NodeKind::UserThread);
    g.add_edge(ThreadId(1), ThreadId(2), TimeWindow::new(0, 100));
    g.add_edge(ThreadId(2), ThreadId(3), TimeWindow::new(0, 100));
    g.add_edge(ThreadId(3), ThreadId(1), TimeWindow::new(0, 100));

    let sccs = find_sccs(&g);
    assert_eq!(sccs.len(), 1);
    assert_eq!(sccs[0].members.len(), 3);
}

#[test]
fn mixed_cycle_and_chain() {
    // A→B→C→B (cycle), C→D (chain out)
    let mut g = WaitForGraph::new();
    g.add_node(ThreadId(1), NodeKind::UserThread); // A
    g.add_node(ThreadId(2), NodeKind::UserThread); // B
    g.add_node(ThreadId(3), NodeKind::UserThread); // C
    g.add_node(ThreadId(4), NodeKind::UserThread); // D
    g.add_edge(ThreadId(1), ThreadId(2), TimeWindow::new(0, 100)); // A→B
    g.add_edge(ThreadId(2), ThreadId(3), TimeWindow::new(0, 100)); // B→C
    g.add_edge(ThreadId(3), ThreadId(2), TimeWindow::new(0, 100)); // C→B (cycle)
    g.add_edge(ThreadId(3), ThreadId(4), TimeWindow::new(0, 50)); // C→D

    let sccs = find_sccs(&g);
    // {B,C} is one SCC, {A} and {D} are singletons
    assert_eq!(sccs.len(), 3);
    let cycle_scc = sccs.iter().find(|s| s.members.len() == 2).unwrap();
    assert!(cycle_scc.members.contains(&ThreadId(2)));
    assert!(cycle_scc.members.contains(&ThreadId(3)));
}

#[test]
fn condensation_acyclic() {
    let mut g = WaitForGraph::new();
    g.add_node(ThreadId(1), NodeKind::UserThread);
    g.add_node(ThreadId(2), NodeKind::UserThread);
    g.add_node(ThreadId(3), NodeKind::UserThread);
    g.add_edge(ThreadId(1), ThreadId(2), TimeWindow::new(0, 100));
    g.add_edge(ThreadId(2), ThreadId(3), TimeWindow::new(20, 100));

    let cdag = build_condensation(&g);
    // Acyclic: 3 super-nodes, 2 edges
    assert_eq!(cdag.node_count(), 3);
    assert_eq!(cdag.edge_count(), 2);
}

#[test]
fn condensation_with_cycle() {
    let mut g = WaitForGraph::new();
    g.add_node(ThreadId(1), NodeKind::UserThread); // A
    g.add_node(ThreadId(2), NodeKind::UserThread); // B
    g.add_node(ThreadId(3), NodeKind::UserThread); // C
    g.add_node(ThreadId(4), NodeKind::UserThread); // D
    g.add_edge(ThreadId(1), ThreadId(2), TimeWindow::new(0, 100)); // A→B
    g.add_edge(ThreadId(2), ThreadId(3), TimeWindow::new(0, 100)); // B→C
    g.add_edge(ThreadId(3), ThreadId(2), TimeWindow::new(0, 100)); // C→B
    g.add_edge(ThreadId(3), ThreadId(4), TimeWindow::new(0, 50)); // C→D

    let cdag = build_condensation(&g);
    // 3 super-nodes: {A}, {B,C}, {D}
    assert_eq!(cdag.node_count(), 3);
    // Edges: A→{B,C}, {B,C}→D
    assert_eq!(cdag.edge_count(), 2);

    // Verify B and C are in the same super-node
    let b_scc = cdag.scc_of(&ThreadId(2)).unwrap();
    let c_scc = cdag.scc_of(&ThreadId(3)).unwrap();
    assert_eq!(b_scc, c_scc);
}

#[test]
fn condensation_sinks() {
    let mut g = WaitForGraph::new();
    g.add_node(ThreadId(1), NodeKind::UserThread);
    g.add_node(ThreadId(2), NodeKind::UserThread);
    g.add_node(ThreadId(3), NodeKind::UserThread);
    g.add_edge(ThreadId(1), ThreadId(2), TimeWindow::new(0, 100));
    g.add_edge(ThreadId(1), ThreadId(3), TimeWindow::new(0, 50));

    let cdag = build_condensation(&g);
    let sinks = cdag.sinks();
    // T2 and T3 are sinks (no outgoing edges)
    assert_eq!(sinks.len(), 2);
}

#[test]
fn internal_edges_of_cycle() {
    let mut g = WaitForGraph::new();
    g.add_node(ThreadId(1), NodeKind::UserThread);
    g.add_node(ThreadId(2), NodeKind::UserThread);
    g.add_node(ThreadId(3), NodeKind::UserThread);
    g.add_edge(ThreadId(1), ThreadId(2), TimeWindow::new(0, 100));
    g.add_edge(ThreadId(2), ThreadId(1), TimeWindow::new(0, 100));
    g.add_edge(ThreadId(1), ThreadId(3), TimeWindow::new(0, 50));

    let sccs = find_sccs(&g);
    let cycle = sccs.iter().find(|s| s.members.len() == 2).unwrap();
    let int_edges = internal_edges(&g, cycle);
    // T1→T2 and T2→T1 are internal
    assert_eq!(int_edges.len(), 2);
}
