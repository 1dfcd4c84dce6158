//! The critical path.

use wperf::cascade::engine::cascade_engine;
use wperf::critical_path::{critical_path_dp, CriticalPath};
use wperf::graph::types::{NodeKind, ThreadId, TimeWindow};
use wperf::graph::wfg::WaitForGraph;
use wperf::scc::heuristic::apply_max_heuristic;
use wperf::scc::tarjan::{build_condensation, CondensationDag, SuperNode};

fn run_pipeline(g: &WaitForGraph) -> CriticalPath {
    let result = cascade_engine(g, None).unwrap();
    let mut cdag = build_condensation(&result);
    apply_max_heuristic(&mut cdag, &result);
    critical_path_dp(&cdag).unwrap()
}

#[test]
fn single_node() {
    let mut g = WaitForGraph::new();
    g.add_node(ThreadId(1), NodeKind::UserThread);
    // No edges → isolated node

    let cdag = build_condensation(&g);
    let cp = critical_path_dp(&cdag).unwrap();
    assert_eq!(cp.chain.len(), 1);
    assert_eq!(cp.total_weight, 0);
}

#[test]
fn single_edge_critical_path() {
    let mut g = WaitForGraph::new();
    g.add_node(ThreadId(1), NodeKind::UserThread);
    g.add_node(ThreadId(2), NodeKind::UserThread);
    g.add_edge(ThreadId(1), ThreadId(2), TimeWindow::new(0, 50));

    let cp = run_pipeline(&g);
    assert_eq!(cp.chain.len(), 2);
    assert!(cp.total_weight > 0);
}

#[test]
fn figure4_critical_path() {
    let mut g = WaitForGraph::new();
    g.add_node(ThreadId(1), NodeKind::UserThread);
    g.add_node(ThreadId(2), NodeKind::UserThread);
    g.add_node(ThreadId(3), NodeKind::PseudoNic);
    g.add_edge(ThreadId(1), ThreadId(2), TimeWindow::new(0, 100));
    g.add_edge(ThreadId(2), ThreadId(3), TimeWindow::new(20, 100));

    let cp = run_pipeline(&g);
    assert_eq!(cp.chain.len(), 3);
    // Last node in path should be T3 (Network) — the root cause
    let last = cp.chain.last().unwrap();
    assert!(last.members.contains(&ThreadId(3)));
}

#[test]
fn branching_picks_heavier_path() {
    // A→B (50ms), A→C (80ms) — critical path should go through C
    let mut g = WaitForGraph::new();
    g.add_node(ThreadId(1), NodeKind::UserThread);
    g.add_node(ThreadId(2), NodeKind::UserThread);
    g.add_node(ThreadId(3), NodeKind::UserThread);
    g.add_edge(ThreadId(1), ThreadId(2), TimeWindow::new(0, 50));
    g.add_edge(ThreadId(1), ThreadId(3), TimeWindow::new(0, 80));

    let cp = run_pipeline(&g);
    let last = cp.chain.last().unwrap();
    assert!(
        last.members.contains(&ThreadId(3)),
        "critical path should pick the heavier branch"
    );
}

#[test]
fn dp_arithmetic_uses_addition() {
    // Construct a condensation DAG directly to test DP arithmetic
    // without pipeline interference from heuristic weights.
    let mut cdag = CondensationDag::new();
    let a = cdag.add_super_node(SuperNode {
        scc_index: 0,
        members: vec![ThreadId(1)],
        weight: 5,
    });
    let b = cdag.add_super_node(SuperNode {
        scc_index: 1,
        members: vec![ThreadId(2)],
        weight: 3,
    });
    let c = cdag.add_super_node(SuperNode {
        scc_index: 2,
        members: vec![ThreadId(3)],
        weight: 7,
    });
    cdag.add_link(a, b, 10);
    cdag.add_link(b, c, 20);

    let cp = critical_path_dp(&cdag).unwrap();
    // dist[a]=5, dist[b]=5+10+3=18, dist[c]=18+20+7=45
    assert_eq!(cp.total_weight, 45, "DP must use addition");
    assert_eq!(cp.chain.len(), 3);
}

#[test]
fn empty_dag() {
    let cdag = build_condensation(&WaitForGraph::new());
    assert!(critical_path_dp(&cdag).is_none());
}

#[test]
fn long_chain_linear_complexity() {
    // 100-node linear chain — should complete quickly (O(V+E))
    // Staggered windows so each node has some direct attribution
    let mut g = WaitForGraph::new();
    for i in 0..100 {
        g.add_node(ThreadId(i), NodeKind::UserThread);
    }
    for i in 0..99i64 {
        let start = (i * 10) as u64;
        let end = start + 100;
        g.add_edge(ThreadId(i), ThreadId(i + 1), TimeWindow::new(start, end));
    }

    let cp = run_pipeline(&g);
    assert!(cp.chain.len() >= 2, "path has at least 2 nodes");
    assert!(cp.total_weight > 0);
}
