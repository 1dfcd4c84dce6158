//! Graphs on which attribution is easily got wrong.

use wperf::cascade::engine::cascade_engine;
use wperf::cascade::invariants::is_conserved;
use wperf::graph::types::{NodeKind, ThreadId, TimeWindow};
use wperf::graph::wfg::WaitForGraph;

#[test]
fn bug1_visited_path_scope() {
    let mut g = WaitForGraph::new();
    g.add_node(ThreadId(1), NodeKind::UserThread); // A
    g.add_node(ThreadId(2), NodeKind::UserThread); // B
    g.add_node(ThreadId(3), NodeKind::UserThread); // C
    g.add_node(ThreadId(4), NodeKind::UserThread); // D
    g.add_node(ThreadId(5), NodeKind::UserThread); // E

    g.add_edge(ThreadId(1), ThreadId(2), TimeWindow::new(0, 100)); // A→B
    g.add_edge(ThreadId(2), ThreadId(3), TimeWindow::new(0, 50)); // B→C
    g.add_edge(ThreadId(2), ThreadId(4), TimeWindow::new(50, 100)); // B→D
    g.add_edge(ThreadId(3), ThreadId(5), TimeWindow::new(0, 50)); // C→E
    g.add_edge(ThreadId(4), ThreadId(5), TimeWindow::new(50, 100)); // D→E

    let result = cascade_engine(&g, None).unwrap();

    // A→B: B is busy for the full 100ms (with C then D) → attributed=0
    let edges = result.all_edges();
    let ab = edges
        .iter()
        .find(|(_, s, d, _)| *s == ThreadId(1) && *d == ThreadId(2))
        .unwrap();
    assert_eq!(ab.3.attributed_delay_ms, 0, "A→B should propagate everything");

    // Both C→E and D→E should have non-zero attribution (leaf paths)
    let ce = edges
        .iter()
        .find(|(_, s, d, _)| *s == ThreadId(3) && *d == ThreadId(5))
        .unwrap();
    let de = edges
        .iter()
        .find(|(_, s, d, _)| *s == ThreadId(4) && *d == ThreadId(5))
        .unwrap();
    assert!(
        ce.3.attributed_delay_ms > 0,
        "C→E must not be zero"
    );
    assert!(
        de.3.attributed_delay_ms > 0,
        "D→E must not be zero"
    );

    assert!(is_conserved(&result));
}

#[test]
fn bug2_propagated_down_ignored() {
    let mut g = WaitForGraph::new();
    g.add_node(ThreadId(1), NodeKind::UserThread); // A
    g.add_node(ThreadId(2), NodeKind::UserThread); // B
    g.add_node(ThreadId(3), NodeKind::UserThread); // C

    g.add_edge(ThreadId(1), ThreadId(2), TimeWindow::new(0, 100));
    g.add_edge(ThreadId(2), ThreadId(3), TimeWindow::new(20, 100));

    let result = cascade_engine(&g, None).unwrap();
    let edges = result.all_edges();

    let ab = edges
        .iter()
        .find(|(_, s, d, _)| *s == ThreadId(1) && *d == ThreadId(2))
        .unwrap();

    assert_ne!(
        ab.3.attributed_delay_ms, 100,
        "what is propagated must be subtracted"
    );
    assert_eq!(ab.3.attributed_delay_ms, 20);

    assert!(is_conserved(&result));
}

#[test]
fn bug3_multi_edge_overlap() {
    let mut g = WaitForGraph::new();
    g.add_node(ThreadId(1), NodeKind::UserThread); // A
    g.add_node(ThreadId(2), NodeKind::UserThread); // B
    g.add_node(ThreadId(3), NodeKind::UserThread); // C
    g.add_node(ThreadId(4), NodeKind::UserThread); // D

    g.add_edge(ThreadId(1), ThreadId(2), TimeWindow::new(0, 100)); // A→B
    g.add_edge(ThreadId(2), ThreadId(3), TimeWindow::new(0, 60)); // B→C
    g.add_edge(ThreadId(2), ThreadId(4), TimeWindow::new(20, 80)); // B→D

    let result = cascade_engine(&g, None).unwrap();
    let edges = result.all_edges();

    let ab = edges
        .iter()
        .find(|(_, s, d, _)| *s == ThreadId(1) && *d == ThreadId(2))
        .unwrap();

    assert!(
        ab.3.attributed_delay_ms > 0,
        "overlaps must not be counted twice"
    );
    // B is idle during [80,100) → 20ms is B's direct fault
    assert_eq!(ab.3.attributed_delay_ms, 20);

    assert!(is_conserved(&result));
}

#[test]
fn bug4_combined_bug2_bug3() {
    let mut g = WaitForGraph::new();
    g.add_node(ThreadId(1), NodeKind::UserThread); // A
    g.add_node(ThreadId(2), NodeKind::UserThread); // B
    g.add_node(ThreadId(3), NodeKind::UserThread); // C
    g.add_node(ThreadId(4), NodeKind::UserThread); // D
    g.add_node(ThreadId(5), NodeKind::UserThread); // E

    g.add_edge(ThreadId(1), ThreadId(2), TimeWindow::new(0, 100)); // A→B
    g.add_edge(ThreadId(2), ThreadId(3), TimeWindow::new(0, 60)); // B→C
    g.add_edge(ThreadId(2), ThreadId(4), TimeWindow::new(20, 80)); // B→D
    g.add_edge(ThreadId(3), ThreadId(5), TimeWindow::new(0, 60)); // C→E

    let result = cascade_engine(&g, None).unwrap();
    let edges = result.all_edges();

    let ab = edges
        .iter()
        .find(|(_, s, d, _)| *s == ThreadId(1) && *d == ThreadId(2))
        .unwrap();
    let bc = edges
        .iter()
        .find(|(_, s, d, _)| *s == ThreadId(2) && *d == ThreadId(3))
        .unwrap();

    // A→B.attributed should reflect correct cascade through B's children
    assert!(
        ab.3.attributed_delay_ms < ab.3.raw_wait_ms,
        "A→B must propagate some weight to children"
    );
    // B→C should propagate to E
    assert!(
        bc.3.attributed_delay_ms < bc.3.raw_wait_ms,
        "B→C must propagate weight to E"
    );

    assert!(is_conserved(&result));
}

#[test]
fn new_bug1_leaf_node_zero_blame() {
    let mut g = WaitForGraph::new();
    g.add_node(ThreadId(1), NodeKind::UserThread);
    g.add_node(ThreadId(2), NodeKind::UserThread);
    g.add_edge(ThreadId(1), ThreadId(2), TimeWindow::new(0, 50));

    let result = cascade_engine(&g, None).unwrap();
    let edges = result.all_edges();

    // B is a leaf — full attribution belongs to B
    assert_eq!(
        edges[0].3.attributed_delay_ms, 50,
        "leaf node must get full attribution"
    );

    assert!(is_conserved(&result));
}
