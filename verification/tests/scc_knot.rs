//! Knots.

use wperf::graph::types::{NodeKind, ThreadId, TimeWindow};
use wperf::graph::wfg::WaitForGraph;
use wperf::scc::knot::detect_knots;
use wperf::scc::tarjan::build_condensation;

#[test]
fn trivial_sink_excluded() {
    // A→B, B is a leaf (singleton sink, no self-loop) → not a knot
    let mut g = WaitForGraph::new();
    g.add_node(ThreadId(1), NodeKind::UserThread);
    g.add_node(ThreadId(2), NodeKind::UserThread);
    g.add_edge(ThreadId(1), ThreadId(2), TimeWindow::new(0, 100));

    let cdag = build_condensation(&g);
    let knots = detect_knots(&cdag, &g);
    assert!(knots.is_empty(), "trivial singleton sink is not a knot");
}

#[test]
fn self_loop_sink_is_knot() {
    // A→B, B→B (self-loop) → B is a knot
    let mut g = WaitForGraph::new();
    g.add_node(ThreadId(1), NodeKind::UserThread);
    g.add_node(ThreadId(2), NodeKind::UserThread);
    g.add_edge(ThreadId(1), ThreadId(2), TimeWindow::new(0, 100));
    g.add_edge(ThreadId(2), ThreadId(2), TimeWindow::new(0, 100));

    let cdag = build_condensation(&g);
    let knots = detect_knots(&cdag, &g);
    assert_eq!(knots.len(), 1);
    assert!(knots[0].members.contains(&ThreadId(2)));
}

#[test]
fn cycle_sink_is_knot() {
    // A→B→C→B (B,C form a cycle, which is a sink SCC)
    let mut g = WaitForGraph::new();
    g.add_node(ThreadId(1), NodeKind::UserThread);
    g.add_node(ThreadId(2), NodeKind::UserThread);
    g.add_node(ThreadId(3), NodeKind::UserThread);
    g.add_edge(ThreadId(1), ThreadId(2), TimeWindow::new(0, 100));
    g.add_edge(ThreadId(2), ThreadId(3), TimeWindow::new(0, 100));
    g.add_edge(ThreadId(3), ThreadId(2), TimeWindow::new(0, 100));

    let cdag = build_condensation(&g);
    let knots = detect_knots(&cdag, &g);
    assert_eq!(knots.len(), 1);
    assert_eq!(knots[0].members.len(), 2);
}

#[test]
fn pure_kernel_scc_excluded() {
    // Two kernel threads in a cycle → excluded
    let mut g = WaitForGraph::new();
    g.add_node(ThreadId(1), NodeKind::UserThread);
    g.add_node(ThreadId(10), NodeKind::KernelThread);
    g.add_node(ThreadId(11), NodeKind::KernelThread);
    g.add_edge(ThreadId(1), ThreadId(10), TimeWindow::new(0, 100));
    g.add_edge(ThreadId(10), ThreadId(11), TimeWindow::new(0, 100));
    g.add_edge(ThreadId(11), ThreadId(10), TimeWindow::new(0, 100));

    let cdag = build_condensation(&g);
    let knots = detect_knots(&cdag, &g);
    assert!(knots.is_empty(), "pure kernel SCCs are excluded");
}

#[test]
fn mixed_kernel_user_scc_is_knot() {
    // One user + one kernel thread in a cycle → knot (has user thread)
    let mut g = WaitForGraph::new();
    g.add_node(ThreadId(1), NodeKind::UserThread);
    g.add_node(ThreadId(10), NodeKind::KernelThread);
    g.add_edge(ThreadId(1), ThreadId(10), TimeWindow::new(0, 100));
    g.add_edge(ThreadId(10), ThreadId(1), TimeWindow::new(0, 100));

    let cdag = build_condensation(&g);
    let knots = detect_knots(&cdag, &g);
    assert_eq!(knots.len(), 1, "mixed kernel+user SCC is a knot");
}

#[test]
fn non_sink_cycle_not_a_knot() {
    // A→B→A (cycle, but A→C so it's not a sink)
    let mut g = WaitForGraph::new();
    g.add_node(ThreadId(1), NodeKind::UserThread);
    g.add_node(ThreadId(2), NodeKind::UserThread);
    g.add_node(ThreadId(3), NodeKind::UserThread);
    g.add_edge(ThreadId(1), ThreadId(2), TimeWindow::new(0, 100));
    g.add_edge(ThreadId(2), ThreadId(1), TimeWindow::new(0, 100));
    g.add_edge(ThreadId(1), ThreadId(3), TimeWindow::new(0, 50));

    let cdag = build_condensation(&g);
    let knots = detect_knots(&cdag, &g);
    // {A,B} has outgoing edge to {C} → not a sink → not a knot
    // {C} is a trivial singleton → not a knot
    assert!(knots.is_empty());
}

#[test]
fn component_without_user_thread_is_no_knot() {
    // A kernel thread and a disk in a cycle: nobody's thread is stuck.
    let mut g = WaitForGraph::new();
    g.add_node(ThreadId(1), NodeKind::UserThread);
    g.add_node(ThreadId(10), NodeKind::KernelThread);
    g.add_node(ThreadId(-5), NodeKind::PseudoDisk);
    g.add_edge(ThreadId(1), ThreadId(10), TimeWindow::new(0, 100));
    g.add_edge(ThreadId(10), ThreadId(-5), TimeWindow::new(0, 100));
    g.add_edge(ThreadId(-5), ThreadId(10), TimeWindow::new(0, 100));
    assert!(detect_knots(&build_condensation(&g), &g).is_empty());

    // With a user thread in it, it is one.
    g.add_edge(ThreadId(10), ThreadId(1), TimeWindow::new(0, 100));
    let knots = detect_knots(&build_condensation(&g), &g);
    assert_eq!(knots.len(), 1);
    assert_eq!(
        knots[0].members,
        vec![ThreadId(-5), ThreadId(1), ThreadId(10)]
    );
}
