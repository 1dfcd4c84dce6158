//! The sweep line.

use wperf::graph::sweep::sweep_line_partition;
use wperf::graph::types::{NodeKind, ThreadId, TimeWindow};
use wperf::graph::wfg::WaitForGraph;

fn make_graph_with_outgoing(src: ThreadId, edges: &[(ThreadId, u64, u64)]) -> WaitForGraph {
    let mut g = WaitForGraph::new();
    g.add_node(src, NodeKind::UserThread);
    for &(dst, s, e) in edges {
        g.add_node(dst, NodeKind::UserThread);
        g.add_edge(src, dst, TimeWindow::new(s, e));
    }
    g
}

#[test]
fn no_outgoing() {
    let mut g = WaitForGraph::new();
    g.add_node(ThreadId(1), NodeKind::UserThread);
    let result = sweep_line_partition(&g, ThreadId(1), &TimeWindow::new(0, 100));
    assert!(result.is_empty());
}

#[test]
fn single_edge_full_overlap() {
    let g = make_graph_with_outgoing(ThreadId(1), &[(ThreadId(2), 0, 100)]);
    let result = sweep_line_partition(&g, ThreadId(1), &TimeWindow::new(0, 100));
    assert_eq!(result.len(), 1);
    assert_eq!(result[0].window, TimeWindow::new(0, 100));
    assert_eq!(result[0].targets, vec![ThreadId(2)]);
}

#[test]
fn single_edge_partial_overlap() {
    let g = make_graph_with_outgoing(ThreadId(1), &[(ThreadId(2), 20, 80)]);
    let result = sweep_line_partition(&g, ThreadId(1), &TimeWindow::new(0, 100));
    assert_eq!(result.len(), 1);
    assert_eq!(result[0].window, TimeWindow::new(20, 80));
}

#[test]
fn two_overlapping_edges() {
    // B -> C [0, 60), B -> D [20, 80)
    // Window [0, 100)
    // Expected: [0,20)={C}, [20,60)={C,D}, [60,80)={D}
    let g =
        make_graph_with_outgoing(ThreadId(1), &[(ThreadId(2), 0, 60), (ThreadId(3), 20, 80)]);
    let result = sweep_line_partition(&g, ThreadId(1), &TimeWindow::new(0, 100));

    assert_eq!(result.len(), 3);

    assert_eq!(result[0].window, TimeWindow::new(0, 20));
    assert_eq!(result[0].targets, vec![ThreadId(2)]);

    assert_eq!(result[1].window, TimeWindow::new(20, 60));
    assert_eq!(result[1].targets, vec![ThreadId(2), ThreadId(3)]);

    assert_eq!(result[2].window, TimeWindow::new(60, 80));
    assert_eq!(result[2].targets, vec![ThreadId(3)]);
}

#[test]
fn non_overlapping_edges() {
    // B -> C [0, 30), B -> D [50, 80)
    let g =
        make_graph_with_outgoing(ThreadId(1), &[(ThreadId(2), 0, 30), (ThreadId(3), 50, 80)]);
    let result = sweep_line_partition(&g, ThreadId(1), &TimeWindow::new(0, 100));

    assert_eq!(result.len(), 2);
    assert_eq!(result[0].targets, vec![ThreadId(2)]);
    assert_eq!(result[1].targets, vec![ThreadId(3)]);
}

#[test]
fn total_coverage_equals_sum_of_intervals() {
    let g =
        make_graph_with_outgoing(ThreadId(1), &[(ThreadId(2), 0, 60), (ThreadId(3), 20, 80)]);
    let result = sweep_line_partition(&g, ThreadId(1), &TimeWindow::new(0, 100));
    let total: u64 = result.iter().map(|i| i.window.duration()).sum();
    // Coverage = [0,80) = 80ms (union of [0,60) and [20,80))
    assert_eq!(total, 80);
}
