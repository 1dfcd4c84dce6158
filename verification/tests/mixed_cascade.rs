//! Waits for a thread that itself waits for a disk.

use wperf::cascade::engine::cascade_engine;
use wperf::graph::types::{EdgeKind, NodeKind, ThreadId, TimeWindow, WaitType, DISK_TID};
use wperf::graph::wfg::WaitForGraph;
use wperf::scc::knot::detect_knots;
use wperf::scc::tarjan::build_condensation;

fn build_mixed_graph() -> WaitForGraph {
    let mut g = WaitForGraph::new();
    let user = ThreadId(100);
    let holder = ThreadId(200);
    let disk = ThreadId(DISK_TID);

    g.add_node(user, NodeKind::UserThread);
    g.add_node(holder, NodeKind::UserThread);
    g.add_node(disk, NodeKind::PseudoDisk);

    // Real scheduler-derived wait: T100 blocked on T200 for [0, 10]ms.
    g.add_edge(user, holder, TimeWindow::new(0, 10));

    // Forward synthetic IO edge (User→Disk issue event) — Normal kind,
    // participates in cascade as a real wait dependency.
    g.add_edge_with_wait_type(holder, disk, TimeWindow::new(0, 10), WaitType::IoBlock);

    g.add_synthetic_closure_return(disk, holder, TimeWindow::new(0, 10), WaitType::IoBlock);

    g
}

#[test]
fn probe_mixed_cascade_post_fix_attribution() {
    let g = build_mixed_graph();
    let result = cascade_engine(&g, None).expect("cascade must succeed");

    let user = ThreadId(100);
    let holder = ThreadId(200);
    let disk = ThreadId(DISK_TID);

    let edges = result.all_edges();
    let user_holder = edges
        .iter()
        .find(|(_, s, d, _)| *s == user && *d == holder)
        .expect("T100→T200 edge present");
    let holder_disk = edges
        .iter()
        .find(|(_, s, d, _)| *s == holder && *d == disk)
        .expect("T200→DISK edge present");
    let disk_holder = edges
        .iter()
        .find(|(_, s, d, _)| *s == disk && *d == holder)
        .expect("DISK→T200 edge present");

    let attr_uh = user_holder.3.attributed_delay_ms;
    let attr_hd = holder_disk.3.attributed_delay_ms;
    let attr_dh = disk_holder.3.attributed_delay_ms;


    let inbound_raw: u64 = holder_disk.3.raw_wait_ms;
    let inbound_attr: u64 = attr_hd;
    let ratio_inbound = inbound_attr as f64 / inbound_raw as f64;

    assert_eq!(
        attr_uh, 0,
        "T100→T200 must attribute 0 (T200 is victim, all blame cascades to DISK)"
    );
    assert_eq!(
        attr_hd, 10,
        "T200→DISK must attribute 10 (DISK is root cause, full attribution)"
    );
    assert_eq!(
        attr_dh, 0,
        "DISK→T200 (SyntheticClosureReturn) must remain 0 — closure bookkeeping retains no semantic blame"
    );
    assert!(
        (ratio_inbound - 1.0).abs() < 1e-9,
        "inbound-only ratio must be 1.0, got {ratio_inbound}"
    );

    assert_eq!(
        disk_holder.3.kind,
        EdgeKind::SyntheticClosureReturn,
        "DISK→T200 must be marked SyntheticClosureReturn"
    );
    assert_eq!(
        holder_disk.3.kind,
        EdgeKind::Normal,
        "T200→DISK forward edge must be Normal"
    );
    assert_eq!(
        user_holder.3.kind,
        EdgeKind::Normal,
        "T100→T200 user-wait edge must be Normal"
    );
}

#[test]
fn probe_3node_knot_with_pseudo_thread() {

    let mut g = WaitForGraph::new();
    let t1 = ThreadId(1);
    let t2 = ThreadId(2);
    let disk = ThreadId(DISK_TID);

    g.add_node(t1, NodeKind::UserThread);
    g.add_node(t2, NodeKind::UserThread);
    g.add_node(disk, NodeKind::PseudoDisk);

    g.add_edge(t1, t2, TimeWindow::new(0, 10));
    g.add_edge_with_wait_type(t2, disk, TimeWindow::new(0, 10), WaitType::IoBlock);
    g.add_synthetic_closure_return(disk, t2, TimeWindow::new(0, 10), WaitType::IoBlock);

    let cascaded = cascade_engine(&g, None).expect("cascade must succeed");

    let edges = cascaded.all_edges();
    let attr = |s: ThreadId, d: ThreadId| -> u64 {
        match edges.iter().find(|(_, src, dst, _)| *src == s && *dst == d) {
            Some((_, _, _, w)) => w.attributed_delay_ms,
            None => panic!("edge {}→{} not found", s.0, d.0),
        }
    };
    assert_eq!(
        attr(t1, t2),
        0,
        "T1→T2: T2 is victim, blame cascades to DISK"
    );
    assert_eq!(attr(t2, disk), 10, "T2→DISK: full attribution");
    assert_eq!(
        attr(disk, t2),
        0,
        "DISK→T2 (SyntheticClosureReturn): closure bookkeeping retains no blame"
    );

    // Tarjan SCC detection — the {T2, DISK} pair must form an SCC because
    // both edges (forward + return) participate in adjacency analysis,
    // even though the return edge is cascade-terminal.
    let cdag = build_condensation(&cascaded);
    let knots = detect_knots(&cdag, &cascaded);

    // The {T2, DISK} SCC must be detected as a Knot:
    // - It is a sink in the condensation DAG (no edges out)
    // - It contains a UserThread (T2)
    let knot_with_t2 = knots.iter().find(|k| k.members.contains(&t2));
    assert!(
        knot_with_t2.is_some(),
        "{{T2, DISK}} SCC must be detected as Knot (sink + contains UserThread T2); got knots: {knots:?}"
    );
    let knot = knot_with_t2.unwrap();
    assert!(
        knot.members.contains(&disk),
        "Knot must contain DISK pseudo-thread: {knot:?}"
    );
    assert_eq!(knot.members.len(), 2, "Knot is exactly {{T2, DISK}}");
}

#[test]
fn probe_mixed_cascade_filter_must_apply_bilaterally() {

    let mut g = WaitForGraph::new();
    let t100 = ThreadId(100);
    let t300 = ThreadId(300);
    let holder = ThreadId(200);
    let disk = ThreadId(DISK_TID);

    g.add_node(t100, NodeKind::UserThread);
    g.add_node(t300, NodeKind::UserThread);
    g.add_node(holder, NodeKind::UserThread);
    g.add_node(disk, NodeKind::PseudoDisk);

    g.add_edge(t100, holder, TimeWindow::new(0, 10));
    g.add_edge(t300, holder, TimeWindow::new(0, 10));
    g.add_edge_with_wait_type(holder, disk, TimeWindow::new(0, 10), WaitType::IoBlock);
    g.add_synthetic_closure_return(disk, holder, TimeWindow::new(0, 10), WaitType::IoBlock);

    let result = cascade_engine(&g, None).expect("cascade must succeed");

    let edges = result.all_edges();
    let holder_disk = edges
        .iter()
        .find(|(_, s, d, _)| *s == holder && *d == disk)
        .expect("T200→DISK edge present");

    // T200→DISK forward attribution must still be 10 — the third user
    // T300 doesn't change this because Disk is a leaf for cascade
    // (its only outgoing is the SCR edge, which is filtered).
    assert_eq!(
        holder_disk.3.attributed_delay_ms, 10,
        "T200→DISK forward attribution unaffected by additional concurrent waiters on T200"
    );
}
