//! Checks on many graphs and traces, drawn from a fixed sequence of numbers.

use wperf::cascade::engine::cascade_engine;
use wperf::cascade::invariants::{
    check_idempotency, check_locality, check_non_amplification, check_non_negativity,
    check_termination, invariants_ok,
};
use wperf::correlate::correlate_events;
use wperf::critical_path::critical_path_dp;
use wperf::format::event::{EventType, WperfEvent};
use wperf::graph::sweep::sweep_line_partition;
use wperf::graph::types::{NodeKind, ThreadId, TimeWindow};
use wperf::graph::wfg::WaitForGraph;
use wperf::scc::heuristic::apply_max_heuristic;
use wperf::scc::knot::detect_knots;
use wperf::scc::tarjan::{build_condensation, find_sccs};

struct Dice(u64);

impl Dice {
    fn next(&mut self, bound: u64) -> u64 {
        self.0 = self.0.wrapping_mul(6364136223846793005).wrapping_add(1442695040888963407);
        (self.0 >> 33) % bound
    }
}

fn draw_graph(dice: &mut Dice) -> WaitForGraph {
    let nodes = 2 + dice.next(19);
    let edges = 1 + dice.next(30);
    let mut g = WaitForGraph::new();
    for i in 0..nodes {
        let kind = match i % 5 {
            0 if i > 0 => NodeKind::KernelThread,
            4 => NodeKind::PseudoDisk,
            _ => NodeKind::UserThread,
        };
        g.add_node(ThreadId(i as i64), kind);
    }
    for _ in 0..edges {
        let (src, dst) = (dice.next(nodes), dice.next(nodes));
        let start = dice.next(1000);
        let end = start + 1 + dice.next(499);
        if src != dst {
            g.add_edge(ThreadId(src as i64), ThreadId(dst as i64), TimeWindow::new(start, end));
        }
    }
    g
}

#[test]
fn all_invariants_hold() {
    let mut dice = Dice(1);
    for _ in 0..300 {
        let g = draw_graph(&mut dice);
        let result = cascade_engine(&g, None).unwrap();
        assert!(invariants_ok(&g, &result));
        assert!(check_non_amplification(&result));
        assert!(check_non_negativity(&result));
        assert!(check_termination(&g, &result));
        assert!(check_locality(&g, &result));
    }
}

#[test]
fn idempotency_holds() {
    let mut dice = Dice(2);
    for _ in 0..100 {
        let g = draw_graph(&mut dice);
        assert!(check_idempotency(&g, 10));
    }
}

#[test]
fn condensation_is_acyclic() {
    let mut dice = Dice(3);
    for _ in 0..300 {
        let g = draw_graph(&mut dice);
        let result = cascade_engine(&g, None).unwrap();
        let mut cdag = build_condensation(&result);
        apply_max_heuristic(&mut cdag, &result);
        // A path visits a component at most once.
        let path = critical_path_dp(&cdag).unwrap();
        assert!(path.chain.len() <= cdag.node_count());
        let weights: u64 = path.chain.iter().map(|n| n.weight).sum();
        assert!(weights <= path.total_weight);
        // Knots are components that nothing leaves.
        for knot in detect_knots(&cdag, &result) {
            assert_eq!(cdag.out_degree(knot.dag_index), 0);
        }
    }
}

#[test]
fn every_thread_is_in_one_component() {
    let mut dice = Dice(4);
    for _ in 0..200 {
        let g = draw_graph(&mut dice);
        let mut tids: Vec<i64> = Vec::new();
        for scc in find_sccs(&g) {
            assert!(scc.members.windows(2).all(|w| w[0].0 < w[1].0));
            tids.extend(scc.members.iter().map(|t| t.0));
        }
        tids.sort();
        let all: Vec<i64> = (0..g.node_count() as i64).collect();
        assert_eq!(tids, all);
    }
}

#[test]
fn partitions_are_ordered_and_maximal() {
    let mut dice = Dice(5);
    for _ in 0..200 {
        let g = draw_graph(&mut dice);
        let window = TimeWindow::new(200, 900);
        let slices = sweep_line_partition(&g, ThreadId(0), &window);
        for s in &slices {
            assert!(s.window.start_ms < s.window.end_ms);
            assert!(200 <= s.window.start_ms && s.window.end_ms <= 900);
            assert!(!s.targets.is_empty());
        }
        for pair in slices.windows(2) {
            assert!(pair[0].window.end_ms <= pair[1].window.start_ms);
        }
    }
}

fn io_event(ts: u64, tid: u32, dev: u32, sector: u64, kind: EventType) -> WperfEvent {
    WperfEvent {
        timestamp_ns: ts,
        pid: tid,
        tid,
        prev_tid: (sector & 0xFFFF_FFFF) as u32,
        next_tid: (sector >> 32) as u32,
        prev_pid: dev,
        next_pid: 8,
        cpu: 0,
        event_type: kind.to_u8(),
        prev_state: 0,
        flags: 0,
    }
}

fn draw_requests(dice: &mut Dice) -> Vec<WperfEvent> {
    let mut events: Vec<WperfEvent> = Vec::new();
    let mut seen: Vec<(u32, u64)> = Vec::new();
    for _ in 0..1 + dice.next(50) {
        let tid = 1 + dice.next(8) as u32;
        let dev = 0x800_0001 + dice.next(8) as u32;
        let sector = dice.next(0x10000);
        let issued = dice.next(10_000_000);
        let delta = 1_000 + dice.next(5_000_000);
        let paired = dice.next(2) == 0;
        if seen.contains(&(dev, sector)) {
            continue;
        }
        seen.push((dev, sector));
        events.push(io_event(issued, tid, dev, sector, EventType::IoIssue));
        if paired {
            events.push(io_event(issued + delta, tid, dev, sector, EventType::IoComplete));
        }
    }
    events.sort_by_key(|e| e.timestamp_ns);
    events
}

#[test]
fn io_synthetic_edges_preserve_invariants_ok() {
    let mut dice = Dice(6);
    for _ in 0..200 {
        let (graph, stats) = correlate_events(&draw_requests(&mut dice), 0);
        assert_eq!(stats.edges_created, graph.edge_count() as u64);
        let result = cascade_engine(&graph, None).unwrap();
        assert!(invariants_ok(&graph, &result));
        assert!(check_non_amplification(&result));
        assert!(check_non_negativity(&result));
        assert!(check_termination(&graph, &result));
        assert!(check_locality(&graph, &result));
    }
}

#[test]
fn io_synthetic_edges_idempotent() {
    let mut dice = Dice(7);
    for _ in 0..100 {
        let (graph, _) = correlate_events(&draw_requests(&mut dice), 0);
        assert!(check_idempotency(&graph, 3));
    }
}
