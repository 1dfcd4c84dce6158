//! Event correlation: from scheduling and block-I/O events to wait edges.
//!
//! A wait is seen in three events: a switch takes a thread off its CPU, a
//! wakeup names the thread that wakes it, and a switch puts it back on a CPU.
//! A block request is seen in two: its issue and its completion.
//!
//! Of several wakeups of a sleeping thread the last one counts. A thread that
//! sleeps again almost at once after it was woken was woken in vain, and the
//! wait before is dropped.

use std::collections::BTreeMap;

use vstd::prelude::*;

pub mod laws;

use crate::cascade::engine::waits_fill_windows;
use crate::format::event::{futex_op, EventType, WperfEvent};
use crate::graph::types::{
    fresh_weight, EdgeKind, NodeKind, NodeWeight, ThreadId, TimeWindow, WaitType, DISK_TID,
};
use crate::graph::wfg::{GraphView, WaitEdge, WaitForGraph};
use crate::sorting::{
    insert_ranked, lemma_insert_ranked, lemma_sorted_unique, sort_dedup, sorted,
};

verus! {

broadcast use vstd::std_specs::btree::group_btree_axioms;

/// The state of a thread that was preempted and still wants to run.
pub const TASK_RUNNING: u8 = 0;

/// The longest time between a futex call and the switch it explains: 1 ms.
pub const FUTEX_CORRELATION_WINDOW_NS: u64 = 1_000_000;

/// A thread that runs for less than this after a wakeup was woken in vain: 50 us.
pub const DEFAULT_SPURIOUS_THRESHOLD_NS: u64 = 50_000;

/// Nanoseconds in a millisecond.
pub const NS_PER_MS: u64 = 1_000_000;

/// A thread that is off its CPU.
#[derive(Debug, Clone, Copy)]
pub struct OffCpuRecord {
    pub switch_out_ns: u64,
    /// Who woke it last, if anyone did.
    pub waker_tid: Option<u32>,
    /// The futex wait that led to the switch, if one did.
    pub wait_type: Option<WaitType>,
}

/// A futex call of a thread that is still on its CPU.
#[derive(Debug, Clone, Copy)]
pub struct PendingFutex {
    pub timestamp_ns: u64,
    pub wait_type: WaitType,
}

/// A wait that is over but may yet turn out to have ended in vain.
#[derive(Debug, Clone, Copy)]
pub struct PendingEdge {
    pub switch_in_ns: u64,
    pub src: ThreadId,
    pub dst: ThreadId,
    pub window: TimeWindow,
    pub wait_type: Option<WaitType>,
}

/// A block request that is not yet complete.
#[derive(Debug, Clone, Copy)]
pub struct PendingIo {
    pub issue_ns: u64,
    pub tid: u32,
}

/// Counters of a correlation pass.
#[derive(Debug, Clone, Copy, PartialEq, Eq, Structural)]
pub struct CorrelationStats {
    /// Events processed.
    pub events_processed: u64,
    /// Edges created in the graph.
    pub edges_created: u64,
    /// Wakeups of threads that were not known to sleep.
    pub unmatched_wakeup_count: u64,
    /// Switches to threads that were not known to sleep.
    pub unmatched_switch_in_count: u64,
    /// Switches to sleeping threads that nobody was seen to wake.
    pub switch_in_without_waker_count: u64,
    /// Waits dropped because the thread was woken in vain.
    pub false_wakeup_filtered_count: u64,
    /// Completions of block requests whose issue was not seen.
    pub io_orphan_complete_count: u64,
    /// Block requests still pending at the end.
    pub io_pending_at_end_count: u64,
    /// Issues that replaced a pending request on the same sectors.
    pub io_userspace_pair_collision_count: u64,
}

impl Default for CorrelationStats {
    fn default() -> (s: Self)
        ensures
            s@ == no_events(),
    {
        CorrelationStats {
            events_processed: 0,
            edges_created: 0,
            unmatched_wakeup_count: 0,
            unmatched_switch_in_count: 0,
            switch_in_without_waker_count: 0,
            false_wakeup_filtered_count: 0,
            io_orphan_complete_count: 0,
            io_pending_at_end_count: 0,
            io_userspace_pair_collision_count: 0,
        }
    }
}

// ---------------------------------------------------------------------------
// The mathematical model
// ---------------------------------------------------------------------------

/// The counters as numbers without bound.
pub struct StatsView {
    pub events_processed: nat,
    pub edges_created: nat,
    pub unmatched_wakeup_count: nat,
    pub unmatched_switch_in_count: nat,
    pub switch_in_without_waker_count: nat,
    pub false_wakeup_filtered_count: nat,
    pub io_orphan_complete_count: nat,
    pub io_pending_at_end_count: nat,
    pub io_userspace_pair_collision_count: nat,
}

impl View for CorrelationStats {
    type V = StatsView;

    open spec fn view(&self) -> StatsView {
        StatsView {
            events_processed: self.events_processed as nat,
            edges_created: self.edges_created as nat,
            unmatched_wakeup_count: self.unmatched_wakeup_count as nat,
            unmatched_switch_in_count: self.unmatched_switch_in_count as nat,
            switch_in_without_waker_count: self.switch_in_without_waker_count as nat,
            false_wakeup_filtered_count: self.false_wakeup_filtered_count as nat,
            io_orphan_complete_count: self.io_orphan_complete_count as nat,
            io_pending_at_end_count: self.io_pending_at_end_count as nat,
            io_userspace_pair_collision_count: self.io_userspace_pair_collision_count as nat,
        }
    }
}

/// The counters before the first event.
pub open spec fn no_events() -> StatsView {
    StatsView {
        events_processed: 0,
        edges_created: 0,
        unmatched_wakeup_count: 0,
        unmatched_switch_in_count: 0,
        switch_in_without_waker_count: 0,
        false_wakeup_filtered_count: 0,
        io_orphan_complete_count: 0,
        io_pending_at_end_count: 0,
        io_userspace_pair_collision_count: 0,
    }
}

/// What is known after some events.
#[verifier::ext_equal]
pub struct CorrelationState {
    pub graph: GraphView,
    pub stats: StatsView,
    /// Sleeping threads.
    pub off_cpu: Map<u32, OffCpuRecord>,
    /// Futex calls of running threads.
    pub pending_futex: Map<u32, PendingFutex>,
    /// Waits of running threads that may have ended in vain.
    pub pending_edges: Map<u32, PendingEdge>,
    /// Block requests, by [`io_key`].
    pub pending_io: Map<u128, PendingIo>,
}

/// A graph without nodes and edges.
pub open spec fn empty_graph() -> GraphView {
    GraphView { nodes: Seq::empty(), edges: Seq::empty() }
}

/// The state before the first event.
pub open spec fn start_state() -> CorrelationState {
    CorrelationState {
        graph: empty_graph(),
        stats: no_events(),
        off_cpu: Map::empty(),
        pending_futex: Map::empty(),
        pending_edges: Map::empty(),
        pending_io: Map::empty(),
    }
}

/// The time from `a` to `b`, zero if `b` comes first.
pub open spec fn elapsed(a: u64, b: u64) -> int {
    if b >= a {
        b - a
    } else {
        0
    }
}

/// The window from `from_ns` to `to_ns`, in milliseconds: its start and its
/// length are each rounded down.
pub open spec fn ms_window(from_ns: u64, to_ns: u64) -> TimeWindow {
    TimeWindow {
        start_ms: (from_ns / NS_PER_MS) as u64,
        end_ms: (from_ns / NS_PER_MS + elapsed(from_ns, to_ns) / NS_PER_MS as int) as u64,
    }
}

/// The wait that a futex operation stands for.
pub open spec fn futex_wait_type(op: u32) -> WaitType {
    if op == futex_op::FUTEX_WAIT {
        WaitType::FutexWait
    } else if op == futex_op::FUTEX_LOCK_PI {
        WaitType::FutexLockPi
    } else if op == futex_op::FUTEX_WAIT_BITSET {
        WaitType::FutexWaitBitset
    } else if op == futex_op::FUTEX_WAIT_REQUEUE_PI {
        WaitType::FutexWaitRequeuePi
    } else {
        WaitType::Unknown
    }
}

/// A number that stands for the device, the sector and the sector count of a
/// block request.
pub open spec fn io_key(dev: u32, sector: nat, nr_sector: u32) -> u128 {
    (dev as nat * 0x1_0000_0000_0000_0000_0000_0000 + sector * 0x1_0000_0000
        + nr_sector as nat) as u128
}

/// The key of a block event.
pub open spec fn event_io_key(e: WperfEvent) -> u128 {
    io_key(e.prev_pid, e.wide_field(), e.next_pid)
}

/// The graph with a thread added, unless it is there already.
pub open spec fn with_node(g: GraphView, tid: ThreadId, kind: NodeKind) -> GraphView {
    if g.has(tid) {
        g
    } else {
        GraphView { nodes: g.nodes.push(NodeWeight { tid, kind }), edges: g.edges }
    }
}

/// The graph with a wait added.
pub open spec fn with_wait(
    g: GraphView,
    src: ThreadId,
    dst: ThreadId,
    window: TimeWindow,
    wait_type: Option<WaitType>,
    kind: EdgeKind,
) -> GraphView {
    GraphView {
        nodes: g.nodes,
        edges: g.edges.push(
            WaitEdge { src, dst, weight: fresh_weight(window, wait_type, kind) },
        ),
    }
}

/// The state after a wait is taken into the graph.
pub open spec fn commit(s: CorrelationState, pe: PendingEdge) -> CorrelationState {
    let g = with_node(
        with_node(s.graph, pe.src, NodeKind::UserThread),
        pe.dst,
        NodeKind::UserThread,
    );
    CorrelationState {
        graph: with_wait(g, pe.src, pe.dst, pe.window, pe.wait_type, EdgeKind::Normal),
        stats: StatsView { edges_created: s.stats.edges_created + 1, ..s.stats },
        ..s
    }
}

/// A thread leaves its CPU: was it woken in vain before?
pub open spec fn resolve(s: CorrelationState, e: WperfEvent, threshold: u64) -> CorrelationState {
    if e.prev_tid != 0 && s.pending_edges.contains_key(e.prev_tid) {
        let pe = s.pending_edges[e.prev_tid];
        let rest = CorrelationState {
            pending_edges: s.pending_edges.remove(e.prev_tid),
            ..s
        };
        if e.prev_state != TASK_RUNNING && elapsed(pe.switch_in_ns, e.timestamp_ns) < threshold {
            CorrelationState {
                stats: StatsView {
                    false_wakeup_filtered_count: rest.stats.false_wakeup_filtered_count + 1,
                    ..rest.stats
                },
                ..rest
            }
        } else {
            commit(rest, pe)
        }
    } else {
        s
    }
}

/// A thread leaves its CPU: it sleeps unless it was preempted.
pub open spec fn switch_out(s: CorrelationState, e: WperfEvent) -> CorrelationState {
    if e.prev_state != TASK_RUNNING && e.prev_tid != 0 {
        let wait_type = if s.pending_futex.contains_key(e.prev_tid) && elapsed(
            s.pending_futex[e.prev_tid].timestamp_ns,
            e.timestamp_ns,
        ) <= FUTEX_CORRELATION_WINDOW_NS {
            Some(s.pending_futex[e.prev_tid].wait_type)
        } else {
            None
        };
        CorrelationState {
            pending_futex: s.pending_futex.remove(e.prev_tid),
            off_cpu: s.off_cpu.insert(
                e.prev_tid,
                OffCpuRecord { switch_out_ns: e.timestamp_ns, waker_tid: None, wait_type },
            ),
            ..s
        }
    } else {
        s
    }
}

/// A thread gets a CPU: its wait is over.
pub open spec fn switch_in(s: CorrelationState, e: WperfEvent) -> CorrelationState {
    if e.next_tid == 0 {
        s
    } else if s.off_cpu.contains_key(e.next_tid) {
        let record = s.off_cpu[e.next_tid];
        let rest = CorrelationState { off_cpu: s.off_cpu.remove(e.next_tid), ..s };
        match record.waker_tid {
            Some(waker) => CorrelationState {
                pending_edges: rest.pending_edges.insert(
                    e.next_tid,
                    PendingEdge {
                        switch_in_ns: e.timestamp_ns,
                        src: ThreadId(e.next_tid as i64),
                        dst: ThreadId(waker as i64),
                        window: ms_window(record.switch_out_ns, e.timestamp_ns),
                        wait_type: record.wait_type,
                    },
                ),
                ..rest
            },
            None => CorrelationState {
                stats: StatsView {
                    switch_in_without_waker_count: rest.stats.switch_in_without_waker_count + 1,
                    ..rest.stats
                },
                ..rest
            },
        }
    } else {
        CorrelationState {
            stats: StatsView {
                unmatched_switch_in_count: s.stats.unmatched_switch_in_count + 1,
                ..s.stats
            },
            ..s
        }
    }
}

/// A thread wakes another. The idle thread does not count.
pub open spec fn wake(s: CorrelationState, e: WperfEvent) -> CorrelationState {
    if e.prev_tid == 0 {
        s
    } else if s.off_cpu.contains_key(e.next_tid) {
        CorrelationState {
            off_cpu: s.off_cpu.insert(
                e.next_tid,
                OffCpuRecord { waker_tid: Some(e.prev_tid), ..s.off_cpu[e.next_tid] },
            ),
            ..s
        }
    } else {
        CorrelationState {
            stats: StatsView {
                unmatched_wakeup_count: s.stats.unmatched_wakeup_count + 1,
                ..s.stats
            },
            ..s
        }
    }
}

/// A thread ends: its last wait counts, the rest is forgotten.
pub open spec fn exit(s: CorrelationState, e: WperfEvent) -> CorrelationState {
    let done = if s.pending_edges.contains_key(e.tid) {
        commit(
            CorrelationState { pending_edges: s.pending_edges.remove(e.tid), ..s },
            s.pending_edges[e.tid],
        )
    } else {
        s
    };
    CorrelationState {
        off_cpu: done.off_cpu.remove(e.tid),
        pending_futex: done.pending_futex.remove(e.tid),
        ..done
    }
}

/// A thread calls into a futex wait.
pub open spec fn futex(s: CorrelationState, e: WperfEvent) -> CorrelationState {
    CorrelationState {
        pending_futex: s.pending_futex.insert(
            e.tid,
            PendingFutex { timestamp_ns: e.timestamp_ns, wait_type: futex_wait_type(e.flags) },
        ),
        ..s
    }
}

/// A block request is issued. It replaces a pending one on the same sectors.
pub open spec fn io_issue(s: CorrelationState, e: WperfEvent) -> CorrelationState {
    let key = event_io_key(e);
    let collision: nat = if s.pending_io.contains_key(key) {
        1
    } else {
        0
    };
    CorrelationState {
        pending_io: s.pending_io.insert(key, PendingIo { issue_ns: e.timestamp_ns, tid: e.tid }),
        stats: StatsView {
            io_userspace_pair_collision_count: s.stats.io_userspace_pair_collision_count
                + collision,
            ..s.stats
        },
        ..s
    }
}

/// A block request completes: the thread that issued it waited for the disk, and
/// an edge that carries no wait closes the way back.
pub open spec fn io_complete(s: CorrelationState, e: WperfEvent) -> CorrelationState {
    let key = event_io_key(e);
    if s.pending_io.contains_key(key) {
        let io = s.pending_io[key];
        let user = ThreadId(io.tid as i64);
        let disk = ThreadId(DISK_TID);
        let window = ms_window(io.issue_ns, e.timestamp_ns);
        let g = with_node(
            with_node(s.graph, user, NodeKind::UserThread),
            disk,
            NodeKind::PseudoDisk,
        );
        let there = with_wait(g, user, disk, window, Some(WaitType::IoBlock), EdgeKind::Normal);
        CorrelationState {
            pending_io: s.pending_io.remove(key),
            graph: with_wait(
                there,
                disk,
                user,
                window,
                Some(WaitType::IoBlock),
                EdgeKind::SyntheticClosureReturn,
            ),
            stats: StatsView { edges_created: s.stats.edges_created + 2, ..s.stats },
            ..s
        }
    } else {
        CorrelationState {
            stats: StatsView {
                io_orphan_complete_count: s.stats.io_orphan_complete_count + 1,
                ..s.stats
            },
            ..s
        }
    }
}

/// The state after one more event.
pub open spec fn step(s: CorrelationState, e: WperfEvent, threshold: u64) -> CorrelationState {
    let s = CorrelationState {
        stats: StatsView { events_processed: s.stats.events_processed + 1, ..s.stats },
        ..s
    };
    match EventType::of_code(e.event_type) {
        Some(EventType::Switch) => switch_in(switch_out(resolve(s, e, threshold), e), e),
        Some(EventType::Wakeup) => wake(s, e),
        Some(EventType::WakeupNew) => wake(s, e),
        Some(EventType::Exit) => exit(s, e),
        Some(EventType::FutexWait) => futex(s, e),
        Some(EventType::IoIssue) => io_issue(s, e),
        Some(EventType::IoComplete) => io_complete(s, e),
        None => s,
    }
}

/// The state after the first `n` events.
pub open spec fn state_after(events: Seq<WperfEvent>, n: int, threshold: u64) -> CorrelationState
    decreases n,
{
    if n <= 0 {
        start_state()
    } else {
        step(state_after(events, n - 1, threshold), events[n - 1], threshold)
    }
}

/// `keys` lists the threads with a pending wait, ascending.
pub open spec fn lists_pending(s: CorrelationState, keys: Seq<u32>) -> bool {
    &&& sorted(keys)
    &&& keys.no_duplicates()
    &&& forall|k: u32| #[trigger] keys.contains(k) <==> s.pending_edges.contains_key(k)
}

/// The threads with a pending wait, ascending.
pub open spec fn pending_threads(s: CorrelationState) -> Seq<u32> {
    choose|keys: Seq<u32>| lists_pending(s, keys)
}

/// The state after the waits of the first `n` threads are taken into the graph.
pub open spec fn flushed(s: CorrelationState, keys: Seq<u32>, n: int) -> CorrelationState
    decreases n,
{
    if n <= 0 {
        s
    } else {
        commit(flushed(s, keys, n - 1), s.pending_edges[keys[n - 1]])
    }
}

/// The graph and the counters at the end: the waits that are still pending
/// count, thread by thread in ascending order.
pub open spec fn correlated(events: Seq<WperfEvent>, threshold: u64) -> (GraphView, StatsView) {
    let s = state_after(events, events.len() as int, threshold);
    let keys = pending_threads(s);
    let end = flushed(s, keys, keys.len() as int);
    (
        end.graph,
        StatsView { io_pending_at_end_count: s.pending_io.len(), ..end.stats },
    )
}

/// The events come in order of time.
pub open spec fn time_ordered(events: Seq<WperfEvent>) -> bool {
    forall|i: int, j: int|
        0 <= i < j < events.len() ==> (#[trigger] events[i]).timestamp_ns <= (
        #[trigger] events[j]).timestamp_ns
}

/// The graph is not too large to number its nodes and edges.
pub open spec fn graph_fits(g: GraphView) -> bool {
    g.nodes.len() <= u32::MAX && g.edges.len() <= u32::MAX
}

// ---------------------------------------------------------------------------
// The correlator
// ---------------------------------------------------------------------------

/// The state of a correlation pass.
struct Correlator {
    graph: WaitForGraph,
    stats: CorrelationStats,
    off_cpu: BTreeMap<u32, OffCpuRecord>,
    pending_futex: BTreeMap<u32, PendingFutex>,
    pending_edges: BTreeMap<u32, PendingEdge>,
    pending_io: BTreeMap<u128, PendingIo>,
}

impl View for Correlator {
    type V = CorrelationState;

    closed spec fn view(&self) -> CorrelationState {
        CorrelationState {
            graph: self.graph@,
            stats: self.stats@,
            off_cpu: self.off_cpu@,
            pending_futex: self.pending_futex@,
            pending_edges: self.pending_edges@,
            pending_io: self.pending_io@,
        }
    }
}

/// The wait that a futex operation stands for.
fn futex_op_to_wait_type(op: u32) -> (t: WaitType)
    ensures
        t == futex_wait_type(op),
{
    if op == futex_op::FUTEX_WAIT {
        WaitType::FutexWait
    } else if op == futex_op::FUTEX_LOCK_PI {
        WaitType::FutexLockPi
    } else if op == futex_op::FUTEX_WAIT_BITSET {
        WaitType::FutexWaitBitset
    } else if op == futex_op::FUTEX_WAIT_REQUEUE_PI {
        WaitType::FutexWaitRequeuePi
    } else {
        WaitType::Unknown
    }
}

/// The window from `from_ns` to `to_ns`, in milliseconds.
fn window_between(from_ns: u64, to_ns: u64) -> (w: TimeWindow)
    ensures
        w == ms_window(from_ns, to_ns),
        w.valid(),
{
    let start_ms: u64 = from_ns / NS_PER_MS;
    let length_ms: u64 = to_ns.saturating_sub(from_ns) / NS_PER_MS;
    TimeWindow::new(start_ms, start_ms + length_ms)
}

/// The number that stands for the sectors of a block event.
fn key_of(e: &WperfEvent) -> (key: u128)
    ensures
        key == event_io_key(*e),
{
    e.io_dev() as u128 * 0x1_0000_0000_0000_0000_0000_0000 + e.io_sector() as u128 * 0x1_0000_0000
        + e.io_nr_sector() as u128
}

impl Correlator {
    /// Adding one to any counter does not overflow, and pending windows are valid.
    closed spec fn ready(&self) -> bool {
        &&& self.graph.wf()
        &&& counters_below(self.stats@, u64::MAX as nat)
        &&& windows_known(self@)
    }

    /// Whether the graph fits with two more threads, unless they are there
    /// already, and some more edges.
    fn has_room(&self, a: ThreadId, b: ThreadId, edges: u64) -> (r: bool)
        requires
            self.graph.wf(),
            edges <= 2,
        ensures
            forall|k: NodeKind, l: NodeKind|
                r == (#[trigger] with_node(with_node(self@.graph, a, k), b, l).nodes.len()
                    <= u32::MAX && self@.graph.edges.len() + edges <= u32::MAX),
    {
        proof {
            self.graph.lemma_wf();
        }
        let mut nodes: u64 = self.graph.node_count() as u64;
        if self.graph.node_index(&a).is_none() {
            nodes = nodes + 1;
        }
        if b.0 != a.0 && self.graph.node_index(&b).is_none() {
            nodes = nodes + 1;
        }
        proof {
            let g = self@.graph;
            assert forall|k: NodeKind, l: NodeKind|
                nodes == #[trigger] with_node(with_node(g, a, k), b, l).nodes.len() by {
                let more = with_node(g, a, k);
                lemma_with_node(g, a, k);
                if more.has(b) && b != a {
                    let i = choose|i: int|
                        0 <= i < more.nodes.len() && (#[trigger] more.nodes[i]).tid == b;
                    assert(i < g.nodes.len());
                    assert(g.nodes[i].tid == b);
                    assert(g.has(b));
                }
            }
        }
        nodes <= u32::MAX as u64 && self.graph.edge_count() as u64 + edges <= u32::MAX as u64
    }

    /// Whether the graph still fits after an event.
    fn fits_after(&self, event: &WperfEvent, spurious_threshold_ns: u64) -> (r: bool)
        requires
            self.graph.wf(),
            graph_fits(self@.graph),
        ensures
            r == graph_fits(step(self@, *event, spurious_threshold_ns).graph),
    {
        match EventType::from_u8(event.event_type) {
            Some(EventType::Switch) => {
                if event.prev_tid == 0 {
                    return true;
                }
                match self.pending_edges.get(&event.prev_tid) {
                    Some(pe) => {
                        let on_cpu_ns: u64 = event.timestamp_ns.saturating_sub(pe.switch_in_ns);
                        (event.prev_state != TASK_RUNNING && on_cpu_ns < spurious_threshold_ns)
                            || self.has_room(pe.src, pe.dst, 1)
                    },
                    None => true,
                }
            },
            Some(EventType::Exit) => match self.pending_edges.get(&event.tid) {
                Some(pe) => self.has_room(pe.src, pe.dst, 1),
                None => true,
            },
            Some(EventType::IoComplete) => match self.pending_io.get(&key_of(event)) {
                Some(io) => self.has_room(ThreadId(io.tid as i64), ThreadId(DISK_TID), 2),
                None => true,
            },
            _ => true,
        }
    }

    /// Takes a wait into the graph.
    fn add_edge_from_pending(&mut self, pe: PendingEdge)
        requires
            old(self).graph.wf(),
            pe.window.valid(),
            graph_fits(commit(old(self)@, pe).graph),
            old(self).stats.edges_created < u64::MAX,
        ensures
            final(self).graph.wf(),
            final(self)@ == commit(old(self)@, pe),
    {
        let ghost before = self@;
        let ghost target = commit(self@, pe);
        proof {
            lemma_with_node(self@.graph, pe.src, NodeKind::UserThread);
            lemma_with_node(
                with_node(self@.graph, pe.src, NodeKind::UserThread),
                pe.dst,
                NodeKind::UserThread,
            );
        }
        self.graph.add_node(pe.src, NodeKind::UserThread);
        assert(self.graph@ =~= with_node(before.graph, pe.src, NodeKind::UserThread));
        self.graph.add_node(pe.dst, NodeKind::UserThread);
        assert(self.graph@ =~= with_node(
            with_node(before.graph, pe.src, NodeKind::UserThread),
            pe.dst,
            NodeKind::UserThread,
        ));
        match pe.wait_type {
            Some(wt) => {
                self.graph.add_edge_with_wait_type(pe.src, pe.dst, pe.window, wt);
            },
            None => {
                self.graph.add_edge(pe.src, pe.dst, pe.window);
            },
        }
        self.stats.edges_created = self.stats.edges_created + 1;
        assert(self@.graph =~= target.graph);
        assert(self@ =~= target);
    }

    /// Takes the pending wait of a thread, if it has one, into the graph.
    fn commit_pending_edge(&mut self, tid: u32)
        requires
            old(self).ready(),
            graph_fits(committed_of(old(self)@, tid).graph),
        ensures
            final(self).graph.wf(),
            final(self)@ == committed_of(old(self)@, tid),
    {
        let ghost before = self@;
        match self.pending_edges.remove(&tid) {
            Some(pe) => {
                proof {
                    assert(self@.pending_edges =~= before.pending_edges.remove(tid));
                    assert(self@ =~= CorrelationState {
                        pending_edges: before.pending_edges.remove(tid),
                        ..before
                    });
                    assert(before.pending_edges[tid] == pe);
                }
                self.add_edge_from_pending(pe);
            },
            None => {
                assert(self@.pending_edges =~= before.pending_edges);
                assert(self@ =~= before);
            },
        }
    }

    /// A switch: one thread leaves a CPU, another gets it.
    fn handle_switch(&mut self, event: &WperfEvent, spurious_threshold_ns: u64)
        requires
            old(self).ready(),
            graph_fits(
                switch_in(
                    switch_out(resolve(old(self)@, *event, spurious_threshold_ns), *event),
                    *event,
                ).graph,
            ),
        ensures
            final(self).graph.wf(),
            final(self)@ == switch_in(
                switch_out(resolve(old(self)@, *event, spurious_threshold_ns), *event),
                *event,
            ),
    {
        let ghost s0 = self@;
        let ghost s1 = resolve(s0, *event, spurious_threshold_ns);
        if event.prev_tid != 0 {
            match self.pending_edges.remove(&event.prev_tid) {
                Some(pe) => {
                    proof {
                        assert(self@ =~= CorrelationState {
                            pending_edges: s0.pending_edges.remove(event.prev_tid),
                            ..s0
                        });
                    }
                    let on_cpu_ns: u64 = event.timestamp_ns.saturating_sub(pe.switch_in_ns);
                    if event.prev_state != TASK_RUNNING && on_cpu_ns < spurious_threshold_ns {
                        self.stats.false_wakeup_filtered_count = self.stats.false_wakeup_filtered_count
                            + 1;
                    } else {
                        self.add_edge_from_pending(pe);
                    }
                },
                None => {
                    assert(self@.pending_edges =~= s0.pending_edges);
                },
            }
        }
        assert(self@ =~= s1);
        let ghost s2 = switch_out(s1, *event);
        if event.prev_state != TASK_RUNNING && event.prev_tid != 0 {
            let wait_type: Option<WaitType> = match self.pending_futex.remove(&event.prev_tid) {
                Some(pf) => {
                    if event.timestamp_ns.saturating_sub(pf.timestamp_ns)
                        <= FUTEX_CORRELATION_WINDOW_NS {
                        Some(pf.wait_type)
                    } else {
                        None
                    }
                },
                None => None,
            };
            self.off_cpu.insert(
                event.prev_tid,
                OffCpuRecord { switch_out_ns: event.timestamp_ns, waker_tid: None, wait_type },
            );
            assert(self@.pending_futex =~= s1.pending_futex.remove(event.prev_tid));
        }
        assert(self@ =~= s2);
        if event.next_tid == 0 {
            return ;
        }
        match self.off_cpu.remove(&event.next_tid) {
            Some(record) => {
                assert(self@.off_cpu =~= s2.off_cpu.remove(event.next_tid));
                match record.waker_tid {
                    Some(waker_tid) => {
                        let window = window_between(record.switch_out_ns, event.timestamp_ns);
                        self.pending_edges.insert(
                            event.next_tid,
                            PendingEdge {
                                switch_in_ns: event.timestamp_ns,
                                src: ThreadId(event.next_tid as i64),
                                dst: ThreadId(waker_tid as i64),
                                window,
                                wait_type: record.wait_type,
                            },
                        );
                    },
                    None => {
                        self.stats.switch_in_without_waker_count = self.stats.switch_in_without_waker_count
                            + 1;
                    },
                }
            },
            None => {
                assert(self@.off_cpu =~= s2.off_cpu);
                self.stats.unmatched_switch_in_count = self.stats.unmatched_switch_in_count + 1;
            },
        }
        assert(self@ =~= switch_in(s2, *event));
    }

    /// A futex call: noted for the calling thread.
    fn handle_futex_wait(&mut self, event: &WperfEvent)
        ensures
            final(self)@ == futex(old(self)@, *event),
            final(self).graph == old(self).graph,
    {
        self.pending_futex.insert(
            event.tid,
            PendingFutex {
                timestamp_ns: event.timestamp_ns,
                wait_type: futex_op_to_wait_type(event.futex_op()),
            },
        );
        assert(self@ =~= futex(old(self)@, *event));
    }

    /// A wakeup: the last one of a sleeping thread counts.
    fn handle_wakeup(&mut self, event: &WperfEvent)
        requires
            old(self).stats.unmatched_wakeup_count < u64::MAX,
        ensures
            final(self)@ == wake(old(self)@, *event),
            final(self).graph == old(self).graph,
    {
        let target: u32 = event.next_tid;
        let source: u32 = event.prev_tid;
        if source == 0 {
            return ;
        }
        let found: Option<OffCpuRecord> = match self.off_cpu.get(&target) {
            Some(record) => Some(*record),
            None => None,
        };
        match found {
            Some(record) => {
                self.off_cpu.insert(
                    target,
                    OffCpuRecord {
                        switch_out_ns: record.switch_out_ns,
                        waker_tid: Some(source),
                        wait_type: record.wait_type,
                    },
                );
            },
            None => {
                self.stats.unmatched_wakeup_count = self.stats.unmatched_wakeup_count + 1;
            },
        }
        assert(self@ =~= wake(old(self)@, *event));
    }

    /// An exit: the last wait of the thread counts.
    fn handle_exit(&mut self, event: &WperfEvent)
        requires
            old(self).ready(),
            graph_fits(exit(old(self)@, *event).graph),
        ensures
            final(self).graph.wf(),
            final(self)@ == exit(old(self)@, *event),
    {
        let ghost s0 = self@;
        self.commit_pending_edge(event.tid);
        let ghost s1 = self@;
        self.off_cpu.remove(&event.tid);
        self.pending_futex.remove(&event.tid);
        proof {
            assert(self@.off_cpu =~= s1.off_cpu.remove(event.tid));
            assert(self@.pending_futex =~= s1.pending_futex.remove(event.tid));
            assert(self@ =~= exit(s0, *event));
        }
    }

    /// An issued block request: kept until it completes.
    fn handle_io_issue(&mut self, event: &WperfEvent)
        requires
            old(self).stats.io_userspace_pair_collision_count < u64::MAX,
        ensures
            final(self)@ == io_issue(old(self)@, *event),
            final(self).graph == old(self).graph,
    {
        let key: u128 = key_of(event);
        let replaced = self.pending_io.insert(
            key,
            PendingIo { issue_ns: event.timestamp_ns, tid: event.tid },
        );
        if replaced.is_some() {
            self.stats.io_userspace_pair_collision_count = self.stats.io_userspace_pair_collision_count
                + 1;
        }
        assert(self@ =~= io_issue(old(self)@, *event));
    }

    /// A completed block request: the thread that issued it waited for the disk.
    fn handle_io_complete(&mut self, event: &WperfEvent)
        requires
            old(self).ready(),
            graph_fits(io_complete(old(self)@, *event).graph),
            old(self).stats.edges_created < u64::MAX - 1,
        ensures
            final(self).graph.wf(),
            final(self)@ == io_complete(old(self)@, *event),
    {
        let ghost s0 = self@;
        let ghost target = io_complete(s0, *event);
        let key: u128 = key_of(event);
        match self.pending_io.remove(&key) {
            Some(io) => {
                let user = ThreadId(io.tid as i64);
                let disk = ThreadId(DISK_TID);
                let window = window_between(io.issue_ns, event.timestamp_ns);
                let ghost g1 = with_node(s0.graph, user, NodeKind::UserThread);
                let ghost g2 = with_node(g1, disk, NodeKind::PseudoDisk);
                proof {
                    assert(self@.pending_io =~= s0.pending_io.remove(key));
                    lemma_with_node(s0.graph, user, NodeKind::UserThread);
                    lemma_with_node(g1, disk, NodeKind::PseudoDisk);
                    assert(target.graph.nodes == g2.nodes);
                    assert(target.graph.edges.len() == s0.graph.edges.len() + 2);
                }
                self.graph.add_node(user, NodeKind::UserThread);
                assert(self.graph@ =~= g1);
                self.graph.add_node(disk, NodeKind::PseudoDisk);
                assert(self.graph@ =~= g2);
                self.graph.add_edge_with_wait_type(user, disk, window, WaitType::IoBlock);
                let ghost g3 = self.graph@;
                proof {
                    assert(g2.has(user) && g2.has(disk));
                    assert(g3.nodes == g2.nodes);
                    lemma_has_nodes(g2, g3);
                }
                self.graph.add_synthetic_closure_return(disk, user, window, WaitType::IoBlock);
                self.stats.edges_created = self.stats.edges_created + 2;
                assert(self@.graph =~= target.graph);
            },
            None => {
                assert(self@.pending_io =~= s0.pending_io);
                self.stats.io_orphan_complete_count = self.stats.io_orphan_complete_count + 1;
            },
        }
        assert(self@ =~= target);
    }
}

/// The state after the pending wait of a thread, if it has one, is committed.
pub open spec fn committed_of(s: CorrelationState, tid: u32) -> CorrelationState {
    if s.pending_edges.contains_key(tid) {
        commit(
            CorrelationState { pending_edges: s.pending_edges.remove(tid), ..s },
            s.pending_edges[tid],
        )
    } else {
        s
    }
}

/// The counters that an event may add to are below `n`.
pub open spec fn counters_below(s: StatsView, n: nat) -> bool {
    &&& s.edges_created + 1 < n
    &&& s.unmatched_wakeup_count < n
    &&& s.unmatched_switch_in_count < n
    &&& s.switch_in_without_waker_count < n
    &&& s.false_wakeup_filtered_count < n
    &&& s.io_orphan_complete_count < n
    &&& s.io_userspace_pair_collision_count < n
}

/// The windows of pending waits do not end before they start.
pub open spec fn windows_known(s: CorrelationState) -> bool {
    forall|k: u32| #[trigger]
        s.pending_edges.contains_key(k) ==> s.pending_edges[k].window.valid()
}

/// Turns events, ordered by time, into a wait-for graph.
///
/// A thread that sleeps again less than `spurious_threshold_ns` after a wakeup
/// was woken in vain, and the wait before is dropped; zero keeps every wait.
pub fn correlate_events(events: &[WperfEvent], spurious_threshold_ns: u64) -> (r: (
    WaitForGraph,
    CorrelationStats,
))
    requires
        time_ordered(events@),
        graph_fits(correlated(events@, spurious_threshold_ns).0),
    ensures
        r.0.wf(),
        (r.0@, r.1@) == correlated(events@, spurious_threshold_ns),
{
    correlate_any_events(events, spurious_threshold_ns).unwrap()
}

/// Turns events, ordered by time, into a wait-for graph, whatever its size: it is
/// `None` exactly if the graph is too large.
pub fn correlate_any_events(events: &[WperfEvent], spurious_threshold_ns: u64) -> (r: Option<
    (WaitForGraph, CorrelationStats),
>)
    requires
        time_ordered(events@),
    ensures
        r is Some <==> graph_fits(correlated(events@, spurious_threshold_ns).0),
        r matches Some((graph, stats)) ==> graph.wf() && (graph@, stats@) == correlated(
            events@,
            spurious_threshold_ns,
        ),
{
    let mut c = Correlator {
        graph: WaitForGraph::new(),
        stats: CorrelationStats::default(),
        off_cpu: BTreeMap::new(),
        pending_futex: BTreeMap::new(),
        pending_edges: BTreeMap::new(),
        pending_io: BTreeMap::new(),
    };
    let n: usize = events.len();
    let ghost end = correlated(events@, spurious_threshold_ns);
    proof {
        assert(c@ =~= start_state());
    }
    for i in 0..n
        invariant
            n == events@.len(),
            end == correlated(events@, spurious_threshold_ns),
            c.graph.wf(),
            graph_fits(c@.graph),
            c@ == state_after(events@, i as int, spurious_threshold_ns),
    {
        let event = &events[i];
        let ghost s0 = c@;
        let ghost s1 = CorrelationState {
            stats: StatsView { events_processed: s0.stats.events_processed + 1, ..s0.stats },
            ..s0
        };
        proof {
            lemma_counters(events@, i as int, spurious_threshold_ns);
        }
        if !c.fits_after(event, spurious_threshold_ns) {
            proof {
                if graph_fits(end.0) {
                    lemma_prefix_fits(events@, i + 1, spurious_threshold_ns);
                }
            }
            return None;
        }
        c.stats.events_processed = c.stats.events_processed + 1;
        proof {
            assert(c@ =~= s1);
            assert(c.ready());
        }
        match EventType::from_u8(event.event_type) {
            Some(EventType::Switch) => c.handle_switch(event, spurious_threshold_ns),
            Some(EventType::Wakeup) => c.handle_wakeup(event),
            Some(EventType::WakeupNew) => c.handle_wakeup(event),
            Some(EventType::Exit) => c.handle_exit(event),
            Some(EventType::FutexWait) => c.handle_futex_wait(event),
            Some(EventType::IoIssue) => c.handle_io_issue(event),
            Some(EventType::IoComplete) => c.handle_io_complete(event),
            None => {},
        }
    }
    let keys = pending_keys(&c.pending_edges);
    let ghost s = c@;
    proof {
        lemma_pending_threads(s, keys@);
        lemma_counters(events@, n as int, spurious_threshold_ns);
        assert(flushed(s, keys@, 0) == s);
    }
    for i in 0..keys.len()
        invariant
            n == events@.len(),
            end == correlated(events@, spurious_threshold_ns),
            s == state_after(events@, n as int, spurious_threshold_ns),
            lists_pending(s, keys@),
            keys@ == pending_threads(s),
            c.graph.wf(),
            graph_fits(c@.graph),
            c@ == flushed(s, keys@, i as int),
            c.pending_edges@ == s.pending_edges,
            windows_known(s),
    {
        let k: u32 = keys[i];
        proof {
            assert(keys@.contains(keys@[i as int]));
            lemma_flush_grows(s, keys@, i + 1, keys@.len() as int);
            lemma_counters(events@, n as int, spurious_threshold_ns);
            lemma_flush_counts(s, keys@, i as int);
        }
        let pe = *c.pending_edges.get(&k).unwrap();
        if !c.has_room(pe.src, pe.dst, 1) {
            assert(!graph_fits(commit(c@, pe).graph));
            return None;
        }
        assert(graph_fits(commit(c@, pe).graph));
        c.add_edge_from_pending(pe);
    }
    proof {
        lemma_flush_counts(s, keys@, keys@.len() as int);
        assert(c@.pending_io == s.pending_io);
    }
    c.stats.io_pending_at_end_count = c.pending_io.len() as u64;
    proof {
        assert(c.pending_io@.len() == s.pending_io.len());
        assert(c.stats@ == end.1);
    }
    Some((c.graph, c.stats))
}

/// The keys of a map, ascending.
fn pending_keys(m: &BTreeMap<u32, PendingEdge>) -> (keys: Vec<u32>)
    ensures
        sorted(keys@),
        keys@.no_duplicates(),
        forall|k: u32| #[trigger] keys@.contains(k) <==> m@.contains_key(k),
{
    let mut found: Vec<u32> = Vec::new();
    let ghost all = vstd::std_specs::iter::IteratorSpec::remaining(
        &vstd::std_specs::btree::spec_keys_iter(m),
    );
    for k in it: m.keys()
        invariant
            it.seq() == all,
            found@.len() == it.index(),
            forall|i: int| 0 <= i < found@.len() ==> #[trigger] found@[i] == *it.seq()[i],
    {
        found.push(*k);
    }
    proof {
        assert(found@ =~= all.unref());
        assert forall|k: u32| #[trigger] found@.contains(k) <==> m@.contains_key(k) by {
            assert(all.unref().to_set().contains(k) <==> m@.dom().contains(k));
        }
    }
    let keys = sort_dedup(&found);
    proof {
        assert forall|k: u32| #[trigger] keys@.contains(k) <==> m@.contains_key(k) by {
            assert(keys@.contains(k) <==> found@.contains(k));
        }
    }
    keys
}

// ---------------------------------------------------------------------------
// Lemmas
// ---------------------------------------------------------------------------

proof fn lemma_with_node(g: GraphView, tid: ThreadId, kind: NodeKind)
    ensures
        with_node(g, tid, kind).has(tid),
        with_node(g, tid, kind).nodes.len() >= g.nodes.len(),
        with_node(g, tid, kind).edges == g.edges,
        forall|t: ThreadId| g.has(t) ==> with_node(g, tid, kind).has(t),
{
    let more = with_node(g, tid, kind);
    assert forall|t: ThreadId| g.has(t) implies more.has(t) by {
        let i = choose|i: int| 0 <= i < g.nodes.len() && (#[trigger] g.nodes[i]).tid == t;
        assert(more.nodes[i] == g.nodes[i]);
    }
    if !g.has(tid) {
        assert(more.nodes[g.nodes.len() as int].tid == tid);
    }
}

proof fn lemma_has_nodes(a: GraphView, b: GraphView)
    requires
        a.nodes == b.nodes,
    ensures
        forall|t: ThreadId| a.has(t) <==> b.has(t),
{
}

/// The state with one more event counted.
spec fn counted(s: CorrelationState) -> CorrelationState {
    CorrelationState {
        stats: StatsView { events_processed: s.stats.events_processed + 1, ..s.stats },
        ..s
    }
}

/// Counters are bounded by the number of events, edges are counted exactly, and
/// pending windows are valid.
spec fn consistent(s: CorrelationState, n: nat) -> bool {
    &&& s.stats.events_processed == n
    &&& s.stats.edges_created == s.graph.edges.len()
    &&& s.stats.unmatched_wakeup_count <= n
    &&& s.stats.unmatched_switch_in_count <= n
    &&& s.stats.switch_in_without_waker_count <= n
    &&& s.stats.false_wakeup_filtered_count <= n
    &&& s.stats.io_orphan_complete_count <= n
    &&& s.stats.io_userspace_pair_collision_count <= n
    &&& windows_known(s)
}

proof fn lemma_window_valid(from_ns: u64, to_ns: u64)
    ensures
        ms_window(from_ns, to_ns).valid(),
{
}

proof fn lemma_step_consistent(s: CorrelationState, e: WperfEvent, threshold: u64, n: nat)
    requires
        consistent(s, n),
    ensures
        consistent(step(s, e, threshold), n + 1),
        step(s, e, threshold).graph.nodes.len() >= s.graph.nodes.len(),
        step(s, e, threshold).graph.edges.len() >= s.graph.edges.len(),
{
    let s1 = counted(s);
    match EventType::of_code(e.event_type) {
        Some(EventType::Switch) => {
            let s2 = resolve(s1, e, threshold);
            let s3 = switch_out(s2, e);
            assert(windows_known(s2));
            if s3.off_cpu.contains_key(e.next_tid) {
                lemma_window_valid(s3.off_cpu[e.next_tid].switch_out_ns, e.timestamp_ns);
            }
        },
        _ => {},
    }
}

/// After `n` events the counters are what they should be.
proof fn lemma_counters(events: Seq<WperfEvent>, n: int, threshold: u64)
    requires
        0 <= n <= events.len(),
    ensures
        consistent(state_after(events, n, threshold), n as nat),
    decreases n,
{
    if n > 0 {
        lemma_counters(events, n - 1, threshold);
        lemma_step_consistent(
            state_after(events, n - 1, threshold),
            events[n - 1],
            threshold,
            (n - 1) as nat,
        );
    }
}

/// The graph only grows with further events.
proof fn lemma_graph_grows(events: Seq<WperfEvent>, n: int, m: int, threshold: u64)
    requires
        0 <= n <= m <= events.len(),
    ensures
        state_after(events, n, threshold).graph.nodes.len() <= state_after(
            events,
            m,
            threshold,
        ).graph.nodes.len(),
        state_after(events, n, threshold).graph.edges.len() <= state_after(
            events,
            m,
            threshold,
        ).graph.edges.len(),
    decreases m,
{
    if n < m {
        lemma_graph_grows(events, n, m - 1, threshold);
        lemma_counters(events, m - 1, threshold);
        lemma_step_consistent(
            state_after(events, m - 1, threshold),
            events[m - 1],
            threshold,
            (m - 1) as nat,
        );
    }
}

/// The graph only grows while pending waits are taken in.
proof fn lemma_flush_grows(s: CorrelationState, keys: Seq<u32>, n: int, m: int)
    requires
        0 <= n <= m <= keys.len(),
    ensures
        flushed(s, keys, n).graph.nodes.len() <= flushed(s, keys, m).graph.nodes.len(),
        flushed(s, keys, n).graph.edges.len() <= flushed(s, keys, m).graph.edges.len(),
    decreases m,
{
    if n < m {
        lemma_flush_grows(s, keys, n, m - 1);
    }
}

proof fn lemma_flush_counts(s: CorrelationState, keys: Seq<u32>, n: int)
    requires
        0 <= n <= keys.len(),
    ensures
        flushed(s, keys, n).stats == (StatsView {
            edges_created: s.stats.edges_created + n as nat,
            ..s.stats
        }),
        flushed(s, keys, n).graph.edges.len() == s.graph.edges.len() + n,
        flushed(s, keys, n).pending_edges == s.pending_edges,
        flushed(s, keys, n).pending_io == s.pending_io,
    decreases n,
{
    if n > 0 {
        lemma_flush_counts(s, keys, n - 1);
    }
}

/// If the whole graph fits, so does the graph after some of the events.
proof fn lemma_prefix_fits(events: Seq<WperfEvent>, n: int, threshold: u64)
    requires
        0 <= n <= events.len(),
        graph_fits(correlated(events, threshold).0),
    ensures
        graph_fits(state_after(events, n, threshold).graph),
{
    let s = state_after(events, events.len() as int, threshold);
    let keys = pending_threads(s);
    lemma_graph_grows(events, n, events.len() as int, threshold);
    lemma_flush_grows(s, keys, 0, keys.len() as int);
}

/// An ascending list of the threads with a pending wait is the only one.
proof fn lemma_pending_threads(s: CorrelationState, keys: Seq<u32>)
    requires
        lists_pending(s, keys),
    ensures
        keys == pending_threads(s),
{
    let other = pending_threads(s);
    assert(lists_pending(s, other));
    assert forall|k: u32| keys.contains(k) <==> other.contains(k) by {
        assert(keys.contains(k) <==> s.pending_edges.contains_key(k));
        assert(other.contains(k) <==> s.pending_edges.contains_key(k));
    }
    lemma_sorted_unique(keys, other);
}

// ---------------------------------------------------------------------------
// Laws
// ---------------------------------------------------------------------------

/// Every edge is a fresh wait: its window does not end before it starts, and
/// the raw wait fills it and is attributed in full.
pub open spec fn all_fresh(edges: Seq<WaitEdge>) -> bool {
    forall|e: int|
        0 <= e < edges.len() ==> (#[trigger] edges[e]).weight.time_window.valid()
            && edges[e].weight.raw_wait_ms == edges[e].weight.time_window.span()
            && edges[e].weight.attributed_delay_ms == edges[e].weight.raw_wait_ms
}

/// What the size of the graph has to do with the number of events.
spec fn sized(s: CorrelationState, n: nat) -> bool {
    &&& s.pending_edges.dom().finite()
    &&& s.graph.edges.len() + s.pending_edges.dom().len() <= 2 * n
    &&& s.graph.nodes.len() + 2 * s.pending_edges.dom().len() <= 2 * n
    &&& all_fresh(s.graph.edges)
}

proof fn lemma_commit_sized(s: CorrelationState, pe: PendingEdge)
    requires
        pe.window.valid(),
        all_fresh(s.graph.edges),
    ensures
        all_fresh(commit(s, pe).graph.edges),
        commit(s, pe).graph.nodes.len() <= s.graph.nodes.len() + 2,
        commit(s, pe).graph.edges.len() == s.graph.edges.len() + 1,
{
}

proof fn lemma_step_sized(s: CorrelationState, e: WperfEvent, threshold: u64, n: nat)
    requires
        consistent(s, n),
        sized(s, n),
    ensures
        sized(step(s, e, threshold), n + 1),
{
    let s1 = counted(s);
    match EventType::of_code(e.event_type) {
        Some(EventType::Switch) => {
            let s2 = resolve(s1, e, threshold);
            if e.prev_tid != 0 && s1.pending_edges.contains_key(e.prev_tid) {
                let rest = CorrelationState {
                    pending_edges: s1.pending_edges.remove(e.prev_tid),
                    ..s1
                };
                lemma_commit_sized(rest, s1.pending_edges[e.prev_tid]);
                assert(rest.pending_edges.dom() =~= s1.pending_edges.dom().remove(e.prev_tid));
            }
            assert(sized(s2, n));
            let s3 = switch_out(s2, e);
            let s4 = switch_in(s3, e);
            if s3.pending_edges.contains_key(e.next_tid) {
                assert(s3.pending_edges.dom().insert(e.next_tid) =~= s3.pending_edges.dom());
            }
        },
        Some(EventType::Exit) => {
            if s1.pending_edges.contains_key(e.tid) {
                let rest = CorrelationState {
                    pending_edges: s1.pending_edges.remove(e.tid),
                    ..s1
                };
                lemma_commit_sized(rest, s1.pending_edges[e.tid]);
                assert(rest.pending_edges.dom() =~= s1.pending_edges.dom().remove(e.tid));
            }
        },
        Some(EventType::IoComplete) => {
            if s1.pending_io.contains_key(event_io_key(e)) {
                lemma_window_valid(s1.pending_io[event_io_key(e)].issue_ns, e.timestamp_ns);
            }
        },
        _ => {},
    }
}

proof fn lemma_sized(events: Seq<WperfEvent>, n: int, threshold: u64)
    requires
        0 <= n <= events.len(),
    ensures
        consistent(state_after(events, n, threshold), n as nat),
        sized(state_after(events, n, threshold), n as nat),
    decreases n,
{
    lemma_counters(events, n, threshold);
    if n > 0 {
        lemma_sized(events, n - 1, threshold);
        lemma_step_sized(
            state_after(events, n - 1, threshold),
            events[n - 1],
            threshold,
            (n - 1) as nat,
        );
    } else {
        assert(start_state().pending_edges.dom() =~= Set::empty());
    }
}

/// A finite set of numbers can be listed in ascending order.
proof fn lemma_list_exists(dom: Set<u32>) -> (keys: Seq<u32>)
    requires
        dom.finite(),
    ensures
        sorted(keys),
        keys.no_duplicates(),
        forall|k: u32| #[trigger] keys.contains(k) <==> dom.contains(k),
        keys.len() == dom.len(),
    decreases dom.len(),
{
    if dom.len() == 0 {
        let keys = Seq::<u32>::empty();
        assert(dom =~= Set::empty());
        keys
    } else {
        let x = dom.choose();
        assert(dom.contains(x));
        let rest = lemma_list_exists(dom.remove(x));
        lemma_insert_ranked(rest, x);
        let keys = insert_ranked(rest, x);
        assert forall|k: u32| #[trigger] keys.contains(k) <==> dom.contains(k) by {
            assert(insert_ranked(rest, x).contains(k) <==> rest.contains(k) || k == x);
            assert(rest.contains(k) <==> dom.remove(x).contains(k));
        }
        keys.unique_seq_to_set();
        assert(keys.to_set() =~= dom);
        keys
    }
}

proof fn lemma_flush_sized(s: CorrelationState, keys: Seq<u32>, n: int)
    requires
        0 <= n <= keys.len(),
        lists_pending(s, keys),
        windows_known(s),
        all_fresh(s.graph.edges),
    ensures
        all_fresh(flushed(s, keys, n).graph.edges),
        flushed(s, keys, n).graph.nodes.len() <= s.graph.nodes.len() + 2 * n,
    decreases n,
{
    if n > 0 {
        lemma_flush_sized(s, keys, n - 1);
        assert(keys.contains(keys[n - 1]));
        lemma_commit_sized(flushed(s, keys, n - 1), s.pending_edges[keys[n - 1]]);
    }
}

/// The edges are counted exactly, every edge is a fresh wait that fills its
/// window, and there are at most two nodes and two edges per event.
pub proof fn law_correlated_graph(events: Seq<WperfEvent>, threshold: u64)
    ensures
        correlated(events, threshold).1.edges_created == correlated(
            events,
            threshold,
        ).0.edges.len(),
        correlated(events, threshold).1.events_processed == events.len(),
        all_fresh(correlated(events, threshold).0.edges),
        correlated(events, threshold).0.windows_valid(),
        waits_fill_windows(correlated(events, threshold).0.edges),
        correlated(events, threshold).0.nodes.len() <= 2 * events.len(),
        correlated(events, threshold).0.edges.len() <= 2 * events.len(),
{
    let n = events.len() as int;
    let s = state_after(events, n, threshold);
    lemma_sized(events, n, threshold);
    let list = lemma_list_exists(s.pending_edges.dom());
    assert(lists_pending(s, list)) by {
        assert forall|k: u32| #[trigger] list.contains(k) <==> s.pending_edges.contains_key(k) by {
            assert(list.contains(k) <==> s.pending_edges.dom().contains(k));
        }
    }
    lemma_pending_threads(s, list);
    lemma_flush_counts(s, list, list.len() as int);
    lemma_flush_sized(s, list, list.len() as int);
    let edges = correlated(events, threshold).0.edges;
    assert forall|e: int| 0 <= e < edges.len() implies (
    #[trigger] edges[e]).weight.time_window.valid() && edges[e].weight.raw_wait_ms
        == edges[e].weight.time_window.span() by {}
}

/// Without events there is no graph, and nothing to count.
pub proof fn law_no_events(threshold: u64)
    ensures
        correlated(Seq::empty(), threshold) == (empty_graph(), no_events()),
{
    let none = Seq::<WperfEvent>::empty();
    let s = state_after(none, 0, threshold);
    let keys = Seq::<u32>::empty();
    assert(lists_pending(s, keys));
    lemma_pending_threads(s, keys);
    assert(s.pending_io.dom() =~= Set::empty());
}

/// A threshold of zero drops no wait.
pub proof fn law_zero_threshold_keeps_all(events: Seq<WperfEvent>)
    ensures
        correlated(events, 0).1.false_wakeup_filtered_count == 0,
{
    let n = events.len() as int;
    let s = state_after(events, n, 0);
    lemma_nothing_filtered(events, n);
    lemma_filtered_through_flush(s, pending_threads(s), pending_threads(s).len() as int);
}

proof fn lemma_nothing_filtered(events: Seq<WperfEvent>, n: int)
    requires
        0 <= n <= events.len(),
    ensures
        state_after(events, n, 0).stats.false_wakeup_filtered_count == 0,
    decreases n,
{
    if n > 0 {
        lemma_nothing_filtered(events, n - 1);
    }
}

proof fn lemma_filtered_through_flush(s: CorrelationState, keys: Seq<u32>, n: int)
    ensures
        flushed(s, keys, n).stats.false_wakeup_filtered_count
            == s.stats.false_wakeup_filtered_count,
    decreases n,
{
    if n > 0 {
        lemma_filtered_through_flush(s, keys, n - 1);
    }
}

/// Every thread and every edge of `few` is one of `many`, edges as often as they
/// occur.
pub open spec fn part_of(few: GraphView, many: GraphView) -> bool {
    &&& forall|t: ThreadId| few.has(t) ==> #[trigger] many.has(t)
    &&& few.edges.to_multiset().subset_of(many.edges.to_multiset())
}

/// The counters `b` are the counters `a` with some edges filtered in place of
/// created.
pub open spec fn filters_more(a: StatsView, b: StatsView) -> bool {
    &&& b.edges_created <= a.edges_created
    &&& b.edges_created + b.false_wakeup_filtered_count == a.edges_created
        + a.false_wakeup_filtered_count
    &&& b == (StatsView {
        edges_created: b.edges_created,
        false_wakeup_filtered_count: b.false_wakeup_filtered_count,
        ..a
    })
}

/// Two states differ in nothing but the waits that one of them dropped.
spec fn differ_in_drops(a: CorrelationState, b: CorrelationState) -> bool {
    &&& a.off_cpu == b.off_cpu
    &&& a.pending_futex == b.pending_futex
    &&& a.pending_edges == b.pending_edges
    &&& a.pending_io == b.pending_io
    &&& filters_more(a.stats, b.stats)
    &&& part_of(b.graph, a.graph)
}

proof fn lemma_node_in_both(few: GraphView, many: GraphView, tid: ThreadId, kind: NodeKind)
    requires
        part_of(few, many),
    ensures
        part_of(with_node(few, tid, kind), with_node(many, tid, kind)),
        part_of(few, with_node(many, tid, kind)),
{
    let less = with_node(few, tid, kind);
    let more = with_node(many, tid, kind);
    lemma_with_node(few, tid, kind);
    lemma_with_node(many, tid, kind);
    assert forall|t: ThreadId| less.has(t) implies #[trigger] more.has(t) by {
        if t != tid {
            let i = choose|i: int| 0 <= i < less.nodes.len() && (#[trigger] less.nodes[i]).tid == t;
            assert(i < few.nodes.len());
            assert(few.nodes[i].tid == t);
            assert(few.has(t));
            assert(many.has(t));
        }
    }
    assert forall|t: ThreadId| few.has(t) implies #[trigger] more.has(t) by {
        assert(many.has(t));
    }
}

proof fn lemma_edge_in_both(few: GraphView, many: GraphView, less: GraphView, more: GraphView)
    requires
        part_of(few, many),
        more.nodes == many.nodes,
        more.edges.len() == many.edges.len() + 1,
        more.edges.drop_last() == many.edges,
        less == few || (less.nodes == few.nodes && less.edges.len() == few.edges.len() + 1
            && less.edges.drop_last() == few.edges && less.edges.last() == more.edges.last()),
    ensures
        part_of(less, more),
{
    let e = more.edges.last();
    assert(more.edges =~= many.edges.push(e));
    vstd::seq_lib::to_multiset_build(many.edges, e);
    if less != few {
        assert(less.edges =~= few.edges.push(e));
        vstd::seq_lib::to_multiset_build(few.edges, e);
    }
    assert forall|t: ThreadId| less.has(t) implies #[trigger] more.has(t) by {
        let i = choose|i: int| 0 <= i < less.nodes.len() && (#[trigger] less.nodes[i]).tid == t;
        assert(few.nodes[i].tid == t);
        assert(few.has(t));
        assert(many.has(t));
        let j = choose|j: int| 0 <= j < many.nodes.len() && (#[trigger] many.nodes[j]).tid == t;
        assert(more.nodes[j].tid == t);
    }
    assert forall|x: WaitEdge| #[trigger]
        less.edges.to_multiset().count(x) <= more.edges.to_multiset().count(x) by {
        assert(few.edges.to_multiset().count(x) <= many.edges.to_multiset().count(x));
    }
}

proof fn lemma_commit_both(a: CorrelationState, b: CorrelationState, pe: PendingEdge)
    requires
        differ_in_drops(a, b),
    ensures
        differ_in_drops(commit(a, pe), commit(b, pe)),
        part_of(b.graph, commit(a, pe).graph),
{
    let user = NodeKind::UserThread;
    lemma_node_in_both(b.graph, a.graph, pe.src, user);
    let (a1, b1) = (with_node(a.graph, pe.src, user), with_node(b.graph, pe.src, user));
    lemma_node_in_both(b1, a1, pe.dst, user);
    lemma_node_in_both(b.graph, a1, pe.dst, user);
    let (a2, b2) = (with_node(a1, pe.dst, user), with_node(b1, pe.dst, user));
    let (a3, b3) = (commit(a, pe).graph, commit(b, pe).graph);
    assert(a3.edges.drop_last() =~= a2.edges);
    assert(b3.edges.drop_last() =~= b2.edges);
    lemma_edge_in_both(b2, a2, b3, a3);
    lemma_edge_in_both(b.graph, a2, b.graph, a3);
}

proof fn lemma_step_differs(
    a: CorrelationState,
    b: CorrelationState,
    e: WperfEvent,
    low: u64,
    high: u64,
)
    requires
        differ_in_drops(a, b),
        low <= high,
    ensures
        differ_in_drops(step(a, e, low), step(b, e, high)),
{
    let (a1, b1) = (counted(a), counted(b));
    assert(differ_in_drops(a1, b1));
    match EventType::of_code(e.event_type) {
        Some(EventType::Switch) => {
            let (a2, b2) = (resolve(a1, e, low), resolve(b1, e, high));
            if e.prev_tid != 0 && a1.pending_edges.contains_key(e.prev_tid) {
                let less = a1.pending_edges.remove(e.prev_tid);
                lemma_commit_both(
                    CorrelationState { pending_edges: less, ..a1 },
                    CorrelationState { pending_edges: less, ..b1 },
                    a1.pending_edges[e.prev_tid],
                );
            }
            assert(differ_in_drops(a2, b2));
        },
        Some(EventType::Exit) => {
            if a1.pending_edges.contains_key(e.tid) {
                let less = a1.pending_edges.remove(e.tid);
                lemma_commit_both(
                    CorrelationState { pending_edges: less, ..a1 },
                    CorrelationState { pending_edges: less, ..b1 },
                    a1.pending_edges[e.tid],
                );
            }
        },
        Some(EventType::IoComplete) => {
            let key = event_io_key(e);
            if a1.pending_io.contains_key(key) {
                let io = a1.pending_io[key];
                let (user, disk) = (ThreadId(io.tid as i64), ThreadId(DISK_TID));
                let window = ms_window(io.issue_ns, e.timestamp_ns);
                let wait = Some(WaitType::IoBlock);
                lemma_node_in_both(b1.graph, a1.graph, user, NodeKind::UserThread);
                let a2 = with_node(a1.graph, user, NodeKind::UserThread);
                let b2 = with_node(b1.graph, user, NodeKind::UserThread);
                lemma_node_in_both(b2, a2, disk, NodeKind::PseudoDisk);
                let a3 = with_node(a2, disk, NodeKind::PseudoDisk);
                let b3 = with_node(b2, disk, NodeKind::PseudoDisk);
                let a4 = with_wait(a3, user, disk, window, wait, EdgeKind::Normal);
                let b4 = with_wait(b3, user, disk, window, wait, EdgeKind::Normal);
                assert(a4.edges.drop_last() =~= a3.edges);
                assert(b4.edges.drop_last() =~= b3.edges);
                lemma_edge_in_both(b3, a3, b4, a4);
                let back = EdgeKind::SyntheticClosureReturn;
                let a5 = with_wait(a4, disk, user, window, wait, back);
                let b5 = with_wait(b4, disk, user, window, wait, back);
                assert(a5.edges.drop_last() =~= a4.edges);
                assert(b5.edges.drop_last() =~= b4.edges);
                lemma_edge_in_both(b4, a4, b5, a5);
            }
        },
        _ => {},
    }
}

proof fn lemma_states_differ(events: Seq<WperfEvent>, n: int, low: u64, high: u64)
    requires
        0 <= n <= events.len(),
        low <= high,
    ensures
        differ_in_drops(state_after(events, n, low), state_after(events, n, high)),
    decreases n,
{
    if n > 0 {
        lemma_states_differ(events, n - 1, low, high);
        lemma_step_differs(
            state_after(events, n - 1, low),
            state_after(events, n - 1, high),
            events[n - 1],
            low,
            high,
        );
    }
}

proof fn lemma_flushes_differ(a: CorrelationState, b: CorrelationState, keys: Seq<u32>, n: int)
    requires
        0 <= n <= keys.len(),
        differ_in_drops(a, b),
    ensures
        differ_in_drops(flushed(a, keys, n), flushed(b, keys, n)),
    decreases n,
{
    if n > 0 {
        lemma_flushes_differ(a, b, keys, n - 1);
        lemma_commit_both(
            flushed(a, keys, n - 1),
            flushed(b, keys, n - 1),
            a.pending_edges[keys[n - 1]],
        );
    }
}

/// A higher threshold drops more waits and does nothing else: what is created and
/// what is dropped add up to the same, all other counters agree, and the graph is
/// a part of the one for the lower threshold.
pub proof fn law_higher_threshold_only_drops(events: Seq<WperfEvent>, low: u64, high: u64)
    requires
        low <= high,
    ensures
        filters_more(correlated(events, low).1, correlated(events, high).1),
        part_of(correlated(events, high).0, correlated(events, low).0),
        forall|e: WaitEdge|
            correlated(events, high).0.edges.contains(e) ==> #[trigger] correlated(
                events,
                low,
            ).0.edges.contains(e),
{
    let n = events.len() as int;
    let (a, b) = (state_after(events, n, low), state_after(events, n, high));
    lemma_states_differ(events, n, low, high);
    lemma_sized(events, n, low);
    let list = lemma_list_exists(a.pending_edges.dom());
    assert(lists_pending(a, list) && lists_pending(b, list)) by {
        assert forall|k: u32| #[trigger] list.contains(k) <==> a.pending_edges.contains_key(k) by {
            assert(list.contains(k) <==> a.pending_edges.dom().contains(k));
        }
    }
    lemma_pending_threads(a, list);
    lemma_pending_threads(b, list);
    lemma_flushes_differ(a, b, list, list.len() as int);
    let (many, few) = (correlated(events, low).0.edges, correlated(events, high).0.edges);
    assert forall|e: WaitEdge| few.contains(e) implies #[trigger] many.contains(e) by {
        broadcast use vstd::seq_lib::group_to_multiset_ensures;

        assert(few.to_multiset().count(e) > 0);
        assert(few.to_multiset().count(e) <= many.to_multiset().count(e));
    }
}

/// Different sectors have different keys.
pub proof fn law_io_keys_differ(
    dev: u32,
    sector: nat,
    nr_sector: u32,
    other_dev: u32,
    other_sector: nat,
    other_nr_sector: u32,
)
    requires
        sector <= u64::MAX,
        other_sector <= u64::MAX,
        io_key(dev, sector, nr_sector) == io_key(other_dev, other_sector, other_nr_sector),
    ensures
        dev == other_dev,
        sector == other_sector,
        nr_sector == other_nr_sector,
{
}

/// The last wakeup of a sleeping thread counts, whoever woke it before.
pub proof fn law_last_wakeup_counts(
    s: CorrelationState,
    first: WperfEvent,
    second: WperfEvent,
    threshold: u64,
)
    requires
        EventType::of_code(first.event_type) == Some(EventType::Wakeup),
        EventType::of_code(second.event_type) == Some(EventType::Wakeup),
        first.next_tid == second.next_tid,
        second.prev_tid != 0,
        s.off_cpu.contains_key(second.next_tid),
    ensures
        step(step(s, first, threshold), second, threshold).off_cpu[second.next_tid].waker_tid
            == Some(second.prev_tid),
        step(step(s, first, threshold), second, threshold).graph == s.graph,
{
}

/// A preempted thread does not sleep: a switch from it starts no wait.
pub proof fn law_preemption_is_no_wait(s: CorrelationState, e: WperfEvent, threshold: u64)
    requires
        EventType::of_code(e.event_type) == Some(EventType::Switch),
        e.prev_state == TASK_RUNNING,
        !s.off_cpu.contains_key(e.prev_tid),
    ensures
        !step(s, e, threshold).off_cpu.contains_key(e.prev_tid),
{
}

} // verus!
