//! What holds of every correlation: what single events do, and which waits end
//! up in the graph.
//!
//! Events are named here by their numbers on the wire: 1 is a switch, 2 and 3
//! are wakeups, 4 is an exit, 5 a futex wait, 6 and 7 are the issue and the
//! completion of a block request.

use vstd::prelude::*;

use crate::format::event::WperfEvent;
use crate::graph::types::{EdgeKind, EdgeWeight, NodeKind, ThreadId, TimeWindow, WaitType};
use crate::graph::wfg::{GraphView, WaitEdge};

use super::{
    correlated, event_io_key, flushed, lists_pending, pending_threads, state_after, step,
    CorrelationState, PendingEdge, StatsView,
};

verus! {

// ---------------------------------------------------------------------------
// Single events
// ---------------------------------------------------------------------------

/// A thread that is switched out and still wants to run, or is the idle thread,
/// does not go to sleep; every other one does, whatever thread runs next: it is
/// off its CPU from then on, and nobody has woken it yet.
///
/// A futex call of the thread within the last millisecond tells what it waits
/// for. Such a call explains one sleep at most.
pub proof fn law_switched_out_threads_sleep(s: CorrelationState, e: WperfEvent, threshold: u64)
    requires
        e.event_type == 1,
        e.prev_tid != e.next_tid,
    ensures
        e.prev_state != 0 && e.prev_tid != 0 ==> ({
            let after = step(s, e, threshold);
            let record = after.off_cpu[e.prev_tid];
            &&& after.off_cpu.contains_key(e.prev_tid)
            &&& record.switch_out_ns == e.timestamp_ns
            &&& record.waker_tid is None
            &&& s.pending_futex.contains_key(e.prev_tid) && e.timestamp_ns
                <= s.pending_futex[e.prev_tid].timestamp_ns + 1_000_000 ==> record.wait_type
                == Some(s.pending_futex[e.prev_tid].wait_type)
            &&& !s.pending_futex.contains_key(e.prev_tid) || e.timestamp_ns
                > s.pending_futex[e.prev_tid].timestamp_ns + 1_000_000 ==> record.wait_type is None
            &&& !after.pending_futex.contains_key(e.prev_tid)
        }),
        e.prev_state == 0 || e.prev_tid == 0 ==> ({
            let after = step(s, e, threshold);
            &&& after.off_cpu.contains_key(e.prev_tid) == s.off_cpu.contains_key(e.prev_tid)
            &&& after.off_cpu[e.prev_tid] == s.off_cpu[e.prev_tid]
            &&& after.pending_futex == s.pending_futex
        }),
{
}

/// A thread that is switched in does not sleep any more. If it slept and was
/// woken, it waited for the last thread that woke it, from when it was switched
/// out until now; start and length of the wait are rounded down to milliseconds.
/// What cannot be told, a sleep without a wakeup or a switch without a sleep, is
/// counted. The idle thread waits for nothing.
pub proof fn law_switched_in_threads_waited(s: CorrelationState, e: WperfEvent, threshold: u64)
    requires
        e.event_type == 1,
        e.prev_tid != e.next_tid || e.prev_state == 0,
    ensures
        ({
            let after = step(s, e, threshold);
            let slept = s.off_cpu.contains_key(e.next_tid);
            let record = s.off_cpu[e.next_tid];
            let out = record.switch_out_ns;
            &&& e.next_tid != 0 ==> !after.off_cpu.contains_key(e.next_tid)
            &&& e.next_tid != 0 && slept && record.waker_tid is Some && out <= e.timestamp_ns ==> ({
                let wait = after.pending_edges[e.next_tid];
                &&& after.pending_edges.contains_key(e.next_tid)
                &&& wait.switch_in_ns == e.timestamp_ns
                &&& wait.src == ThreadId(e.next_tid as i64)
                &&& wait.dst == ThreadId(record.waker_tid->0 as i64)
                &&& wait.window.start_ms == out as int / 1_000_000
                &&& wait.window.end_ms == out as int / 1_000_000 + (e.timestamp_ns - out) / 1_000_000
                &&& wait.wait_type == record.wait_type
            })
            &&& e.prev_tid != e.next_tid && (e.next_tid == 0 || !slept || record.waker_tid is None)
                ==> {
                &&& after.pending_edges.contains_key(e.next_tid) == s.pending_edges.contains_key(
                    e.next_tid,
                )
                &&& after.pending_edges[e.next_tid] == s.pending_edges[e.next_tid]
            }
            &&& after.stats.switch_in_without_waker_count == s.stats.switch_in_without_waker_count
                + (if e.next_tid != 0 && slept && record.waker_tid is None {
                1int
            } else {
                0
            })
            &&& after.stats.unmatched_switch_in_count == s.stats.unmatched_switch_in_count + (
            if e.next_tid != 0 && !slept {
                1int
            } else {
                0
            })
        }),
{
}

/// A thread that hands its CPU to itself has not slept: it counts neither as
/// sleeping nor as waiting afterwards.
pub proof fn law_switch_to_itself(s: CorrelationState, e: WperfEvent, threshold: u64)
    requires
        e.event_type == 1,
        e.prev_tid == e.next_tid,
        e.prev_tid != 0,
    ensures
        ({
            let after = step(s, e, threshold);
            &&& !after.off_cpu.contains_key(e.prev_tid)
            &&& e.prev_state != 0 ==> {
                &&& !after.pending_edges.contains_key(e.prev_tid)
                &&& after.stats.switch_in_without_waker_count
                    == s.stats.switch_in_without_waker_count + 1
                &&& after.stats.unmatched_switch_in_count == s.stats.unmatched_switch_in_count
            }
        }),
{
}

/// A switch is about the two threads that it names: all others sleep, wait and
/// call as before. Block requests and the other counters are left alone.
pub proof fn law_switch_concerns_two_threads(
    s: CorrelationState,
    e: WperfEvent,
    threshold: u64,
    t: u32,
)
    requires
        e.event_type == 1,
        t != e.prev_tid,
        t != e.next_tid,
    ensures
        ({
            let after = step(s, e, threshold);
            &&& after.off_cpu.contains_key(t) == s.off_cpu.contains_key(t)
            &&& after.off_cpu[t] == s.off_cpu[t]
            &&& after.pending_edges.contains_key(t) == s.pending_edges.contains_key(t)
            &&& after.pending_edges[t] == s.pending_edges[t]
            &&& after.pending_futex.contains_key(t) == s.pending_futex.contains_key(t)
            &&& after.pending_futex[t] == s.pending_futex[t]
            &&& after.pending_io == s.pending_io
            &&& after.stats.events_processed == s.stats.events_processed + 1
            &&& after.stats.unmatched_wakeup_count == s.stats.unmatched_wakeup_count
            &&& after.stats.io_orphan_complete_count == s.stats.io_orphan_complete_count
            &&& after.stats.io_pending_at_end_count == s.stats.io_pending_at_end_count
            &&& after.stats.io_userspace_pair_collision_count
                == s.stats.io_userspace_pair_collision_count
        }),
{
}

/// The edge that an observed wait becomes, before any attribution.
pub open spec fn observed(
    src: ThreadId,
    dst: ThreadId,
    window: TimeWindow,
    wait_type: Option<WaitType>,
) -> WaitEdge {
    WaitEdge {
        src,
        dst,
        weight: EdgeWeight {
            time_window: window,
            raw_wait_ms: (window.end_ms - window.start_ms) as u64,
            attributed_delay_ms: (window.end_ms - window.start_ms) as u64,
            wait_type,
            kind: EdgeKind::Normal,
        },
    }
}

/// `after` is the graph `before` with one more edge at the end, and its ends as
/// user threads where they were missing.
pub open spec fn grown_by(before: GraphView, after: GraphView, edge: WaitEdge) -> bool {
    &&& after.edges == before.edges.push(edge)
    &&& before.nodes.is_prefix_of(after.nodes)
    &&& exists|i: int| 0 <= i < after.nodes.len() && (#[trigger] after.nodes[i]).tid == edge.src
    &&& exists|i: int| 0 <= i < after.nodes.len() && (#[trigger] after.nodes[i]).tid == edge.dst
    &&& forall|i: int|
        before.nodes.len() <= i < after.nodes.len() ==> {
            &&& (#[trigger] after.nodes[i]).kind == NodeKind::UserThread
            &&& after.nodes[i].tid == edge.src || after.nodes[i].tid == edge.dst
            &&& forall|j: int| 0 <= j < i ==> (#[trigger] after.nodes[j]).tid != after.nodes[i].tid
        }
}

proof fn lemma_committed(s: CorrelationState, pe: PendingEdge)
    requires
        pe.window.valid(),
    ensures
        grown_by(
            s.graph,
            super::commit(s, pe).graph,
            observed(pe.src, pe.dst, pe.window, pe.wait_type),
        ),
{
    let user = NodeKind::UserThread;
    let g = s.graph;
    let g1 = super::with_node(g, pe.src, user);
    let g2 = super::with_node(g1, pe.dst, user);
    let after = super::commit(s, pe).graph;
    assert(after.nodes == g2.nodes);
    assert(g.nodes.is_prefix_of(g1.nodes) && g1.nodes.is_prefix_of(g2.nodes));
    assert(g.nodes.is_prefix_of(g2.nodes)) by {
        assert(g.nodes =~= g2.nodes.subrange(0, g.nodes.len() as int));
    }
    assert(g1.has(pe.src)) by {
        if !g.has(pe.src) {
            assert(g1.nodes[g.nodes.len() as int].tid == pe.src);
        }
    }
    let i = choose|i: int| 0 <= i < g1.nodes.len() && (#[trigger] g1.nodes[i]).tid == pe.src;
    assert(g2.nodes[i].tid == pe.src);
    assert(after.nodes[i].tid == pe.src);
    if g1.has(pe.dst) {
        let j = choose|j: int| 0 <= j < g1.nodes.len() && (#[trigger] g1.nodes[j]).tid == pe.dst;
        assert(after.nodes[j].tid == pe.dst);
    } else {
        assert(after.nodes[g1.nodes.len() as int].tid == pe.dst);
    }
    assert forall|n: int| g.nodes.len() <= n < after.nodes.len() implies {
        &&& (#[trigger] after.nodes[n]).kind == user
        &&& after.nodes[n].tid == pe.src || after.nodes[n].tid == pe.dst
        &&& forall|j: int| 0 <= j < n ==> (#[trigger] after.nodes[j]).tid != after.nodes[n].tid
    } by {
        if n < g1.nodes.len() {
            assert forall|j: int| 0 <= j < n implies (#[trigger] after.nodes[j]).tid
                != after.nodes[n].tid by {
                assert(g.nodes[j] == after.nodes[j]);
            }
        } else {
            assert forall|j: int| 0 <= j < n implies (#[trigger] after.nodes[j]).tid
                != after.nodes[n].tid by {
                assert(g1.nodes[j] == after.nodes[j]);
            }
        }
    }
}

/// A wait that has ended is held back until its thread leaves the CPU. If it
/// then sleeps again after less than the threshold, whatever thread runs next,
/// it was woken in vain: the wait is dropped and counted as filtered. In every
/// other case the wait becomes an edge. Without such a wait nothing happens to
/// the graph.
pub proof fn law_spurious_wakeups_are_dropped(s: CorrelationState, e: WperfEvent, threshold: u64)
    requires
        e.event_type == 1,
        super::windows_known(s),
    ensures
        ({
            let after = step(s, e, threshold);
            let held = e.prev_tid != 0 && s.pending_edges.contains_key(e.prev_tid);
            let wait = s.pending_edges[e.prev_tid];
            let in_vain = e.prev_state != 0 && threshold > 0 && e.timestamp_ns < wait.switch_in_ns
                + threshold;
            &&& held && in_vain ==> {
                &&& after.graph == s.graph
                &&& after.stats.edges_created == s.stats.edges_created
                &&& after.stats.false_wakeup_filtered_count == s.stats.false_wakeup_filtered_count
                    + 1
            }
            &&& held && !in_vain ==> {
                &&& grown_by(
                    s.graph,
                    after.graph,
                    observed(wait.src, wait.dst, wait.window, wait.wait_type),
                )
                &&& after.stats.edges_created == s.stats.edges_created + 1
                &&& after.stats.false_wakeup_filtered_count == s.stats.false_wakeup_filtered_count
            }
            &&& !held ==> {
                &&& after.graph == s.graph
                &&& after.stats.edges_created == s.stats.edges_created
                &&& after.stats.false_wakeup_filtered_count == s.stats.false_wakeup_filtered_count
            }
            &&& held && e.next_tid != e.prev_tid ==> !after.pending_edges.contains_key(e.prev_tid)
        }),
{
    if e.prev_tid != 0 && s.pending_edges.contains_key(e.prev_tid) {
        let counted = CorrelationState {
            stats: StatsView { events_processed: s.stats.events_processed + 1, ..s.stats },
            ..s
        };
        lemma_committed(
            CorrelationState { pending_edges: s.pending_edges.remove(e.prev_tid), ..counted },
            s.pending_edges[e.prev_tid],
        );
    }
}

/// A wakeup of a sleeping thread names who it waits for, and changes nothing
/// else; one of a thread that is not known to sleep is counted. The idle thread
/// wakes nobody.
pub proof fn law_wakeups_name_the_waker(s: CorrelationState, e: WperfEvent, threshold: u64, t: u32)
    requires
        e.event_type == 2 || e.event_type == 3,
    ensures
        ({
            let after = step(s, e, threshold);
            let sleeps = s.off_cpu.contains_key(e.next_tid);
            &&& after.off_cpu.contains_key(t) == s.off_cpu.contains_key(t)
            &&& t != e.next_tid || e.prev_tid == 0 ==> after.off_cpu[t] == s.off_cpu[t]
            &&& sleeps && e.prev_tid != 0 ==> {
                &&& after.off_cpu[e.next_tid].waker_tid == Some(e.prev_tid)
                &&& after.off_cpu[e.next_tid].switch_out_ns == s.off_cpu[e.next_tid].switch_out_ns
                &&& after.off_cpu[e.next_tid].wait_type == s.off_cpu[e.next_tid].wait_type
            }
            &&& after.graph == s.graph
            &&& after.pending_edges == s.pending_edges
            &&& after.pending_futex == s.pending_futex
            &&& after.pending_io == s.pending_io
            &&& after.stats == (StatsView {
                events_processed: s.stats.events_processed + 1,
                unmatched_wakeup_count: if e.prev_tid != 0 && !sleeps {
                    s.stats.unmatched_wakeup_count + 1
                } else {
                    s.stats.unmatched_wakeup_count
                },
                ..s.stats
            })
        }),
{
}

/// The last wait of a thread that exits becomes an edge; the thread sleeps, calls
/// and waits no more. Other threads are not touched.
pub proof fn law_exits_keep_the_last_wait(s: CorrelationState, e: WperfEvent, threshold: u64, t: u32)
    requires
        e.event_type == 4,
        super::windows_known(s),
    ensures
        ({
            let after = step(s, e, threshold);
            let wait = s.pending_edges[e.tid];
            let held = s.pending_edges.contains_key(e.tid);
            &&& !after.off_cpu.contains_key(e.tid)
            &&& !after.pending_futex.contains_key(e.tid)
            &&& !after.pending_edges.contains_key(e.tid)
            &&& t != e.tid ==> {
                &&& after.off_cpu.contains_key(t) == s.off_cpu.contains_key(t)
                &&& after.off_cpu[t] == s.off_cpu[t]
                &&& after.pending_futex.contains_key(t) == s.pending_futex.contains_key(t)
                &&& after.pending_futex[t] == s.pending_futex[t]
                &&& after.pending_edges.contains_key(t) == s.pending_edges.contains_key(t)
                &&& after.pending_edges[t] == s.pending_edges[t]
            }
            &&& held ==> grown_by(
                s.graph,
                after.graph,
                observed(wait.src, wait.dst, wait.window, wait.wait_type),
            )
            &&& !held ==> after.graph == s.graph
            &&& after.pending_io == s.pending_io
            &&& after.stats == (StatsView {
                events_processed: s.stats.events_processed + 1,
                edges_created: if held {
                    s.stats.edges_created + 1
                } else {
                    s.stats.edges_created
                },
                ..s.stats
            })
        }),
{
    if s.pending_edges.contains_key(e.tid) {
        let counted = CorrelationState {
            stats: StatsView { events_processed: s.stats.events_processed + 1, ..s.stats },
            ..s
        };
        lemma_committed(
            CorrelationState { pending_edges: s.pending_edges.remove(e.tid), ..counted },
            s.pending_edges[e.tid],
        );
    }
}

/// A futex call is noted for its thread, with its time and what its operation
/// waits for. It replaces an earlier one and changes nothing else.
pub proof fn law_futex_calls_are_noted(s: CorrelationState, e: WperfEvent, threshold: u64, t: u32)
    requires
        e.event_type == 5,
    ensures
        ({
            let after = step(s, e, threshold);
            let noted = after.pending_futex[e.tid];
            &&& after.pending_futex.contains_key(e.tid)
            &&& noted.timestamp_ns == e.timestamp_ns
            &&& e.flags == 0 ==> noted.wait_type == WaitType::FutexWait
            &&& e.flags == 6 ==> noted.wait_type == WaitType::FutexLockPi
            &&& e.flags == 9 ==> noted.wait_type == WaitType::FutexWaitBitset
            &&& e.flags == 11 ==> noted.wait_type == WaitType::FutexWaitRequeuePi
            &&& e.flags != 0 && e.flags != 6 && e.flags != 9 && e.flags != 11 ==> noted.wait_type
                == WaitType::Unknown
            &&& t != e.tid ==> {
                &&& after.pending_futex.contains_key(t) == s.pending_futex.contains_key(t)
                &&& after.pending_futex[t] == s.pending_futex[t]
            }
            &&& after.off_cpu == s.off_cpu
            &&& after.pending_edges == s.pending_edges
            &&& after.pending_io == s.pending_io
            &&& after.graph == s.graph
            &&& after.stats == (StatsView {
                events_processed: s.stats.events_processed + 1,
                ..s.stats
            })
        }),
{
}

/// Two block events are about the same request exactly if they name the same
/// device, sector and number of sectors.
pub proof fn law_requests_are_told_apart(a: WperfEvent, b: WperfEvent)
    ensures
        event_io_key(a) == event_io_key(b) <==> {
            &&& a.prev_pid == b.prev_pid
            &&& a.prev_tid == b.prev_tid
            &&& a.next_tid == b.next_tid
            &&& a.next_pid == b.next_pid
        },
{
}

/// An issued block request is pending from then on, for the thread that issued
/// it. One that was pending already is replaced, and counted as a collision.
pub proof fn law_issued_requests_are_pending(
    s: CorrelationState,
    e: WperfEvent,
    threshold: u64,
    other: WperfEvent,
)
    requires
        e.event_type == 6,
    ensures
        ({
            let after = step(s, e, threshold);
            let key = event_io_key(e);
            &&& after.pending_io.contains_key(key)
            &&& after.pending_io[key].issue_ns == e.timestamp_ns
            &&& after.pending_io[key].tid == e.tid
            &&& event_io_key(other) != key ==> {
                &&& after.pending_io.contains_key(event_io_key(other))
                    == s.pending_io.contains_key(event_io_key(other))
                &&& after.pending_io[event_io_key(other)] == s.pending_io[event_io_key(other)]
            }
            &&& after.off_cpu == s.off_cpu
            &&& after.pending_edges == s.pending_edges
            &&& after.pending_futex == s.pending_futex
            &&& after.graph == s.graph
            &&& after.stats == (StatsView {
                events_processed: s.stats.events_processed + 1,
                io_userspace_pair_collision_count: if s.pending_io.contains_key(key) {
                    s.stats.io_userspace_pair_collision_count + 1
                } else {
                    s.stats.io_userspace_pair_collision_count
                },
                ..s.stats
            })
        }),
{
}

/// A completed block request is a wait of the thread that issued it for the disk,
/// from issue to completion, and an edge back that closes the cycle. A completion
/// without an issue is counted as an orphan.
pub proof fn law_completed_requests_are_waits(
    s: CorrelationState,
    e: WperfEvent,
    threshold: u64,
    other: WperfEvent,
)
    requires
        e.event_type == 7,
        s.pending_io.contains_key(event_io_key(e)) ==> s.pending_io[event_io_key(e)].issue_ns
            <= e.timestamp_ns,
    ensures
        ({
            let after = step(s, e, threshold);
            let key = event_io_key(e);
            let io = s.pending_io[key];
            let issue_ns = io.issue_ns as int;
            let window = TimeWindow {
                start_ms: (issue_ns / 1_000_000) as u64,
                end_ms: (issue_ns / 1_000_000 + (e.timestamp_ns - issue_ns) / 1_000_000) as u64,
            };
            let there = observed(
                ThreadId(io.tid as i64),
                ThreadId((-5) as i64),
                window,
                Some(WaitType::IoBlock),
            );
            let back = WaitEdge {
                src: ThreadId((-5) as i64),
                dst: ThreadId(io.tid as i64),
                weight: EdgeWeight { kind: EdgeKind::SyntheticClosureReturn, ..there.weight },
            };
            &&& !after.pending_io.contains_key(key)
            &&& event_io_key(other) != key ==> {
                &&& after.pending_io.contains_key(event_io_key(other))
                    == s.pending_io.contains_key(event_io_key(other))
                &&& after.pending_io[event_io_key(other)] == s.pending_io[event_io_key(other)]
            }
            &&& s.pending_io.contains_key(key) ==> {
                &&& after.graph.edges == s.graph.edges.push(there).push(back)
                &&& s.graph.nodes.is_prefix_of(after.graph.nodes)
                &&& exists|i: int|
                    0 <= i < after.graph.nodes.len() && (#[trigger] after.graph.nodes[i]).tid
                        == there.src
                &&& exists|i: int|
                    0 <= i < after.graph.nodes.len() && (#[trigger] after.graph.nodes[i]).tid
                        == there.dst
                &&& forall|i: int|
                    s.graph.nodes.len() <= i < after.graph.nodes.len() ==> {
                        let node = #[trigger] after.graph.nodes[i];
                        (node.tid == there.src && node.kind == NodeKind::UserThread) || (node.tid
                            == there.dst && node.kind == NodeKind::PseudoDisk)
                    }
            }
            &&& !s.pending_io.contains_key(key) ==> after.graph == s.graph
            &&& after.off_cpu == s.off_cpu
            &&& after.pending_edges == s.pending_edges
            &&& after.pending_futex == s.pending_futex
            &&& after.stats == (StatsView {
                events_processed: s.stats.events_processed + 1,
                edges_created: if s.pending_io.contains_key(key) {
                    s.stats.edges_created + 2
                } else {
                    s.stats.edges_created
                },
                io_orphan_complete_count: if s.pending_io.contains_key(key) {
                    s.stats.io_orphan_complete_count
                } else {
                    s.stats.io_orphan_complete_count + 1
                },
                ..s.stats
            })
        }),
{
    let after = step(s, e, threshold);
    let key = event_io_key(e);
    if s.pending_io.contains_key(key) {
        let user = ThreadId(s.pending_io[key].tid as i64);
        let disk = ThreadId((-5) as i64);
        let g = s.graph;
        let g1 = super::with_node(g, user, NodeKind::UserThread);
        let g2 = super::with_node(g1, disk, NodeKind::PseudoDisk);
        assert(after.graph.nodes == g2.nodes);
        assert(g.nodes =~= g2.nodes.subrange(0, g.nodes.len() as int));
        assert(g1.has(user)) by {
            if !g.has(user) {
                assert(g1.nodes[g.nodes.len() as int].tid == user);
            }
        }
        let i = choose|i: int| 0 <= i < g1.nodes.len() && (#[trigger] g1.nodes[i]).tid == user;
        assert(after.graph.nodes[i].tid == user);
        if g1.has(disk) {
            let j = choose|j: int| 0 <= j < g1.nodes.len() && (#[trigger] g1.nodes[j]).tid == disk;
            assert(after.graph.nodes[j].tid == disk);
        } else {
            assert(after.graph.nodes[g1.nodes.len() as int].tid == disk);
        }
    } else {
        assert(after.pending_io =~= s.pending_io);
    }
}

/// An event of any other type is counted and otherwise passed over.
pub proof fn law_other_events_are_passed_over(s: CorrelationState, e: WperfEvent, threshold: u64)
    requires
        e.event_type == 0 || e.event_type > 7,
    ensures
        step(s, e, threshold) == (CorrelationState {
            stats: StatsView { events_processed: s.stats.events_processed + 1, ..s.stats },
            ..s
        }),
{
}

// ---------------------------------------------------------------------------
// From events to edges
// ---------------------------------------------------------------------------

/// The event takes the thread to sleep.
pub open spec fn puts_to_sleep(e: WperfEvent, t: u32) -> bool {
    e.event_type == 1 && e.prev_tid == t && e.next_tid != t && e.prev_state != 0
}

/// The event wakes the thread.
pub open spec fn wakes(e: WperfEvent, t: u32) -> bool {
    (e.event_type == 2 || e.event_type == 3) && e.next_tid == t && e.prev_tid != 0
}

/// The event puts the thread on a CPU, takes it to sleep, or ends it.
pub open spec fn moves(e: WperfEvent, t: u32) -> bool {
    (e.event_type == 1 && (e.next_tid == t || (e.prev_tid == t && e.prev_state != 0))) || (
    e.event_type == 4 && e.tid == t)
}

/// The event takes the thread from its CPU, or ends it.
pub open spec fn leaves(e: WperfEvent, t: u32) -> bool {
    (e.event_type == 1 && e.prev_tid == t) || (e.event_type == 4 && e.tid == t)
}

/// The thread `t` waits for `w`: event `i` takes it to sleep, event `j` is the
/// last that wakes it, by `w`, and event `k` is the next that puts it on a CPU.
/// Whatever other threads do in between makes no difference.
pub open spec fn is_wait(
    events: Seq<WperfEvent>,
    t: u32,
    w: u32,
    i: int,
    j: int,
    k: int,
) -> bool {
    &&& 0 <= i < j < k < events.len()
    &&& t != 0
    &&& puts_to_sleep(events[i], t)
    &&& wakes(events[j], t)
    &&& events[j].prev_tid == w
    &&& events[k].event_type == 1
    &&& events[k].next_tid == t
    &&& events[k].prev_tid != t || events[k].prev_state == 0
    &&& forall|m: int| i < m < k ==> !moves(#[trigger] events[m], t)
    &&& forall|m: int| j < m < k ==> !wakes(#[trigger] events[m], t)
}

/// The edge stands for a wait of `t` for `w` from `from_ns` to `to_ns`.
pub open spec fn stands_for(
    edge: WaitEdge,
    t: u32,
    w: u32,
    from_ns: u64,
    to_ns: u64,
) -> bool {
    let window = edge.weight.time_window;
    &&& edge.src == ThreadId(t as i64)
    &&& edge.dst == ThreadId(w as i64)
    &&& edge.weight.kind == EdgeKind::Normal
    &&& window.start_ms == from_ns as int / 1_000_000
    &&& window.end_ms == from_ns as int / 1_000_000 + (to_ns - from_ns) / 1_000_000
    &&& edge.weight.raw_wait_ms == window.end_ms - window.start_ms
    &&& edge.weight.attributed_delay_ms == edge.weight.raw_wait_ms
}

/// What the thread waits for that event `i` takes to sleep, as far as it is known.
spec fn sleep_type(events: Seq<WperfEvent>, threshold: u64, t: u32, i: int) -> Option<WaitType> {
    state_after(events, i + 1, threshold).off_cpu[t].wait_type
}

proof fn lemma_asleep(events: Seq<WperfEvent>, threshold: u64, t: u32, i: int, n: int)
    requires
        0 <= i < n <= events.len(),
        t != 0,
        puts_to_sleep(events[i], t),
        forall|m: int| i < m < n ==> !moves(#[trigger] events[m], t),
    ensures
        ({
            let s = state_after(events, n, threshold);
            &&& s.off_cpu.contains_key(t)
            &&& s.off_cpu[t].switch_out_ns == events[i].timestamp_ns
            &&& s.off_cpu[t].wait_type == sleep_type(events, threshold, t, i)
        }),
    decreases n - i,
{
    if n > i + 1 {
        lemma_asleep(events, threshold, t, i, n - 1);
        assert(!moves(events[n - 1], t));
    }
}

proof fn lemma_woken(events: Seq<WperfEvent>, threshold: u64, t: u32, i: int, j: int, n: int)
    requires
        0 <= i < j < n <= events.len(),
        t != 0,
        puts_to_sleep(events[i], t),
        wakes(events[j], t),
        forall|m: int| i < m < n ==> !moves(#[trigger] events[m], t),
        forall|m: int| j < m < n ==> !wakes(#[trigger] events[m], t),
    ensures
        ({
            let s = state_after(events, n, threshold);
            &&& s.off_cpu.contains_key(t)
            &&& s.off_cpu[t].switch_out_ns == events[i].timestamp_ns
            &&& s.off_cpu[t].waker_tid == Some(events[j].prev_tid)
            &&& s.off_cpu[t].wait_type == sleep_type(events, threshold, t, i)
        }),
    decreases n - j,
{
    if n > j + 1 {
        lemma_woken(events, threshold, t, i, j, n - 1);
        assert(!moves(events[n - 1], t));
        assert(!wakes(events[n - 1], t));
    } else {
        lemma_asleep(events, threshold, t, i, j);
    }
}

/// The wait that is held back for a thread.
spec fn holds_wait(s: CorrelationState, t: u32, w: u32, from_ns: u64, to_ns: u64) -> bool {
    let wait = s.pending_edges[t];
    &&& s.pending_edges.contains_key(t)
    &&& wait.switch_in_ns == to_ns
    &&& wait.src == ThreadId(t as i64)
    &&& wait.dst == ThreadId(w as i64)
    &&& wait.window.start_ms == from_ns as int / 1_000_000
    &&& wait.window.end_ms == from_ns as int / 1_000_000 + (to_ns - from_ns) / 1_000_000
}

proof fn lemma_held(
    events: Seq<WperfEvent>,
    threshold: u64,
    t: u32,
    w: u32,
    i: int,
    j: int,
    k: int,
    n: int,
)
    requires
        is_wait(events, t, w, i, j, k),
        events[i].timestamp_ns <= events[k].timestamp_ns,
        k < n <= events.len(),
        forall|m: int| k < m < n ==> !leaves(#[trigger] events[m], t),
    ensures
        holds_wait(
            state_after(events, n, threshold),
            t,
            w,
            events[i].timestamp_ns,
            events[k].timestamp_ns,
        ),
        !state_after(events, n, threshold).off_cpu.contains_key(t),
        state_after(events, n, threshold).pending_edges[t].wait_type == sleep_type(
            events,
            threshold,
            t,
            i,
        ),
    decreases n - k,
{
    if n > k + 1 {
        lemma_held(events, threshold, t, w, i, j, k, n - 1);
        assert(!leaves(events[n - 1], t));
        let s = state_after(events, n - 1, threshold);
        let e = events[n - 1];
        if e.event_type == 1 && e.next_tid == t {
            law_switched_in_threads_waited(s, e, threshold);
        }
    } else {
        lemma_woken(events, threshold, t, i, j, k);
        law_switched_in_threads_waited(state_after(events, k, threshold), events[k], threshold);
    }
}

proof fn lemma_edges_stay(events: Seq<WperfEvent>, threshold: u64, n: int, m: int, p: int)
    requires
        0 <= n <= m <= events.len(),
        0 <= p < state_after(events, n, threshold).graph.edges.len(),
    ensures
        p < state_after(events, m, threshold).graph.edges.len(),
        state_after(events, m, threshold).graph.edges[p] == state_after(
            events,
            n,
            threshold,
        ).graph.edges[p],
    decreases m - n,
{
    if n < m {
        lemma_edges_stay(events, threshold, n, m - 1, p);
    }
}

/// While the waits that are held back at the end are taken in, edges stay, and
/// each becomes one.
proof fn lemma_flushed_edges(s: CorrelationState, keys: Seq<u32>, n: int)
    requires
        0 <= n <= keys.len(),
        forall|q: int|
            0 <= q < keys.len() ==> s.pending_edges[#[trigger] keys[q]].window.valid(),
    ensures
        ({
            let all = flushed(s, keys, n).graph.edges;
            &&& all.len() == s.graph.edges.len() + n
            &&& forall|p: int| 0 <= p < s.graph.edges.len() ==> #[trigger] all[p] == s.graph.edges[p]
            &&& forall|q: int|
                0 <= q < n ==> ({
                    let wait = s.pending_edges[#[trigger] keys[q]];
                    all[s.graph.edges.len() + q] == observed(
                        wait.src,
                        wait.dst,
                        wait.window,
                        wait.wait_type,
                    )
                })
        }),
    decreases n,
{
    if n > 0 {
        lemma_flushed_edges(s, keys, n - 1);
        lemma_committed(flushed(s, keys, n - 1), s.pending_edges[keys[n - 1]]);
    }
}

/// Every wait of a thread becomes an edge from it to the thread that woke it
/// last, over the time from when it went to sleep to when it ran again, whichever
/// threads ran before and after it on the same CPU. It does so when the thread
/// next leaves its CPU, event `m`, unless the thread then sleeps again before the
/// threshold has passed; or at the end, if it does not leave its CPU any more.
pub proof fn law_waits_become_edges(
    events: Seq<WperfEvent>,
    threshold: u64,
    t: u32,
    w: u32,
    i: int,
    j: int,
    k: int,
    m: int,
)
    requires
        is_wait(events, t, w, i, j, k),
        events[i].timestamp_ns <= events[k].timestamp_ns,
        k < m <= events.len(),
        forall|l: int| k < l < m ==> !leaves(#[trigger] events[l], t),
        m < events.len() ==> leaves(events[m], t) && (events[m].event_type == 4
            || events[m].prev_state == 0 || events[m].timestamp_ns >= events[k].timestamp_ns
            + threshold),
    ensures
        exists|p: int|
            0 <= p < correlated(events, threshold).0.edges.len() && stands_for(
                #[trigger] correlated(events, threshold).0.edges[p],
                t,
                w,
                events[i].timestamp_ns,
                events[k].timestamp_ns,
            ),
        m < events.len() ==> ({
            let before = state_after(events, m, threshold).graph.edges;
            let after = state_after(events, m + 1, threshold).graph.edges;
            after.len() == before.len() + 1 && after.drop_last() == before && stands_for(
                after.last(),
                t,
                w,
                events[i].timestamp_ns,
                events[k].timestamp_ns,
            )
        }),
{
    let (a, b) = (events[i].timestamp_ns, events[k].timestamp_ns);
    let n = events.len() as int;
    let s = state_after(events, m, threshold);
    let end = state_after(events, n, threshold);
    let keys = pending_threads(end);
    lemma_held(events, threshold, t, w, i, j, k, m);
    super::lemma_counters(events, m, threshold);
    super::lemma_counters(events, n, threshold);
    super::lemma_sized(events, n, threshold);
    let list = super::lemma_list_exists(end.pending_edges.dom());
    assert(lists_pending(end, list)) by {
        assert forall|x: u32| #[trigger] list.contains(x) <==> end.pending_edges.contains_key(x) by {
            assert(list.contains(x) <==> end.pending_edges.dom().contains(x));
        }
    }
    super::lemma_pending_threads(end, list);
    assert forall|q: int| 0 <= q < keys.len() implies end.pending_edges[
        #[trigger] keys[q]
    ].window.valid() by {
        assert(keys.contains(keys[q]));
    }
    lemma_flushed_edges(end, keys, keys.len() as int);
    let all = correlated(events, threshold).0.edges;
    if m < n {
        let e = events[m];
        if e.event_type == 1 {
            law_spurious_wakeups_are_dropped(s, e, threshold);
        } else {
            law_exits_keep_the_last_wait(s, e, threshold, t);
        }
        let after = state_after(events, m + 1, threshold).graph.edges;
        let p = s.graph.edges.len() as int;
        assert(after.drop_last() =~= s.graph.edges);
        assert(stands_for(after[p], t, w, a, b));
        lemma_edges_stay(events, threshold, m + 1, n, p);
        assert(stands_for(all[p], t, w, a, b));
    } else {
        assert(keys.contains(t));
        let q = choose|q: int| 0 <= q < keys.len() && keys[q] == t;
        assert(stands_for(all[end.graph.edges.len() + q], t, w, a, b));
    }
}

/// A wait after which the thread sleeps again before the threshold has passed,
/// event `m`, leaves no edge: it is counted as filtered, once, whatever thread
/// runs next.
pub proof fn law_waits_in_vain_are_filtered(
    events: Seq<WperfEvent>,
    threshold: u64,
    t: u32,
    w: u32,
    i: int,
    j: int,
    k: int,
    m: int,
)
    requires
        is_wait(events, t, w, i, j, k),
        events[i].timestamp_ns <= events[k].timestamp_ns <= events[m].timestamp_ns,
        k < m < events.len(),
        forall|l: int| k < l < m ==> !leaves(#[trigger] events[l], t),
        events[m].event_type == 1,
        events[m].prev_tid == t,
        events[m].prev_state != 0,
        events[m].timestamp_ns - events[k].timestamp_ns < threshold,
    ensures
        ({
            let before = state_after(events, m, threshold);
            let after = state_after(events, m + 1, threshold);
            &&& after.graph == before.graph
            &&& after.stats.edges_created == before.stats.edges_created
            &&& after.stats.false_wakeup_filtered_count == before.stats.false_wakeup_filtered_count
                + 1
        }),
        correlated(events, threshold).1.false_wakeup_filtered_count >= 1,
{
    lemma_held(events, threshold, t, w, i, j, k, m);
    super::lemma_counters(events, m, threshold);
    law_spurious_wakeups_are_dropped(state_after(events, m, threshold), events[m], threshold);
    let end = state_after(events, events.len() as int, threshold);
    lemma_filtered_stays(events, threshold, m + 1, events.len() as int);
    super::lemma_filtered_through_flush(
        end,
        pending_threads(end),
        pending_threads(end).len() as int,
    );
}

proof fn lemma_filtered_stays(events: Seq<WperfEvent>, threshold: u64, n: int, m: int)
    requires
        0 <= n <= m <= events.len(),
    ensures
        state_after(events, n, threshold).stats.false_wakeup_filtered_count <= state_after(
            events,
            m,
            threshold,
        ).stats.false_wakeup_filtered_count,
    decreases m - n,
{
    if n < m {
        lemma_filtered_stays(events, threshold, n, m - 1);
    }
}

/// The thread sleeps after `n` events as `off_cpu` says.
spec fn sleeps_as_said(
    events: Seq<WperfEvent>,
    n: int,
    t: u32,
    out_ns: u64,
    waker: Option<u32>,
    i: int,
    j: int,
) -> bool {
    &&& 0 <= i < n <= events.len()
    &&& t != 0
    &&& puts_to_sleep(events[i], t)
    &&& events[i].timestamp_ns == out_ns
    &&& forall|m: int| i < m < n ==> !moves(#[trigger] events[m], t)
    &&& match waker {
        None => j == i,
        Some(w) => i < j < n && wakes(events[j], t) && events[j].prev_tid == w,
    }
    &&& forall|m: int| j < m < n ==> !wakes(#[trigger] events[m], t)
}

spec fn sleep_explained(events: Seq<WperfEvent>, n: int, s: CorrelationState, t: u32) -> bool {
    exists|i: int, j: int| #[trigger]
        sleeps_as_said(
            events,
            n,
            t,
            s.off_cpu[t].switch_out_ns,
            s.off_cpu[t].waker_tid,
            i,
            j,
        )
}

/// There is a wait, over before event `n`, with the given ends and times.
spec fn was_wait(events: Seq<WperfEvent>, n: int, t: u32, w: u32, i: int, j: int, k: int) -> bool {
    is_wait(events, t, w, i, j, k) && k < n
}

spec fn held_wait_explained(events: Seq<WperfEvent>, n: int, s: CorrelationState, t: u32) -> bool {
    exists|w: u32, i: int, j: int, k: int| #[trigger]
        was_wait(events, n, t, w, i, j, k) && holds_wait(
            s,
            t,
            w,
            events[i].timestamp_ns,
            events[k].timestamp_ns,
        )
}

/// The edge stands for a wait among the first `n` events.
pub open spec fn edge_explained(events: Seq<WperfEvent>, n: int, edge: WaitEdge) -> bool {
    exists|t: u32, w: u32, i: int, j: int, k: int| #[trigger]
        is_wait(events, t, w, i, j, k) && k < n && stands_for(
            edge,
            t,
            w,
            events[i].timestamp_ns,
            events[k].timestamp_ns,
        )
}

spec fn explained(events: Seq<WperfEvent>, n: int, s: CorrelationState) -> bool {
    &&& forall|t: u32| #[trigger] s.off_cpu.contains_key(t) ==> sleep_explained(events, n, s, t)
    &&& forall|t: u32| #[trigger]
        s.pending_edges.contains_key(t) ==> held_wait_explained(events, n, s, t)
    &&& forall|p: int|
        0 <= p < s.graph.edges.len() && (#[trigger] s.graph.edges[p]).weight.kind
            == EdgeKind::Normal && s.graph.edges[p].dst.0 != -5 ==> edge_explained(
            events,
            n,
            s.graph.edges[p],
        )
}

proof fn lemma_held_becomes_explained(
    events: Seq<WperfEvent>,
    n: int,
    s: CorrelationState,
    t: u32,
    edge: WaitEdge,
)
    requires
        s.pending_edges.contains_key(t),
        held_wait_explained(events, n, s, t),
        s.pending_edges[t].window.valid(),
        edge == observed(
            s.pending_edges[t].src,
            s.pending_edges[t].dst,
            s.pending_edges[t].window,
            s.pending_edges[t].wait_type,
        ),
    ensures
        edge_explained(events, n, edge),
        edge_explained(events, n + 1, edge),
{
    let (w, i, j, k) = choose|w: u32, i: int, j: int, k: int| #[trigger]
        was_wait(events, n, t, w, i, j, k) && holds_wait(
            s,
            t,
            w,
            events[i].timestamp_ns,
            events[k].timestamp_ns,
        );
    assert(is_wait(events, t, w, i, j, k) && stands_for(
        edge,
        t,
        w,
        events[i].timestamp_ns,
        events[k].timestamp_ns,
    ));
}

proof fn lemma_sleep_stays_explained(
    events: Seq<WperfEvent>,
    n: int,
    threshold: u64,
    s: CorrelationState,
    t: u32,
)
    requires
        0 <= n < events.len(),
        explained(events, n, s),
        step(s, events[n], threshold).off_cpu.contains_key(t),
    ensures
        sleep_explained(events, n + 1, step(s, events[n], threshold), t),
{
    let e = events[n];
    let after = step(s, e, threshold);
    let record = after.off_cpu[t];
    if puts_to_sleep(e, t) && t != 0 {
        law_switched_out_threads_sleep(s, e, threshold);
        assert(sleeps_as_said(events, n + 1, t, record.switch_out_ns, record.waker_tid, n, n));
    } else {
        assert(s.off_cpu.contains_key(t));
        let (i, j) = choose|i: int, j: int| #[trigger]
            sleeps_as_said(
                events,
                n,
                t,
                s.off_cpu[t].switch_out_ns,
                s.off_cpu[t].waker_tid,
                i,
                j,
            );
        assert(t != 0);
        assert(!moves(e, t));
        let last = if wakes(e, t) {
            n
        } else {
            j
        };
        assert forall|m: int| i < m < n + 1 implies !moves(#[trigger] events[m], t) by {
            if m < n {
                assert(!moves(events[m], t));
            }
        }
        assert forall|m: int| last < m < n + 1 implies !wakes(#[trigger] events[m], t) by {
            if m < n {
                assert(!wakes(events[m], t));
            }
        }
        assert(sleeps_as_said(events, n + 1, t, record.switch_out_ns, record.waker_tid, i, last));
    }
}

proof fn lemma_held_stays_explained(
    events: Seq<WperfEvent>,
    n: int,
    threshold: u64,
    s: CorrelationState,
    t: u32,
)
    requires
        0 <= n < events.len(),
        super::time_ordered(events),
        explained(events, n, s),
        step(s, events[n], threshold).pending_edges.contains_key(t),
    ensures
        held_wait_explained(events, n + 1, step(s, events[n], threshold), t),
{
    let e = events[n];
    let after = step(s, e, threshold);
    if e.event_type == 1 && e.next_tid == t && (e.prev_tid != t || e.prev_state == 0)
        && s.off_cpu.contains_key(t) && s.off_cpu[t].waker_tid is Some {
        let (i, j) = choose|i: int, j: int| #[trigger]
            sleeps_as_said(
                events,
                n,
                t,
                s.off_cpu[t].switch_out_ns,
                s.off_cpu[t].waker_tid,
                i,
                j,
            );
        assert(sleep_explained(events, n, s, t));
        assert(t != 0);
        let w = s.off_cpu[t].waker_tid->0;
        assert(events[i].timestamp_ns <= events[n].timestamp_ns);
        law_switched_in_threads_waited(s, e, threshold);
        assert(is_wait(events, t, w, i, j, n));
        assert(was_wait(events, n + 1, t, w, i, j, n));
        assert(holds_wait(after, t, w, events[i].timestamp_ns, events[n].timestamp_ns));
    } else {
        assert(s.pending_edges.contains_key(t) && after.pending_edges[t] == s.pending_edges[t]);
        assert(held_wait_explained(events, n, s, t));
        let (w, i, j, k) = choose|w: u32, i: int, j: int, k: int| #[trigger]
            was_wait(events, n, t, w, i, j, k) && holds_wait(
                s,
                t,
                w,
                events[i].timestamp_ns,
                events[k].timestamp_ns,
            );
        assert(was_wait(events, n + 1, t, w, i, j, k));
        assert(holds_wait(after, t, w, events[i].timestamp_ns, events[k].timestamp_ns));
    }
}

proof fn lemma_edge_stays_explained(events: Seq<WperfEvent>, n: int, edge: WaitEdge)
    requires
        edge_explained(events, n, edge),
    ensures
        edge_explained(events, n + 1, edge),
{
    let (t, w, i, j, k) = choose|t: u32, w: u32, i: int, j: int, k: int| #[trigger]
        is_wait(events, t, w, i, j, k) && k < n && stands_for(
            edge,
            t,
            w,
            events[i].timestamp_ns,
            events[k].timestamp_ns,
        );
    assert(is_wait(events, t, w, i, j, k));
}

proof fn lemma_step_explained(
    events: Seq<WperfEvent>,
    n: int,
    threshold: u64,
    s: CorrelationState,
)
    requires
        0 <= n < events.len(),
        super::time_ordered(events),
        super::windows_known(s),
        explained(events, n, s),
    ensures
        explained(events, n + 1, step(s, events[n], threshold)),
{
    let e = events[n];
    let after = step(s, e, threshold);
    assert forall|t: u32| #[trigger] after.off_cpu.contains_key(t) implies sleep_explained(
        events,
        n + 1,
        after,
        t,
    ) by {
        lemma_sleep_stays_explained(events, n, threshold, s, t);
    }
    assert forall|t: u32| #[trigger] after.pending_edges.contains_key(t) implies held_wait_explained(
        events,
        n + 1,
        after,
        t,
    ) by {
        lemma_held_stays_explained(events, n, threshold, s, t);
    }
    assert forall|p: int|
        0 <= p < after.graph.edges.len() && (#[trigger] after.graph.edges[p]).weight.kind
            == EdgeKind::Normal && after.graph.edges[p].dst.0 != -5 implies edge_explained(
        events,
        n + 1,
        after.graph.edges[p],
    ) by {
        if p < s.graph.edges.len() {
            assert(after.graph.edges[p] == s.graph.edges[p]);
            lemma_edge_stays_explained(events, n, s.graph.edges[p]);
        } else if e.event_type == 1 {
            law_spurious_wakeups_are_dropped(s, e, threshold);
            assert(held_wait_explained(events, n, s, e.prev_tid));
            lemma_held_becomes_explained(events, n, s, e.prev_tid, after.graph.edges[p]);
        } else if e.event_type == 4 {
            law_exits_keep_the_last_wait(s, e, threshold, 0);
            assert(held_wait_explained(events, n, s, e.tid));
            lemma_held_becomes_explained(events, n, s, e.tid, after.graph.edges[p]);
        }
    }
}

proof fn lemma_all_explained(events: Seq<WperfEvent>, n: int, threshold: u64)
    requires
        0 <= n <= events.len(),
        super::time_ordered(events),
    ensures
        explained(events, n, state_after(events, n, threshold)),
    decreases n,
{
    if n > 0 {
        lemma_all_explained(events, n - 1, threshold);
        super::lemma_counters(events, n - 1, threshold);
        lemma_step_explained(events, n - 1, threshold, state_after(events, n - 1, threshold));
    }
}

/// Nothing is made up: every edge between threads stands for a wait that the
/// events show, over the time that they show.
pub proof fn law_edges_stand_for_waits(events: Seq<WperfEvent>, threshold: u64, p: int)
    requires
        super::time_ordered(events),
        0 <= p < correlated(events, threshold).0.edges.len(),
        correlated(events, threshold).0.edges[p].weight.kind == EdgeKind::Normal,
        correlated(events, threshold).0.edges[p].dst.0 != -5,
    ensures
        edge_explained(events, events.len() as int, correlated(events, threshold).0.edges[p]),
{
    let n = events.len() as int;
    let end = state_after(events, n, threshold);
    let keys = pending_threads(end);
    lemma_all_explained(events, n, threshold);
    super::lemma_counters(events, n, threshold);
    super::lemma_sized(events, n, threshold);
    let list = super::lemma_list_exists(end.pending_edges.dom());
    assert(lists_pending(end, list)) by {
        assert forall|x: u32| #[trigger] list.contains(x) <==> end.pending_edges.contains_key(x) by {
            assert(list.contains(x) <==> end.pending_edges.dom().contains(x));
        }
    }
    super::lemma_pending_threads(end, list);
    assert forall|q: int| 0 <= q < keys.len() implies end.pending_edges[
        #[trigger] keys[q]
    ].window.valid() by {
        assert(keys.contains(keys[q]));
    }
    lemma_flushed_edges(end, keys, keys.len() as int);
    let all = correlated(events, threshold).0.edges;
    if p < end.graph.edges.len() {
        assert(all[p] == end.graph.edges[p]);
    } else {
        let q = p - end.graph.edges.len();
        assert(keys.contains(keys[q]));
        lemma_held_becomes_explained(events, n, end, keys[q], all[p]);
    }
}

/// The figures at the end: what was never completed is counted as pending.
pub proof fn law_pending_requests_are_counted(events: Seq<WperfEvent>, threshold: u64)
    ensures
        correlated(events, threshold).1.io_pending_at_end_count == state_after(
            events,
            events.len() as int,
            threshold,
        ).pending_io.dom().len(),
{
}

/// The thread called into a futex wait, event `f`, before event `i` takes it to
/// sleep: no other such call and no sleep or exit of it comes in between.
pub open spec fn calls_before_sleep(events: Seq<WperfEvent>, t: u32, f: int, i: int) -> bool {
    &&& 0 <= f < i < events.len()
    &&& events[f].event_type == 5
    &&& events[f].tid == t
    &&& forall|m: int|
        f < m < i ==> {
            &&& !((#[trigger] events[m]).event_type == 5 && events[m].tid == t)
            &&& !(events[m].event_type == 1 && events[m].prev_tid == t && events[m].prev_state != 0)
            &&& !(events[m].event_type == 4 && events[m].tid == t)
        }
}

proof fn lemma_call_noted(events: Seq<WperfEvent>, threshold: u64, t: u32, f: int, i: int, n: int)
    requires
        t != 0,
        calls_before_sleep(events, t, f, i),
        f < n <= i,
    ensures
        ({
            let s = state_after(events, n, threshold);
            &&& s.pending_futex.contains_key(t)
            &&& s.pending_futex[t] == step(
                state_after(events, f, threshold),
                events[f],
                threshold,
            ).pending_futex[t]
        }),
    decreases n - f,
{
    if n > f + 1 {
        lemma_call_noted(events, threshold, t, f, i, n - 1);
        let e = events[n - 1];
        assert(!(e.event_type == 5 && e.tid == t));
    } else {
        law_futex_calls_are_noted(state_after(events, f, threshold), events[f], threshold, t);
    }
}

/// A futex call tells what the wait that follows it is for: if the thread goes to
/// sleep within a millisecond after the call, the edge of that wait carries the
/// operation of the call. `m` is when the wait becomes an edge, as in
/// [`law_waits_become_edges`].
pub proof fn law_futex_calls_tell_the_wait(
    events: Seq<WperfEvent>,
    threshold: u64,
    t: u32,
    w: u32,
    f: int,
    i: int,
    j: int,
    k: int,
    m: int,
)
    requires
        is_wait(events, t, w, i, j, k),
        calls_before_sleep(events, t, f, i),
        events[i].timestamp_ns <= events[k].timestamp_ns,
        k < m < events.len(),
        forall|l: int| k < l < m ==> !leaves(#[trigger] events[l], t),
        leaves(events[m], t) && (events[m].event_type == 4 || events[m].prev_state == 0
            || events[m].timestamp_ns >= events[k].timestamp_ns + threshold),
    ensures
        ({
            let told = state_after(events, m + 1, threshold).graph.edges.last().weight.wait_type;
            let op = events[f].flags;
            let soon = events[i].timestamp_ns <= events[f].timestamp_ns + 1_000_000;
            &&& soon && op == 0 ==> told == Some(WaitType::FutexWait)
            &&& soon && op == 6 ==> told == Some(WaitType::FutexLockPi)
            &&& soon && op == 9 ==> told == Some(WaitType::FutexWaitBitset)
            &&& soon && op == 11 ==> told == Some(WaitType::FutexWaitRequeuePi)
            &&& soon && op != 0 && op != 6 && op != 9 && op != 11 ==> told == Some(
                WaitType::Unknown,
            )
            &&& !soon ==> told is None
        }),
{
    lemma_call_noted(events, threshold, t, f, i, i);
    law_futex_calls_are_noted(state_after(events, f, threshold), events[f], threshold, t);
    law_switched_out_threads_sleep(state_after(events, i, threshold), events[i], threshold);
    lemma_held(events, threshold, t, w, i, j, k, m);
    super::lemma_counters(events, m, threshold);
    let s = state_after(events, m, threshold);
    if events[m].event_type == 1 {
        law_spurious_wakeups_are_dropped(s, events[m], threshold);
    } else {
        law_exits_keep_the_last_wait(s, events[m], threshold, t);
    }
}

/// Two block events name the same device, sector and number of sectors.
pub open spec fn same_request(a: WperfEvent, b: WperfEvent) -> bool {
    &&& a.prev_pid == b.prev_pid
    &&& a.prev_tid == b.prev_tid
    &&& a.next_tid == b.next_tid
    &&& a.next_pid == b.next_pid
}

proof fn lemma_request_pending(events: Seq<WperfEvent>, threshold: u64, i: int, n: int)
    requires
        0 <= i < n <= events.len(),
        events[i].event_type == 6,
        forall|m: int|
            i < m < n && ((#[trigger] events[m]).event_type == 6 || events[m].event_type == 7)
                ==> !same_request(events[m], events[i]),
    ensures
        ({
            let s = state_after(events, n, threshold);
            let key = event_io_key(events[i]);
            &&& s.pending_io.contains_key(key)
            &&& s.pending_io[key].issue_ns == events[i].timestamp_ns
            &&& s.pending_io[key].tid == events[i].tid
        }),
    decreases n - i,
{
    if n > i + 1 {
        lemma_request_pending(events, threshold, i, n - 1);
        law_requests_are_told_apart(events[n - 1], events[i]);
    } else {
        law_issued_requests_are_pending(
            state_after(events, i, threshold),
            events[i],
            threshold,
            events[i],
        );
    }
}

/// Every block request that is issued, event `i`, and completed, event `k`, is a
/// wait of the thread that issued it for the disk, followed by the way back.
pub proof fn law_requests_become_edges(events: Seq<WperfEvent>, threshold: u64, i: int, k: int)
    requires
        0 <= i < k < events.len(),
        events[i].event_type == 6,
        events[k].event_type == 7,
        same_request(events[k], events[i]),
        events[i].timestamp_ns <= events[k].timestamp_ns,
        forall|m: int|
            i < m < k && ((#[trigger] events[m]).event_type == 6 || events[m].event_type == 7)
                ==> !same_request(events[m], events[i]),
    ensures
        ({
            let before = state_after(events, k, threshold).graph.edges;
            let all = correlated(events, threshold).0.edges;
            let there = all[before.len() as int];
            let back = all[before.len() as int + 1];
            let from = events[i].timestamp_ns as int;
            let to = events[k].timestamp_ns as int;
            &&& before.len() + 1 < all.len()
            &&& there.src == ThreadId(events[i].tid as i64)
            &&& there.dst.0 == -5
            &&& there.weight.kind == EdgeKind::Normal
            &&& there.weight.wait_type == Some(WaitType::IoBlock)
            &&& there.weight.time_window.start_ms == from / 1_000_000
            &&& there.weight.time_window.end_ms == from / 1_000_000 + (to - from) / 1_000_000
            &&& there.weight.raw_wait_ms == (to - from) / 1_000_000
            &&& back.src.0 == -5
            &&& back.dst == there.src
            &&& back.weight.kind == EdgeKind::SyntheticClosureReturn
            &&& back.weight.time_window == there.weight.time_window
        }),
{
    let n = events.len() as int;
    let s = state_after(events, k, threshold);
    let after = state_after(events, k + 1, threshold).graph.edges;
    let p = s.graph.edges.len() as int;
    lemma_request_pending(events, threshold, i, k);
    law_requests_are_told_apart(events[k], events[i]);
    law_completed_requests_are_waits(s, events[k], threshold, events[i]);
    lemma_edges_stay(events, threshold, k + 1, n, p);
    lemma_edges_stay(events, threshold, k + 1, n, p + 1);
    let end = state_after(events, n, threshold);
    let keys = pending_threads(end);
    super::lemma_counters(events, n, threshold);
    super::lemma_sized(events, n, threshold);
    let list = super::lemma_list_exists(end.pending_edges.dom());
    assert(lists_pending(end, list)) by {
        assert forall|x: u32| #[trigger] list.contains(x) <==> end.pending_edges.contains_key(x) by {
            assert(list.contains(x) <==> end.pending_edges.dom().contains(x));
        }
    }
    super::lemma_pending_threads(end, list);
    assert forall|q: int| 0 <= q < keys.len() implies end.pending_edges[
        #[trigger] keys[q]
    ].window.valid() by {
        assert(keys.contains(keys[q]));
    }
    lemma_flushed_edges(end, keys, keys.len() as int);
    let all = correlated(events, threshold).0.edges;
    assert(all[p] == after[p] && all[p + 1] == after[p + 1]);
}

} // verus!
