//! Cascade redistribution engine.
//!
//! Each edge is taken on its own: what deeper threads explain of its wait is
//! propagated to them, and the rest, the attributed delay, is the direct fault
//! of the thread waited for.

use std::collections::BTreeSet;

use vstd::prelude::*;

use crate::graph::sweep::{
    covered, lemma_covered_bound, lemma_partition_is_ordered, partition, sweep_line_partition,
};
use crate::graph::types::{
    EdgeKind, EdgeWeight, ElementaryInterval, IntervalView, ThreadId, TimeWindow,
};
use crate::graph::wfg::{
    edges_at, is_tid_order, lemma_edges_at, reset_edge, tid_order, EdgeIndex, WaitEdge,
    WaitForGraph,
};
use crate::sorting::{
    insert_ranked, lemma_insert_ranked, lemma_sorted_unique, sort_dedup, sorted,
};

use super::invariants::{
    lemma_same_waits, non_amplified, same_waits, verify_engine_postconditions, InvariantError,
};

verus! {

broadcast use vstd::std_specs::btree::group_btree_axioms;

/// How deep a cascade goes when no depth is given.
pub const DEFAULT_MAX_DEPTH: u32 = 10;

// ---------------------------------------------------------------------------
// The mathematical model
// ---------------------------------------------------------------------------

/// `e` is an observed wait for `target` that overlaps `window`.
pub open spec fn waits_for(e: WaitEdge, target: ThreadId, window: TimeWindow) -> bool {
    e.dst == target && e.weight.kind == EdgeKind::Normal && e.weight.time_window.meet(
        window,
    ) is Some
}

/// The threads that wait for `target` during `window`, ascending.
pub open spec fn waiters(edges: Seq<WaitEdge>, target: ThreadId, window: TimeWindow) -> Seq<
    ThreadId,
>
    decreases edges.len(),
{
    if edges.len() == 0 {
        Seq::empty()
    } else {
        let before = waiters(edges.drop_last(), target, window);
        if waits_for(edges.last(), target, window) {
            insert_ranked(before, edges.last().src)
        } else {
            before
        }
    }
}

/// Among how many threads a wait for `target` during `window` is shared.
pub open spec fn sharers(edges: Seq<WaitEdge>, target: ThreadId, window: TimeWindow) -> int {
    let n = waiters(edges, target, window).len() as int;
    if n == 0 {
        1
    } else {
        n
    }
}

/// What `current` passes on of the wait `window`, and what it keeps.
///
/// `levels` bounds how deep the cascade still goes; threads on `path` are not
/// entered again.
pub open spec fn cascade(
    edges: Seq<WaitEdge>,
    current: ThreadId,
    window: TimeWindow,
    levels: nat,
    path: Set<i64>,
) -> (int, int)
    decreases levels, 2int, 0int,
{
    let parts = partition(edges, current, window);
    if levels == 0 || path.contains(current.0) || parts.len() == 0 {
        (0, window.span())
    } else {
        let rest = window.span() - covered(parts, parts.len() as int);
        (
            pushed_by_slices(edges, parts, parts.len() as int, levels, path.insert(current.0)),
            if rest > 0 {
                rest
            } else {
                0
            },
        )
    }
}

/// What the first `n` slices pass on.
pub open spec fn pushed_by_slices(
    edges: Seq<WaitEdge>,
    parts: Seq<IntervalView>,
    n: int,
    levels: nat,
    path: Set<i64>,
) -> int
    decreases levels, 1int, n,
{
    if n <= 0 {
        0
    } else {
        pushed_by_slices(edges, parts, n - 1, levels, path) + pushed_to_targets(
            edges,
            parts[n - 1],
            parts[n - 1].targets.len() as int,
            levels,
            path,
        )
    }
}

/// What one slice passes on to its first `k` targets: to each what the target
/// absorbs, divided among the targets and among those that wait for it.
pub open spec fn pushed_to_targets(
    edges: Seq<WaitEdge>,
    slice: IntervalView,
    k: int,
    levels: nat,
    path: Set<i64>,
) -> int
    decreases levels, 0int, k,
{
    if k <= 0 || levels == 0 {
        0
    } else {
        let target = slice.targets[k - 1];
        let child = cascade(edges, target, slice.window, (levels - 1) as nat, path);
        pushed_to_targets(edges, slice, k - 1, levels, path) + (child.0 + child.1)
            / slice.targets.len() as int / sharers(edges, target, slice.window)
    }
}

/// What deeper threads explain of the wait of edge `e`.
pub open spec fn propagated(edges: Seq<WaitEdge>, e: int, max_depth: nat) -> int {
    cascade(
        edges,
        edges[e].dst,
        edges[e].weight.time_window,
        if max_depth == 0 {
            0
        } else {
            (max_depth - 1) as nat
        },
        Set::empty().insert(edges[e].src.0),
    ).0
}

/// What remains the direct fault of the thread waited for.
pub open spec fn attributed(edges: Seq<WaitEdge>, e: int, max_depth: nat) -> int {
    let rest = edges[e].weight.raw_wait_ms - propagated(edges, e, max_depth);
    if rest > 0 {
        rest
    } else {
        0
    }
}

/// Edge `e` after the cascade.
pub open spec fn cascaded_edge(edges: Seq<WaitEdge>, e: int, max_depth: nat) -> WaitEdge {
    WaitEdge {
        weight: EdgeWeight {
            attributed_delay_ms: attributed(edges, e, max_depth) as u64,
            ..reset_edge(edges[e]).weight
        },
        ..reset_edge(edges[e])
    }
}

/// The edges after the cascade.
pub open spec fn cascaded(edges: Seq<WaitEdge>, max_depth: nat) -> Seq<WaitEdge> {
    Seq::new(edges.len(), |e: int| cascaded_edge(edges, e, max_depth))
}

/// Every raw wait is as long as its window.
pub open spec fn waits_fill_windows(edges: Seq<WaitEdge>) -> bool {
    forall|e: int|
        0 <= e < edges.len() ==> (#[trigger] edges[e]).weight.raw_wait_ms
            == edges[e].weight.time_window.span()
}

/// The depth that applies when `max_depth` is given.
pub open spec fn depth_or_default(max_depth: Option<u32>) -> nat {
    match max_depth {
        Some(d) => d as nat,
        None => DEFAULT_MAX_DEPTH as nat,
    }
}

// ---------------------------------------------------------------------------
// The engine
// ---------------------------------------------------------------------------

/// Runs the cascade: each edge's attributed delay becomes what deeper threads
/// do not explain of its raw wait.
///
/// Fails exactly if some raw wait is not as long as its window, with the
/// outcome of the checks on the result.
pub fn cascade_engine(graph: &WaitForGraph, max_depth: Option<u32>) -> (r: Result<
    WaitForGraph,
    InvariantError,
>)
    requires
        graph.wf(),
        graph@.windows_valid(),
    ensures
        r is Ok <==> waits_fill_windows(graph@.edges),
        r matches Ok(g) ==> {
            &&& g.wf()
            &&& is_tid_order(graph@.nodes, tid_order(graph@.nodes))
            &&& g@.nodes == tid_order(graph@.nodes).map_values(|i: int| graph@.nodes[i])
            &&& g@.edges == cascaded(graph@.edges, depth_or_default(max_depth))
        },
        r matches Err(e) ==> {
            &&& e.i2_ok == non_amplified(cascaded(graph@.edges, depth_or_default(max_depth)))
            &&& !e.i7_ok
        },
{
    let depth: u32 = match max_depth {
        Some(d) => d,
        None => DEFAULT_MAX_DEPTH,
    };
    let mut result = graph.clone_with_reset_attribution();
    let ghost edges = graph@.edges;
    let ghost target = cascaded(edges, depth as nat);
    let n: usize = graph.edge_count();
    proof {
        graph.lemma_wf();
    }
    for e in 0..n
        invariant
            graph.wf(),
            graph@.windows_valid(),
            edges == graph@.edges,
            n == edges.len(),
            n <= u32::MAX,
            target == cascaded(edges, depth as nat),
            result.wf(),
            result@.nodes == tid_order(graph@.nodes).map_values(|i: int| graph@.nodes[i]),
            result@.edges.len() == n,
            forall|k: int| 0 <= k < e ==> #[trigger] result@.edges[k] == target[k],
            forall|k: int| e <= k < n ==> #[trigger] result@.edges[k] == reset_edge(edges[k]),
    {
        let idx = EdgeIndex(e as u32);
        let (src, dst, weight) = graph.edge(idx);
        let mut path: BTreeSet<i64> = BTreeSet::new();
        path.insert(src.0);
        proof {
            assert(path@ =~= Set::empty().insert(src.0));
            assert(edges[e as int].weight.time_window.valid());
            lemma_cascade_bound(
                edges,
                dst,
                weight.time_window,
                if depth == 0 {
                    0
                } else {
                    (depth - 1) as nat
                },
                path@,
            );
        }
        let (pushed, _kept) = compute_cascade(graph, dst, &weight.time_window, 1, depth, &mut path);
        let attributed_ms: u64 = weight.raw_wait_ms.saturating_sub(pushed);
        assert(result@.edges[e as int] == reset_edge(edges[e as int]));
        let w = result.edge_weight_mut(idx);
        w.attributed_delay_ms = attributed_ms;
        assert(result@.edges[e as int] == target[e as int]);
    }
    proof {
        assert(result@.edges =~= target);
        lemma_cascade_checks(edges, depth as nat);
    }
    match verify_engine_postconditions(graph, &result) {
        Ok(()) => Ok(result),
        Err(err) => Err(err),
    }
}

/// Follows the wait `window` for `current` into deeper threads.
///
/// Returns what is passed on to them and what `current` keeps.
fn compute_cascade(
    graph: &WaitForGraph,
    current: ThreadId,
    window: &TimeWindow,
    depth: u32,
    max_depth: u32,
    path: &mut BTreeSet<i64>,
) -> (r: (u64, u64))
    requires
        graph.wf(),
        window.valid(),
    ensures
        ({
            let levels: nat = if depth < max_depth {
                (max_depth - depth) as nat
            } else {
                0
            };
            (r.0 as int, r.1 as int) == cascade(
                graph@.edges,
                current,
                *window,
                levels,
                old(path)@,
            )
        }),
        r.0 + r.1 <= window.span(),
        final(path)@ == old(path)@,
    decreases max_depth - depth,
{
    let ghost edges = graph@.edges;
    let ghost levels: nat = if depth < max_depth {
        (max_depth - depth) as nat
    } else {
        0
    };
    let ghost outer = path@;
    proof {
        lemma_cascade_bound(edges, current, *window, levels, outer);
    }
    if depth >= max_depth || path.contains(&current.0) {
        return (0, window.duration());
    }
    let intervals = sweep_line_partition(graph, current, window);
    let ghost parts = partition(edges, current, *window);
    if intervals.len() == 0 {
        assert(parts.len() == 0);
        return (0, window.duration());
    }
    path.insert(current.0);
    let ghost inner = outer.insert(current.0);
    let mut total_propagated: u64 = 0;
    let mut coverage: u64 = 0;
    proof {
        lemma_partition_is_ordered(edges, current, *window);
    }
    for i in 0..intervals.len()
        invariant
            graph.wf(),
            window.valid(),
            edges == graph@.edges,
            depth < max_depth,
            levels == max_depth - depth,
            parts == partition(edges, current, *window),
            parts == intervals@.map_values(|i: ElementaryInterval| i@),
            forall|k: int|
                0 <= k < parts.len() ==> (#[trigger] parts[k]).window.start_ms
                    < parts[k].window.end_ms && parts[k].targets.len() > 0,
            path@ == inner,
            total_propagated == pushed_by_slices(edges, parts, i as int, levels, inner),
            coverage == covered(parts, i as int),
    {
        let interval = &intervals[i];
        let ghost slice = parts[i as int];
        assert(interval@ == slice);
        proof {
            lemma_covered_bound(edges, current, *window, i + 1);
            lemma_slices_bound(edges, current, *window, parts, i as int, levels, inner);
        }
        coverage = coverage + interval.window.duration();
        let target_count: u64 = interval.targets.len() as u64;
        let ghost base = total_propagated as int;
        for k in 0..interval.targets.len()
            invariant
                graph.wf(),
                window.valid(),
                edges == graph@.edges,
                depth < max_depth,
                levels == max_depth - depth,
                interval@ == slice,
                slice.window.start_ms < slice.window.end_ms,
                target_count == slice.targets.len(),
                target_count > 0,
                path@ == inner,
                base + slice.window.span() <= u64::MAX,
                total_propagated == base + pushed_to_targets(edges, slice, k as int, levels, inner),
        {
            let next_node = interval.targets[k];
            let (prop_down, child_blame) = compute_cascade(
                graph,
                next_node,
                &interval.window,
                depth + 1,
                max_depth,
                path,
            );
            let child_absorbed: u64 = prop_down + child_blame;
            let external_waiters: u64 = count_concurrent_waiters(
                graph,
                next_node,
                &interval.window,
            );
            let transfer: u64 = child_absorbed / target_count / external_waiters;
            proof {
                lemma_targets_bound(edges, slice, k + 1, levels, inner);
            }
            total_propagated = total_propagated + transfer;
        }
    }
    path.remove(&current.0);
    proof {
        assert(path@ =~= outer);
        assert(parts.len() == intervals@.len());
    }
    let self_blame: u64 = window.duration().saturating_sub(coverage);
    (total_propagated, self_blame)
}

/// Among how many threads a wait for `target` during `window` is shared.
fn count_concurrent_waiters(graph: &WaitForGraph, target: ThreadId, window: &TimeWindow) -> (n: u64)
    requires
        graph.wf(),
    ensures
        n == sharers(graph@.edges, target, *window),
        n > 0,
{
    let ghost edges = graph@.edges;
    let node_idx = match graph.node_index(&target) {
        Some(idx) => idx,
        None => {
            proof {
                graph.lemma_wf();
                assert forall|t: ThreadId| !is_waiter(edges, target, *window, t) by {
                    if is_waiter(edges, target, *window, t) {
                        let e = choose|e: int|
                            0 <= e < edges.len() && waits_for(#[trigger] edges[e], target, *window)
                                && edges[e].src == t;
                        assert(graph@.has(edges[e].dst));
                    }
                }
                lemma_waiters(edges, target, *window);
                if waiters(edges, target, *window).len() > 0 {
                    let t = waiters(edges, target, *window)[0];
                    assert(waiters(edges, target, *window).contains(t));
                }
            }
            return 1;
        },
    };
    let incoming = graph.incoming_edges(node_idx);
    let ghost at = edges_at(edges, target, false);
    proof {
        lemma_edges_at(edges, target, false);
    }
    let mut sources: Vec<ThreadId> = Vec::new();
    for k in 0..incoming.len()
        invariant
            edges == graph@.edges,
            at == edges_at(edges, target, false),
            incoming@.len() == at.len(),
            forall|i: int|
                0 <= i < incoming@.len() ==> (#[trigger] incoming@[i]).0.0 == at[i] && 0 <= at[i]
                    < edges.len() && incoming@[i].1 == edges[at[i]].src && *incoming@[i].2
                    == edges[at[i]].weight,
            forall|i: int| 0 <= i < at.len() ==> edges[#[trigger] at[i]].dst == target,
            forall|s: int|
                0 <= s < sources@.len() ==> is_waiter(edges, target, *window, #[trigger] sources@[s]),
            forall|i: int|
                0 <= i < k && waits_for(edges[#[trigger] at[i]], target, *window)
                    ==> sources@.contains(edges[at[i]].src),
    {
        let (_, src, weight) = incoming[k];
        let ghost before = sources@;
        proof {
            assert(incoming@[k as int].0.0 == at[k as int]);
            assert(edges[at[k as int]].dst == target);
        }
        let observed = match weight.kind {
            EdgeKind::SyntheticClosureReturn => false,
            EdgeKind::Normal => true,
        };
        if observed && weight.time_window.overlap(window).is_some() {
            proof {
                assert(waits_for(edges[at[k as int]], target, *window));
                assert(is_waiter(edges, target, *window, src));
            }
            sources.push(src);
            assert(sources@[before.len() as int] == src);
        }
        proof {
            assert forall|t: ThreadId| before.contains(t) implies sources@.contains(t) by {
                let f = choose|f: int| 0 <= f < before.len() && before[f] == t;
                assert(sources@[f] == t);
            }
        }
    }
    let distinct = sort_dedup(&sources);
    proof {
        lemma_waiters(edges, target, *window);
        let list = waiters(edges, target, *window);
        assert forall|t: ThreadId| distinct@.contains(t) <==> list.contains(t) by {
            if distinct@.contains(t) {
                assert(sources@.contains(t));
                let s = choose|s: int| 0 <= s < sources@.len() && sources@[s] == t;
                assert(is_waiter(edges, target, *window, sources@[s]));
            }
            if list.contains(t) {
                assert(is_waiter(edges, target, *window, t));
                let e = choose|e: int|
                    0 <= e < edges.len() && waits_for(#[trigger] edges[e], target, *window)
                        && edges[e].src == t;
                assert(at.contains(e));
                let i = choose|i: int| 0 <= i < at.len() && at[i] == e;
                assert(waits_for(edges[at[i]], target, *window));
            }
        }
        lemma_sorted_unique(distinct@, list);
    }
    if distinct.len() == 0 {
        1
    } else {
        distinct.len() as u64
    }
}

// ---------------------------------------------------------------------------
// Lemmas
// ---------------------------------------------------------------------------

/// The thread `t` waits for `target` during `window`.
pub open spec fn is_waiter(
    edges: Seq<WaitEdge>,
    target: ThreadId,
    window: TimeWindow,
    t: ThreadId,
) -> bool {
    exists|e: int|
        0 <= e < edges.len() && waits_for(#[trigger] edges[e], target, window) && edges[e].src == t
}

/// The waiters are listed in ascending order without repetitions.
pub proof fn lemma_waiters(edges: Seq<WaitEdge>, target: ThreadId, window: TimeWindow)
    ensures
        sorted(waiters(edges, target, window)),
        waiters(edges, target, window).no_duplicates(),
        forall|t: ThreadId| #[trigger]
            waiters(edges, target, window).contains(t) <==> is_waiter(edges, target, window, t),
    decreases edges.len(),
{
    let all = waiters(edges, target, window);
    if edges.len() > 0 {
        let front = edges.drop_last();
        let before = waiters(front, target, window);
        lemma_waiters(front, target, window);
        let active = waits_for(edges.last(), target, window);
        if active {
            lemma_insert_ranked(before, edges.last().src);
        }
        assert forall|t: ThreadId| #[trigger] all.contains(t) <==> is_waiter(
            edges,
            target,
            window,
            t,
        ) by {
            let here = active && edges.last().src == t;
            assert(all.contains(t) <==> before.contains(t) || here) by {
                if active {
                    assert(insert_ranked(before, edges.last().src).contains(t) <==> before.contains(
                        t,
                    ) || t == edges.last().src);
                }
            }
            if is_waiter(front, target, window, t) {
                let e = choose|e: int|
                    0 <= e < front.len() && waits_for(#[trigger] front[e], target, window)
                        && front[e].src == t;
                assert(edges[e] == front[e]);
            }
            if here {
                assert(edges[edges.len() - 1] == edges.last());
            }
            if is_waiter(edges, target, window, t) && !here {
                let e = choose|e: int|
                    0 <= e < edges.len() && waits_for(#[trigger] edges[e], target, window)
                        && edges[e].src == t;
                assert(e < edges.len() - 1);
                assert(front[e] == edges[e]);
            }
        }
    } else {
        assert(forall|t: ThreadId| !all.contains(t));
    }
}

/// A thread passes on and keeps no more than it was waited for: what is
/// propagated and what is kept add up to at most the window.
pub proof fn lemma_cascade_bound(
    edges: Seq<WaitEdge>,
    current: ThreadId,
    window: TimeWindow,
    levels: nat,
    path: Set<i64>,
)
    requires
        window.valid(),
    ensures
        0 <= cascade(edges, current, window, levels, path).0,
        0 <= cascade(edges, current, window, levels, path).1,
        cascade(edges, current, window, levels, path).0 + cascade(
            edges,
            current,
            window,
            levels,
            path,
        ).1 <= window.span(),
    decreases levels, 2int, 0int,
{
    let parts = partition(edges, current, window);
    if !(levels == 0 || path.contains(current.0) || parts.len() == 0) {
        let n = parts.len() as int;
        lemma_covered_bound(edges, current, window, n);
        lemma_slices_bound(edges, current, window, parts, n, levels, path.insert(current.0));
    }
}

proof fn lemma_slices_bound(
    edges: Seq<WaitEdge>,
    current: ThreadId,
    window: TimeWindow,
    parts: Seq<IntervalView>,
    n: int,
    levels: nat,
    path: Set<i64>,
)
    requires
        window.valid(),
        parts == partition(edges, current, window),
        0 <= n <= parts.len(),
    ensures
        0 <= pushed_by_slices(edges, parts, n, levels, path) <= covered(parts, n),
    decreases levels, 1int, n,
{
    if n > 0 {
        lemma_slices_bound(edges, current, window, parts, n - 1, levels, path);
        lemma_partition_is_ordered(edges, current, window);
        let slice = parts[n - 1];
        assert(slice.targets.len() > 0 && slice.window.valid());
        lemma_targets_bound(edges, slice, slice.targets.len() as int, levels, path);
    }
}

proof fn lemma_targets_bound(
    edges: Seq<WaitEdge>,
    slice: IntervalView,
    k: int,
    levels: nat,
    path: Set<i64>,
)
    requires
        slice.window.valid(),
        0 <= k <= slice.targets.len(),
        slice.targets.len() > 0,
    ensures
        0 <= pushed_to_targets(edges, slice, k, levels, path) <= k * (slice.window.span()
            / slice.targets.len() as int),
        pushed_to_targets(edges, slice, k, levels, path) <= slice.window.span(),
    decreases levels, 0int, k,
{
    let n = slice.targets.len() as int;
    let span = slice.window.span();
    let share = span / n;
    assert(0 <= share && n * share <= span) by (nonlinear_arith)
        requires
            n > 0,
            span >= 0,
            share == span / n,
    ;
    if k > 0 && levels > 0 {
        lemma_targets_bound(edges, slice, k - 1, levels, path);
        let target = slice.targets[k - 1];
        lemma_cascade_bound(edges, target, slice.window, (levels - 1) as nat, path);
        let child = cascade(edges, target, slice.window, (levels - 1) as nat, path);
        let absorbed = child.0 + child.1;
        let w = sharers(edges, target, slice.window);
        let part = absorbed / n;
        assert(0 <= part <= share) by (nonlinear_arith)
            requires
                n > 0,
                0 <= absorbed <= span,
                part == absorbed / n,
                share == span / n,
        ;
        assert(0 <= part / w <= part) by (nonlinear_arith)
            requires
                part >= 0,
                w >= 1,
        ;
        assert(k * share == (k - 1) * share + share) by (nonlinear_arith);
    }
    assert(0 <= k * share <= n * share) by (nonlinear_arith)
        requires
            0 <= k <= n,
            0 <= share,
    ;
}

/// On a graph whose raw waits fill their windows the cascade passes its checks.
proof fn lemma_cascade_checks(edges: Seq<WaitEdge>, max_depth: nat)
    requires
        edges.len() <= u32::MAX,
        forall|e: int| 0 <= e < edges.len() ==> (#[trigger] edges[e]).weight.time_window.valid(),
    ensures
        same_waits(edges, cascaded(edges, max_depth)) <==> waits_fill_windows(edges),
        waits_fill_windows(edges) ==> non_amplified(cascaded(edges, max_depth)),
{
    let result = cascaded(edges, max_depth);
    lemma_same_waits(edges, result);
    if waits_fill_windows(edges) {
        assert forall|e: int| 0 <= e < result.len() implies (
        #[trigger] result[e]).weight.attributed_delay_ms <= result[e].weight.raw_wait_ms by {
            assert(edges[e].weight.time_window.valid());
            lemma_cascade_bound(
                edges,
                edges[e].dst,
                edges[e].weight.time_window,
                if max_depth == 0 {
                    0
                } else {
                    (max_depth - 1) as nat
                },
                Set::empty().insert(edges[e].src.0),
            );
        }
        assert forall|e: int| 0 <= e < edges.len() implies (
        #[trigger] edges[e]).weight.raw_wait_ms == result[e].weight.raw_wait_ms by {}
    }
    if forall|e: int|
        0 <= e < edges.len() ==> (#[trigger] edges[e]).weight.raw_wait_ms
            == result[e].weight.raw_wait_ms {
        assert forall|e: int| 0 <= e < edges.len() implies (
        #[trigger] edges[e]).weight.raw_wait_ms == edges[e].weight.time_window.span() by {
            assert(edges[e].weight.raw_wait_ms == result[e].weight.raw_wait_ms);
        }
    }
}

} // verus!
