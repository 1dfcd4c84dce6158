//! What holds of every cascade.

use vstd::prelude::*;

use crate::graph::sweep::{
    clip, covered, covers, cut_points, is_boundary, lemma_covered_bound, lemma_cut_points,
    lemma_partition_is_exact, lemma_partition_is_ordered, lemma_slice_targets, partition,
    slice_targets, slices, waits_at,
};
use crate::graph::types::{EdgeKind, IntervalView, ThreadId, TimeWindow};
use crate::graph::wfg::{sum_attributed, WaitEdge};
use crate::sorting::lemma_sorted_unique;

use super::engine::{
    attributed, cascade, cascaded, depth_or_default, is_waiter, lemma_cascade_bound,
    lemma_waiters, propagated, pushed_by_slices, pushed_to_targets, sharers, waiters,
    waits_fill_windows, waits_for,
};
use super::invariants::non_amplified;

verus! {

// ---------------------------------------------------------------------------
// Attribution splits the wait
// ---------------------------------------------------------------------------

/// Where a raw wait fills its window, it is the sum of what is propagated and
/// what is attributed, and neither is negative.
pub proof fn law_attribution_splits_wait(edges: Seq<WaitEdge>, e: int, max_depth: nat)
    requires
        0 <= e < edges.len(),
        edges[e].weight.time_window.valid(),
        edges[e].weight.raw_wait_ms == edges[e].weight.time_window.span(),
    ensures
        0 <= propagated(edges, e, max_depth),
        0 <= attributed(edges, e, max_depth),
        propagated(edges, e, max_depth) + attributed(edges, e, max_depth)
            == edges[e].weight.raw_wait_ms,
{
    let levels: nat = if max_depth == 0 {
        0
    } else {
        (max_depth - 1) as nat
    };
    lemma_cascade_bound(
        edges,
        edges[e].dst,
        edges[e].weight.time_window,
        levels,
        Set::empty().insert(edges[e].src.0),
    );
}

/// Non-amplification: a cascade never attributes more than the raw wait.
pub proof fn law_cascade_never_amplifies(edges: Seq<WaitEdge>, max_depth: nat)
    requires
        waits_fill_windows(edges),
        forall|e: int| 0 <= e < edges.len() ==> (#[trigger] edges[e]).weight.time_window.valid(),
    ensures
        non_amplified(cascaded(edges, max_depth)),
{
    let result = cascaded(edges, max_depth);
    assert forall|e: int| 0 <= e < result.len() implies (
    #[trigger] result[e]).weight.attributed_delay_ms <= result[e].weight.raw_wait_ms by {
        assert(edges[e].weight.time_window.valid());
        law_attribution_splits_wait(edges, e, max_depth);
    }
}

/// Without depth nothing is propagated: a depth of at most one attributes
/// every wait in full.
pub proof fn law_depth_one_attributes_all(edges: Seq<WaitEdge>, e: int, max_depth: nat)
    requires
        0 <= e < edges.len(),
        max_depth <= 1,
    ensures
        attributed(edges, e, max_depth) == edges[e].weight.raw_wait_ms,
{
}

/// A wait for a thread that waits for nothing in the meantime stays with it.
pub proof fn law_leaf_keeps_its_wait(edges: Seq<WaitEdge>, e: int, max_depth: nat)
    requires
        0 <= e < edges.len(),
        forall|t: int, d: ThreadId|
            !waits_at(edges, edges[e].dst, edges[e].weight.time_window, t, d),
    ensures
        attributed(edges, e, max_depth) == edges[e].weight.raw_wait_ms,
{
    let node = edges[e].dst;
    let window = edges[e].weight.time_window;
    let parts = partition(edges, node, window);
    if parts.len() > 0 {
        lemma_partition_is_ordered(edges, node, window);
        let slice = parts[0];
        assert(slice.targets.len() > 0);
        let t = slice.window.start_ms as int;
        let d = slice.targets[0];
        assert(slice.targets.contains(d));
        assert(parts[0].window.has(t) && parts[0].targets.contains(d));
        lemma_partition_is_exact(edges, node, window, t, d);
        assert(waits_at(edges, node, window, t, d));
    }
}

// ---------------------------------------------------------------------------
// What the cascade depends on
// ---------------------------------------------------------------------------

/// The same waits, as far as the cascade looks at them.
pub open spec fn same_flow(a: Seq<WaitEdge>, b: Seq<WaitEdge>) -> bool {
    &&& forall|node: ThreadId, window: TimeWindow| #[trigger]
        partition(a, node, window) == partition(b, node, window)
    &&& forall|target: ThreadId, window: TimeWindow| #[trigger]
        sharers(a, target, window) == sharers(b, target, window)
}

proof fn lemma_cascade_congruent(
    a: Seq<WaitEdge>,
    b: Seq<WaitEdge>,
    current: ThreadId,
    window: TimeWindow,
    levels: nat,
    path: Set<i64>,
)
    requires
        same_flow(a, b),
    ensures
        cascade(a, current, window, levels, path) == cascade(b, current, window, levels, path),
    decreases levels, 2int, 0int,
{
    let parts = partition(a, current, window);
    assert(parts == partition(b, current, window));
    if !(levels == 0 || path.contains(current.0) || parts.len() == 0) {
        lemma_slices_congruent(
            a,
            b,
            parts,
            parts.len() as int,
            levels,
            path.insert(current.0),
        );
    }
}

proof fn lemma_slices_congruent(
    a: Seq<WaitEdge>,
    b: Seq<WaitEdge>,
    parts: Seq<IntervalView>,
    n: int,
    levels: nat,
    path: Set<i64>,
)
    requires
        same_flow(a, b),
        0 <= n <= parts.len(),
    ensures
        pushed_by_slices(a, parts, n, levels, path) == pushed_by_slices(b, parts, n, levels, path),
    decreases levels, 1int, n,
{
    if n > 0 {
        lemma_slices_congruent(a, b, parts, n - 1, levels, path);
        lemma_targets_congruent(
            a,
            b,
            parts[n - 1],
            parts[n - 1].targets.len() as int,
            levels,
            path,
        );
    }
}

proof fn lemma_targets_congruent(
    a: Seq<WaitEdge>,
    b: Seq<WaitEdge>,
    slice: IntervalView,
    k: int,
    levels: nat,
    path: Set<i64>,
)
    requires
        same_flow(a, b),
    ensures
        pushed_to_targets(a, slice, k, levels, path) == pushed_to_targets(
            b,
            slice,
            k,
            levels,
            path,
        ),
    decreases levels, 0int, k,
{
    if k > 0 && levels > 0 {
        lemma_targets_congruent(a, b, slice, k - 1, levels, path);
        let target = slice.targets[k - 1];
        lemma_cascade_congruent(a, b, target, slice.window, (levels - 1) as nat, path);
        assert(sharers(a, target, slice.window) == sharers(b, target, slice.window));
    }
}

/// Two edges that the cascade cannot tell apart.
pub open spec fn same_course(a: WaitEdge, b: WaitEdge) -> bool {
    &&& a.src == b.src
    &&& a.dst == b.dst
    &&& a.weight.time_window == b.weight.time_window
    &&& a.weight.kind == b.weight.kind
}

proof fn lemma_same_course(a: Seq<WaitEdge>, b: Seq<WaitEdge>)
    requires
        a.len() == b.len(),
        forall|e: int| 0 <= e < a.len() ==> same_course(#[trigger] a[e], b[e]),
    ensures
        same_flow(a, b),
{
    assert forall|node: ThreadId, window: TimeWindow| #[trigger]
        partition(a, node, window) == partition(b, node, window) by {
        lemma_same_cuts(a, b, node, window);
        lemma_same_slices(a, b, node, window, cut_points(a, node, window).len() - 1);
    }
    assert forall|target: ThreadId, window: TimeWindow| #[trigger]
        sharers(a, target, window) == sharers(b, target, window) by {
        lemma_same_waiters(a, b, target, window);
    }
}

proof fn lemma_same_front(a: Seq<WaitEdge>, b: Seq<WaitEdge>)
    requires
        a.len() == b.len(),
        a.len() > 0,
        forall|e: int| 0 <= e < a.len() ==> same_course(#[trigger] a[e], b[e]),
    ensures
        same_course(a.last(), b.last()),
        forall|e: int|
            0 <= e < a.drop_last().len() ==> same_course(
                #[trigger] a.drop_last()[e],
                b.drop_last()[e],
            ),
{
    assert(same_course(a[a.len() - 1], b[a.len() - 1]));
    assert forall|e: int| 0 <= e < a.drop_last().len() implies same_course(
        #[trigger] a.drop_last()[e],
        b.drop_last()[e],
    ) by {
        assert(same_course(a[e], b[e]));
    }
}

proof fn lemma_same_cuts(a: Seq<WaitEdge>, b: Seq<WaitEdge>, node: ThreadId, window: TimeWindow)
    requires
        a.len() == b.len(),
        forall|e: int| 0 <= e < a.len() ==> same_course(#[trigger] a[e], b[e]),
    ensures
        cut_points(a, node, window) == cut_points(b, node, window),
    decreases a.len(),
{
    if a.len() > 0 {
        lemma_same_front(a, b);
        lemma_same_cuts(a.drop_last(), b.drop_last(), node, window);
    }
}

proof fn lemma_same_targets(
    a: Seq<WaitEdge>,
    b: Seq<WaitEdge>,
    node: ThreadId,
    window: TimeWindow,
    start: u64,
    end: u64,
)
    requires
        a.len() == b.len(),
        forall|e: int| 0 <= e < a.len() ==> same_course(#[trigger] a[e], b[e]),
    ensures
        slice_targets(a, node, window, start, end) == slice_targets(b, node, window, start, end),
    decreases a.len(),
{
    if a.len() > 0 {
        lemma_same_front(a, b);
        lemma_same_targets(a.drop_last(), b.drop_last(), node, window, start, end);
    }
}

proof fn lemma_same_slices(
    a: Seq<WaitEdge>,
    b: Seq<WaitEdge>,
    node: ThreadId,
    window: TimeWindow,
    n: int,
)
    requires
        a.len() == b.len(),
        forall|e: int| 0 <= e < a.len() ==> same_course(#[trigger] a[e], b[e]),
    ensures
        slices(a, node, window, n) == slices(b, node, window, n),
    decreases n,
{
    if n > 0 {
        lemma_same_cuts(a, b, node, window);
        lemma_same_slices(a, b, node, window, n - 1);
        let cuts = cut_points(a, node, window);
        lemma_same_targets(a, b, node, window, cuts[n - 1], cuts[n]);
    }
}

proof fn lemma_same_waiters(
    a: Seq<WaitEdge>,
    b: Seq<WaitEdge>,
    target: ThreadId,
    window: TimeWindow,
)
    requires
        a.len() == b.len(),
        forall|e: int| 0 <= e < a.len() ==> same_course(#[trigger] a[e], b[e]),
    ensures
        waiters(a, target, window) == waiters(b, target, window),
    decreases a.len(),
{
    if a.len() > 0 {
        lemma_same_front(a, b);
        lemma_same_waiters(a.drop_last(), b.drop_last(), target, window);
    }
}

/// Idempotency: a second cascade changes nothing.
pub proof fn law_cascade_is_idempotent(edges: Seq<WaitEdge>, max_depth: nat)
    requires
        waits_fill_windows(edges),
        forall|e: int| 0 <= e < edges.len() ==> (#[trigger] edges[e]).weight.time_window.valid(),
    ensures
        waits_fill_windows(cascaded(edges, max_depth)),
        cascaded(cascaded(edges, max_depth), max_depth) == cascaded(edges, max_depth),
{
    let first = cascaded(edges, max_depth);
    let second = cascaded(first, max_depth);
    assert forall|e: int| 0 <= e < first.len() implies same_course(#[trigger] first[e], edges[e])
        && first[e].weight.raw_wait_ms == edges[e].weight.raw_wait_ms
        && first[e].weight.raw_wait_ms == first[e].weight.time_window.span() by {
        assert(edges[e].weight.time_window.valid());
        assert(edges[e].weight.raw_wait_ms == edges[e].weight.time_window.span());
    }
    lemma_same_course(first, edges);
    assert forall|e: int| 0 <= e < first.len() implies second[e] == first[e] by {
        assert(same_course(first[e], edges[e]));
        let levels: nat = if max_depth == 0 {
            0
        } else {
            (max_depth - 1) as nat
        };
        lemma_cascade_congruent(
            first,
            edges,
            edges[e].dst,
            edges[e].weight.time_window,
            levels,
            Set::empty().insert(edges[e].src.0),
        );
    }
    assert(second =~= first);
}

/// An edge that only closes a cycle through a device changes no attribution.
pub proof fn law_closure_edges_are_inert(
    edges: Seq<WaitEdge>,
    closure: WaitEdge,
    e: int,
    max_depth: nat,
)
    requires
        0 <= e < edges.len(),
        closure.weight.kind == EdgeKind::SyntheticClosureReturn,
    ensures
        attributed(edges.push(closure), e, max_depth) == attributed(edges, e, max_depth),
{
    let more = edges.push(closure);
    assert(more.drop_last() =~= edges);
    assert forall|node: ThreadId, window: TimeWindow| #[trigger]
        partition(more, node, window) == partition(edges, node, window) by {
        assert(cut_points(more, node, window) == cut_points(edges, node, window));
        lemma_inert_slices(edges, closure, node, window, cut_points(edges, node, window).len() - 1);
    }
    assert forall|target: ThreadId, window: TimeWindow| #[trigger]
        sharers(more, target, window) == sharers(edges, target, window) by {
        assert(waiters(more, target, window) == waiters(edges, target, window));
    }
    let levels: nat = if max_depth == 0 {
        0
    } else {
        (max_depth - 1) as nat
    };
    lemma_cascade_congruent(
        more,
        edges,
        edges[e].dst,
        edges[e].weight.time_window,
        levels,
        Set::empty().insert(edges[e].src.0),
    );
    assert(more[e] == edges[e]);
}

proof fn lemma_inert_slices(
    edges: Seq<WaitEdge>,
    closure: WaitEdge,
    node: ThreadId,
    window: TimeWindow,
    n: int,
)
    requires
        closure.weight.kind == EdgeKind::SyntheticClosureReturn,
    ensures
        slices(edges.push(closure), node, window, n) == slices(edges, node, window, n),
    decreases n,
{
    if n > 0 {
        let more = edges.push(closure);
        assert(more.drop_last() =~= edges);
        lemma_inert_slices(edges, closure, node, window, n - 1);
        let cuts = cut_points(edges, node, window);
        assert(cut_points(more, node, window) == cuts);
        assert(slice_targets(more, node, window, cuts[n - 1], cuts[n]) == slice_targets(
            edges,
            node,
            window,
            cuts[n - 1],
            cuts[n],
        ));
    }
}

// ---------------------------------------------------------------------------
// Chains
// ---------------------------------------------------------------------------

/// Every thread waits for at most one other and is waited for by at most one.
pub open spec fn is_chain(edges: Seq<WaitEdge>) -> bool {
    forall|e: int, f: int|
        #![trigger edges[e], edges[f]]
        0 <= e < edges.len() && 0 <= f < edges.len() && edges[e].weight.kind == EdgeKind::Normal
            && edges[f].weight.kind == EdgeKind::Normal ==> (edges[e].src == edges[f].src
            <==> edges[e].dst == edges[f].dst)
}

proof fn lemma_chain_slice(
    edges: Seq<WaitEdge>,
    node: ThreadId,
    window: TimeWindow,
    k: int,
)
    requires
        is_chain(edges),
        0 <= k < partition(edges, node, window).len(),
    ensures
        partition(edges, node, window)[k].targets.len() == 1,
        sharers(
            edges,
            partition(edges, node, window)[k].targets[0],
            partition(edges, node, window)[k].window,
        ) == 1,
{
    lemma_partition_is_ordered(edges, node, window);
    let slice = partition(edges, node, window)[k];
    let t = slice.window.start_ms as int;
    let first = slice.targets[0];
    assert(slice.targets.contains(first));
    assert(slice.window.has(t));
    lemma_partition_is_exact(edges, node, window, t, first);
    assert(waits_at(edges, node, window, t, first));
    let e = choose|e: int|
        0 <= e < edges.len() && (#[trigger] edges[e]).src == node && edges[e].dst == first
            && edges[e].weight.kind == EdgeKind::Normal && window.has(t)
            && edges[e].weight.time_window.has(t);
    if slice.targets.len() > 1 {
        let other = slice.targets[1];
        assert(slice.targets.contains(other));
        lemma_partition_is_exact(edges, node, window, t, other);
        assert(waits_at(edges, node, window, t, other));
        let f = choose|f: int|
            0 <= f < edges.len() && (#[trigger] edges[f]).src == node && edges[f].dst == other
                && edges[f].weight.kind == EdgeKind::Normal && window.has(t)
                && edges[f].weight.time_window.has(t);
        assert(edges[e].dst == edges[f].dst);
    }
    let list = waiters(edges, first, slice.window);
    lemma_waiters(edges, first, slice.window);
    if list.len() > 1 {
        assert(list.contains(list[0]) && list.contains(list[1]));
        assert(is_waiter(edges, first, slice.window, list[0]));
        assert(is_waiter(edges, first, slice.window, list[1]));
        let f = choose|f: int|
            0 <= f < edges.len() && waits_for(#[trigger] edges[f], first, slice.window)
                && edges[f].src == list[0];
        let g = choose|g: int|
            0 <= g < edges.len() && waits_for(#[trigger] edges[g], first, slice.window)
                && edges[g].src == list[1];
        assert(edges[f].src == edges[g].src);
    }
}

/// On a chain nothing is lost to sharing: what a thread passes on and what it
/// keeps add up to the whole window.
pub proof fn law_chain_conserves(
    edges: Seq<WaitEdge>,
    current: ThreadId,
    window: TimeWindow,
    levels: nat,
    path: Set<i64>,
)
    requires
        is_chain(edges),
        window.valid(),
    ensures
        cascade(edges, current, window, levels, path).0 + cascade(
            edges,
            current,
            window,
            levels,
            path,
        ).1 == window.span(),
    decreases levels, 1int, 0int,
{
    let parts = partition(edges, current, window);
    if !(levels == 0 || path.contains(current.0) || parts.len() == 0) {
        let n = parts.len() as int;
        lemma_covered_bound(edges, current, window, n);
        lemma_chain_slices(edges, current, window, n, levels, path.insert(current.0));
    }
}

proof fn lemma_chain_slices(
    edges: Seq<WaitEdge>,
    current: ThreadId,
    window: TimeWindow,
    n: int,
    levels: nat,
    path: Set<i64>,
)
    requires
        is_chain(edges),
        levels > 0,
        0 <= n <= partition(edges, current, window).len(),
    ensures
        pushed_by_slices(edges, partition(edges, current, window), n, levels, path) == covered(
            partition(edges, current, window),
            n,
        ),
    decreases levels, 0int, n,
{
    if n > 0 {
        let parts = partition(edges, current, window);
        let slice = parts[n - 1];
        lemma_chain_slices(edges, current, window, n - 1, levels, path);
        lemma_chain_slice(edges, current, window, n - 1);
        lemma_partition_is_ordered(edges, current, window);
        assert(slice.window.valid());
        law_chain_conserves(edges, slice.targets[0], slice.window, (levels - 1) as nat, path);
        let child = cascade(edges, slice.targets[0], slice.window, (levels - 1) as nat, path);
        assert((child.0 + child.1) / 1 / 1 == child.0 + child.1);
        assert(pushed_to_targets(edges, slice, 0, levels, path) == 0);
        assert(pushed_to_targets(edges, slice, 1, levels, path) == slice.window.span());
    }
}

/// On a chain, a deeper cascade attributes no more than a shallower one.
pub proof fn law_chain_depth_is_monotonic(edges: Seq<WaitEdge>, e: int, shallow: nat, deep: nat)
    requires
        is_chain(edges),
        0 <= e < edges.len(),
        edges[e].weight.time_window.valid(),
        shallow <= deep,
    ensures
        attributed(edges, e, deep) <= attributed(edges, e, shallow),
{
    let node = edges[e].dst;
    let window = edges[e].weight.time_window;
    let path = Set::empty().insert(edges[e].src.0);
    let parts = partition(edges, node, window);
    let n = parts.len() as int;
    lemma_covered_bound(edges, node, window, n);
    if deep >= 2 {
        lemma_chain_slices(edges, node, window, n, (deep - 1) as nat, path.insert(node.0));
    }
    if shallow >= 2 {
        lemma_chain_slices(edges, node, window, n, (shallow - 1) as nat, path.insert(node.0));
    }
}

/// On a chain, a deeper cascade attributes no more in total than a shallower one.
pub proof fn law_chain_total_is_monotonic(edges: Seq<WaitEdge>, shallow: nat, deep: nat)
    requires
        is_chain(edges),
        forall|e: int| 0 <= e < edges.len() ==> (#[trigger] edges[e]).weight.time_window.valid(),
        shallow <= deep,
    ensures
        sum_attributed(cascaded(edges, deep)) <= sum_attributed(cascaded(edges, shallow)),
{
    lemma_totals_monotonic(edges, shallow, deep, edges.len() as int);
    assert(cascaded(edges, deep).take(edges.len() as int) =~= cascaded(edges, deep));
    assert(cascaded(edges, shallow).take(edges.len() as int) =~= cascaded(edges, shallow));
}

proof fn lemma_totals_monotonic(edges: Seq<WaitEdge>, shallow: nat, deep: nat, n: int)
    requires
        is_chain(edges),
        forall|e: int| 0 <= e < edges.len() ==> (#[trigger] edges[e]).weight.time_window.valid(),
        shallow <= deep,
        0 <= n <= edges.len(),
    ensures
        sum_attributed(cascaded(edges, deep).take(n)) <= sum_attributed(
            cascaded(edges, shallow).take(n),
        ),
    decreases n,
{
    if n > 0 {
        let a = cascaded(edges, deep);
        let b = cascaded(edges, shallow);
        lemma_totals_monotonic(edges, shallow, deep, n - 1);
        assert(a.take(n).drop_last() =~= a.take(n - 1));
        assert(b.take(n).drop_last() =~= b.take(n - 1));
        assert(edges[n - 1].weight.time_window.valid());
        law_chain_depth_is_monotonic(edges, n - 1, shallow, deep);
        lemma_attributed_fits(edges, n - 1, shallow);
        lemma_attributed_fits(edges, n - 1, deep);
    }
}

proof fn lemma_attributed_fits(edges: Seq<WaitEdge>, e: int, max_depth: nat)
    requires
        0 <= e < edges.len(),
        edges[e].weight.time_window.valid(),
    ensures
        0 <= attributed(edges, e, max_depth) <= edges[e].weight.raw_wait_ms,
{
    let levels: nat = if max_depth == 0 {
        0
    } else {
        (max_depth - 1) as nat
    };
    lemma_cascade_bound(
        edges,
        edges[e].dst,
        edges[e].weight.time_window,
        levels,
        Set::empty().insert(edges[e].src.0),
    );
}

// ---------------------------------------------------------------------------
// Sharing
// ---------------------------------------------------------------------------

/// The edge is an observed wait of `src` that shares a moment with `window`.
pub open spec fn waits_during(e: WaitEdge, src: ThreadId, window: TimeWindow) -> bool {
    &&& e.src == src
    &&& e.weight.kind == EdgeKind::Normal
    &&& e.weight.time_window.start_ms < e.weight.time_window.end_ms
    &&& window.start_ms < window.end_ms
    &&& e.weight.time_window.start_ms < window.end_ms
    &&& window.start_ms < e.weight.time_window.end_ms
}

/// `who` are the threads that wait for `target` at some moment of `window`.
pub open spec fn are_waiters(
    edges: Seq<WaitEdge>,
    target: ThreadId,
    window: TimeWindow,
    who: Set<ThreadId>,
) -> bool {
    forall|t: ThreadId| #[trigger]
        who.contains(t) <==> exists|e: int|
            0 <= e < edges.len() && waits_during(#[trigger] edges[e], t, window) && edges[e].dst
                == target
}

/// What a thread absorbs is divided by the number of distinct threads that wait
/// for it at the time, however many they are, and left whole if there is none.
pub proof fn law_every_waiter_takes_a_share(
    edges: Seq<WaitEdge>,
    target: ThreadId,
    window: TimeWindow,
    who: Set<ThreadId>,
)
    requires
        are_waiters(edges, target, window, who),
    ensures
        who.finite(),
        who.len() >= 1 ==> sharers(edges, target, window) == who.len(),
        who.len() == 0 ==> sharers(edges, target, window) == 1,
{
    let list = waiters(edges, target, window);
    lemma_waiters(edges, target, window);
    assert forall|t: ThreadId| list.contains(t) <==> #[trigger] who.contains(t) by {
        if list.contains(t) {
            assert(is_waiter(edges, target, window, t));
            let e = choose|e: int|
                0 <= e < edges.len() && waits_for(#[trigger] edges[e], target, window)
                    && edges[e].src == t;
            assert(waits_during(edges[e], t, window));
        }
        if who.contains(t) {
            let e = choose|e: int|
                0 <= e < edges.len() && waits_during(#[trigger] edges[e], t, window)
                    && edges[e].dst == target;
            assert(waits_for(edges[e], target, window));
            assert(is_waiter(edges, target, window, t));
        }
    }
    assert(list.to_set() =~= who);
    list.unique_seq_to_set();
}

/// Throughout `window`, `node` waits for the same threads, `targets`, and there
/// is at least one.
pub open spec fn waits_throughout(
    edges: Seq<WaitEdge>,
    node: ThreadId,
    window: TimeWindow,
    targets: Set<ThreadId>,
) -> bool {
    &&& window.start_ms < window.end_ms
    &&& exists|d: ThreadId| #[trigger] targets.contains(d)
    &&& forall|e: int|
        0 <= e < edges.len() && waits_during(#[trigger] edges[e], node, window) ==> {
            &&& edges[e].weight.time_window.start_ms <= window.start_ms
            &&& window.end_ms <= edges[e].weight.time_window.end_ms
        }
    &&& forall|d: ThreadId| #[trigger]
        targets.contains(d) <==> exists|e: int|
            0 <= e < edges.len() && waits_during(#[trigger] edges[e], node, window) && edges[e].dst
                == d
}

/// A wait for the same threads throughout is one slice.
proof fn lemma_one_slice(
    edges: Seq<WaitEdge>,
    node: ThreadId,
    window: TimeWindow,
    targets: Set<ThreadId>,
)
    requires
        waits_throughout(edges, node, window, targets),
    ensures
        ({
            let parts = partition(edges, node, window);
            &&& parts.len() == 1
            &&& parts[0].window == window
            &&& parts[0].targets.no_duplicates()
            &&& parts[0].targets.to_set() == targets
            &&& parts[0].targets.len() == targets.len()
            &&& targets.finite()
        }),
{
    let (a, b) = (window.start_ms, window.end_ms);
    let cuts = cut_points(edges, node, window);
    lemma_cut_points(edges, node, window);
    assert forall|e: int| 0 <= e < edges.len() implies (waits_during(
        #[trigger] edges[e],
        node,
        window,
    ) <==> clip(edges[e], node, window) is Some) && (clip(edges[e], node, window) matches Some(w)
        ==> w == window) by {
        if clip(edges[e], node, window) is Some {
            assert(waits_during(edges[e], node, window));
        }
    }
    let d = choose|d: ThreadId| #[trigger] targets.contains(d);
    let e = choose|e: int|
        0 <= e < edges.len() && waits_during(#[trigger] edges[e], node, window) && edges[e].dst
            == d;
    assert(clip(edges[e], node, window) == Some(window));
    let both = seq![a, b];
    assert forall|p: u64| cuts.contains(p) <==> both.contains(p) by {
        assert(cuts.contains(p) <==> is_boundary(edges, node, window, p));
        if is_boundary(edges, node, window, p) {
            let f = choose|f: int|
                0 <= f < edges.len() && clip(#[trigger] edges[f], node, window) is Some && (clip(
                    edges[f],
                    node,
                    window,
                )->0.start_ms == p || clip(edges[f], node, window)->0.end_ms == p);
            assert(clip(edges[f], node, window) == Some(window));
            assert(both[0] == a && both[1] == b);
        }
        if both.contains(p) {
            assert(p == a || p == b);
            assert(is_boundary(edges, node, window, p));
        }
    }
    lemma_sorted_unique(cuts, both);
    let list = slice_targets(edges, node, window, a, b);
    lemma_slice_targets(edges, node, window, a, b);
    assert forall|t: ThreadId| list.contains(t) <==> #[trigger] targets.contains(t) by {
        assert(list.contains(t) <==> covers(edges, node, window, a, b, t));
        if covers(edges, node, window, a, b, t) {
            let f = choose|f: int|
                0 <= f < edges.len() && clip(#[trigger] edges[f], node, window) is Some && clip(
                    edges[f],
                    node,
                    window,
                )->0.start_ms <= a && b <= clip(edges[f], node, window)->0.end_ms && edges[f].dst
                    == t;
            assert(waits_during(edges[f], node, window));
        }
        if targets.contains(t) {
            let f = choose|f: int|
                0 <= f < edges.len() && waits_during(#[trigger] edges[f], node, window)
                    && edges[f].dst == t;
            assert(clip(edges[f], node, window) == Some(window));
        }
    }
    assert(list.to_set() =~= targets);
    list.unique_seq_to_set();
    assert(targets.contains(d) && list.contains(d));
    assert(slices(edges, node, window, 0) =~= Seq::empty());
    assert(slices(edges, node, window, 1) =~= seq![IntervalView { window, targets: list }]);
}

/// A thread that waits for one other throughout keeps nothing for itself, and
/// passes on what the other absorbs, divided among all that wait for the other.
/// The cascade goes one thread deeper for it, and does not come back.
pub proof fn law_lone_target_absorbs_all(
    edges: Seq<WaitEdge>,
    current: ThreadId,
    target: ThreadId,
    window: TimeWindow,
    levels: nat,
    path: Set<i64>,
    who: Set<ThreadId>,
)
    requires
        levels > 0,
        !path.contains(current.0),
        waits_throughout(edges, current, window, set![target]),
        are_waiters(edges, target, window, who),
    ensures
        who.len() >= 1,
        ({
            let child = cascade(
                edges,
                target,
                window,
                (levels - 1) as nat,
                path.insert(current.0),
            );
            cascade(edges, current, window, levels, path) == (
                (child.0 + child.1) / who.len() as int,
                0int,
            )
        }),
{
    lemma_one_slice(edges, current, window, set![target]);
    law_every_waiter_takes_a_share(edges, target, window, who);
    let parts = partition(edges, current, window);
    let slice = parts[0];
    let inner = path.insert(current.0);
    assert(set![target].len() == 1);
    assert(slice.targets.contains(slice.targets[0]));
    assert(slice.targets.to_set().contains(slice.targets[0]));
    assert(slice.targets[0] == target);
    assert(who.contains(current)) by {
        assert(set![target].contains(target));
        let e = choose|e: int|
            0 <= e < edges.len() && waits_during(#[trigger] edges[e], current, window)
                && edges[e].dst == target;
        assert(waits_during(edges[e], current, window));
    }
    assert(who.len() >= 1) by {
        if who.len() == 0 {
            assert(who =~= Set::empty());
        }
    }
    let child = cascade(edges, target, window, (levels - 1) as nat, inner);
    assert(pushed_to_targets(edges, slice, 0, levels, inner) == 0);
    assert((child.0 + child.1) / 1 == child.0 + child.1);
    assert(pushed_to_targets(edges, slice, 1, levels, inner) == (child.0 + child.1)
        / who.len() as int);
    assert(pushed_by_slices(edges, parts, 0, levels, inner) == 0);
    assert(pushed_by_slices(edges, parts, 1, levels, inner) == pushed_to_targets(
        edges,
        slice,
        1,
        levels,
        inner,
    ));
    assert(covered(parts, 0) == 0);
    assert(covered(parts, 1) == window.span());
}

/// A thread at the depth limit, one that the cascade has been through already,
/// and one that waits for nothing in the meantime keep all of a wait.
pub proof fn law_cascade_ends(
    edges: Seq<WaitEdge>,
    current: ThreadId,
    window: TimeWindow,
    levels: nat,
    path: Set<i64>,
)
    requires
        levels == 0 || path.contains(current.0) || forall|e: int|
            0 <= e < edges.len() ==> !waits_during(#[trigger] edges[e], current, window),
    ensures
        cascade(edges, current, window, levels, path) == (0int, window.end_ms - window.start_ms),
{
    if levels > 0 && !path.contains(current.0) {
        lemma_idle(edges, current, window);
    }
}

proof fn lemma_idle(edges: Seq<WaitEdge>, node: ThreadId, window: TimeWindow)
    requires
        forall|e: int| 0 <= e < edges.len() ==> !waits_during(#[trigger] edges[e], node, window),
    ensures
        partition(edges, node, window).len() == 0,
{
    let parts = partition(edges, node, window);
    if parts.len() > 0 {
        lemma_partition_is_ordered(edges, node, window);
        let t = parts[0].window.start_ms as int;
        let d = parts[0].targets[0];
        assert(parts[0].window.has(t) && parts[0].targets.contains(d));
        lemma_partition_is_exact(edges, node, window, t, d);
        assert(waits_at(edges, node, window, t, d));
        let e = choose|e: int|
            0 <= e < edges.len() && (#[trigger] edges[e]).src == node && edges[e].dst == d
                && edges[e].weight.kind == EdgeKind::Normal && window.has(t)
                && edges[e].weight.time_window.has(t);
        assert(waits_during(edges[e], node, window));
    }
}

/// Where the thread that is waited for waits for one other throughout, what it
/// passes on is what the other absorbs, two threads less deep and without coming
/// back to either, divided among all that wait for the other.
pub proof fn law_lone_target_explains_the_wait(
    edges: Seq<WaitEdge>,
    e: int,
    target: ThreadId,
    max_depth: nat,
    who: Set<ThreadId>,
)
    requires
        0 <= e < edges.len(),
        edges[e].src != edges[e].dst,
        max_depth >= 2,
        edges[e].weight.raw_wait_ms == edges[e].weight.time_window.span(),
        waits_throughout(edges, edges[e].dst, edges[e].weight.time_window, set![target]),
        are_waiters(edges, target, edges[e].weight.time_window, who),
    ensures
        ({
            let window = edges[e].weight.time_window;
            let child = cascade(
                edges,
                target,
                window,
                (max_depth - 2) as nat,
                set![edges[e].src.0, edges[e].dst.0],
            );
            &&& who.len() >= 1
            &&& attributed(edges, e, max_depth) == edges[e].weight.raw_wait_ms - (child.0 + child.1)
                / who.len() as int
        }),
        // Whatever it waits for itself, a target at the depth limit, or one that
        // the wait comes from, absorbs all of the time; so does one that waits for
        // nothing.
        max_depth == 2 || target == edges[e].src || (forall|f: int|
            0 <= f < edges.len() ==> !waits_during(
                #[trigger] edges[f],
                target,
                edges[e].weight.time_window,
            )) ==> attributed(edges, e, max_depth) == edges[e].weight.raw_wait_ms
            - edges[e].weight.raw_wait_ms as int / who.len() as int,
{
    let window = edges[e].weight.time_window;
    let (a, b) = (edges[e].src.0, edges[e].dst.0);
    let path = Set::empty().insert(a);
    law_lone_target_absorbs_all(
        edges,
        edges[e].dst,
        target,
        window,
        (max_depth - 1) as nat,
        path,
        who,
    );
    assert(path.insert(b) =~= set![a, b]);
    let child = cascade(edges, target, window, (max_depth - 2) as nat, set![a, b]);
    lemma_cascade_bound(edges, target, window, (max_depth - 2) as nat, set![a, b]);
    let n = who.len() as int;
    assert(0 <= (child.0 + child.1) / n <= child.0 + child.1) by (nonlinear_arith)
        requires
            n >= 1,
            0 <= child.0 + child.1,
    ;
    if max_depth == 2 || target == edges[e].src || (forall|f: int|
        0 <= f < edges.len() ==> !waits_during(#[trigger] edges[f], target, window)) {
        law_cascade_ends(edges, target, window, (max_depth - 2) as nat, set![a, b]);
    }
}

/// What a slice passes on to its first `k` targets, if each absorbs all of the
/// time and is shared by the same number.
proof fn lemma_equal_shares(
    edges: Seq<WaitEdge>,
    slice: IntervalView,
    k: int,
    levels: nat,
    path: Set<i64>,
    each: int,
)
    requires
        levels > 0,
        0 <= k <= slice.targets.len(),
        forall|i: int|
            0 <= i < slice.targets.len() ==> {
                let target = #[trigger] slice.targets[i];
                let child = cascade(edges, target, slice.window, (levels - 1) as nat, path);
                (child.0 + child.1) / slice.targets.len() as int / sharers(
                    edges,
                    target,
                    slice.window,
                ) == each
            },
    ensures
        pushed_to_targets(edges, slice, k, levels, path) == k * each,
    decreases k,
{
    if k > 0 {
        lemma_equal_shares(edges, slice, k - 1, levels, path, each);
        let target = slice.targets[k - 1];
        let child = cascade(edges, target, slice.window, (levels - 1) as nat, path);
        assert((child.0 + child.1) / slice.targets.len() as int / sharers(
            edges,
            target,
            slice.window,
        ) == each);
        assert(k * each == (k - 1) * each + each) by (nonlinear_arith);
    } else {
        assert(k * each == 0) by (nonlinear_arith)
            requires
                k == 0,
        ;
    }
}

/// Where the thread that is waited for waits for several others at once, that wait
/// for nothing themselves, the time is divided among them first, and what each gets
/// among those that wait for it; every division rounds down.
pub proof fn law_concurrent_targets_share(
    edges: Seq<WaitEdge>,
    e: int,
    targets: Set<ThreadId>,
    max_depth: nat,
    k: int,
)
    requires
        0 <= e < edges.len(),
        edges[e].src != edges[e].dst,
        max_depth >= 2,
        edges[e].weight.raw_wait_ms == edges[e].weight.time_window.span(),
        waits_throughout(edges, edges[e].dst, edges[e].weight.time_window, targets),
        forall|d: ThreadId, f: int|
            #![trigger targets.contains(d), edges[f]]
            targets.contains(d) && 0 <= f < edges.len() ==> !waits_during(
                edges[f],
                d,
                edges[e].weight.time_window,
            ),
        forall|d: ThreadId| #[trigger]
            targets.contains(d) ==> exists|who: Set<ThreadId>| #[trigger]
                are_waiters(edges, d, edges[e].weight.time_window, who) && who.len() == k,
    ensures
        ({
            let raw = edges[e].weight.raw_wait_ms as int;
            let n = targets.len() as int;
            attributed(edges, e, max_depth) == raw - n * (raw / n / k)
        }),
{
    let window = edges[e].weight.time_window;
    let node = edges[e].dst;
    let levels = (max_depth - 1) as nat;
    let path = Set::empty().insert(edges[e].src.0);
    let inner = path.insert(node.0);
    let raw = edges[e].weight.raw_wait_ms as int;
    lemma_one_slice(edges, node, window, targets);
    let parts = partition(edges, node, window);
    let slice = parts[0];
    let n = targets.len() as int;
    assert forall|i: int| 0 <= i < slice.targets.len() implies {
        let target = #[trigger] slice.targets[i];
        let child = cascade(edges, target, slice.window, (levels - 1) as nat, inner);
        (child.0 + child.1) / slice.targets.len() as int / sharers(edges, target, slice.window)
            == raw / n / k
    } by {
        let d = slice.targets[i];
        assert(slice.targets.contains(d));
        assert(slice.targets.to_set().contains(d));
        assert(targets.contains(d));
        assert forall|f: int| 0 <= f < edges.len() implies !waits_during(
            #[trigger] edges[f],
            d,
            window,
        ) by {}
        law_cascade_ends(edges, d, window, (levels - 1) as nat, inner);
        let who = choose|who: Set<ThreadId>| #[trigger]
            are_waiters(edges, d, window, who) && who.len() == k;
        law_every_waiter_takes_a_share(edges, d, window, who);
        let f = choose|f: int|
            0 <= f < edges.len() && waits_during(#[trigger] edges[f], node, window)
                && edges[f].dst == d;
        assert(who.contains(node));
        assert(k >= 1) by {
            if who.len() == 0 {
                assert(who =~= Set::empty());
            }
        }
    }
    lemma_equal_shares(edges, slice, slice.targets.len() as int, levels, inner, raw / n / k);
    assert(pushed_by_slices(edges, parts, 0, levels, inner) == 0);
    assert(pushed_by_slices(edges, parts, 1, levels, inner) == n * (raw / n / k));
    lemma_cascade_bound(edges, node, window, levels, path);
    assert(propagated(edges, e, max_depth) == n * (raw / n / k));
}

// ---------------------------------------------------------------------------
// Time
// ---------------------------------------------------------------------------

/// `moments` are the milliseconds of `window` in which `node` waits.
pub open spec fn are_wait_moments(
    edges: Seq<WaitEdge>,
    node: ThreadId,
    window: TimeWindow,
    moments: Set<int>,
) -> bool {
    forall|t: int| #[trigger]
        moments.contains(t) <==> window.start_ms <= t < window.end_ms && exists|e: int|
            0 <= e < edges.len() && (#[trigger] edges[e]).src == node && edges[e].weight.kind
                == EdgeKind::Normal && edges[e].weight.time_window.start_ms <= t
                < edges[e].weight.time_window.end_ms
}

/// The moments in the first `n` slices.
proof fn lemma_slice_moments(parts: Seq<IntervalView>, n: int) -> (s: Set<int>)
    requires
        0 <= n <= parts.len(),
        forall|k: int| 0 <= k < parts.len() ==> (#[trigger] parts[k]).window.valid(),
        forall|k: int, l: int|
            0 <= k < l < parts.len() ==> (#[trigger] parts[k]).window.end_ms <= (
            #[trigger] parts[l]).window.start_ms,
    ensures
        s.finite(),
        s.len() == covered(parts, n),
        forall|t: int| #[trigger]
            s.contains(t) <==> exists|k: int|
                0 <= k < n && (#[trigger] parts[k]).window.start_ms <= t < parts[k].window.end_ms,
    decreases n,
{
    if n <= 0 {
        Set::empty()
    } else {
        let before = lemma_slice_moments(parts, n - 1);
        let w = parts[n - 1].window;
        let (a, b) = (w.start_ms as int, w.end_ms as int);
        let here = vstd::set_lib::set_int_range(a, b);
        vstd::set_lib::lemma_int_range(a, b);
        assert(before.disjoint(here)) by {
            assert forall|t: int| !(before.contains(t) && here.contains(t)) by {
                if before.contains(t) && here.contains(t) {
                    let k = choose|k: int|
                        0 <= k < n - 1 && (#[trigger] parts[k]).window.start_ms <= t
                            < parts[k].window.end_ms;
                    assert(parts[k].window.end_ms <= parts[n - 1].window.start_ms);
                }
            }
        }
        vstd::set_lib::lemma_set_disjoint_lens(before, here);
        let all = before + here;
        assert forall|t: int| #[trigger] all.contains(t) <==> exists|k: int|
            0 <= k < n && (#[trigger] parts[k]).window.start_ms <= t < parts[k].window.end_ms by {
            if here.contains(t) {
                assert(parts[n - 1].window.start_ms <= t < parts[n - 1].window.end_ms);
            }
            if exists|k: int|
                0 <= k < n && (#[trigger] parts[k]).window.start_ms <= t < parts[k].window.end_ms {
                let k = choose|k: int|
                    0 <= k < n && (#[trigger] parts[k]).window.start_ms <= t
                        < parts[k].window.end_ms;
                if k < n - 1 {
                    assert(before.contains(t));
                }
            }
        }
        all
    }
}

/// The slices of a window take as much time together as the thread waits in it.
pub proof fn law_slices_cover_the_waits(
    edges: Seq<WaitEdge>,
    node: ThreadId,
    window: TimeWindow,
    moments: Set<int>,
)
    requires
        are_wait_moments(edges, node, window, moments),
    ensures
        moments.finite(),
        covered(partition(edges, node, window), partition(edges, node, window).len() as int)
            == moments.len(),
{
    let parts = partition(edges, node, window);
    lemma_partition_is_ordered(edges, node, window);
    let s = lemma_slice_moments(parts, parts.len() as int);
    assert forall|t: int| #[trigger] s.contains(t) <==> moments.contains(t) by {
        if s.contains(t) {
            let k = choose|k: int|
                0 <= k < parts.len() && (#[trigger] parts[k]).window.start_ms <= t
                    < parts[k].window.end_ms;
            let d = parts[k].targets[0];
            assert(parts[k].window.has(t) && parts[k].targets.contains(d));
            lemma_partition_is_exact(edges, node, window, t, d);
            assert(waits_at(edges, node, window, t, d));
            let e = choose|e: int|
                0 <= e < edges.len() && (#[trigger] edges[e]).src == node && edges[e].dst == d
                    && edges[e].weight.kind == EdgeKind::Normal && window.has(t)
                    && edges[e].weight.time_window.has(t);
            assert(edges[e].src == node);
        }
        if moments.contains(t) {
            let e = choose|e: int|
                0 <= e < edges.len() && (#[trigger] edges[e]).src == node && edges[e].weight.kind
                    == EdgeKind::Normal && edges[e].weight.time_window.start_ms <= t
                    < edges[e].weight.time_window.end_ms;
            let d = edges[e].dst;
            assert(edges[e].weight.time_window.has(t) && window.has(t));
            assert(waits_at(edges, node, window, t, d));
            lemma_partition_is_exact(edges, node, window, t, d);
            let k = choose|k: int|
                0 <= k < parts.len() && (#[trigger] parts[k]).window.has(t)
                    && parts[k].targets.contains(d);
            assert(parts[k].window.start_ms <= t < parts[k].window.end_ms);
        }
    }
    assert(s =~= moments);
}

/// A thread keeps of a wait for it the time in which it does not wait itself.
pub proof fn law_threads_keep_their_own_time(
    edges: Seq<WaitEdge>,
    current: ThreadId,
    window: TimeWindow,
    levels: nat,
    path: Set<i64>,
    moments: Set<int>,
)
    requires
        levels > 0,
        !path.contains(current.0),
        window.start_ms <= window.end_ms,
        are_wait_moments(edges, current, window, moments),
    ensures
        cascade(edges, current, window, levels, path).1 == window.end_ms - window.start_ms
            - moments.len(),
{
    let parts = partition(edges, current, window);
    law_slices_cover_the_waits(edges, current, window, moments);
    lemma_covered_bound(edges, current, window, parts.len() as int);
}

/// On a chain the delay attributed to a wait is the raw wait less the time in
/// which the thread that is waited for waits itself, however deep the cascade goes.
pub proof fn law_chain_attributes_own_time(
    edges: Seq<WaitEdge>,
    e: int,
    max_depth: nat,
    moments: Set<int>,
)
    requires
        is_chain(edges),
        0 <= e < edges.len(),
        edges[e].src != edges[e].dst,
        edges[e].weight.time_window.valid(),
        edges[e].weight.raw_wait_ms == edges[e].weight.time_window.span(),
        max_depth >= 2,
        are_wait_moments(edges, edges[e].dst, edges[e].weight.time_window, moments),
    ensures
        attributed(edges, e, max_depth) == edges[e].weight.raw_wait_ms - moments.len(),
{
    let node = edges[e].dst;
    let window = edges[e].weight.time_window;
    let path = Set::empty().insert(edges[e].src.0);
    let levels = (max_depth - 1) as nat;
    law_chain_conserves(edges, node, window, levels, path);
    law_threads_keep_their_own_time(edges, node, window, levels, path, moments);
    law_slices_cover_the_waits(edges, node, window, moments);
    lemma_covered_bound(edges, node, window, partition(edges, node, window).len() as int);
}

/// A cascade keeps every wait as it was recorded, in its place, and changes
/// nothing but the attributed delay.
pub proof fn law_cascade_changes_only_delays(edges: Seq<WaitEdge>, max_depth: nat, e: int)
    requires
        waits_fill_windows(edges),
        0 <= e < edges.len(),
        edges[e].weight.time_window.valid(),
    ensures
        cascaded(edges, max_depth).len() == edges.len(),
        ({
            let after = cascaded(edges, max_depth)[e];
            &&& after.src == edges[e].src
            &&& after.dst == edges[e].dst
            &&& after.weight.time_window == edges[e].weight.time_window
            &&& after.weight.raw_wait_ms == edges[e].weight.raw_wait_ms
            &&& after.weight.wait_type == edges[e].weight.wait_type
            &&& after.weight.kind == edges[e].weight.kind
            &&& after.weight.attributed_delay_ms == attributed(edges, e, max_depth)
        }),
{
    lemma_attributed_fits(edges, e, max_depth);
}

/// A cascade goes as deep as it is told, and ten levels deep if it is told nothing.
pub proof fn law_depth_defaults_to_ten(max_depth: Option<u32>)
    ensures
        max_depth is None ==> depth_or_default(max_depth) == 10,
        max_depth matches Some(d) ==> depth_or_default(max_depth) == d,
{
}

} // verus!
