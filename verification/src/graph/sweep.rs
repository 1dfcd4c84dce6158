//! Sweep-line partition of overlapping waits.
//!
//! The waits of one thread may overlap. Cutting a window at every moment where
//! a wait begins or ends gives slices in which the set of concurrent wait
//! targets is constant, so that no moment is counted twice.

use vstd::prelude::*;

use super::types::{EdgeKind, ElementaryInterval, IntervalView, ThreadId, TimeWindow};
use super::wfg::{edges_at, lemma_edges_at, WaitEdge, WaitForGraph};
use crate::sorting::{
    insert_ranked, lemma_insert_ranked, lemma_sorted_unique, sort_dedup, sorted, Ranked,
};

verus! {

// ---------------------------------------------------------------------------
// The mathematical model
// ---------------------------------------------------------------------------

/// The part of the wait `e` that lies in `window`, if `e` is an observed wait
/// of `node` and overlaps it.
pub open spec fn clip(e: WaitEdge, node: ThreadId, window: TimeWindow) -> Option<TimeWindow> {
    if e.src == node && e.weight.kind == EdgeKind::Normal {
        window.meet(e.weight.time_window)
    } else {
        None
    }
}

/// The moments in `window` at which a wait of `node` begins or ends, ascending.
pub open spec fn cut_points(
    edges: Seq<WaitEdge>,
    node: ThreadId,
    window: TimeWindow,
) -> Seq<u64>
    decreases edges.len(),
{
    if edges.len() == 0 {
        Seq::empty()
    } else {
        let before = cut_points(edges.drop_last(), node, window);
        match clip(edges.last(), node, window) {
            Some(w) => insert_ranked(insert_ranked(before, w.start_ms), w.end_ms),
            None => before,
        }
    }
}

/// The threads that `node` waits for throughout the slice `[start, end)`, ascending.
pub open spec fn slice_targets(
    edges: Seq<WaitEdge>,
    node: ThreadId,
    window: TimeWindow,
    start: u64,
    end: u64,
) -> Seq<ThreadId>
    decreases edges.len(),
{
    if edges.len() == 0 {
        Seq::empty()
    } else {
        let before = slice_targets(edges.drop_last(), node, window, start, end);
        match clip(edges.last(), node, window) {
            Some(w) => if w.start_ms <= start && end <= w.end_ms {
                insert_ranked(before, edges.last().dst)
            } else {
                before
            },
            None => before,
        }
    }
}

/// The slices before the cut point number `n` in which `node` waits for something.
pub open spec fn slices(
    edges: Seq<WaitEdge>,
    node: ThreadId,
    window: TimeWindow,
    n: int,
) -> Seq<IntervalView>
    decreases n,
{
    if n <= 0 {
        Seq::empty()
    } else {
        let before = slices(edges, node, window, n - 1);
        let start = cut_points(edges, node, window)[n - 1];
        let end = cut_points(edges, node, window)[n];
        let targets = slice_targets(edges, node, window, start, end);
        if targets.len() == 0 {
            before
        } else {
            before.push(
                IntervalView { window: TimeWindow { start_ms: start, end_ms: end }, targets },
            )
        }
    }
}

/// The slices of `window` in which `node` waits for something, in time order,
/// each with the threads it then waits for.
pub open spec fn partition(
    edges: Seq<WaitEdge>,
    node: ThreadId,
    window: TimeWindow,
) -> Seq<IntervalView> {
    slices(edges, node, window, cut_points(edges, node, window).len() - 1)
}

/// At the moment `t` of `window`, `node` waits for `target`.
pub open spec fn waits_at(
    edges: Seq<WaitEdge>,
    node: ThreadId,
    window: TimeWindow,
    t: int,
    target: ThreadId,
) -> bool {
    exists|e: int|
        0 <= e < edges.len() && (#[trigger] edges[e]).src == node && edges[e].dst == target
            && edges[e].weight.kind == EdgeKind::Normal && window.has(t)
            && edges[e].weight.time_window.has(t)
}

/// The moment `p` bounds some clipped wait of `node`.
pub open spec fn is_boundary(
    edges: Seq<WaitEdge>,
    node: ThreadId,
    window: TimeWindow,
    p: u64,
) -> bool {
    exists|e: int|
        0 <= e < edges.len() && clip(#[trigger] edges[e], node, window) is Some && (clip(
            edges[e],
            node,
            window,
        )->0.start_ms == p || clip(edges[e], node, window)->0.end_ms == p)
}

/// A clipped wait of `node` for `target` covers the slice `[start, end)`.
pub open spec fn covers(
    edges: Seq<WaitEdge>,
    node: ThreadId,
    window: TimeWindow,
    start: u64,
    end: u64,
    target: ThreadId,
) -> bool {
    exists|e: int|
        0 <= e < edges.len() && clip(#[trigger] edges[e], node, window) is Some && clip(
            edges[e],
            node,
            window,
        )->0.start_ms <= start && end <= clip(edges[e], node, window)->0.end_ms && edges[e].dst
            == target
}

/// How much time the first `n` slices take together.
pub open spec fn covered(slices: Seq<IntervalView>, n: int) -> int
    decreases n,
{
    if n <= 0 {
        0
    } else {
        covered(slices, n - 1) + slices[n - 1].window.span()
    }
}

// ---------------------------------------------------------------------------
// The partition
// ---------------------------------------------------------------------------

/// Cuts the part of `window` in which `node` waits into slices with a constant
/// set of wait targets. Edges that only close a cycle through a device are no
/// waits. The result is empty if no wait of `node` overlaps `window`.
pub fn sweep_line_partition(
    graph: &WaitForGraph,
    node: ThreadId,
    window: &TimeWindow,
) -> (r: Vec<ElementaryInterval>)
    requires
        graph.wf(),
    ensures
        r@.map_values(|i: ElementaryInterval| i@) == partition(graph@.edges, node, *window),
{
    let ghost edges = graph@.edges;
    let mut result: Vec<ElementaryInterval> = Vec::new();
    let node_idx = match graph.node_index(&node) {
        Some(idx) => idx,
        None => {
            proof {
                graph.lemma_wf();
                assert forall|e: int| 0 <= e < edges.len() implies clip(
                    #[trigger] edges[e],
                    node,
                    *window,
                ) is None by {
                    assert(graph@.has(edges[e].src));
                }
                lemma_no_waits(edges, node, *window);
                assert(result@.map_values(|i: ElementaryInterval| i@) =~= partition(
                    edges,
                    node,
                    *window,
                ));
            }
            return result;
        },
    };
    let out = graph.outgoing_edges(node_idx);
    let ghost at = edges_at(edges, node, true);
    proof {
        lemma_edges_at(edges, node, true);
    }
    let mut clipped: Vec<(TimeWindow, ThreadId)> = Vec::new();
    for k in 0..out.len()
        invariant
            edges == graph@.edges,
            at == edges_at(edges, node, true),
            out@.len() == at.len(),
            forall|i: int|
                0 <= i < out@.len() ==> (#[trigger] out@[i]).0.0 == at[i] && 0 <= at[i]
                    < edges.len() && out@[i].1 == edges[at[i]].dst && *out@[i].2
                    == edges[at[i]].weight,
            forall|i: int| 0 <= i < at.len() ==> edges[#[trigger] at[i]].src == node,
            forall|c: int| 0 <= c < clipped@.len() ==> is_clip(edges, node, *window, #[trigger] clipped@[c]),
            forall|i: int|
                0 <= i < k && clip(edges[#[trigger] at[i]], node, *window) is Some
                    ==> clipped@.contains(
                    (clip(edges[at[i]], node, *window)->0, edges[at[i]].dst),
                ),
    {
        let (_, dst, weight) = out[k];
        let ghost before = clipped@;
        let ghost e = at[k as int];
        proof {
            assert(out@[k as int].0.0 == e);
            assert(edges[at[k as int]].src == node);
        }
        match weight.kind {
            EdgeKind::SyntheticClosureReturn => {},
            EdgeKind::Normal => {
                if let Some(w) = window.overlap(&weight.time_window) {
                    clipped.push((w, dst));
                    proof {
                        assert(clip(edges[e], node, *window) == Some(w));
                        assert(clipped@[before.len() as int] == (w, dst));
                        assert(is_clip_of(edges, node, *window, (w, dst), e));
                        assert(is_clip(edges, node, *window, (w, dst)));
                    }
                }
            },
        }
        proof {
            assert forall|i: int|
                0 <= i < k + 1 && clip(edges[#[trigger] at[i]], node, *window) is Some implies
                clipped@.contains((clip(edges[at[i]], node, *window)->0, edges[at[i]].dst)) by {
                let x = (clip(edges[at[i]], node, *window)->0, edges[at[i]].dst);
                if i < k {
                    assert(before.contains(x));
                    let c = choose|c: int| 0 <= c < before.len() && before[c] == x;
                    assert(clipped@[c] == x);
                } else {
                    assert(clipped@[before.len() as int] == x);
                }
            }
        }
    }
    proof {
        assert forall|e: int|
            0 <= e < edges.len() && clip(#[trigger] edges[e], node, *window) is Some implies
            clipped@.contains((clip(edges[e], node, *window)->0, edges[e].dst)) by {
            assert(at.contains(e));
            let i = choose|i: int| 0 <= i < at.len() && at[i] == e;
            assert(edges[at[i]] == edges[e]);
        }
    }
    let mut bounds: Vec<u64> = Vec::new();
    for k in 0..clipped.len()
        invariant
            forall|i: int| 0 <= i < k ==> bounds@.contains((#[trigger] clipped@[i]).0.start_ms),
            forall|i: int| 0 <= i < k ==> bounds@.contains((#[trigger] clipped@[i]).0.end_ms),
            forall|c: int| 0 <= c < clipped@.len() ==> is_clip(edges, node, *window, #[trigger] clipped@[c]),
            forall|b: int| 0 <= b < bounds@.len() ==> is_boundary(edges, node, *window, #[trigger] bounds@[b]),
    {
        let ghost before = bounds@;
        proof {
            assert(is_clip(edges, node, *window, clipped@[k as int]));
            let e = choose|e: int| is_clip_of(edges, node, *window, clipped@[k as int], e);
            assert(clip(edges[e], node, *window) is Some);
            assert(is_boundary(edges, node, *window, clipped@[k as int].0.start_ms));
            assert(is_boundary(edges, node, *window, clipped@[k as int].0.end_ms));
        }
        bounds.push(clipped[k].0.start_ms);
        bounds.push(clipped[k].0.end_ms);
        proof {
            assert(bounds@[before.len() as int] == clipped@[k as int].0.start_ms);
            assert(bounds@[before.len() as int + 1] == clipped@[k as int].0.end_ms);
            assert forall|x: u64| before.contains(x) implies bounds@.contains(x) by {
                let b = choose|b: int| 0 <= b < before.len() && before[b] == x;
                assert(bounds@[b] == x);
            }
        }
    }
    let points = sort_dedup(&bounds);
    proof {
        lemma_cut_points(edges, node, *window);
        let cuts = cut_points(edges, node, *window);
        assert forall|p: u64| points@.contains(p) <==> cuts.contains(p) by {
            if points@.contains(p) {
                assert(bounds@.contains(p));
                let b = choose|b: int| 0 <= b < bounds@.len() && bounds@[b] == p;
                assert(is_boundary(edges, node, *window, bounds@[b]));
            }
            if cuts.contains(p) {
                assert(is_boundary(edges, node, *window, p));
                let e = choose|e: int|
                    0 <= e < edges.len() && clip(#[trigger] edges[e], node, *window) is Some && (
                    clip(edges[e], node, *window)->0.start_ms == p || clip(
                        edges[e],
                        node,
                        *window,
                    )->0.end_ms == p);
                let x = (clip(edges[e], node, *window)->0, edges[e].dst);
                assert(clipped@.contains(x));
                let c = choose|c: int| 0 <= c < clipped@.len() && clipped@[c] == x;
                assert(bounds@.contains(clipped@[c].0.start_ms));
                assert(bounds@.contains(clipped@[c].0.end_ms));
            }
        }
        lemma_sorted_unique(points@, cuts);
    }
    if points.len() == 0 {
        assert(result@.map_values(|i: ElementaryInterval| i@) =~= partition(edges, node, *window));
        return result;
    }
    assert(result@.map_values(|i: ElementaryInterval| i@) =~= slices(edges, node, *window, 0));
    for n in 1..points.len()
        invariant
            points@ == cut_points(edges, node, *window),
            forall|c: int| 0 <= c < clipped@.len() ==> is_clip(edges, node, *window, #[trigger] clipped@[c]),
            forall|e: int|
                0 <= e < edges.len() && clip(#[trigger] edges[e], node, *window) is Some
                    ==> clipped@.contains((clip(edges[e], node, *window)->0, edges[e].dst)),
            result@.map_values(|i: ElementaryInterval| i@) == slices(
                edges,
                node,
                *window,
                n - 1,
            ),
    {
        let s: u64 = points[n - 1];
        let e: u64 = points[n];
        let targets = active_targets(&clipped, s, e, Ghost(edges), node, window);
        let ghost before = result@;
        if targets.len() > 0 {
            result.push(
                ElementaryInterval { window: TimeWindow { start_ms: s, end_ms: e }, targets },
            );
            assert(result@.map_values(|i: ElementaryInterval| i@) =~= before.map_values(
                |i: ElementaryInterval| i@,
            ).push(result@.last()@));
        }
        assert(result@.map_values(|i: ElementaryInterval| i@) =~= slices(
            edges,
            node,
            *window,
            n as int,
        ));
    }
    result
}

/// `x` is what `window` leaves of wait number `e`, and the thread waited for.
spec fn is_clip_of(
    edges: Seq<WaitEdge>,
    node: ThreadId,
    window: TimeWindow,
    x: (TimeWindow, ThreadId),
    e: int,
) -> bool {
    0 <= e < edges.len() && clip(edges[e], node, window) == Some(x.0) && edges[e].dst == x.1
}

/// `x` is what `window` leaves of some wait.
spec fn is_clip(
    edges: Seq<WaitEdge>,
    node: ThreadId,
    window: TimeWindow,
    x: (TimeWindow, ThreadId),
) -> bool {
    exists|e: int| is_clip_of(edges, node, window, x, e)
}

/// The targets of the clipped waits that cover the slice `[s, e)`.
fn active_targets(
    clipped: &Vec<(TimeWindow, ThreadId)>,
    s: u64,
    e: u64,
    Ghost(edges): Ghost<Seq<WaitEdge>>,
    node: ThreadId,
    window: &TimeWindow,
) -> (r: Vec<ThreadId>)
    requires
        forall|c: int|
            0 <= c < clipped@.len() ==> is_clip(edges, node, *window, #[trigger] clipped@[c]),
        forall|i: int|
            0 <= i < edges.len() && clip(#[trigger] edges[i], node, *window) is Some
                ==> clipped@.contains((clip(edges[i], node, *window)->0, edges[i].dst)),
    ensures
        r@ == slice_targets(edges, node, *window, s, e),
{
    let mut found: Vec<ThreadId> = Vec::new();
    for k in 0..clipped.len()
        invariant
            forall|c: int|
                0 <= c < clipped@.len() ==> is_clip(edges, node, *window, #[trigger] clipped@[c]),
            forall|i: int|
                0 <= i < k && (#[trigger] clipped@[i]).0.start_ms <= s && e <= clipped@[i].0.end_ms
                    ==> found@.contains(clipped@[i].1),
            forall|f: int|
                0 <= f < found@.len() ==> covers(edges, node, *window, s, e, #[trigger] found@[f]),
    {
        let ghost before = found@;
        if clipped[k].0.start_ms <= s && clipped[k].0.end_ms >= e {
            proof {
                assert(is_clip(edges, node, *window, clipped@[k as int]));
                let i = choose|i: int| is_clip_of(edges, node, *window, clipped@[k as int], i);
                assert(clip(edges[i], node, *window) is Some);
                assert(covers(edges, node, *window, s, e, clipped@[k as int].1));
            }
            found.push(clipped[k].1);
            assert(found@[before.len() as int] == clipped@[k as int].1);
        }
        proof {
            assert forall|t: ThreadId| before.contains(t) implies found@.contains(t) by {
                let f = choose|f: int| 0 <= f < before.len() && before[f] == t;
                assert(found@[f] == t);
            }
        }
    }
    let r = sort_dedup(&found);
    proof {
        lemma_slice_targets(edges, node, *window, s, e);
        let targets = slice_targets(edges, node, *window, s, e);
        assert forall|t: ThreadId| r@.contains(t) <==> targets.contains(t) by {
            if r@.contains(t) {
                assert(found@.contains(t));
                let f = choose|f: int| 0 <= f < found@.len() && found@[f] == t;
                assert(covers(edges, node, *window, s, e, found@[f]));
            }
            if targets.contains(t) {
                assert(covers(edges, node, *window, s, e, t));
                let i = choose|i: int|
                    0 <= i < edges.len() && clip(#[trigger] edges[i], node, *window) is Some
                        && clip(edges[i], node, *window)->0.start_ms <= s && e <= clip(
                        edges[i],
                        node,
                        *window,
                    )->0.end_ms && edges[i].dst == t;
                let x = (clip(edges[i], node, *window)->0, edges[i].dst);
                assert(clipped@.contains(x));
                let c = choose|c: int| 0 <= c < clipped@.len() && clipped@[c] == x;
                assert(found@.contains(clipped@[c].1));
            }
        }
        lemma_sorted_unique(r@, targets);
    }
    r
}

// ---------------------------------------------------------------------------
// Lemmas
// ---------------------------------------------------------------------------

proof fn lemma_no_waits(edges: Seq<WaitEdge>, node: ThreadId, window: TimeWindow)
    requires
        forall|e: int| 0 <= e < edges.len() ==> clip(#[trigger] edges[e], node, window) is None,
    ensures
        cut_points(edges, node, window).len() == 0,
    decreases edges.len(),
{
    if edges.len() > 0 {
        assert(edges.last() == edges[edges.len() - 1]);
        assert forall|e: int| 0 <= e < edges.drop_last().len() implies clip(
            #[trigger] edges.drop_last()[e],
            node,
            window,
        ) is None by {
            assert(edges.drop_last()[e] == edges[e]);
        }
        lemma_no_waits(edges.drop_last(), node, window);
    }
}

/// The cut points are the boundaries of the clipped waits, ascending.
pub proof fn lemma_cut_points(edges: Seq<WaitEdge>, node: ThreadId, window: TimeWindow)
    ensures
        sorted(cut_points(edges, node, window)),
        cut_points(edges, node, window).no_duplicates(),
        forall|p: u64| #[trigger]
            cut_points(edges, node, window).contains(p) <==> is_boundary(edges, node, window, p),
    decreases edges.len(),
{
    if edges.len() > 0 {
        let front = edges.drop_last();
        let before = cut_points(front, node, window);
        lemma_cut_points(front, node, window);
        if clip(edges.last(), node, window) is Some {
            let w = clip(edges.last(), node, window)->0;
            lemma_insert_ranked(before, w.start_ms);
            lemma_insert_ranked(insert_ranked(before, w.start_ms), w.end_ms);
        }
        assert forall|p: u64| #[trigger]
            cut_points(edges, node, window).contains(p) <==> is_boundary(
            edges,
            node,
            window,
            p,
        ) by {
            let here = clip(edges.last(), node, window) is Some && (clip(
                edges.last(),
                node,
                window,
            )->0.start_ms == p || clip(edges.last(), node, window)->0.end_ms == p);
            assert(cut_points(edges, node, window).contains(p) <==> before.contains(p) || here) by {
                if clip(edges.last(), node, window) is Some {
                    let w = clip(edges.last(), node, window)->0;
                    assert(insert_ranked(
                        insert_ranked(before, w.start_ms),
                        w.end_ms,
                    ).contains(p) <==> insert_ranked(before, w.start_ms).contains(p) || p
                        == w.end_ms);
                    assert(insert_ranked(before, w.start_ms).contains(p) <==> before.contains(p)
                        || p == w.start_ms);
                }
            }
            assert(is_boundary(edges, node, window, p) <==> is_boundary(front, node, window, p)
                || here) by {
                if is_boundary(front, node, window, p) {
                    let e = choose|e: int|
                        0 <= e < front.len() && clip(#[trigger] front[e], node, window) is Some && (
                        clip(front[e], node, window)->0.start_ms == p || clip(
                            front[e],
                            node,
                            window,
                        )->0.end_ms == p);
                    assert(edges[e] == front[e]);
                }
                if here {
                    assert(edges[edges.len() - 1] == edges.last());
                }
                if is_boundary(edges, node, window, p) && !here {
                    let e = choose|e: int|
                        0 <= e < edges.len() && clip(#[trigger] edges[e], node, window) is Some && (
                        clip(edges[e], node, window)->0.start_ms == p || clip(
                            edges[e],
                            node,
                            window,
                        )->0.end_ms == p);
                    assert(e < edges.len() - 1);
                    assert(front[e] == edges[e]);
                }
            }
        }
    } else {
        assert(forall|p: u64| !cut_points(edges, node, window).contains(p));
    }
}

/// The targets of a slice are those of the waits that cover it, ascending.
pub proof fn lemma_slice_targets(
    edges: Seq<WaitEdge>,
    node: ThreadId,
    window: TimeWindow,
    start: u64,
    end: u64,
)
    ensures
        sorted(slice_targets(edges, node, window, start, end)),
        slice_targets(edges, node, window, start, end).no_duplicates(),
        forall|t: ThreadId| #[trigger]
            slice_targets(edges, node, window, start, end).contains(t) <==> covers(
                edges,
                node,
                window,
                start,
                end,
                t,
            ),
    decreases edges.len(),
{
    let targets = slice_targets(edges, node, window, start, end);
    if edges.len() > 0 {
        let front = edges.drop_last();
        let before = slice_targets(front, node, window, start, end);
        lemma_slice_targets(front, node, window, start, end);
        let active = clip(edges.last(), node, window) is Some && clip(
            edges.last(),
            node,
            window,
        )->0.start_ms <= start && end <= clip(edges.last(), node, window)->0.end_ms;
        if active {
            lemma_insert_ranked(before, edges.last().dst);
        }
        assert forall|t: ThreadId| #[trigger] targets.contains(t) <==> covers(
            edges,
            node,
            window,
            start,
            end,
            t,
        ) by {
            let here = active && edges.last().dst == t;
            assert(targets.contains(t) <==> before.contains(t) || here) by {
                if active {
                    assert(insert_ranked(before, edges.last().dst).contains(t) <==> before.contains(
                        t,
                    ) || t == edges.last().dst);
                }
            }
            if covers(front, node, window, start, end, t) {
                let e = choose|e: int|
                    0 <= e < front.len() && clip(#[trigger] front[e], node, window) is Some && clip(
                        front[e],
                        node,
                        window,
                    )->0.start_ms <= start && end <= clip(front[e], node, window)->0.end_ms
                        && front[e].dst == t;
                assert(edges[e] == front[e]);
            }
            if here {
                assert(edges[edges.len() - 1] == edges.last());
            }
            if covers(edges, node, window, start, end, t) && !here {
                let e = choose|e: int|
                    0 <= e < edges.len() && clip(#[trigger] edges[e], node, window) is Some && clip(
                        edges[e],
                        node,
                        window,
                    )->0.start_ms <= start && end <= clip(edges[e], node, window)->0.end_ms
                        && edges[e].dst == t;
                assert(e < edges.len() - 1);
                assert(front[e] == edges[e]);
            }
        }
    } else {
        assert(forall|t: ThreadId| !targets.contains(t));
    }
}

/// Slice number `m` between two cut points.
spec fn slice_at(
    edges: Seq<WaitEdge>,
    node: ThreadId,
    window: TimeWindow,
    m: int,
) -> IntervalView {
    let cuts = cut_points(edges, node, window);
    IntervalView {
        window: TimeWindow { start_ms: cuts[m], end_ms: cuts[m + 1] },
        targets: slice_targets(edges, node, window, cuts[m], cuts[m + 1]),
    }
}

/// `slice` is one of the first `n` slices between cut points, and not empty.
spec fn is_slice(
    edges: Seq<WaitEdge>,
    node: ThreadId,
    window: TimeWindow,
    n: int,
    slice: IntervalView,
) -> bool {
    exists|m: int|
        0 <= m < n && slice == #[trigger] slice_at(edges, node, window, m) && slice.targets.len()
            > 0
}

proof fn lemma_slices(edges: Seq<WaitEdge>, node: ThreadId, window: TimeWindow, n: int)
    requires
        0 <= n,
        n == 0 || n < cut_points(edges, node, window).len(),
    ensures
        forall|k: int|
            0 <= k < slices(edges, node, window, n).len() ==> is_slice(
                edges,
                node,
                window,
                n,
                #[trigger] slices(edges, node, window, n)[k],
            ),
        forall|m: int|
            0 <= m < n && (#[trigger] slice_at(edges, node, window, m)).targets.len() > 0
                ==> slices(edges, node, window, n).contains(slice_at(edges, node, window, m)),
        forall|k: int, l: int|
            0 <= k < l < slices(edges, node, window, n).len() ==> (#[trigger] slices(
                edges,
                node,
                window,
                n,
            )[k]).window.end_ms <= (#[trigger] slices(edges, node, window, n)[l]).window.start_ms,
        forall|k: int|
            0 <= k < slices(edges, node, window, n).len() ==> (#[trigger] slices(
                edges,
                node,
                window,
                n,
            )[k]).window.end_ms <= cut_points(edges, node, window)[n],
    decreases n,
{
    lemma_cut_points(edges, node, window);
    let cuts = cut_points(edges, node, window);
    if n > 0 {
        lemma_slices(edges, node, window, n - 1);
        let before = slices(edges, node, window, n - 1);
        let all = slices(edges, node, window, n);
        let here = slice_at(edges, node, window, n - 1);
        assert forall|k: int| 0 <= k < all.len() implies is_slice(
            edges,
            node,
            window,
            n,
            #[trigger] all[k],
        ) by {
            if k < before.len() {
                assert(is_slice(edges, node, window, n - 1, before[k]));
                let m = choose|m: int|
                    0 <= m < n - 1 && before[k] == #[trigger] slice_at(edges, node, window, m)
                        && before[k].targets.len() > 0;
                assert(slice_at(edges, node, window, m) == all[k]);
            } else {
                assert(all[k] == here);
            }
        }
        assert forall|m: int|
            0 <= m < n && (#[trigger] slice_at(edges, node, window, m)).targets.len() > 0 implies
            all.contains(slice_at(edges, node, window, m)) by {
            if m < n - 1 {
                let x = slice_at(edges, node, window, m);
                assert(before.contains(x));
                let k = choose|k: int| 0 <= k < before.len() && before[k] == x;
                assert(all[k] == x);
            } else {
                assert(all[before.len() as int] == here);
            }
        }
        assert(cuts[n - 1] <= cuts[n]);
        assert forall|k: int| 0 <= k < all.len() implies (#[trigger] all[k]).window.end_ms
            <= cuts[n] by {
            if k < before.len() {
                assert(before[k].window.end_ms <= cuts[n - 1]);
            }
        }
        assert forall|k: int, l: int| 0 <= k < l < all.len() implies (
        #[trigger] all[k]).window.end_ms <= (#[trigger] all[l]).window.start_ms by {
            if l < before.len() {
                assert(before[k].window.end_ms <= before[l].window.start_ms);
            } else {
                assert(before[k].window.end_ms <= cuts[n - 1]);
            }
        }
    }
}

/// The slices are not empty, lie in the window, follow one another without
/// overlap, and list their targets in ascending order without repetitions.
pub proof fn lemma_partition_is_ordered(edges: Seq<WaitEdge>, node: ThreadId, window: TimeWindow)
    ensures
        forall|k: int|
            0 <= k < partition(edges, node, window).len() ==> {
                let slice = #[trigger] partition(edges, node, window)[k];
                &&& window.start_ms <= slice.window.start_ms < slice.window.end_ms <= window.end_ms
                &&& slice.targets.len() > 0
                &&& sorted(slice.targets)
                &&& slice.targets.no_duplicates()
            },
        forall|k: int, l: int|
            0 <= k < l < partition(edges, node, window).len() ==> (#[trigger] partition(
                edges,
                node,
                window,
            )[k]).window.end_ms <= (#[trigger] partition(edges, node, window)[l]).window.start_ms,
{
    lemma_cut_points(edges, node, window);
    let cuts = cut_points(edges, node, window);
    let all = partition(edges, node, window);
    if cuts.len() > 0 {
        lemma_slices(edges, node, window, cuts.len() - 1);
        assert forall|k: int| 0 <= k < all.len() implies {
            let slice = #[trigger] all[k];
            &&& window.start_ms <= slice.window.start_ms < slice.window.end_ms <= window.end_ms
            &&& slice.targets.len() > 0
            &&& sorted(slice.targets)
            &&& slice.targets.no_duplicates()
        } by {
            assert(is_slice(edges, node, window, cuts.len() - 1, all[k]));
            let m = choose|m: int|
                0 <= m < cuts.len() - 1 && all[k] == #[trigger] slice_at(edges, node, window, m)
                    && all[k].targets.len() > 0;
            lemma_slice_targets(edges, node, window, cuts[m], cuts[m + 1]);
            assert(cuts[m] <= cuts[m + 1] && cuts[m] != cuts[m + 1]);
            assert(cuts.contains(cuts[m]) && cuts.contains(cuts[m + 1]));
            lemma_boundary_inside(edges, node, window, cuts[m]);
            lemma_boundary_inside(edges, node, window, cuts[m + 1]);
        }
    }
}

proof fn lemma_boundary_inside(edges: Seq<WaitEdge>, node: ThreadId, window: TimeWindow, p: u64)
    requires
        is_boundary(edges, node, window, p),
    ensures
        window.start_ms <= p <= window.end_ms,
{
}

/// The cut points around the moment `t`.
proof fn lemma_find_cut(cuts: Seq<u64>, t: int, lo: int, hi: int) -> (m: int)
    requires
        sorted(cuts),
        0 <= lo < hi < cuts.len(),
        cuts[lo] <= t < cuts[hi],
    ensures
        lo <= m < hi,
        cuts[m] <= t < cuts[m + 1],
    decreases hi - lo,
{
    if hi == lo + 1 {
        lo
    } else if t < cuts[lo + 1] {
        lo
    } else {
        lemma_find_cut(cuts, t, lo + 1, hi)
    }
}

/// A moment lies in a slice with a given target exactly if `node` then waits
/// for that target: nothing is lost and nothing is counted twice.
pub proof fn lemma_partition_is_exact(
    edges: Seq<WaitEdge>,
    node: ThreadId,
    window: TimeWindow,
    t: int,
    target: ThreadId,
)
    ensures
        waits_at(edges, node, window, t, target) <==> exists|k: int|
            0 <= k < partition(edges, node, window).len() && (#[trigger] partition(
                edges,
                node,
                window,
            )[k]).window.has(t) && partition(edges, node, window)[k].targets.contains(target),
{
    lemma_cut_points(edges, node, window);
    let cuts = cut_points(edges, node, window);
    let all = partition(edges, node, window);
    if cuts.len() > 0 {
        lemma_slices(edges, node, window, cuts.len() - 1);
    }
    if waits_at(edges, node, window, t, target) {
        let e = choose|e: int|
            0 <= e < edges.len() && (#[trigger] edges[e]).src == node && edges[e].dst == target
                && edges[e].weight.kind == EdgeKind::Normal && window.has(t)
                && edges[e].weight.time_window.has(t);
        let w = clip(edges[e], node, window)->0;
        assert(clip(edges[e], node, window) == Some(w) && w.has(t));
        assert(is_boundary(edges, node, window, w.start_ms));
        assert(is_boundary(edges, node, window, w.end_ms));
        assert(cuts.contains(w.start_ms) && cuts.contains(w.end_ms));
        let lo = choose|i: int| 0 <= i < cuts.len() && cuts[i] == w.start_ms;
        let hi = choose|i: int| 0 <= i < cuts.len() && cuts[i] == w.end_ms;
        assert(lo < hi) by {
            if hi < lo {
                assert(cuts[hi] <= cuts[lo]);
            }
        }
        let m = lemma_find_cut(cuts, t, lo, hi);
        assert(cuts[lo] <= cuts[m]) by {
            if lo < m {
                assert(cuts[lo].not_after(cuts[m]));
            }
        }
        assert(cuts[m + 1] <= cuts[hi]) by {
            if m + 1 < hi {
                assert(cuts[m + 1].not_after(cuts[hi]));
            }
        }
        lemma_slice_targets(edges, node, window, cuts[m], cuts[m + 1]);
        assert(covers(edges, node, window, cuts[m], cuts[m + 1], target));
        let slice = slice_at(edges, node, window, m);
        assert(slice.targets.contains(target));
        assert(all.contains(slice));
        let k = choose|k: int| 0 <= k < all.len() && all[k] == slice;
        assert(all[k].window.has(t) && all[k].targets.contains(target));
    }
    if exists|k: int|
        0 <= k < all.len() && (#[trigger] all[k]).window.has(t) && all[k].targets.contains(
            target,
        ) {
        let k = choose|k: int|
            0 <= k < all.len() && (#[trigger] all[k]).window.has(t) && all[k].targets.contains(
                target,
            );
        assert(is_slice(edges, node, window, cuts.len() - 1, all[k]));
        let m = choose|m: int|
            0 <= m < cuts.len() - 1 && all[k] == #[trigger] slice_at(edges, node, window, m)
                && all[k].targets.len() > 0;
        lemma_slice_targets(edges, node, window, cuts[m], cuts[m + 1]);
        assert(covers(edges, node, window, cuts[m], cuts[m + 1], target));
        let e = choose|e: int|
            0 <= e < edges.len() && clip(#[trigger] edges[e], node, window) is Some && clip(
                edges[e],
                node,
                window,
            )->0.start_ms <= cuts[m] && cuts[m + 1] <= clip(edges[e], node, window)->0.end_ms
                && edges[e].dst == target;
        assert(clip(edges[e], node, window)->0.has(t));
        assert(edges[e].src == node && window.has(t) && edges[e].weight.time_window.has(t));
    }
}

/// Together the slices take no more time than the window.
pub proof fn lemma_covered_bound(edges: Seq<WaitEdge>, node: ThreadId, window: TimeWindow, n: int)
    requires
        window.valid(),
        0 <= n <= partition(edges, node, window).len(),
    ensures
        0 <= covered(partition(edges, node, window), n) <= window.span(),
        n > 0 ==> covered(partition(edges, node, window), n) <= partition(
            edges,
            node,
            window,
        )[n - 1].window.end_ms - window.start_ms,
    decreases n,
{
    if n > 0 {
        lemma_covered_bound(edges, node, window, n - 1);
        lemma_partition_is_ordered(edges, node, window);
        let all = partition(edges, node, window);
        assert(window.start_ms <= all[n - 1].window.start_ms < all[n - 1].window.end_ms
            <= window.end_ms);
        if n > 1 {
            assert(all[n - 2].window.end_ms <= all[n - 1].window.start_ms);
        }
    }
}

/// The part of a wait that lies in a window: from the later start to the earlier
/// end.
pub open spec fn part_start(wait: TimeWindow, window: TimeWindow) -> u64 {
    if wait.start_ms > window.start_ms {
        wait.start_ms
    } else {
        window.start_ms
    }
}

/// Where the part of a wait that lies in a window ends.
pub open spec fn part_end(wait: TimeWindow, window: TimeWindow) -> u64 {
    if wait.end_ms < window.end_ms {
        wait.end_ms
    } else {
        window.end_ms
    }
}

/// `p` is where some observed wait of `node` begins or ends in the window.
pub open spec fn begins_or_ends(
    edges: Seq<WaitEdge>,
    node: ThreadId,
    window: TimeWindow,
    p: u64,
) -> bool {
    exists|e: int|
        {
            let w = (#[trigger] edges[e]).weight.time_window;
            &&& 0 <= e < edges.len()
            &&& edges[e].src == node
            &&& edges[e].weight.kind == EdgeKind::Normal
            &&& part_start(w, window) < part_end(w, window)
            &&& p == part_start(w, window) || p == part_end(w, window)
        }
}

/// Slices are no larger and no smaller than they have to be: each begins and ends
/// where some wait begins or ends, and none begins or ends inside one.
pub proof fn law_slices_are_elementary(
    edges: Seq<WaitEdge>,
    node: ThreadId,
    window: TimeWindow,
    k: int,
)
    requires
        0 <= k < partition(edges, node, window).len(),
    ensures
        ({
            let slice = partition(edges, node, window)[k].window;
            &&& begins_or_ends(edges, node, window, slice.start_ms)
            &&& begins_or_ends(edges, node, window, slice.end_ms)
            &&& forall|p: u64|
                slice.start_ms < p < slice.end_ms ==> !#[trigger] begins_or_ends(
                    edges,
                    node,
                    window,
                    p,
                )
        }),
{
    lemma_cut_points(edges, node, window);
    let cuts = cut_points(edges, node, window);
    let n = cuts.len() - 1;
    assert(cuts.len() > 0);
    lemma_slices(edges, node, window, n);
    let all = partition(edges, node, window);
    assert(is_slice(edges, node, window, n, all[k]));
    let m = choose|m: int| 0 <= m < n && all[k] == #[trigger] slice_at(edges, node, window, m);
    assert forall|p: u64| #[trigger] begins_or_ends(edges, node, window, p) <==> cuts.contains(
        p,
    ) by {
        if begins_or_ends(edges, node, window, p) {
            let e = choose|e: int|
                {
                    let w = (#[trigger] edges[e]).weight.time_window;
                    &&& 0 <= e < edges.len()
                    &&& edges[e].src == node
                    &&& edges[e].weight.kind == EdgeKind::Normal
                    &&& part_start(w, window) < part_end(w, window)
                    &&& p == part_start(w, window) || p == part_end(w, window)
                };
            assert(clip(edges[e], node, window) is Some);
            assert(is_boundary(edges, node, window, p));
        }
        if cuts.contains(p) {
            assert(is_boundary(edges, node, window, p));
            let e = choose|e: int|
                0 <= e < edges.len() && clip(#[trigger] edges[e], node, window) is Some && (clip(
                    edges[e],
                    node,
                    window,
                )->0.start_ms == p || clip(edges[e], node, window)->0.end_ms == p);
            let w = edges[e].weight.time_window;
            assert(part_start(w, window) < part_end(w, window));
        }
    }
    assert(cuts.contains(cuts[m]));
    assert(cuts.contains(cuts[m + 1]));
    let slice = all[k].window;
    assert forall|p: u64| slice.start_ms < p < slice.end_ms implies !#[trigger] begins_or_ends(
        edges,
        node,
        window,
        p,
    ) by {
        if begins_or_ends(edges, node, window, p) {
            let i = choose|i: int| 0 <= i < cuts.len() && cuts[i] == p;
            if i < m {
                assert(cuts[i].not_after(cuts[m]));
            } else if i > m + 1 {
                assert(cuts[m + 1].not_after(cuts[i]));
            }
        }
    }
}

} // verus!
