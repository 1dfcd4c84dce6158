//! Weights of the condensation's nodes.
//!
//! A node weighs as much as the largest attributed delay inside it; a single
//! thread without inner edges as much as the largest at it. The weights serve
//! to rank nodes, no more.

use vstd::prelude::*;

use crate::graph::types::{EdgeWeight, ThreadId};
use crate::graph::wfg::{
    edges_at, lemma_edges_at, EdgeIndex, NodeIndex, WaitEdge, WaitForGraph,
};

use super::tarjan::{
    copy_tids, internal_edges, internal_list, keep_inside, CondensationDag, Scc, SuperNodeView,
};

verus! {

/// The largest attributed delay among the given edges, zero without edges.
pub open spec fn max_attributed(edges: Seq<WaitEdge>, ids: Seq<int>) -> u64
    decreases ids.len(),
{
    if ids.len() == 0 {
        0
    } else {
        let before = max_attributed(edges, ids.drop_last());
        let here = edges[ids.last()].weight.attributed_delay_ms;
        if here > before {
            here
        } else {
            before
        }
    }
}

/// What a component weighs.
pub open spec fn heuristic_weight(edges: Seq<WaitEdge>, members: Seq<ThreadId>) -> u64 {
    let inner = internal_list(edges, members, members.len() as int);
    if inner.len() > 0 {
        max_attributed(edges, inner)
    } else if members.len() == 1 {
        let out = max_attributed(edges, edges_at(edges, members[0], true));
        let into = max_attributed(edges, edges_at(edges, members[0], false));
        if out > into {
            out
        } else {
            into
        }
    } else {
        0
    }
}

/// `max_attributed` is an upper bound, and attained unless it is zero.
pub proof fn lemma_max_attributed(edges: Seq<WaitEdge>, ids: Seq<int>)
    ensures
        forall|k: int|
            0 <= k < ids.len() ==> edges[#[trigger] ids[k]].weight.attributed_delay_ms
                <= max_attributed(edges, ids),
        ids.len() > 0 ==> exists|k: int|
            0 <= k < ids.len() && edges[#[trigger] ids[k]].weight.attributed_delay_ms
                == max_attributed(edges, ids),
    decreases ids.len(),
{
    if ids.len() > 0 {
        let front = ids.drop_last();
        lemma_max_attributed(edges, front);
        let last = ids.len() - 1;
        assert forall|k: int| 0 <= k < ids.len() implies edges[#[trigger] ids[k]].weight.attributed_delay_ms
            <= max_attributed(edges, ids) by {
            if k < last {
                assert(front[k] == ids[k]);
            }
        }
        if edges[ids[last]].weight.attributed_delay_ms == max_attributed(edges, ids) {
        } else {
            if front.len() > 0 {
                let k = choose|k: int|
                    0 <= k < front.len() && edges[#[trigger] front[k]].weight.attributed_delay_ms
                        == max_attributed(edges, front);
                assert(ids[k] == front[k]);
            }
        }
    }
}

/// The largest attributed delay in a list of a graph's edges.
fn list_max(
    list: &Vec<(EdgeIndex, ThreadId, &EdgeWeight)>,
    Ghost(edges): Ghost<Seq<WaitEdge>>,
    Ghost(ids): Ghost<Seq<int>>,
) -> (m: u64)
    requires
        list@.len() == ids.len(),
        forall|k: int| 0 <= k < list@.len() ==> *(#[trigger] list@[k]).2 == edges[ids[k]].weight,
    ensures
        m == max_attributed(edges, ids),
{
    let mut m: u64 = 0;
    for k in 0..list.len()
        invariant
            list@.len() == ids.len(),
            forall|k: int|
                0 <= k < list@.len() ==> *(#[trigger] list@[k]).2 == edges[ids[k]].weight,
            m == max_attributed(edges, ids.take(k as int)),
    {
        proof {
            assert(ids.take(k + 1).drop_last() =~= ids.take(k as int));
            assert(ids.take(k + 1).last() == ids[k as int]);
        }
        let here: u64 = list[k].2.attributed_delay_ms;
        if here > m {
            m = here;
        }
    }
    assert(ids.take(ids.len() as int) =~= ids);
    m
}

/// What a component weighs: the largest attributed delay among its inner edges,
/// or, for a single thread without any, among all edges at it.
pub fn max_heuristic_weight(graph: &WaitForGraph, scc: &Scc) -> (w: u64)
    requires
        graph.wf(),
        forall|i: int| 0 <= i < scc@.len() ==> graph@.has(#[trigger] scc@[i]),
    ensures
        w == heuristic_weight(graph@.edges, scc@),
{
    let inner = internal_edges(graph, scc);
    let ghost edges = graph@.edges;
    let ghost ids = internal_list(edges, scc@, scc@.len() as int);
    if inner.len() > 0 {
        let mut m: u64 = 0;
        for k in 0..inner.len()
            invariant
                edges == graph@.edges,
                inner@.len() == ids.len(),
                forall|k: int|
                    #![trigger inner@[k]]
                    0 <= k < inner@.len() ==> *inner@[k].2 == edges[ids[k]].weight,
                m == max_attributed(edges, ids.take(k as int)),
        {
            proof {
                assert(ids.take(k + 1).drop_last() =~= ids.take(k as int));
                assert(ids.take(k + 1).last() == ids[k as int]);
                assert(*inner@[k as int].2 == edges[ids[k as int]].weight);
            }
            let here: u64 = inner[k].2.attributed_delay_ms;
            if here > m {
                m = here;
            }
        }
        assert(ids.take(ids.len() as int) =~= ids);
        return m;
    }
    if scc.members.len() == 1 {
        let tid = scc.members[0];
        assert(graph@.has(scc@[0]));
        let idx = graph.node_index(&tid).unwrap();
        let out_max: u64 = list_max(
            &graph.outgoing_edges(idx),
            Ghost(edges),
            Ghost(edges_at(edges, tid, true)),
        );
        let in_max: u64 = list_max(
            &graph.incoming_edges(idx),
            Ghost(edges),
            Ghost(edges_at(edges, tid, false)),
        );
        return if out_max > in_max {
            out_max
        } else {
            in_max
        };
    }
    0
}

/// The node with its weight filled in.
pub open spec fn weighed(edges: Seq<WaitEdge>, n: SuperNodeView) -> SuperNodeView {
    SuperNodeView { weight: heuristic_weight(edges, n.members), ..n }
}

/// Fills in the weight of every node.
pub fn apply_max_heuristic(cdag: &mut CondensationDag, graph: &WaitForGraph)
    requires
        old(cdag).wf(),
        graph.wf(),
        forall|i: int, k: int|
            0 <= i < old(cdag)@.nodes.len() && 0 <= k < old(cdag)@.nodes[i].members.len()
                ==> graph@.has(#[trigger] old(cdag)@.nodes[i].members[k]),
    ensures
        final(cdag).wf(),
        final(cdag)@.nodes == old(cdag)@.nodes.map_values(
            |n: SuperNodeView| weighed(graph@.edges, n),
        ),
        final(cdag)@.edges == old(cdag)@.edges,
        final(cdag)@.home == old(cdag)@.home,
{
    let n: usize = cdag.node_count();
    let ghost before = cdag@;
    proof {
        cdag.lemma_wf();
    }
    for i in 0..n
        invariant
            graph.wf(),
            cdag.wf(),
            n == before.nodes.len(),
            n <= u32::MAX,
            forall|i: int, k: int|
                0 <= i < before.nodes.len() && 0 <= k < before.nodes[i].members.len()
                    ==> graph@.has(#[trigger] before.nodes[i].members[k]),
            cdag@.edges == before.edges,
            cdag@.home == before.home,
            cdag@.nodes.len() == n,
            forall|k: int|
                0 <= k < i ==> #[trigger] cdag@.nodes[k] == weighed(
                    graph@.edges,
                    before.nodes[k],
                ),
            forall|k: int| i <= k < n ==> #[trigger] cdag@.nodes[k] == before.nodes[k],
    {
        let idx = NodeIndex(i as u32);
        let scc = Scc { members: copy_tids(&cdag.super_node(idx).members) };
        proof {
            assert(cdag@.nodes[i as int] == before.nodes[i as int]);
            assert forall|k: int| 0 <= k < scc@.len() implies graph@.has(#[trigger] scc@[k]) by {
                assert(graph@.has(before.nodes[i as int].members[k]));
            }
        }
        let weight: u64 = max_heuristic_weight(graph, &scc);
        let node = cdag.super_node_mut(idx);
        node.weight = weight;
    }
    assert(cdag@.nodes =~= before.nodes.map_values(
        |n: SuperNodeView| weighed(graph@.edges, n),
    ));
}

// ---------------------------------------------------------------------------
// Laws
// ---------------------------------------------------------------------------

proof fn lemma_kept(edges: Seq<WaitEdge>, ids: Seq<int>, members: Seq<ThreadId>, e: int)
    ensures
        keep_inside(edges, ids, members).contains(e) <==> ids.contains(e) && members.contains(
            edges[e].dst,
        ),
    decreases ids.len(),
{
    if ids.len() > 0 {
        let front = ids.drop_last();
        lemma_kept(edges, front, members, e);
        let before = keep_inside(edges, front, members);
        let all = keep_inside(edges, ids, members);
        let last = ids.len() - 1;
        assert(ids.contains(e) <==> front.contains(e) || ids[last] == e) by {
            if front.contains(e) {
                let k = choose|k: int| 0 <= k < front.len() && front[k] == e;
                assert(ids[k] == e);
            }
            if ids.contains(e) {
                let k = choose|k: int| 0 <= k < ids.len() && ids[k] == e;
                assert(k == last || front[k] == e);
            }
        }
        if members.contains(edges[ids[last]].dst) {
            assert(all == before.push(ids[last]));
            assert(all.contains(e) <==> before.contains(e) || ids[last] == e) by {
                assert(all[before.len() as int] == ids[last]);
                if before.contains(e) {
                    let k = choose|k: int| 0 <= k < before.len() && before[k] == e;
                    assert(all[k] == e);
                }
                if all.contains(e) {
                    let k = choose|k: int| 0 <= k < all.len() && all[k] == e;
                    assert(k == before.len() || before[k] == e);
                }
            }
        }
    }
}

/// The inner edges are those with both ends among the members.
proof fn lemma_inner(edges: Seq<WaitEdge>, members: Seq<ThreadId>, n: int, e: int)
    requires
        0 <= n <= members.len(),
    ensures
        internal_list(edges, members, n).contains(e) <==> {
            &&& 0 <= e < edges.len()
            &&& members.take(n).contains(edges[e].src)
            &&& members.contains(edges[e].dst)
        },
    decreases n,
{
    let all = internal_list(edges, members, n);
    if n > 0 {
        lemma_inner(edges, members, n - 1, e);
        let before = internal_list(edges, members, n - 1);
        let t = members[n - 1];
        let at = edges_at(edges, t, true);
        let kept = keep_inside(edges, at, members);
        lemma_edges_at(edges, t, true);
        lemma_kept(edges, at, members, e);
        assert(at.contains(e) <==> 0 <= e < edges.len() && edges[e].src == t) by {
            if at.contains(e) {
                let k = choose|k: int| 0 <= k < at.len() && at[k] == e;
                assert(edges[at[k]].src == t);
            }
        }
        assert(all.contains(e) <==> before.contains(e) || kept.contains(e)) by {
            if before.contains(e) {
                let k = choose|k: int| 0 <= k < before.len() && before[k] == e;
                assert(all[k] == e);
            }
            if kept.contains(e) {
                let k = choose|k: int| 0 <= k < kept.len() && kept[k] == e;
                assert(all[before.len() + k] == e);
            }
            if all.contains(e) {
                let k = choose|k: int| 0 <= k < all.len() && all[k] == e;
                if k < before.len() {
                    assert(before[k] == e);
                } else {
                    assert(kept[k - before.len()] == e);
                }
            }
        }
        let front = members.take(n - 1);
        let here = members.take(n);
        let src = edges[e].src;
        assert(here.contains(src) <==> front.contains(src) || t == src) by {
            assert(here[n - 1] == t);
            if front.contains(src) {
                let k = choose|k: int| 0 <= k < front.len() && front[k] == src;
                assert(here[k] == src);
            }
            if here.contains(src) {
                let k = choose|k: int| 0 <= k < here.len() && here[k] == src;
                assert(k == n - 1 || front[k] == src);
            }
        }
    }
}

/// Edge `e` is one that the weight of a component is about: one with both ends in
/// it; or, for a single thread that has none of these, any edge at the thread.
pub open spec fn counts_for(edges: Seq<WaitEdge>, members: Seq<ThreadId>, e: int) -> bool {
    &&& 0 <= e < edges.len()
    &&& ({
        ||| members.contains(edges[e].src) && members.contains(edges[e].dst)
        ||| {
            &&& members.len() == 1
            &&& edges[e].src == members[0] || edges[e].dst == members[0]
            &&& forall|f: int|
                0 <= f < edges.len() ==> !(members.contains((#[trigger] edges[f]).src)
                    && members.contains(edges[f].dst))
        }
    })
}

/// A component weighs as much as the largest attributed delay among the edges
/// that count for it: none of them is larger, and one is as large. Without such
/// edges it weighs nothing.
pub proof fn law_weight_is_the_largest_delay(edges: Seq<WaitEdge>, members: Seq<ThreadId>)
    ensures
        forall|e: int| #[trigger]
            counts_for(edges, members, e) ==> edges[e].weight.attributed_delay_ms
                <= heuristic_weight(edges, members),
        (exists|e: int| #[trigger] counts_for(edges, members, e)) ==> exists|e: int| #[trigger]
            counts_for(edges, members, e) && edges[e].weight.attributed_delay_ms
                == heuristic_weight(edges, members),
        (forall|e: int| !#[trigger] counts_for(edges, members, e)) ==> heuristic_weight(
            edges,
            members,
        ) == 0,
{
    let n = members.len() as int;
    let inner = internal_list(edges, members, n);
    let weight = heuristic_weight(edges, members);
    assert(members.take(n) =~= members);
    lemma_max_attributed(edges, inner);
    if inner.len() > 0 {
        lemma_inner(edges, members, n, inner[0]);
        assert(inner.contains(inner[0]));
        assert forall|e: int| #[trigger] counts_for(edges, members, e) implies
            edges[e].weight.attributed_delay_ms <= weight by {
            lemma_inner(edges, members, n, e);
            let k = choose|k: int| 0 <= k < inner.len() && inner[k] == e;
            assert(edges[inner[k]].weight.attributed_delay_ms <= weight);
        }
        let k = choose|k: int|
            0 <= k < inner.len() && edges[#[trigger] inner[k]].weight.attributed_delay_ms == weight;
        lemma_inner(edges, members, n, inner[k]);
        assert(inner.contains(inner[k]));
        assert(counts_for(edges, members, inner[k]));
    } else {
        assert forall|f: int| 0 <= f < edges.len() implies !(members.contains(
            (#[trigger] edges[f]).src,
        ) && members.contains(edges[f].dst)) by {
            lemma_inner(edges, members, n, f);
        }
        if n == 1 {
            let t = members[0];
            let out = edges_at(edges, t, true);
            let into = edges_at(edges, t, false);
            lemma_edges_at(edges, t, true);
            lemma_edges_at(edges, t, false);
            lemma_max_attributed(edges, out);
            lemma_max_attributed(edges, into);
            assert forall|e: int| #[trigger] counts_for(edges, members, e) implies
                edges[e].weight.attributed_delay_ms <= weight by {
                if edges[e].src == t {
                    assert(out.contains(e));
                    let k = choose|k: int| 0 <= k < out.len() && out[k] == e;
                    assert(edges[out[k]].weight.attributed_delay_ms <= max_attributed(edges, out));
                } else {
                    assert(into.contains(e));
                    let k = choose|k: int| 0 <= k < into.len() && into[k] == e;
                    assert(edges[into[k]].weight.attributed_delay_ms <= max_attributed(
                        edges,
                        into,
                    ));
                }
            }
            if out.len() > 0 {
                let k = choose|k: int|
                    0 <= k < out.len() && edges[#[trigger] out[k]].weight.attributed_delay_ms
                        == max_attributed(edges, out);
                assert(counts_for(edges, members, out[k]));
            }
            if into.len() > 0 {
                let k = choose|k: int|
                    0 <= k < into.len() && edges[#[trigger] into[k]].weight.attributed_delay_ms
                        == max_attributed(edges, into);
                assert(counts_for(edges, members, into[k]));
            }
        }
    }
}

/// The inner edges of a component are all edges with both ends in it, and no
/// others.
pub proof fn law_inner_edges_in_full(edges: Seq<WaitEdge>, members: Seq<ThreadId>, e: int)
    ensures
        internal_list(edges, members, members.len() as int).contains(e) <==> 0 <= e < edges.len()
            && members.contains(edges[e].src) && members.contains(edges[e].dst),
{
    assert(members.take(members.len() as int) =~= members);
    lemma_inner(edges, members, members.len() as int, e);
}

} // verus!
