//! How heavy paths through a condensation can be.

use vstd::prelude::*;

use crate::graph::topology::follows_edge;
use crate::graph::types::ThreadId;
use crate::graph::wfg::{edges_at, lemma_edges_at, sum_attributed, GraphView, WaitEdge};
use crate::scc::heuristic::{
    heuristic_weight, lemma_max_attributed, max_attributed, weighed,
};
use crate::scc::tarjan::{
    crosses, in_scc, internal_list, is_condensation, is_heaviest_crossing, is_scc_list,
    keep_inside, DagEdge, DagView, SuperNodeView,
};

use super::{heaviest_link, is_dag_path, path_weight, weights_fit};

verus! {

/// A condensation with the weights that the heuristic gives its nodes.
pub open spec fn weighed_dag(edges: Seq<WaitEdge>, dag: DagView) -> DagView {
    DagView { nodes: dag.nodes.map_values(|n: SuperNodeView| weighed(edges, n)), ..dag }
}

/// No path through the condensation of the graph weighs more than a `u64` can
/// hold.
pub open spec fn paths_fit(g: GraphView) -> bool {
    forall|sccs: Seq<Seq<ThreadId>>, dag: DagView|
        is_scc_list(g, sccs) && #[trigger] is_condensation(g.edges, sccs, dag) ==> weights_fit(
            weighed_dag(g.edges, dag),
        )
}

/// The delays attributed to edges that leave (`outgoing`) or enter the threads.
pub open spec fn sum_at(edges: Seq<WaitEdge>, members: Seq<ThreadId>, outgoing: bool) -> nat
    decreases edges.len(),
{
    if edges.len() == 0 {
        0
    } else {
        let end = if outgoing {
            edges.last().src
        } else {
            edges.last().dst
        };
        sum_at(edges.drop_last(), members, outgoing) + (if members.contains(end) {
            edges.last().weight.attributed_delay_ms as nat
        } else {
            0
        })
    }
}

/// The same for several groups of threads together.
pub open spec fn sum_at_all(
    edges: Seq<WaitEdge>,
    groups: Seq<Seq<ThreadId>>,
    outgoing: bool,
) -> nat
    decreases groups.len(),
{
    if groups.len() == 0 {
        0
    } else {
        sum_at_all(edges, groups.drop_last(), outgoing) + sum_at(edges, groups.last(), outgoing)
    }
}

/// No thread is in two of the groups.
pub open spec fn disjoint(groups: Seq<Seq<ThreadId>>) -> bool {
    forall|i: int, j: int, t: ThreadId|
        #![trigger groups[i].contains(t), groups[j].contains(t)]
        0 <= i < groups.len() && 0 <= j < groups.len() && groups[i].contains(t)
            && groups[j].contains(t) ==> i == j
}

proof fn lemma_sum_at_member(edges: Seq<WaitEdge>, members: Seq<ThreadId>, outgoing: bool, e: int)
    requires
        0 <= e < edges.len(),
        members.contains(
            if outgoing {
                edges[e].src
            } else {
                edges[e].dst
            },
        ),
    ensures
        edges[e].weight.attributed_delay_ms <= sum_at(edges, members, outgoing),
    decreases edges.len(),
{
    if e < edges.len() - 1 {
        assert(edges.drop_last()[e] == edges[e]);
        lemma_sum_at_member(edges.drop_last(), members, outgoing, e);
    }
}

proof fn lemma_sum_at_all_step(edges: Seq<WaitEdge>, groups: Seq<Seq<ThreadId>>, outgoing: bool)
    requires
        edges.len() > 0,
        disjoint(groups),
    ensures
        sum_at_all(edges, groups, outgoing) <= sum_at_all(edges.drop_last(), groups, outgoing)
            + edges.last().weight.attributed_delay_ms,
        (forall|i: int|
            0 <= i < groups.len() ==> !(#[trigger] groups[i]).contains(
                if outgoing {
                    edges.last().src
                } else {
                    edges.last().dst
                },
            )) ==> sum_at_all(edges, groups, outgoing) == sum_at_all(
            edges.drop_last(),
            groups,
            outgoing,
        ),
    decreases groups.len(),
{
    let end = if outgoing {
        edges.last().src
    } else {
        edges.last().dst
    };
    if groups.len() > 0 {
        let front = groups.drop_last();
        assert(disjoint(front)) by {
            assert forall|i: int, j: int, t: ThreadId|
                #![trigger front[i].contains(t), front[j].contains(t)]
                0 <= i < front.len() && 0 <= j < front.len() && front[i].contains(t)
                    && front[j].contains(t) implies i == j by {
                assert(groups[i].contains(t) && groups[j].contains(t));
            }
        }
        lemma_sum_at_all_step(edges, front, outgoing);
        let n = groups.len() - 1;
        if groups[n].contains(end) {
            assert forall|i: int| 0 <= i < front.len() implies !(#[trigger] front[i]).contains(
                end,
            ) by {
                assert(front[i] == groups[i]);
                if groups[i].contains(end) {
                    assert(groups[n].contains(end));
                }
            }
        } else if forall|i: int| 0 <= i < groups.len() ==> !(#[trigger] groups[i]).contains(end) {
            assert forall|i: int| 0 <= i < front.len() implies !(#[trigger] front[i]).contains(
                end,
            ) by {
                assert(front[i] == groups[i]);
            }
        }
    }
}

/// Groups that share no thread have no more between them than there is.
proof fn lemma_sum_at_all(edges: Seq<WaitEdge>, groups: Seq<Seq<ThreadId>>, outgoing: bool)
    requires
        disjoint(groups),
    ensures
        sum_at_all(edges, groups, outgoing) <= sum_attributed(edges),
    decreases edges.len(),
{
    if edges.len() == 0 {
        lemma_sum_at_all_empty(edges, groups, outgoing);
    } else {
        lemma_sum_at_all(edges.drop_last(), groups, outgoing);
        lemma_sum_at_all_step(edges, groups, outgoing);
    }
}

proof fn lemma_sum_at_all_empty(edges: Seq<WaitEdge>, groups: Seq<Seq<ThreadId>>, outgoing: bool)
    requires
        edges.len() == 0,
    ensures
        sum_at_all(edges, groups, outgoing) == 0,
    decreases groups.len(),
{
    if groups.len() > 0 {
        lemma_sum_at_all_empty(edges, groups.drop_last(), outgoing);
    }
}

proof fn lemma_kept_from(edges: Seq<WaitEdge>, at: Seq<int>, members: Seq<ThreadId>)
    ensures
        forall|k: int|
            0 <= k < keep_inside(edges, at, members).len() ==> at.contains(
                #[trigger] keep_inside(edges, at, members)[k],
            ),
    decreases at.len(),
{
    if at.len() > 0 {
        let front = at.drop_last();
        lemma_kept_from(edges, front, members);
        let kept = keep_inside(edges, at, members);
        let before = keep_inside(edges, front, members);
        assert forall|k: int| 0 <= k < kept.len() implies at.contains(#[trigger] kept[k]) by {
            if k < before.len() {
                assert(kept[k] == before[k]);
                assert(front.contains(before[k]));
                let i = choose|i: int| 0 <= i < front.len() && front[i] == before[k];
                assert(at[i] == kept[k]);
            } else {
                assert(at[at.len() - 1] == kept[k]);
            }
        }
    }
}

/// Inner edges leave threads of the component.
proof fn lemma_internal_sources(edges: Seq<WaitEdge>, members: Seq<ThreadId>, n: int)
    requires
        0 <= n <= members.len(),
    ensures
        forall|k: int|
            #![trigger internal_list(edges, members, n)[k]]
            0 <= k < internal_list(edges, members, n).len() ==> {
                let e = internal_list(edges, members, n)[k];
                0 <= e < edges.len() && members.contains(edges[e].src)
            },
    decreases n,
{
    if n > 0 {
        lemma_internal_sources(edges, members, n - 1);
        let before = internal_list(edges, members, n - 1);
        let at = edges_at(edges, members[n - 1], true);
        let kept = keep_inside(edges, at, members);
        let all = internal_list(edges, members, n);
        lemma_kept_from(edges, at, members);
        lemma_edges_at(edges, members[n - 1], true);
        assert forall|k: int| #![trigger all[k]] 0 <= k < all.len() implies 0 <= all[k]
            < edges.len() && members.contains(edges[all[k]].src) by {
            if k < before.len() {
                assert(all[k] == before[k]);
            } else {
                assert(all[k] == kept[k - before.len()]);
                assert(at.contains(all[k]));
                let i = choose|i: int| 0 <= i < at.len() && at[i] == all[k];
                assert(edges[at[i]].src == members[n - 1]);
            }
        }
    }
}

proof fn lemma_weight_bound(edges: Seq<WaitEdge>, members: Seq<ThreadId>)
    ensures
        heuristic_weight(edges, members) <= sum_at(edges, members, true) + sum_at(
            edges,
            members,
            false,
        ),
{
    let n = members.len() as int;
    let inner = internal_list(edges, members, n);
    lemma_internal_sources(edges, members, n);
    if inner.len() > 0 {
        lemma_max_attributed(edges, inner);
        let k = choose|k: int|
            0 <= k < inner.len() && edges[#[trigger] inner[k]].weight.attributed_delay_ms
                == max_attributed(edges, inner);
        lemma_sum_at_member(edges, members, true, inner[k]);
    } else if members.len() == 1 {
        let t = members[0];
        assert(members.contains(t));
        let out = edges_at(edges, t, true);
        let into = edges_at(edges, t, false);
        lemma_edges_at(edges, t, true);
        lemma_edges_at(edges, t, false);
        lemma_max_attributed(edges, out);
        lemma_max_attributed(edges, into);
        if out.len() > 0 {
            let k = choose|k: int|
                0 <= k < out.len() && edges[#[trigger] out[k]].weight.attributed_delay_ms
                    == max_attributed(edges, out);
            lemma_sum_at_member(edges, members, true, out[k]);
        }
        if into.len() > 0 {
            let k = choose|k: int|
                0 <= k < into.len() && edges[#[trigger] into[k]].weight.attributed_delay_ms
                    == max_attributed(edges, into);
            lemma_sum_at_member(edges, members, false, into[k]);
        }
    }
}

/// The heaviest link is one of the links.
proof fn lemma_heaviest_is_link(links: Seq<DagEdge>, a: int, b: int)
    ensures
        heaviest_link(links, a, b) matches Some(w) ==> exists|k: int|
            0 <= k < links.len() && (#[trigger] links[k]).src == a && links[k].dst == b
                && links[k].weight == w,
    decreases links.len(),
{
    if links.len() > 0 {
        let front = links.drop_last();
        lemma_heaviest_is_link(front, a, b);
        if let Some(w) = heaviest_link(links, a, b) {
            if heaviest_link(front, a, b) == Some(w) {
                let k = choose|k: int|
                    0 <= k < front.len() && (#[trigger] front[k]).src == a && front[k].dst == b
                        && front[k].weight == w;
                assert(links[k] == front[k]);
            } else {
                assert(links[links.len() - 1].weight == w);
            }
        }
    }
}

/// The members of the nodes on a path.
pub open spec fn groups_on(sccs: Seq<Seq<ThreadId>>, path: Seq<int>) -> Seq<Seq<ThreadId>> {
    path.map_values(|v: int| sccs[v])
}

proof fn lemma_path_bound(
    g: GraphView,
    sccs: Seq<Seq<ThreadId>>,
    dag: DagView,
    path: Seq<int>,
)
    requires
        is_scc_list(g, sccs),
        is_condensation(g.edges, sccs, dag),
        is_dag_path(weighed_dag(g.edges, dag), path),
    ensures
        forall|i: int, j: int| 0 <= i < j < path.len() ==> #[trigger] path[i] > #[trigger] path[j],
        path_weight(weighed_dag(g.edges, dag), path) <= sum_at_all(
            g.edges,
            groups_on(sccs, path),
            true,
        ) + sum_at_all(g.edges, groups_on(sccs, path), false) + sum_at_all(
            g.edges,
            groups_on(sccs, path.drop_last()),
            true,
        ),
    decreases path.len(),
{
    let full = weighed_dag(g.edges, dag);
    let groups = groups_on(sccs, path);
    let b = path.last();
    assert(0 <= path[path.len() - 1] < full.nodes.len());
    assert(full.nodes[b].weight == heuristic_weight(g.edges, sccs[b]));
    lemma_weight_bound(g.edges, sccs[b]);
    assert(groups.last() == sccs[b]);
    assert(groups.drop_last() =~= groups_on(sccs, path.drop_last()));
    if path.len() >= 2 {
        let front = path.drop_last();
        let a = path[path.len() - 2];
        assert(is_dag_path(full, front)) by {
            assert forall|i: int| 0 <= i < front.len() - 1 implies #[trigger] follows_edge(
                full.links(),
                front,
                i,
            ) by {
                assert(follows_edge(full.links(), path, i));
            }
            assert forall|i: int| 0 <= i < front.len() implies 0 <= #[trigger] front[i]
                < full.nodes.len() by {
                assert(front[i] == path[i]);
            }
        }
        lemma_path_bound(g, sccs, dag, front);
        assert(follows_edge(full.links(), path, path.len() - 2));
        let k = choose|k: int| 0 <= k < full.links().len() && full.links()[k] == (a, b);
        assert(full.edges[k].src == a && full.edges[k].dst == b);
        super::lemma_heaviest_link(full.edges, a, b);
        lemma_heaviest_is_link(full.edges, a, b);
        let w = heaviest_link(full.edges, a, b)->0;
        let l = choose|l: int|
            0 <= l < full.edges.len() && (#[trigger] full.edges[l]).src == a && full.edges[l].dst
                == b && full.edges[l].weight == w;
        assert(is_heaviest_crossing(g.edges, sccs, dag.edges[l].src, dag.edges[l].dst, w));
        reveal(is_heaviest_crossing);
        let e = choose|e: int| #[trigger]
            crosses(g.edges, sccs, e, a, b) && g.edges[e].weight.attributed_delay_ms == w;
        assert(crosses(g.edges, sccs, e, a, b));
        assert(in_scc(sccs, a, g.edges[e].src) && in_scc(sccs, b, g.edges[e].dst));
        assert(a > b);
        lemma_sum_at_member(g.edges, sccs[a], true, e);
        let inner = groups_on(sccs, front);
        assert(inner.last() == sccs[a]);
        assert(inner.drop_last() =~= groups_on(sccs, front.drop_last()));
        assert forall|i: int, j: int| 0 <= i < j < path.len() implies #[trigger] path[i]
            > #[trigger] path[j] by {
            if j < front.len() {
                assert(front[i] == path[i] && front[j] == path[j]);
            } else if i < front.len() - 1 {
                assert(front[i] == path[i] && front[front.len() - 1] == a);
            }
        }
    } else {
        assert(path.drop_last() =~= Seq::empty());
        assert(path[0] == b);
    }
}

/// A path weighs no more than three times what is attributed in the whole
/// graph: an edge counts at most for the node it leaves, for the node it enters
/// and for the link between them.
pub proof fn law_paths_fit(g: GraphView)
    requires
        3 * sum_attributed(g.edges) <= u64::MAX,
    ensures
        paths_fit(g),
{
    assert forall|sccs: Seq<Seq<ThreadId>>, dag: DagView|
        is_scc_list(g, sccs) && #[trigger] is_condensation(g.edges, sccs, dag) implies weights_fit(
        weighed_dag(g.edges, dag),
    ) by {
        let full = weighed_dag(g.edges, dag);
        assert forall|path: Seq<int>| #[trigger] is_dag_path(full, path) implies path_weight(
            full,
            path,
        ) <= u64::MAX by {
            lemma_path_bound(g, sccs, dag, path);
            let groups = groups_on(sccs, path);
            let inner = groups_on(sccs, path.drop_last());
            assert(disjoint(groups)) by {
                assert forall|i: int, j: int, t: ThreadId|
                    #![trigger groups[i].contains(t), groups[j].contains(t)]
                    0 <= i < groups.len() && 0 <= j < groups.len() && groups[i].contains(t)
                        && groups[j].contains(t) implies i == j by {
                    assert(0 <= path[i] < full.nodes.len() && 0 <= path[j] < full.nodes.len());
                    assert(in_scc(sccs, path[i], t) && in_scc(sccs, path[j], t));
                    assert(path[i] == path[j]);
                }
            }
            assert(disjoint(inner)) by {
                assert forall|i: int, j: int, t: ThreadId|
                    #![trigger inner[i].contains(t), inner[j].contains(t)]
                    0 <= i < inner.len() && 0 <= j < inner.len() && inner[i].contains(t)
                        && inner[j].contains(t) implies i == j by {
                    assert(groups[i].contains(t) && groups[j].contains(t));
                }
            }
            lemma_sum_at_all(g.edges, groups, true);
            lemma_sum_at_all(g.edges, groups, false);
            lemma_sum_at_all(g.edges, inner, true);
        }
    }
}

} // verus!
