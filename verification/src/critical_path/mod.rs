//! The critical path: the heaviest chain through the condensation DAG.

use vstd::prelude::*;

pub mod bounds;

use crate::graph::topology::{
    acyclic, as_ints, follows_edge, incident, is_path, is_topological_order, lemma_full_list,
    lemma_incident,
};
use crate::graph::types::ThreadId;
use crate::graph::wfg::NodeIndex;
use crate::scc::tarjan::{copy_tids, CondensationDag, DagEdge, DagView};

verus! {

/// A chain of nodes and what it weighs.
#[derive(Debug, Clone)]
pub struct CriticalPath {
    /// The members of each node along the path, from its start.
    pub chain: Vec<CriticalPathNode>,
    /// What nodes and links on the path weigh together.
    pub total_weight: u64,
}

/// A node on the critical path.
#[derive(Debug, Clone)]
pub struct CriticalPathNode {
    pub members: Vec<ThreadId>,
    pub weight: u64,
}

/// What a [`CriticalPathNode`] stands for.
#[verifier::ext_equal]
pub struct ChainNodeView {
    pub members: Seq<ThreadId>,
    pub weight: u64,
}

impl View for CriticalPathNode {
    type V = ChainNodeView;

    open spec fn view(&self) -> ChainNodeView {
        ChainNodeView { members: self.members@, weight: self.weight }
    }
}

// ---------------------------------------------------------------------------
// The mathematical model
// ---------------------------------------------------------------------------

/// The heaviest of the links from `a` to `b`, if there are any.
pub open spec fn heaviest_link(edges: Seq<DagEdge>, a: int, b: int) -> Option<u64>
    decreases edges.len(),
{
    if edges.len() == 0 {
        None
    } else {
        let before = heaviest_link(edges.drop_last(), a, b);
        if edges.last().src == a && edges.last().dst == b {
            match before {
                Some(w) => if w > edges.last().weight {
                    Some(w)
                } else {
                    Some(edges.last().weight)
                },
                None => Some(edges.last().weight),
            }
        } else {
            before
        }
    }
}

/// What the nodes and the heaviest links on a path weigh together.
pub open spec fn path_weight(dag: DagView, path: Seq<int>) -> int
    decreases path.len(),
{
    if path.len() == 0 {
        0
    } else if path.len() == 1 {
        dag.nodes[path[0]].weight as int
    } else {
        let a = path[path.len() - 2];
        let b = path.last();
        path_weight(dag, path.drop_last()) + heaviest_link(dag.edges, a, b)->0
            + dag.nodes[b].weight
    }
}

/// `path` runs along links between nodes of the DAG.
pub open spec fn is_dag_path(dag: DagView, path: Seq<int>) -> bool {
    &&& is_path(dag.links(), path)
    &&& forall|i: int| 0 <= i < path.len() ==> 0 <= #[trigger] path[i] < dag.nodes.len()
}

/// What the heaviest path weighs that ends at the node in place `p` of `order`.
pub open spec fn reach(dag: DagView, order: Seq<int>, p: int) -> int
    decreases p, 1int, 0int,
{
    dag.nodes[order[p]].weight + lead_in(dag, order, p, p).0
}

/// The heaviest way to arrive at the node in place `p` from one of the first `k`
/// places: what it weighs up to the last link, and the place it comes from.
/// The earliest place wins among equals; nothing is gained by a way of no weight.
pub open spec fn lead_in(dag: DagView, order: Seq<int>, p: int, k: int) -> (int, Option<int>)
    decreases p, 0int, k,
{
    if k <= 0 || k > p {
        (0, None)
    } else {
        let before = lead_in(dag, order, p, k - 1);
        match heaviest_link(dag.edges, order[k - 1], order[p]) {
            Some(w) => {
                let weight = reach(dag, order, k - 1) + w;
                if weight > before.0 {
                    (weight, Some(k - 1))
                } else {
                    before
                }
            },
            None => before,
        }
    }
}

/// The heaviest path that ends at the node in place `p`.
pub open spec fn trace(dag: DagView, order: Seq<int>, p: int) -> Seq<int>
    decreases p,
{
    if p < 0 {
        Seq::empty()
    } else {
        match lead_in(dag, order, p, p).1 {
            Some(j) => if 0 <= j < p {
                trace(dag, order, j).push(order[p])
            } else {
                seq![order[p]]
            },
            None => seq![order[p]],
        }
    }
}

/// `p` is the place of the node at which the critical path ends: the one with
/// the heaviest way to it, of several the one with the highest index.
pub open spec fn is_end(dag: DagView, order: Seq<int>, p: int) -> bool {
    &&& 0 <= p < order.len()
    &&& forall|q: int|
        0 <= q < order.len() ==> reach(dag, order, q) < reach(dag, order, p) || (reach(
            dag,
            order,
            q,
        ) == reach(dag, order, p) && #[trigger] order[q] <= order[p])
}

/// The nodes of a path, as they are reported.
pub open spec fn chain_of(dag: DagView, path: Seq<int>) -> Seq<ChainNodeView> {
    path.map_values(
        |v: int| ChainNodeView { members: dag.nodes[v].members, weight: dag.nodes[v].weight },
    )
}

/// No path weighs more than a `u64` can hold.
pub open spec fn weights_fit(dag: DagView) -> bool {
    forall|path: Seq<int>| #[trigger] is_dag_path(dag, path) ==> path_weight(dag, path) <= u64::MAX
}

// ---------------------------------------------------------------------------
// The dynamic programme
// ---------------------------------------------------------------------------

/// The path is one of the DAG, weighs what is said, and none weighs more.
pub open spec fn is_heaviest(dag: DagView, cp: CriticalPath) -> bool {
    &&& exists|path: Seq<int>| #[trigger]
        is_dag_path(dag, path) && path_weight(dag, path) == cp.total_weight && cp.chain@.map_values(
            |n: CriticalPathNode| n@,
        ) == chain_of(dag, path)
    &&& forall|path: Seq<int>| #[trigger]
        is_dag_path(dag, path) ==> path_weight(dag, path) <= cp.total_weight
}

/// `path` is the critical path of the DAG, `None` without nodes.
pub open spec fn is_critical_path(dag: CondensationDag, path: Option<CriticalPath>) -> bool {
    match path {
        None => dag@.nodes.len() == 0,
        Some(cp) => {
            &&& dag@.nodes.len() > 0
            &&& dag.sorted_nodes() is Some
            &&& is_topological_order(dag@.nodes.len(), dag@.links(), dag.sorted_nodes()->0)
            &&& exists|p: int| #[trigger]
                is_end(dag@, dag.sorted_nodes()->0, p) && cp.total_weight == reach(
                    dag@,
                    dag.sorted_nodes()->0,
                    p,
                ) && cp.chain@.map_values(|n: CriticalPathNode| n@) == chain_of(
                    dag@,
                    trace(dag@, dag.sorted_nodes()->0, p),
                )
            &&& is_heaviest(dag@, cp)
        },
    }
}

/// The heaviest path through the DAG, `None` without nodes.
pub fn critical_path_dp(cdag: &CondensationDag) -> (r: Option<CriticalPath>)
    requires
        cdag.wf(),
        acyclic(cdag@.links()),
        weights_fit(cdag@),
    ensures
        r is None <==> cdag@.nodes.len() == 0,
        is_critical_path(*cdag, r),
{
    critical_path_if_it_fits(cdag).unwrap()
}

/// The heaviest path through the DAG, `None` inside without nodes. It is `None`
/// outside exactly if some path weighs more than a `u64` can hold.
pub fn critical_path_if_it_fits(cdag: &CondensationDag) -> (r: Option<Option<CriticalPath>>)
    requires
        cdag.wf(),
        acyclic(cdag@.links()),
    ensures
        r is Some <==> weights_fit(cdag@),
        r matches Some(path) ==> is_critical_path(*cdag, path),
{
    if cdag.node_count() == 0 {
        assert forall|path: Seq<int>| #[trigger] is_dag_path(cdag@, path) implies path_weight(
            cdag@,
            path,
        ) <= u64::MAX by {
            assert(0 <= path[0] < cdag@.nodes.len());
        }
        return Some(None);
    }
    let order = cdag.topological_order().unwrap();
    let cp = match critical_path_along(cdag, &order) {
        Some(cp) => cp,
        None => {
            return None;
        },
    };
    proof {
        let ord = as_ints(order@);
        assert(cdag.sorted_nodes() == Some(ord));
        let p = choose|p: int| #[trigger]
            is_end(cdag@, ord, p) && cp.total_weight == reach(cdag@, ord, p)
                && cp.chain@.map_values(|n: CriticalPathNode| n@) == chain_of(
                cdag@,
                trace(cdag@, ord, p),
            );
        assert(is_end(cdag@, cdag.sorted_nodes()->0, p));
    }
    Some(Some(cp))
}

/// The heaviest path, found along a given topological order, `None` if some path
/// weighs more than a `u64` can hold.
pub fn critical_path_along(cdag: &CondensationDag, order: &Vec<u32>) -> (r: Option<CriticalPath>)
    requires
        cdag.wf(),
        cdag@.nodes.len() > 0,
        is_topological_order(cdag@.nodes.len(), cdag@.links(), as_ints(order@)),
    ensures
        r is Some <==> weights_fit(cdag@),
        r matches Some(cp) ==> {
            &&& exists|p: int| #[trigger]
                is_end(cdag@, as_ints(order@), p) && cp.total_weight == reach(
                    cdag@,
                    as_ints(order@),
                    p,
                ) && cp.chain@.map_values(|n: CriticalPathNode| n@) == chain_of(
                    cdag@,
                    trace(cdag@, as_ints(order@), p),
                )
            &&& is_heaviest(cdag@, cp)
        },
{
    let ghost dag = cdag@;
    let ghost ord = as_ints(order@);
    let n: usize = cdag.node_count();
    proof {
        cdag.lemma_wf();
        lemma_full_list(n as nat, ord);
        assert(ord.len() == order@.len());
    }
    // `best` and `from` by place in the order.
    let mut place: Vec<usize> = Vec::new();
    for v in 0..n
        invariant
            place@.len() == v,
    {
        place.push(0);
    }
    for k in 0..n
        invariant
            n == order@.len(),
            n == dag.nodes.len(),
            ord == as_ints(order@),
            is_topological_order(n as nat, dag.links(), ord),
            place@.len() == n,
            forall|j: int| 0 <= j < k ==> place@[#[trigger] ord[j]] == j,
    {
        proof {
            assert(ord[k as int] == order@[k as int]);
            assert(0 <= ord[k as int] < n);
            assert forall|j: int| 0 <= j < k implies ord[j] != ord[k as int] by {}
            assert forall|j: int| 0 <= j < k implies 0 <= #[trigger] ord[j] < n by {}
        }
        place.set(order[k] as usize, k);
    }
    let mut best: Vec<u64> = Vec::new();
    let mut from: Vec<Option<usize>> = Vec::new();
    for k in 0..n
        invariant
            n == order@.len(),
            n == dag.nodes.len(),
            dag == cdag@,
            ord == as_ints(order@),
            is_topological_order(n as nat, dag.links(), ord),
            best@.len() == k,
            from@.len() == k,
            forall|p: int| 0 <= p < k ==> #[trigger] best@[p] == dag.nodes[ord[p]].weight,
            forall|p: int| 0 <= p < k ==> #[trigger] from@[p] is None,
    {
        proof {
            assert(ord[k as int] == order@[k as int]);
            assert(0 <= ord[k as int] < n);
        }
        best.push(cdag.super_node(NodeIndex(order[k])).weight);
        from.push(None);
    }
    proof {
        assert forall|p: int| 0 <= p < n implies best_is(dag, ord, best@[p], from@[p], p, 0) by {
            assert(best@[p] == dag.nodes[ord[p]].weight);
            assert(from@[p] is None);
        }
    }
    for k in 0..n
        invariant
            n == order@.len(),
            n == dag.nodes.len(),
            dag == cdag@,
            cdag.wf(),
            dag.well_formed(),
            ord == as_ints(order@),
            is_topological_order(n as nat, dag.links(), ord),
            place@.len() == n,
            forall|j: int| 0 <= j < n ==> place@[#[trigger] ord[j]] == j,
            forall|v: int| 0 <= v < n ==> ord.contains(v),
            best@.len() == n,
            from@.len() == n,
            forall|p: int|
                #![trigger best@[p]]
                0 <= p < n ==> best_is(dag, ord, best@[p], from@[p], p, k as int),
    {
        let v: u32 = order[k];
        let v_dist: u64 = best[k];
        let links = cdag.outgoing_links(NodeIndex(v));
        let ghost at = incident(dag.links(), v as int, true);
        let ghost best0 = best@;
        let ghost from0 = from@;
        proof {
            assert(ord[k as int] == v);
            lemma_incident(dag.links(), v as int, true);
            assert(links_match(dag, at, links@, v as int)) by {
                reveal(links_match);
                assert forall|l: int|
                    #![trigger links@[l]]
                    0 <= l < links@.len() implies 0 <= at[l] < dag.edges.len() && dag.edges[at[l]]
                    == (DagEdge { src: v as int, dst: links@[l].0 as int, weight: links@[l].1 }) by {
                    assert(dag.links()[at[l]].0 == v);
                }
            }
            assert(best_is(dag, ord, best@[k as int], from@[k as int], k as int, k as int));
            assert(v_dist == reach(dag, ord, k as int));
            assert forall|p: int| 0 <= p < n implies relaxed_is(
                dag,
                ord,
                best@[p],
                from@[p],
                p,
                k as int,
                at,
                0,
            ) by {
                assert(best_is(dag, ord, best@[p], from@[p], p, k as int));
            }
        }
        for i in 0..links.len()
            invariant
                n == order@.len(),
                n == dag.nodes.len(),
                dag == cdag@,
                cdag.wf(),
                dag.well_formed(),
                ord == as_ints(order@),
                is_topological_order(n as nat, dag.links(), ord),
                0 <= k < n,
                v == ord[k as int],
                v_dist == reach(dag, ord, k as int),
                at == incident(dag.links(), v as int, true),
                links@.len() == at.len(),
                links_match(dag, at, links@, v as int),
                place@.len() == n,
                forall|j: int| 0 <= j < n ==> place@[#[trigger] ord[j]] == j,
                forall|v: int| 0 <= v < n ==> ord.contains(v),
                best@.len() == n,
                from@.len() == n,
                forall|p: int|
                    #![trigger best@[p]]
                    0 <= p < n ==> relaxed_is(
                        dag,
                        ord,
                        best@[p],
                        from@[p],
                        p,
                        k as int,
                        at,
                        i as int,
                    ),
        {
            let (u, edge_w) = links[i];
            let ghost e = at[i as int];
            proof {
                assert(0 <= e < dag.edges.len() && dag.edges[e] == (DagEdge {
                    src: v as int,
                    dst: u as int,
                    weight: edge_w,
                })) by {
                    reveal(links_match);
                    assert(links@[i as int] == (u, edge_w));
                }
                assert(0 <= dag.edges[e].dst < dag.nodes.len());
                assert(ord.contains(u as int));
                let q = choose|q: int| 0 <= q < n && ord[q] == u;
                assert(place@[ord[q]] == q);
                assert(dag.links()[e] == (ord[k as int], ord[q]));
                assert(k < q);
            }
            let q: usize = place[u as usize];
            proof {
                assert(ord[q as int] == u && k < q < n);
                lemma_candidate_fits(dag, ord, k as int, q as int, e);
            }
            let sum: u128 = v_dist as u128 + edge_w as u128 + cdag.super_node(
                NodeIndex(u),
            ).weight as u128;
            if sum > u64::MAX as u128 {
                return None;
            }
            let candidate: u64 = sum as u64;
            let ghost best1 = best@;
            let ghost from1 = from@;
            assert(relaxed_is(
                dag,
                ord,
                best@[q as int],
                from@[q as int],
                q as int,
                k as int,
                at,
                i as int,
            ));
            if candidate > best[q] {
                best.set(q, candidate);
                from.set(q, Some(k));
            }
            proof {
                assert forall|p: int| 0 <= p < n implies relaxed_is(
                    dag,
                    ord,
                    #[trigger] best@[p],
                    from@[p],
                    p,
                    k as int,
                    at,
                    i + 1,
                ) by {
                    assert(relaxed_is(dag, ord, best1[p], from1[p], p, k as int, at, i as int));
                    if p != q {
                        assert(ord[p] != ord[q as int]);
                    }
                }
            }
        }
        proof {
            assert forall|p: int| 0 <= p < n implies best_is(
                dag,
                ord,
                #[trigger] best@[p],
                from@[p],
                p,
                k + 1,
            ) by {
                assert(relaxed_is(
                    dag,
                    ord,
                    best@[p],
                    from@[p],
                    p,
                    k as int,
                    at,
                    links@.len() as int,
                ));
                lemma_relaxed_all(dag, ord, best@[p], from@[p], p, k as int, at);
            }
        }
    }
    proof {
        assert forall|p: int| 0 <= p < n implies best@[p] == reach(dag, ord, p) && from_is(
            from@[p],
            lead_in(dag, ord, p, p).1,
        ) by {
            assert(best_is(dag, ord, best@[p], from@[p], p, n as int));
        }
    }
    // Of several ends with the heaviest way to them, the highest index.
    let mut end: usize = place[0];
    assert(ord.contains(0));
    proof {
        let q = choose|q: int| 0 <= q < n && ord[q] == 0;
        assert(place@[ord[q]] == q);
    }
    for v in 1..n
        invariant
            n == dag.nodes.len(),
            ord.len() == n,
            place@.len() == n,
            best@.len() == n,
            forall|j: int| 0 <= j < n ==> place@[#[trigger] ord[j]] == j,
            forall|v: int| 0 <= v < n ==> ord.contains(v),
            forall|p: int| 0 <= p < n ==> #[trigger] best@[p] == reach(dag, ord, p),
            0 <= end < n,
            0 <= ord[end as int] < v,
            forall|q: int|
                0 <= q < n && ord[q] < v ==> best@[q] < best@[end as int] || (best@[q]
                    == best@[end as int] && #[trigger] ord[q] <= ord[end as int]),
    {
        proof {
            assert(ord.contains(v as int));
            let q = choose|q: int| 0 <= q < n && ord[q] == v;
            assert(place@[ord[q]] == q);
        }
        let p: usize = place[v];
        let ghost end0 = end;
        if best[p] >= best[end] {
            end = p;
        }
        proof {
            assert(ord[p as int] == v);
            assert forall|q: int| 0 <= q < n && ord[q] < v + 1 implies best@[q] < best@[end as int]
                || (best@[q] == best@[end as int] && #[trigger] ord[q] <= ord[end as int]) by {
                if ord[q] == v {
                    assert(place@[ord[q]] == q);
                    assert(q == p);
                }
            }
        }
    }
    proof {
        assert(is_end(dag, ord, end as int)) by {
            assert forall|q: int| 0 <= q < ord.len() implies reach(dag, ord, q) < reach(
                dag,
                ord,
                end as int,
            ) || (reach(dag, ord, q) == reach(dag, ord, end as int) && #[trigger] ord[q]
                <= ord[end as int]) by {
                assert(best@[q] == reach(dag, ord, q));
                assert(best@[end as int] == reach(dag, ord, end as int));
                assert(0 <= ord[q] < n);
            }
        }
    }
    // The path from its end back to its start.
    let mut back: Vec<usize> = Vec::new();
    back.push(end);
    let mut current: usize = end;
    proof {
        assert(back_trace(dag, ord, back@) =~= seq![ord[end as int]]);
        lemma_trace_head(dag, ord, end as int);
    }
    let mut going: bool = from[current].is_some();
    while going
        invariant
            ord.len() == n,
            from@.len() == n,
            forall|p: int|
                0 <= p < n ==> from_is(#[trigger] from@[p], lead_in(dag, ord, p, p).1),
            0 <= current < n,
            0 <= end < n,
            back@.len() > 0,
            back@.last() == current,
            forall|i: int| 0 <= i < back@.len() ==> #[trigger] back@[i] < n,
            going == from@[current as int] is Some,
            trace(dag, ord, end as int) == trace(dag, ord, current as int).drop_last()
                + back_trace(dag, ord, back@),
            trace(dag, ord, current as int).len() > 0,
            trace(dag, ord, current as int).last() == ord[current as int],
        decreases current + (if going {
                1int
            } else {
                0int
            }),
    {
        let p: usize = from[current].unwrap();
        proof {
            assert(from_is(from@[current as int], lead_in(dag, ord, current as int, current as int).1));
            lemma_lead_in_place(dag, ord, current as int, current as int);
            lemma_trace_head(dag, ord, p as int);
            let t = trace(dag, ord, p as int);
            assert(trace(dag, ord, current as int) == t.push(ord[current as int]));
            assert(trace(dag, ord, current as int).drop_last() =~= t);
            assert(back_trace(dag, ord, back@.push(p)) =~= seq![ord[p as int]] + back_trace(
                dag,
                ord,
                back@,
            ));
            assert(t + back_trace(dag, ord, back@) =~= t.drop_last() + back_trace(
                dag,
                ord,
                back@.push(p),
            ));
        }
        back.push(p);
        current = p;
        going = from[current].is_some();
    }
    proof {
        assert(lead_in(dag, ord, current as int, current as int).1 is None);
        assert(trace(dag, ord, current as int) =~= seq![ord[current as int]]);
        assert(trace(dag, ord, end as int) =~= back_trace(dag, ord, back@));
        lemma_trace(dag, ord, end as int);
    }
    let ghost path = trace(dag, ord, end as int);
    let mut chain: Vec<CriticalPathNode> = Vec::new();
    let len: usize = back.len();
    for i in 0..len
        invariant
            n == order@.len(),
            n == dag.nodes.len(),
            dag == cdag@,
            ord == as_ints(order@),
            is_topological_order(n as nat, dag.links(), ord),
            len == back@.len(),
            path.len() == len,
            path == back_trace(dag, ord, back@),
            forall|i: int| 0 <= i < back@.len() ==> #[trigger] back@[i] < n,
            chain@.len() == i,
            forall|k: int| 0 <= k < i ==> (#[trigger] chain@[k])@ == chain_of(dag, path)[k],
    {
        let p: usize = back[len - 1 - i];
        proof {
            assert(path[i as int] == ord[p as int]);
            assert(ord[p as int] == order@[p as int]);
            assert(0 <= ord[p as int] < n);
        }
        let node = cdag.super_node(NodeIndex(order[p]));
        chain.push(CriticalPathNode { members: copy_tids(&node.members), weight: node.weight });
    }
    let cp = CriticalPath { chain, total_weight: best[end] };
    proof {
        assert(best@[end as int] == reach(dag, ord, end as int));
        assert(cp.chain@.map_values(|n: CriticalPathNode| n@) =~= chain_of(dag, path));
        assert forall|other: Seq<int>| #[trigger] is_dag_path(dag, other) implies path_weight(
            dag,
            other,
        ) <= cp.total_weight by {
            assert(0 <= other[other.len() - 1] < n);
            assert(ord.contains(other.last()));
            let q = choose|q: int| 0 <= q < n && ord[q] == other.last();
            law_reach_is_heaviest(dag, ord, other, q);
            assert(ord[q] <= n);
        }
        assert(is_dag_path(dag, path) && path_weight(dag, path) == cp.total_weight);
    }
    Some(cp)
}

/// `links` are the links from `v` numbered `at`.
#[verifier::opaque]
spec fn links_match(dag: DagView, at: Seq<int>, links: Seq<(u32, u64)>, v: int) -> bool {
    forall|l: int|
        #![trigger links[l]]
        0 <= l < links.len() ==> 0 <= at[l] < dag.edges.len() && dag.edges[at[l]] == (DagEdge {
            src: v,
            dst: links[l].0 as int,
            weight: links[l].1,
        })
}

/// The path that `back` lists from its end.
spec fn back_trace(dag: DagView, order: Seq<int>, back: Seq<usize>) -> Seq<int> {
    Seq::new(back.len(), |i: int| order[back[back.len() - 1 - i] as int])
}

/// A place found and a place sought are the same.
spec fn from_is(found: Option<usize>, sought: Option<int>) -> bool {
    match (found, sought) {
        (Some(f), Some(s)) => f == s,
        (None, None) => true,
        _ => false,
    }
}

/// `best` and `from` hold for place `p` what the first `k` places lead in.
spec fn best_is(
    dag: DagView,
    order: Seq<int>,
    best: u64,
    from: Option<usize>,
    p: int,
    k: int,
) -> bool {
    let cut = if k < p {
        k
    } else {
        p
    };
    &&& best == dag.nodes[order[p]].weight + lead_in(dag, order, p, cut).0
    &&& from_is(from, lead_in(dag, order, p, cut).1)
}

/// The heaviest among the first `i` links of `at` that lead to `b`.
spec fn best_link(dag: DagView, at: Seq<int>, b: int, i: int) -> Option<u64>
    decreases i,
{
    if i <= 0 {
        None
    } else {
        let before = best_link(dag, at, b, i - 1);
        let e = dag.edges[at[i - 1]];
        if e.dst == b {
            match before {
                Some(w) => if w > e.weight {
                    Some(w)
                } else {
                    Some(e.weight)
                },
                None => Some(e.weight),
            }
        } else {
            before
        }
    }
}

/// `best` and `from` hold for place `p` what the first `k` places and the first
/// `i` links from place `k` lead in.
spec fn relaxed_is(
    dag: DagView,
    order: Seq<int>,
    best: u64,
    from: Option<usize>,
    p: int,
    k: int,
    at: Seq<int>,
    i: int,
) -> bool {
    let cut = if k < p {
        k
    } else {
        p
    };
    let before = lead_in(dag, order, p, cut);
    let after = match best_link(dag, at, order[p], i) {
        Some(w) => {
            let weight = reach(dag, order, k) + w;
            if weight > before.0 {
                (weight, Some(k))
            } else {
                before
            }
        },
        None => before,
    };
    &&& best == dag.nodes[order[p]].weight + after.0
    &&& from_is(from, after.1)
}

// ---------------------------------------------------------------------------
// Lemmas
// ---------------------------------------------------------------------------

/// The heaviest link from the list of all links at a node.
proof fn lemma_best_link(dag: DagView, v: int, b: int)
    ensures
        best_link(
            dag,
            incident(dag.links(), v, true),
            b,
            incident(dag.links(), v, true).len() as int,
        ) == heaviest_link(dag.edges, v, b),
    decreases dag.edges.len(),
{
    let at = incident(dag.links(), v, true);
    if dag.edges.len() > 0 {
        let front = DagView { edges: dag.edges.drop_last(), ..dag };
        let last = dag.edges.last();
        assert(front.links() =~= dag.links().drop_last());
        assert(dag.links().last() == (last.src, last.dst));
        let rest = incident(front.links(), v, true);
        lemma_best_link(front, v, b);
        lemma_incident(front.links(), v, true);
        if last.src == v {
            assert(at == seq![dag.edges.len() - 1] + rest);
            lemma_best_link_prepend(dag, front, rest, dag.edges.len() - 1, b, rest.len() as int);
        } else {
            assert(at == rest);
            lemma_best_link_same(dag, front, rest, b, rest.len() as int);
        }
    } else {
        assert(at.len() == 0);
    }
}

proof fn lemma_best_link_same(dag: DagView, front: DagView, rest: Seq<int>, b: int, i: int)
    requires
        0 <= i <= rest.len(),
        front.edges == dag.edges.drop_last(),
        dag.edges.len() > 0,
        forall|k: int| 0 <= k < rest.len() ==> 0 <= #[trigger] rest[k] < front.edges.len(),
    ensures
        best_link(dag, rest, b, i) == best_link(front, rest, b, i),
    decreases i,
{
    if i > 0 {
        lemma_best_link_same(dag, front, rest, b, i - 1);
        assert(0 <= rest[i - 1] < front.edges.len());
    }
}

proof fn lemma_best_link_prepend(
    dag: DagView,
    front: DagView,
    rest: Seq<int>,
    e: int,
    b: int,
    i: int,
)
    requires
        0 <= i <= rest.len(),
        front.edges == dag.edges.drop_last(),
        dag.edges.len() > 0,
        e == dag.edges.len() - 1,
        forall|k: int| 0 <= k < rest.len() ==> 0 <= #[trigger] rest[k] < front.edges.len(),
    ensures
        best_link(dag, seq![e] + rest, b, i + 1) == ({
            let before = best_link(front, rest, b, i);
            if dag.edges[e].dst == b {
                match before {
                    Some(w) => if w > dag.edges[e].weight {
                        Some(w)
                    } else {
                        Some(dag.edges[e].weight)
                    },
                    None => Some(dag.edges[e].weight),
                }
            } else {
                before
            }
        }),
    decreases i,
{
    let all = seq![e] + rest;
    if i > 0 {
        lemma_best_link_prepend(dag, front, rest, e, b, i - 1);
        assert(all[i] == rest[i - 1]);
        assert(0 <= rest[i - 1] < front.edges.len());
    } else {
        assert(all[0] == e);
        assert(best_link(dag, all, b, 0) is None);
        assert(best_link(front, rest, b, 0) is None);
        reveal_with_fuel(best_link, 2);
    }
}

/// After all links from place `k`, place `k` counts among those that lead in.
proof fn lemma_relaxed_all(
    dag: DagView,
    order: Seq<int>,
    best: u64,
    from: Option<usize>,
    p: int,
    k: int,
    at: Seq<int>,
)
    requires
        is_topological_order(dag.nodes.len(), dag.links(), order),
        0 <= p < order.len(),
        0 <= k < order.len(),
        at == incident(dag.links(), order[k], true),
        relaxed_is(dag, order, best, from, p, k, at, at.len() as int),
    ensures
        best_is(dag, order, best, from, p, k + 1),
{
    lemma_best_link(dag, order[k], order[p]);
    if k >= p {
        lemma_heaviest_link(dag.edges, order[k], order[p]);
        if heaviest_link(dag.edges, order[k], order[p]) is Some {
            let e = choose|e: int|
                0 <= e < dag.edges.len() && (#[trigger] dag.edges[e]).src == order[k]
                    && dag.edges[e].dst == order[p];
            assert(dag.links()[e] == (order[k], order[p]));
            assert(k < p);
        }
    }
}

/// `heaviest_link` is the weight of a link, and no link weighs more.
pub proof fn lemma_heaviest_link(edges: Seq<DagEdge>, a: int, b: int)
    ensures
        heaviest_link(edges, a, b) is Some <==> exists|e: int|
            0 <= e < edges.len() && (#[trigger] edges[e]).src == a && edges[e].dst == b,
        forall|e: int|
            0 <= e < edges.len() && (#[trigger] edges[e]).src == a && edges[e].dst == b
                ==> edges[e].weight <= heaviest_link(edges, a, b)->0,
    decreases edges.len(),
{
    if edges.len() > 0 {
        let front = edges.drop_last();
        lemma_heaviest_link(front, a, b);
        assert(edges[edges.len() - 1] == edges.last());
        if heaviest_link(front, a, b) is Some {
            let e = choose|e: int|
                0 <= e < front.len() && (#[trigger] front[e]).src == a && front[e].dst == b;
            assert(edges[e] == front[e]);
        }
        assert forall|e: int|
            0 <= e < edges.len() && (#[trigger] edges[e]).src == a && edges[e].dst == b implies
            heaviest_link(edges, a, b) is Some && edges[e].weight <= heaviest_link(
            edges,
            a,
            b,
        )->0 by {
            if e < edges.len() - 1 {
                assert(front[e] == edges[e]);
            }
        }
    }
}

/// The place that `lead_in` names comes before those it looks at.
proof fn lemma_lead_in_place(dag: DagView, order: Seq<int>, p: int, k: int)
    requires
        0 <= k <= p,
    ensures
        lead_in(dag, order, p, k).0 >= 0,
        lead_in(dag, order, p, k).1 matches Some(j) ==> 0 <= j < k && heaviest_link(
            dag.edges,
            order[j],
            order[p],
        ) is Some && lead_in(dag, order, p, k).0 == reach(dag, order, j) + heaviest_link(
            dag.edges,
            order[j],
            order[p],
        )->0,
        lead_in(dag, order, p, k).1 is None ==> lead_in(dag, order, p, k).0 == 0,
    decreases k,
{
    if k > 0 {
        lemma_lead_in_place(dag, order, p, k - 1);
    }
}

/// Every earlier place leads in no more than `lead_in` says.
proof fn lemma_lead_in_bound(dag: DagView, order: Seq<int>, p: int, k: int, j: int)
    requires
        0 <= j < k <= p,
        heaviest_link(dag.edges, order[j], order[p]) is Some,
    ensures
        reach(dag, order, j) + heaviest_link(dag.edges, order[j], order[p])->0 <= lead_in(
            dag,
            order,
            p,
            k,
        ).0,
    decreases k,
{
    if j < k - 1 {
        lemma_lead_in_bound(dag, order, p, k - 1, j);
    }
}

proof fn lemma_trace_head(dag: DagView, order: Seq<int>, p: int)
    requires
        0 <= p,
    ensures
        trace(dag, order, p).len() > 0,
        trace(dag, order, p).last() == order[p],
{
}

/// The traced path is a path of the DAG, and weighs what `reach` says.
proof fn lemma_trace(dag: DagView, order: Seq<int>, p: int)
    requires
        is_topological_order(dag.nodes.len(), dag.links(), order),
        0 <= p < order.len(),
    ensures
        is_dag_path(dag, trace(dag, order, p)),
        trace(dag, order, p).last() == order[p],
        path_weight(dag, trace(dag, order, p)) == reach(dag, order, p),
    decreases p,
{
    let path = trace(dag, order, p);
    lemma_lead_in_place(dag, order, p, p);
    assert(0 <= order[p] < dag.nodes.len());
    match lead_in(dag, order, p, p).1 {
        Some(j) => {
            lemma_trace(dag, order, j);
            let front = trace(dag, order, j);
            assert(path == front.push(order[p]));
            assert(path.drop_last() =~= front);
            lemma_heaviest_link(dag.edges, order[j], order[p]);
            let e = choose|e: int|
                0 <= e < dag.edges.len() && (#[trigger] dag.edges[e]).src == order[j]
                    && dag.edges[e].dst == order[p];
            assert(dag.links()[e] == (order[j], order[p]));
            assert forall|i: int| 0 <= i < path.len() - 1 implies #[trigger] follows_edge(
        dag.links(),
        path,
        i,
    ) by {
                if i < front.len() - 1 {
                    assert(follows_edge(dag.links(), front, i));
                } else {
                    assert(path[i] == order[j] && path[i + 1] == order[p]);
                }
            }
            assert forall|i: int| 0 <= i < path.len() implies 0 <= #[trigger] path[i]
                < dag.nodes.len() by {
                if i < front.len() {
                    assert(path[i] == front[i]);
                }
            }
            assert(path[path.len() - 2] == order[j]);
        },
        None => {
            assert(path =~= seq![order[p]]);
        },
    }
}

/// No path to the node in place `p` weighs more than `reach` says.
pub proof fn law_reach_is_heaviest(dag: DagView, order: Seq<int>, path: Seq<int>, p: int)
    requires
        is_topological_order(dag.nodes.len(), dag.links(), order),
        is_dag_path(dag, path),
        0 <= p < order.len(),
        order[p] == path.last(),
    ensures
        path_weight(dag, path) <= reach(dag, order, p),
    decreases path.len(),
{
    lemma_lead_in_place(dag, order, p, p);
    if path.len() >= 2 {
        let front = path.drop_last();
        let a = path[path.len() - 2];
        assert(front.last() == a);
        assert forall|i: int| 0 <= i < front.len() - 1 implies #[trigger] follows_edge(
        dag.links(),
        front,
        i,
    ) by {
            assert(follows_edge(dag.links(), path, i));
        }
        assert(is_dag_path(dag, front));
        lemma_full_list(dag.nodes.len(), order);
        assert(0 <= path[path.len() - 2] < dag.nodes.len());
        assert(order.contains(a));
        let j = choose|j: int| 0 <= j < order.len() && order[j] == a;
        let m = path.len() - 2;
        assert(follows_edge(dag.links(), path, m));
        let e = choose|e: int|
            0 <= e < dag.links().len() && dag.links()[e] == (path[m], path[m + 1]);
        assert(dag.links()[e] == (order[j], order[p]));
        assert(j < p);
        assert(dag.edges[e].src == a && dag.edges[e].dst == order[p]);
        lemma_heaviest_link(dag.edges, a, order[p]);
        law_reach_is_heaviest(dag, order, front, j);
        lemma_lead_in_bound(dag, order, p, p, j);
    }
}

/// What is computed for a link is the weight of a path.
proof fn lemma_candidate_fits(dag: DagView, order: Seq<int>, k: int, q: int, e: int)
    requires
        is_topological_order(dag.nodes.len(), dag.links(), order),
        0 <= k < q < order.len(),
        0 <= e < dag.edges.len(),
        dag.edges[e].src == order[k],
        dag.edges[e].dst == order[q],
    ensures
        weights_fit(dag) ==> reach(dag, order, k) + dag.edges[e].weight
            + dag.nodes[order[q]].weight <= u64::MAX,
{
    lemma_trace(dag, order, k);
    lemma_lead_in_place(dag, order, k, k);
    let front = trace(dag, order, k);
    let path = front.push(order[q]);
    assert(path.drop_last() =~= front);
    assert(dag.links()[e] == (order[k], order[q]));
    assert(0 <= order[q] < dag.nodes.len());
    lemma_heaviest_link(dag.edges, order[k], order[q]);
    assert forall|i: int| 0 <= i < path.len() - 1 implies #[trigger] follows_edge(
        dag.links(),
        path,
        i,
    ) by {
        if i < front.len() - 1 {
            assert(follows_edge(dag.links(), front, i));
        } else {
            assert(path[i] == order[k] && path[i + 1] == order[q]);
        }
    }
    assert forall|i: int| 0 <= i < path.len() implies 0 <= #[trigger] path[i]
        < dag.nodes.len() by {
        if i < front.len() {
            assert(path[i] == front[i]);
        }
    }
    assert(is_dag_path(dag, path));
    assert(path[path.len() - 2] == order[k]);
    assert(weights_fit(dag) ==> path_weight(dag, path) <= u64::MAX);
}

// ---------------------------------------------------------------------------
// Laws
// ---------------------------------------------------------------------------

/// Of several links between the same nodes the heaviest counts: none is heavier,
/// and one is as heavy.
pub proof fn law_heaviest_link_counts(edges: Seq<DagEdge>, a: int, b: int)
    ensures
        heaviest_link(edges, a, b) is Some <==> exists|e: int|
            0 <= e < edges.len() && (#[trigger] edges[e]).src == a && edges[e].dst == b,
        forall|e: int|
            0 <= e < edges.len() && (#[trigger] edges[e]).src == a && edges[e].dst == b
                ==> edges[e].weight <= heaviest_link(edges, a, b)->0,
        heaviest_link(edges, a, b) matches Some(w) ==> exists|e: int|
            0 <= e < edges.len() && (#[trigger] edges[e]).src == a && edges[e].dst == b
                && edges[e].weight == w,
    decreases edges.len(),
{
    lemma_heaviest_link(edges, a, b);
    if edges.len() > 0 {
        let front = edges.drop_last();
        law_heaviest_link_counts(front, a, b);
        assert(edges[edges.len() - 1] == edges.last());
        if let Some(w) = heaviest_link(edges, a, b) {
            if !(edges.last().src == a && edges.last().dst == b && edges.last().weight == w) {
                let e = choose|e: int|
                    0 <= e < front.len() && (#[trigger] front[e]).src == a && front[e].dst == b
                        && front[e].weight == w;
                assert(edges[e] == front[e]);
            }
        }
    }
}

/// A path weighs what its nodes and the links between them weigh together: a
/// single node its own weight, and two paths joined by a link the sum of the three.
pub proof fn law_path_weights_add_up(dag: DagView, p: Seq<int>, q: Seq<int>)
    requires
        p.len() > 0,
        q.len() > 0,
    ensures
        forall|v: int| #[trigger] path_weight(dag, seq![v]) == dag.nodes[v].weight,
        path_weight(dag, p + q) == path_weight(dag, p) + heaviest_link(
            dag.edges,
            p.last(),
            q.first(),
        )->0 + path_weight(dag, q),
    decreases q.len(),
{
    let all = p + q;
    assert(all.last() == q.last());
    if q.len() == 1 {
        assert(all.drop_last() =~= p);
        assert(all[all.len() - 2] == p.last());
    } else {
        let front = q.drop_last();
        law_path_weights_add_up(dag, p, front);
        assert(all.drop_last() =~= p + front);
        assert(all[all.len() - 2] == q[q.len() - 2]);
        assert(front.first() == q.first());
    }
}

/// `chain` tells the members and weights of the nodes along `path`.
pub open spec fn tells_path(dag: DagView, chain: Seq<CriticalPathNode>, path: Seq<int>) -> bool {
    &&& chain.len() == path.len()
    &&& forall|i: int|
        0 <= i < chain.len() ==> {
            &&& (#[trigger] chain[i]).members@ == dag.nodes[path[i]].members
            &&& chain[i].weight == dag.nodes[path[i]].weight
        }
}

/// What is reported as critical path is a path along links, told from its start,
/// with its weight; no path is heavier, and of those as heavy none ends at a node
/// with a higher number. Without nodes, and only then, there is none.
pub proof fn law_critical_path_is_heaviest(dag: CondensationDag, r: Option<CriticalPath>)
    requires
        is_critical_path(dag, r),
    ensures
        r is None <==> dag@.nodes.len() == 0,
        r matches Some(cp) ==> exists|path: Seq<int>| #[trigger]
            is_dag_path(dag@, path) && tells_path(dag@, cp.chain@, path) && path_weight(dag@, path)
                == cp.total_weight && forall|other: Seq<int>| #[trigger]
                is_dag_path(dag@, other) ==> path_weight(dag@, other) < cp.total_weight || (
                path_weight(dag@, other) == cp.total_weight && other.last() <= path.last()),
{
    if let Some(cp) = r {
        let order = dag.sorted_nodes()->0;
        let p = choose|p: int| #[trigger]
            is_end(dag@, order, p) && cp.total_weight == reach(dag@, order, p)
                && cp.chain@.map_values(|n: CriticalPathNode| n@) == chain_of(
                dag@,
                trace(dag@, order, p),
            );
        let path = trace(dag@, order, p);
        lemma_trace(dag@, order, p);
        let views = cp.chain@.map_values(|n: CriticalPathNode| n@);
        assert(views == chain_of(dag@, path));
        assert forall|i: int| 0 <= i < cp.chain@.len() implies {
            &&& (#[trigger] cp.chain@[i]).members@ == dag@.nodes[path[i]].members
            &&& cp.chain@[i].weight == dag@.nodes[path[i]].weight
        } by {
            assert(views[i] == cp.chain@[i]@);
            assert(chain_of(dag@, path)[i] == views[i]);
        }
        assert(views.len() == cp.chain@.len());
        assert forall|other: Seq<int>| #[trigger] is_dag_path(dag@, other) implies path_weight(
            dag@,
            other,
        ) < cp.total_weight || (path_weight(dag@, other) == cp.total_weight && other.last()
            <= path.last()) by {
            lemma_full_list(dag@.nodes.len(), order);
            let v = other.last();
            assert(0 <= other[other.len() - 1] < dag@.nodes.len());
            assert(order.contains(v));
            let q = choose|q: int| 0 <= q < order.len() && order[q] == v;
            law_reach_is_heaviest(dag@, order, other, q);
            assert(order[q] <= order[p] || reach(dag@, order, q) < reach(dag@, order, p));
        }
        assert(is_dag_path(dag@, path));
    }
}

/// Where a path to a node comes from: of the nodes with a link to it, from the one
/// with the heaviest way, of several the earliest in the order. A path starts at
/// the node itself only if no way to it weighs anything.
pub proof fn law_earliest_way_wins(dag: DagView, order: Seq<int>, p: int)
    requires
        0 <= p < order.len(),
    ensures
        match lead_in(dag, order, p, p).1 {
            Some(j) => {
                let link = heaviest_link(dag.edges, order[j], order[p]);
                let weight = reach(dag, order, j) + link->0;
                &&& 0 <= j < p
                &&& link is Some
                &&& weight > 0
                &&& trace(dag, order, p) == trace(dag, order, j).push(order[p])
                &&& reach(dag, order, p) == weight + dag.nodes[order[p]].weight
                &&& forall|i: int|
                    0 <= i < p ==> (#[trigger] heaviest_link(
                        dag.edges,
                        order[i],
                        order[p],
                    ) matches Some(w) ==> reach(dag, order, i) + w < weight || (reach(
                        dag,
                        order,
                        i,
                    ) + w == weight && j <= i))
            },
            None => {
                &&& trace(dag, order, p) == seq![order[p]]
                &&& reach(dag, order, p) == dag.nodes[order[p]].weight
                &&& forall|i: int|
                    0 <= i < p ==> (#[trigger] heaviest_link(
                        dag.edges,
                        order[i],
                        order[p],
                    ) matches Some(w) ==> reach(dag, order, i) + w <= 0)
            },
        },
{
    lemma_lead_in_place(dag, order, p, p);
    lemma_lead_in_earliest(dag, order, p, p);
    assert forall|i: int|
        0 <= i < p && heaviest_link(dag.edges, order[i], order[p]) is Some implies reach(
        dag,
        order,
        i,
    ) + (#[trigger] heaviest_link(dag.edges, order[i], order[p]))->0 <= lead_in(
        dag,
        order,
        p,
        p,
    ).0 by {
        lemma_lead_in_bound(dag, order, p, p, i);
    }
}

proof fn lemma_lead_in_earliest(dag: DagView, order: Seq<int>, p: int, k: int)
    requires
        0 <= k <= p,
    ensures
        lead_in(dag, order, p, k).1 matches Some(j) ==> lead_in(dag, order, p, k).0 > 0 && forall|
            i: int,
        |
            0 <= i < j && heaviest_link(dag.edges, order[i], order[p]) is Some ==> reach(
                dag,
                order,
                i,
            ) + (#[trigger] heaviest_link(dag.edges, order[i], order[p]))->0 < lead_in(
                dag,
                order,
                p,
                k,
            ).0,
    decreases k,
{
    if k > 0 {
        lemma_lead_in_earliest(dag, order, p, k - 1);
        lemma_lead_in_place(dag, order, p, k - 1);
        if lead_in(dag, order, p, k).1 == Some(k - 1) {
            assert forall|i: int|
                0 <= i < k - 1 && heaviest_link(
                    dag.edges,
                    order[i],
                    order[p],
                ) is Some implies reach(dag, order, i) + (#[trigger] heaviest_link(
                dag.edges,
                order[i],
                order[p],
            ))->0 < lead_in(dag, order, p, k).0 by {
                lemma_lead_in_bound(dag, order, p, k - 1, i);
            }
        }
    }
}

} // verus!
