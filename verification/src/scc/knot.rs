//! Knots: components that nothing leaves and that are worth reporting.

use vstd::prelude::*;

use crate::graph::topology::{incident, lemma_incident};
use crate::graph::types::{NodeKind, ThreadId};
use crate::graph::wfg::{
    edge_order, is_edge_order, lemma_edge_order_complete, GraphView, NodeIndex, WaitEdge,
    WaitForGraph,
};

use super::tarjan::{
    copy_tids, crosses, has_link, in_scc, in_some_scc, is_condensation, is_heaviest_crossing,
    is_scc_list, sink_list, CondensationDag, DagView,
};

verus! {

/// A component that no link leaves, that is not trivial and that holds a user
/// thread.
#[derive(Debug, Clone)]
pub struct Knot {
    pub dag_index: NodeIndex,
    pub members: Vec<ThreadId>,
}

/// What a [`Knot`] stands for.
#[verifier::ext_equal]
pub struct KnotView {
    pub dag_index: int,
    pub members: Seq<ThreadId>,
}

impl View for Knot {
    type V = KnotView;

    open spec fn view(&self) -> KnotView {
        KnotView { dag_index: self.dag_index.0 as int, members: self.members@ }
    }
}

/// The thread waits for itself.
pub open spec fn self_loop(edges: Seq<WaitEdge>, tid: ThreadId) -> bool {
    exists|e: int|
        0 <= e < edges.len() && (#[trigger] edges[e]).src == tid && edges[e].dst == tid
}

/// The thread is a user thread of the graph.
pub open spec fn is_user(g: GraphView, tid: ThreadId) -> bool {
    exists|i: int|
        0 <= i < g.nodes.len() && (#[trigger] g.nodes[i]).tid == tid && g.nodes[i].kind
            == NodeKind::UserThread
}

/// Some of the threads is a user thread.
pub open spec fn holds_user(g: GraphView, members: Seq<ThreadId>) -> bool {
    exists|i: int| 0 <= i < members.len() && is_user(g, #[trigger] members[i])
}

/// A single thread that does not wait for itself.
pub open spec fn trivial(g: GraphView, members: Seq<ThreadId>) -> bool {
    members.len() == 1 && !self_loop(g.edges, members[0])
}

/// The knots among the first `n` of the nodes `at`.
pub open spec fn knot_list(dag: DagView, g: GraphView, at: Seq<int>, n: int) -> Seq<KnotView>
    decreases n,
{
    if n <= 0 {
        Seq::empty()
    } else {
        let before = knot_list(dag, g, at, n - 1);
        let members = dag.nodes[at[n - 1]].members;
        if trivial(g, members) || !holds_user(g, members) {
            before
        } else {
            before.push(KnotView { dag_index: at[n - 1], members })
        }
    }
}

/// The knots: nodes that no link leaves and that hold a user thread, except
/// single threads that do not wait for themselves.
pub fn detect_knots(cdag: &CondensationDag, graph: &WaitForGraph) -> (r: Vec<Knot>)
    requires
        cdag.wf(),
        graph.wf(),
    ensures
        r@.map_values(|k: Knot| k@) == knot_list(
            cdag@,
            graph@,
            sink_list(cdag@, cdag@.nodes.len() as int),
            sink_list(cdag@, cdag@.nodes.len() as int).len() as int,
        ),
{
    let sinks = cdag.sinks();
    let ghost at = sink_list(cdag@, cdag@.nodes.len() as int);
    let mut r: Vec<Knot> = Vec::new();
    proof {
        lemma_sinks_in_range(cdag@, cdag@.nodes.len() as int);
        assert(r@.map_values(|k: Knot| k@) =~= knot_list(cdag@, graph@, at, 0));
    }
    for i in 0..sinks.len()
        invariant
            cdag.wf(),
            graph.wf(),
            at == sink_list(cdag@, cdag@.nodes.len() as int),
            at == sinks@.map_values(|i: NodeIndex| i.0 as int),
            forall|k: int| 0 <= k < at.len() ==> 0 <= #[trigger] at[k] < cdag@.nodes.len(),
            r@.map_values(|k: Knot| k@) == knot_list(cdag@, graph@, at, i as int),
    {
        let idx = sinks[i];
        let ghost before = r@;
        proof {
            assert(at[i as int] == idx.0);
        }
        let node = cdag.super_node(idx);
        let skip = (node.members.len() == 1 && !has_self_loop(graph, &node.members[0]))
            || !holds_user_thread(graph, &node.members);
        if !skip {
            r.push(Knot { dag_index: idx, members: copy_tids(&node.members) });
            assert(r@.map_values(|k: Knot| k@) =~= before.map_values(|k: Knot| k@).push(
                r@.last()@,
            ));
        }
    }
    r
}

/// Whether a thread waits for itself.
fn has_self_loop(graph: &WaitForGraph, tid: &ThreadId) -> (b: bool)
    requires
        graph.wf(),
    ensures
        b == self_loop(graph@.edges, *tid),
{
    let all = graph.all_edges();
    let ghost edges = graph@.edges;
    let ghost order = edge_order(edges);
    for k in 0..all.len()
        invariant
            edges == graph@.edges,
            order == edge_order(edges),
            is_edge_order(edges, order),
            all@.len() == edges.len(),
            forall|i: int|
                0 <= i < all@.len() ==> (#[trigger] all@[i]).1 == edges[order[i]].src && all@[i].2
                    == edges[order[i]].dst,
            forall|i: int|
                0 <= i < k ==> !(edges[#[trigger] order[i]].src == tid && edges[order[i]].dst
                    == tid),
    {
        let (_, src, dst, _) = all[k];
        proof {
            assert(all@[k as int].1 == edges[order[k as int]].src);
            assert(0 <= order[k as int] < edges.len());
        }
        if src.0 == tid.0 && dst.0 == tid.0 {
            assert(edges[order[k as int]].src == tid && edges[order[k as int]].dst == tid);
            return true;
        }
    }
    proof {
        graph.lemma_wf();
        lemma_edge_order_complete(edges, order);
        assert forall|e: int| 0 <= e < edges.len() implies !((#[trigger] edges[e]).src == tid
            && edges[e].dst == tid) by {
            assert(order.contains(e));
            let i = choose|i: int| 0 <= i < order.len() && order[i] == e;
            assert(!(edges[order[i]].src == tid && edges[order[i]].dst == tid));
        }
    }
    false
}

/// Whether some member is a user thread.
fn holds_user_thread(graph: &WaitForGraph, members: &Vec<ThreadId>) -> (b: bool)
    requires
        graph.wf(),
    ensures
        b == holds_user(graph@, members@),
{
    proof {
        graph.lemma_wf();
    }
    for i in 0..members.len()
        invariant
            graph.wf(),
            graph@.well_formed(),
            forall|j: int| 0 <= j < i ==> !is_user(graph@, #[trigger] members@[j]),
    {
        match graph.node_index(&members[i]) {
            Some(idx) => {
                let user = match graph.node_weight(idx).kind {
                    NodeKind::UserThread => true,
                    _ => false,
                };
                assert(graph@.nodes[idx.0 as int].tid == members@[i as int]);
                if user {
                    assert(is_user(graph@, members@[i as int]));
                    return true;
                }
            },
            None => {},
        }
    }
    false
}

proof fn lemma_sinks_in_range(dag: DagView, n: int)
    requires
        n <= dag.nodes.len(),
    ensures
        forall|k: int| 0 <= k < sink_list(dag, n).len() ==> 0 <= #[trigger] sink_list(dag, n)[k] < n,
    decreases n,
{
    if n > 0 {
        lemma_sinks_in_range(dag, n - 1);
        let before = sink_list(dag, n - 1);
        assert forall|k: int| 0 <= k < sink_list(dag, n).len() implies 0 <= #[trigger] sink_list(
            dag,
            n,
        )[k] < n by {
            if k < before.len() {
                assert(sink_list(dag, n)[k] == before[k]);
            }
        }
    }
}

/// The sinks are the nodes that no link leaves.
proof fn lemma_sinks(dag: DagView, n: int, c: int)
    ensures
        sink_list(dag, n).contains(c) <==> 0 <= c < n && incident(dag.links(), c, true).len() == 0,
    decreases n,
{
    if n > 0 {
        lemma_sinks(dag, n - 1, c);
        let before = sink_list(dag, n - 1);
        let all = sink_list(dag, n);
        if before.contains(c) {
            let k = choose|k: int| 0 <= k < before.len() && before[k] == c;
            assert(all[k] == c);
        }
        if c == n - 1 && incident(dag.links(), c, true).len() == 0 {
            assert(all[before.len() as int] == c);
        }
        if all.contains(c) && !before.contains(c) {
            let k = choose|k: int| 0 <= k < all.len() && all[k] == c;
            assert(k >= before.len() || before[k] == c);
        }
    }
}

/// The knots are the listed nodes that are worth reporting.
proof fn lemma_knot_list(dag: DagView, g: GraphView, at: Seq<int>, n: int, knot: KnotView)
    requires
        0 <= n <= at.len(),
    ensures
        knot_list(dag, g, at, n).contains(knot) <==> {
            &&& at.take(n).contains(knot.dag_index)
            &&& knot.members == dag.nodes[knot.dag_index].members
            &&& !trivial(g, knot.members)
            &&& holds_user(g, knot.members)
        },
    decreases n,
{
    let all = knot_list(dag, g, at, n);
    if n > 0 {
        lemma_knot_list(dag, g, at, n - 1, knot);
        let before = knot_list(dag, g, at, n - 1);
        let last = KnotView { dag_index: at[n - 1], members: dag.nodes[at[n - 1]].members };
        let front = at.take(n - 1);
        let here = at.take(n);
        assert(here =~= front.push(at[n - 1]));
        assert(here.contains(knot.dag_index) <==> front.contains(knot.dag_index) || knot.dag_index
            == at[n - 1]) by {
            assert(here[n - 1] == at[n - 1]);
            if front.contains(knot.dag_index) {
                let k = choose|k: int| 0 <= k < front.len() && front[k] == knot.dag_index;
                assert(here[k] == knot.dag_index);
            }
            if here.contains(knot.dag_index) {
                let k = choose|k: int| 0 <= k < here.len() && here[k] == knot.dag_index;
                assert(k == n - 1 || front[k] == knot.dag_index);
            }
        }
        let more = before.push(last);
        assert(more.contains(knot) <==> before.contains(knot) || knot == last) by {
            assert(more[before.len() as int] == last);
            if before.contains(knot) {
                let k = choose|k: int| 0 <= k < before.len() && before[k] == knot;
                assert(more[k] == knot);
            }
            if more.contains(knot) {
                let k = choose|k: int| 0 <= k < more.len() && more[k] == knot;
                assert(k == before.len() || before[k] == knot);
            }
        }
        assert(knot == last <==> knot.dag_index == at[n - 1] && knot.members
            == dag.nodes[at[n - 1]].members);
    }
}

// ---------------------------------------------------------------------------
// Laws
// ---------------------------------------------------------------------------

/// Whatever one of the threads waits for is one of them.
pub open spec fn is_closed(edges: Seq<WaitEdge>, members: Seq<ThreadId>) -> bool {
    forall|e: int|
        0 <= e < edges.len() && members.contains((#[trigger] edges[e]).src) ==> members.contains(
            edges[e].dst,
        )
}

/// The knots of a graph are those of its strongly connected components that wait
/// for nothing outside, are not trivial and hold a user thread. `dag` is the
/// condensation of the graph, with any weights.
pub proof fn law_knots_are_closed(
    g: GraphView,
    sccs: Seq<Seq<ThreadId>>,
    plain: DagView,
    dag: DagView,
    knot: KnotView,
)
    requires
        g.well_formed(),
        is_scc_list(g, sccs),
        is_condensation(g.edges, sccs, plain),
        dag.edges == plain.edges,
        dag.nodes.len() == plain.nodes.len(),
        forall|i: int|
            0 <= i < dag.nodes.len() ==> (#[trigger] dag.nodes[i]).members
                == plain.nodes[i].members,
    ensures
        ({
            let sinks = sink_list(dag, dag.nodes.len() as int);
            knot_list(dag, g, sinks, sinks.len() as int).contains(knot) <==> {
                &&& 0 <= knot.dag_index < sccs.len()
                &&& knot.members == sccs[knot.dag_index]
                &&& is_closed(g.edges, knot.members)
                &&& !trivial(g, knot.members)
                &&& holds_user(g, knot.members)
            }
        }),
{
    let n = dag.nodes.len() as int;
    let sinks = sink_list(dag, n);
    let c = knot.dag_index;
    lemma_knot_list(dag, g, sinks, sinks.len() as int, knot);
    assert(sinks.take(sinks.len() as int) =~= sinks);
    lemma_sinks(dag, n, c);
    if 0 <= c < n {
        assert(dag.nodes[c].members == plain.nodes[c].members);
        assert(plain.nodes[c].members == sccs[c]);
        lemma_closed_is_sink(g, sccs, plain, c);
        assert(dag.links() =~= plain.links());
    }
}

/// Every knot is reported once, by ascending number of its component. It is one
/// that nothing inside waits for anything outside of, that is more than a single
/// thread or a thread that waits for itself, and that holds a user thread.
pub proof fn law_knots_in_full(
    g: GraphView,
    sccs: Seq<Seq<ThreadId>>,
    plain: DagView,
    dag: DagView,
    c: int,
)
    requires
        g.well_formed(),
        is_scc_list(g, sccs),
        is_condensation(g.edges, sccs, plain),
        dag.edges == plain.edges,
        dag.nodes.len() == plain.nodes.len(),
        forall|i: int|
            0 <= i < dag.nodes.len() ==> (#[trigger] dag.nodes[i]).members
                == plain.nodes[i].members,
    ensures
        ({
            let sinks = sink_list(dag, dag.nodes.len() as int);
            let knots = knot_list(dag, g, sinks, sinks.len() as int);
            let members = sccs[c];
            &&& (exists|k: int|
                0 <= k < knots.len() && (#[trigger] knots[k]).dag_index == c && knots[k].members
                    == members) <==> {
                &&& 0 <= c < sccs.len()
                &&& forall|e: int|
                    0 <= e < g.edges.len() && members.contains((#[trigger] g.edges[e]).src)
                        ==> members.contains(g.edges[e].dst)
                &&& members.len() != 1 || exists|e: int|
                    0 <= e < g.edges.len() && (#[trigger] g.edges[e]).src == members[0]
                        && g.edges[e].dst == members[0]
                &&& exists|n: int|
                    0 <= n < g.nodes.len() && members.contains((#[trigger] g.nodes[n]).tid)
                        && g.nodes[n].kind == NodeKind::UserThread
            }
            &&& forall|k: int, l: int|
                0 <= k < l < knots.len() ==> (#[trigger] knots[k]).dag_index < (
                #[trigger] knots[l]).dag_index
        }),
{
    let n = dag.nodes.len() as int;
    let sinks = sink_list(dag, n);
    let knots = knot_list(dag, g, sinks, sinks.len() as int);
    let members = sccs[c];
    let knot = KnotView { dag_index: c, members };
    law_knots_are_closed(g, sccs, plain, dag, knot);
    if knots.contains(knot) {
        let k = choose|k: int| 0 <= k < knots.len() && knots[k] == knot;
        assert(knots[k].dag_index == c);
    }
    if exists|k: int|
        0 <= k < knots.len() && (#[trigger] knots[k]).dag_index == c && knots[k].members
            == members {
        let k = choose|k: int|
            0 <= k < knots.len() && (#[trigger] knots[k]).dag_index == c && knots[k].members
                == members;
        assert(knots[k] == knot);
        assert(knots.contains(knot));
    }
    assert(holds_user(g, members) <==> exists|n: int|
        0 <= n < g.nodes.len() && members.contains((#[trigger] g.nodes[n]).tid) && g.nodes[n].kind
            == NodeKind::UserThread) by {
        if holds_user(g, members) {
            let i = choose|i: int| 0 <= i < members.len() && is_user(g, #[trigger] members[i]);
            let m = choose|m: int|
                0 <= m < g.nodes.len() && (#[trigger] g.nodes[m]).tid == members[i]
                    && g.nodes[m].kind == NodeKind::UserThread;
            assert(members.contains(g.nodes[m].tid));
        }
        if exists|n: int|
            0 <= n < g.nodes.len() && members.contains((#[trigger] g.nodes[n]).tid)
                && g.nodes[n].kind == NodeKind::UserThread {
            let m = choose|m: int|
                0 <= m < g.nodes.len() && members.contains((#[trigger] g.nodes[m]).tid)
                    && g.nodes[m].kind == NodeKind::UserThread;
            let i = choose|i: int| 0 <= i < members.len() && members[i] == g.nodes[m].tid;
            assert(is_user(g, members[i]));
        }
    }
    lemma_sinks_ascend(dag, n);
    lemma_knots_ascend(dag, g, sinks, sinks.len() as int);
}

proof fn lemma_sinks_ascend(dag: DagView, n: int)
    requires
        n <= dag.nodes.len(),
    ensures
        forall|k: int, l: int|
            0 <= k < l < sink_list(dag, n).len() ==> (#[trigger] sink_list(dag, n)[k]) < (
            #[trigger] sink_list(dag, n)[l]),
    decreases n,
{
    if n > 0 {
        lemma_sinks_ascend(dag, n - 1);
        lemma_sinks_in_range(dag, n - 1);
        let before = sink_list(dag, n - 1);
        let all = sink_list(dag, n);
        assert forall|k: int, l: int| 0 <= k < l < all.len() implies (#[trigger] all[k]) < (
        #[trigger] all[l]) by {
            assert(all[k] == before[k]);
            if l < before.len() {
                assert(all[l] == before[l]);
            }
        }
    }
}

proof fn lemma_knots_ascend(dag: DagView, g: GraphView, at: Seq<int>, n: int)
    requires
        0 <= n <= at.len(),
        forall|k: int, l: int| 0 <= k < l < at.len() ==> (#[trigger] at[k]) < (#[trigger] at[l]),
    ensures
        ({
            let all = knot_list(dag, g, at, n);
            &&& forall|k: int, l: int|
                0 <= k < l < all.len() ==> (#[trigger] all[k]).dag_index < (
                #[trigger] all[l]).dag_index
            &&& n > 0 ==> forall|k: int|
                0 <= k < all.len() ==> (#[trigger] all[k]).dag_index <= at[n - 1]
            &&& n == 0 ==> all.len() == 0
        }),
    decreases n,
{
    if n > 0 {
        lemma_knots_ascend(dag, g, at, n - 1);
        let before = knot_list(dag, g, at, n - 1);
        let all = knot_list(dag, g, at, n);
        assert forall|k: int| 0 <= k < before.len() implies (#[trigger] before[k]).dag_index
            < at[n - 1] by {
            assert(n > 1);
            assert(at[n - 2] < at[n - 1]);
        }
        assert forall|k: int| 0 <= k < before.len() implies #[trigger] all[k] == before[k] by {}
    }
}

/// A component waits for nothing outside exactly if no link leaves it.
proof fn lemma_closed_is_sink(g: GraphView, sccs: Seq<Seq<ThreadId>>, dag: DagView, c: int)
    requires
        g.well_formed(),
        is_scc_list(g, sccs),
        is_condensation(g.edges, sccs, dag),
        0 <= c < sccs.len(),
    ensures
        is_closed(g.edges, sccs[c]) <==> incident(dag.links(), c, true).len() == 0,
{
    let at = incident(dag.links(), c, true);
    lemma_incident(dag.links(), c, true);
    if at.len() > 0 {
        let link = dag.edges[at[0]];
        assert(dag.links()[at[0]].0 == c);
        assert(is_heaviest_crossing(g.edges, sccs, link.src, link.dst, link.weight));
        assert(exists|e: int| #[trigger] crosses(g.edges, sccs, e, c, link.dst)) by {
            reveal(is_heaviest_crossing);
        }
        let e = choose|e: int| #[trigger] crosses(g.edges, sccs, e, c, link.dst);
        assert(sccs[c].contains(g.edges[e].src));
        if sccs[c].contains(g.edges[e].dst) {
            assert(in_scc(sccs, c, g.edges[e].dst) && in_scc(sccs, link.dst, g.edges[e].dst));
        }
    } else {
        assert forall|e: int|
            0 <= e < g.edges.len() && sccs[c].contains((#[trigger] g.edges[e]).src) implies sccs[c].contains(
        g.edges[e].dst) by {
            assert(g.has(g.edges[e].dst));
            assert(in_some_scc(sccs, g.edges[e].dst));
            let d = choose|d: int| in_scc(sccs, d, g.edges[e].dst);
            assert(in_scc(sccs, c, g.edges[e].src));
            if d != c {
                assert(crosses(g.edges, sccs, e, c, d));
                assert(has_link(dag, c, d));
                let k = choose|k: int|
                    0 <= k < dag.edges.len() && (#[trigger] dag.edges[k]).src == c
                        && dag.edges[k].dst == d;
                assert(dag.links()[k].0 == c);
                assert(at.contains(k));
            }
        }
    }
}

} // verus!
