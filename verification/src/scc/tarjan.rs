//! Strongly connected components and the condensation DAG.

use std::collections::BTreeMap;

use vstd::prelude::*;

use crate::graph::topology::{
    acyclic, as_int_lists, as_ints, incident, is_listed, is_topological_order,
    lemma_incident, lemma_ordered_is_acyclic, reaches, Topology,
};
use crate::graph::types::{EdgeWeight, NodeWeight, ThreadId};
use crate::graph::wfg::{
    edges_at, lemma_edges_at, lists_components, EdgeIndex, GraphView, NodeIndex, WaitEdge,
    WaitForGraph,
};
use crate::sorting::{
    lemma_ranked_set, lemma_same_elements, merge_sort, ranked_set, sort_dedup, sorted, Ranked,
};

verus! {

broadcast use vstd::std_specs::btree::group_btree_axioms;

/// A strongly connected component.
#[derive(Debug, Clone)]
pub struct Scc {
    /// Ascending.
    pub members: Vec<ThreadId>,
}

impl View for Scc {
    type V = Seq<ThreadId>;

    open spec fn view(&self) -> Seq<ThreadId> {
        self.members@
    }
}

/// A node of the condensation DAG: one strongly connected component.
#[derive(Debug, Clone)]
pub struct SuperNode {
    pub scc_index: usize,
    pub members: Vec<ThreadId>,
    /// Zero until the heuristic fills it in.
    pub weight: u64,
}

/// What a [`SuperNode`] stands for.
#[verifier::ext_equal]
pub struct SuperNodeView {
    pub scc_index: int,
    pub members: Seq<ThreadId>,
    pub weight: u64,
}

impl View for SuperNode {
    type V = SuperNodeView;

    open spec fn view(&self) -> SuperNodeView {
        SuperNodeView {
            scc_index: self.scc_index as int,
            members: self.members@,
            weight: self.weight,
        }
    }
}

/// A link of the condensation DAG.
pub struct DagEdge {
    pub src: int,
    pub dst: int,
    pub weight: u64,
}

/// What a [`CondensationDag`] stands for: its nodes and links in order of
/// insertion, and the node of each thread.
#[verifier::ext_equal]
pub struct DagView {
    pub nodes: Seq<SuperNodeView>,
    pub edges: Seq<DagEdge>,
    pub home: Map<i64, u32>,
}

impl DagView {
    /// The endpoints of the links.
    pub open spec fn links(&self) -> Seq<(int, int)> {
        self.edges.map_values(|e: DagEdge| (e.src, e.dst))
    }

    /// Links join nodes, and threads live in nodes.
    pub open spec fn well_formed(&self) -> bool {
        &&& forall|e: int|
            0 <= e < self.edges.len() ==> 0 <= (#[trigger] self.edges[e]).src < self.nodes.len()
                && 0 <= self.edges[e].dst < self.nodes.len()
        &&& forall|t: i64| #[trigger]
            self.home.contains_key(t) ==> self.home[t] < self.nodes.len()
    }
}

// ---------------------------------------------------------------------------
// The mathematical model of components and condensation
// ---------------------------------------------------------------------------

/// Component number `c` holds the thread.
pub open spec fn in_scc(sccs: Seq<Seq<ThreadId>>, c: int, tid: ThreadId) -> bool {
    0 <= c < sccs.len() && sccs[c].contains(tid)
}

/// Some component holds the thread.
pub open spec fn in_some_scc(sccs: Seq<Seq<ThreadId>>, tid: ThreadId) -> bool {
    exists|c: int| in_scc(sccs, c, tid)
}

/// The threads at the nodes of a component, ascending.
pub open spec fn member_tids(nodes: Seq<NodeWeight>, component: Seq<int>) -> Seq<ThreadId> {
    ranked_set(component.map_values(|v: int| nodes[v].tid))
}

/// The threads of each component.
pub open spec fn scc_lists(g: GraphView, components: Seq<Seq<int>>) -> Seq<Seq<ThreadId>> {
    components.map_values(|c: Seq<int>| member_tids(g.nodes, c))
}

/// `sccs` are the strongly connected components of the graph: every thread is
/// in exactly one, two threads are in the same one exactly if each reaches the
/// other, and edges lead to the same or to an earlier one.
pub open spec fn is_scc_list(g: GraphView, sccs: Seq<Seq<ThreadId>>) -> bool {
    &&& splits_threads(g, sccs)
    &&& forall|c: int, d: int, a: ThreadId, b: ThreadId| #[trigger]
        in_scc(sccs, c, a) && #[trigger] in_scc(sccs, d, b) ==> (c == d <==> reaches(
            g.links(),
            a.0 as int,
            b.0 as int,
        ) && reaches(g.links(), b.0 as int, a.0 as int))
    &&& forall|e: int, c: int, d: int|
        #![trigger in_scc(sccs, c, g.edges[e].src), in_scc(sccs, d, g.edges[e].dst)]
        0 <= e < g.edges.len() && in_scc(sccs, c, g.edges[e].src) && in_scc(
            sccs,
            d,
            g.edges[e].dst,
        ) ==> c >= d
}

/// Every thread of the graph, and no other, is in exactly one of the lists,
/// which are ascending and not empty.
pub open spec fn splits_threads(g: GraphView, sccs: Seq<Seq<ThreadId>>) -> bool {
    &&& forall|c: int|
        0 <= c < sccs.len() ==> (#[trigger] sccs[c]).len() > 0 && sorted(sccs[c])
            && sccs[c].no_duplicates()
    &&& forall|tid: ThreadId| g.has(tid) <==> #[trigger] in_some_scc(sccs, tid)
    &&& forall|c: int, d: int, tid: ThreadId| #[trigger]
        in_scc(sccs, c, tid) && #[trigger] in_scc(sccs, d, tid) ==> c == d
}

/// Edge `e` leads from component `c` to another component `d`.
pub open spec fn crosses(
    edges: Seq<WaitEdge>,
    sccs: Seq<Seq<ThreadId>>,
    e: int,
    c: int,
    d: int,
) -> bool {
    0 <= e < edges.len() && c != d && in_scc(sccs, c, edges[e].src) && in_scc(
        sccs,
        d,
        edges[e].dst,
    )
}

/// `weight` is the largest attributed delay among the edges from `c` to `d`.
#[verifier::opaque]
pub open spec fn is_heaviest_crossing(
    edges: Seq<WaitEdge>,
    sccs: Seq<Seq<ThreadId>>,
    c: int,
    d: int,
    weight: u64,
) -> bool {
    &&& exists|e: int| #[trigger]
        crosses(edges, sccs, e, c, d) && edges[e].weight.attributed_delay_ms == weight
    &&& forall|e: int| #[trigger]
        crosses(edges, sccs, e, c, d) ==> edges[e].weight.attributed_delay_ms <= weight
}

/// `dag` has a link from `c` to `d`.
pub open spec fn has_link(dag: DagView, c: int, d: int) -> bool {
    exists|k: int|
        0 <= k < dag.edges.len() && (#[trigger] dag.edges[k]).src == c && dag.edges[k].dst == d
}

/// `dag` condenses the graph: one node per component, in order and without
/// weight, and one link per pair of components that an edge joins, in ascending
/// order, with the largest attributed delay among those edges.
pub open spec fn is_condensation(
    edges: Seq<WaitEdge>,
    sccs: Seq<Seq<ThreadId>>,
    dag: DagView,
) -> bool {
    &&& dag.nodes == Seq::new(
        sccs.len(),
        |i: int| SuperNodeView { scc_index: i, members: sccs[i], weight: 0 },
    )
    &&& forall|tid: ThreadId|
        #![trigger dag.home.contains_key(tid.0)]
        dag.home.contains_key(tid.0) <==> in_some_scc(sccs, tid)
    &&& forall|c: int, tid: ThreadId| #[trigger]
        in_scc(sccs, c, tid) ==> dag.home[tid.0] == c
    &&& forall|k: int, l: int|
        0 <= k < l < dag.edges.len() ==> {
            let a = #[trigger] dag.edges[k];
            let b = #[trigger] dag.edges[l];
            a.src < b.src || (a.src == b.src && a.dst < b.dst)
        }
    &&& forall|k: int|
        0 <= k < dag.edges.len() ==> is_heaviest_crossing(
            edges,
            sccs,
            (#[trigger] dag.edges[k]).src,
            dag.edges[k].dst,
            dag.edges[k].weight,
        )
    &&& forall|e: int, c: int, d: int| #[trigger]
        crosses(edges, sccs, e, c, d) ==> has_link(dag, c, d)
}

// ---------------------------------------------------------------------------
// The condensation DAG
// ---------------------------------------------------------------------------

/// The condensation DAG. A link carries the largest attributed delay among the
/// edges between its two components.
#[derive(Debug)]
pub struct CondensationDag {
    topology: Topology,
    nodes: Vec<SuperNode>,
    weights: Vec<u64>,
    node_map: BTreeMap<i64, u32>,
}

impl View for CondensationDag {
    type V = DagView;

    closed spec fn view(&self) -> DagView {
        DagView {
            nodes: self.nodes@.map_values(|n: SuperNode| n@),
            edges: Seq::new(
                self.weights@.len(),
                |e: int|
                    DagEdge {
                        src: self.topology@.edges[e].0,
                        dst: self.topology@.edges[e].1,
                        weight: self.weights@[e],
                    },
            ),
            home: self.node_map@,
        }
    }
}

impl CondensationDag {
    /// The parts agree on node and link numbers.
    pub closed spec fn wf(&self) -> bool {
        &&& self.topology.wf()
        &&& self.topology@.nodes == self.nodes@.len()
        &&& self.topology@.edges.len() == self.weights@.len()
        &&& forall|t: i64| #[trigger]
            self.node_map@.contains_key(t) ==> self.node_map@[t] < self.nodes@.len()
    }

    /// What well-formedness means for the DAG's model.
    pub proof fn lemma_wf(&self)
        requires
            self.wf(),
        ensures
            self@.well_formed(),
            self@.nodes.len() <= u32::MAX,
            self@.edges.len() <= u32::MAX,
    {
        self.topology.lemma_bounds();
        assert forall|e: int| 0 <= e < self@.edges.len() implies 0 <= (
        #[trigger] self@.edges[e]).src < self@.nodes.len() && 0 <= self@.edges[e].dst
            < self@.nodes.len() by {
            assert(0 <= self.topology@.edges[e].0 < self.topology@.nodes);
        }
    }

    pub fn new() -> (d: Self)
        ensures
            d.wf(),
            d@ == (DagView { nodes: Seq::empty(), edges: Seq::empty(), home: Map::empty() }),
    {
        let d = CondensationDag {
            topology: Topology::new(),
            nodes: Vec::new(),
            weights: Vec::new(),
            node_map: BTreeMap::new(),
        };
        proof {
            assert(d@.nodes =~= Seq::empty());
            assert(d@.edges =~= Seq::empty());
            assert(d@.home =~= Map::empty());
        }
        d
    }

    /// Adds a node and makes it the home of its members.
    pub fn add_super_node(&mut self, node: SuperNode) -> (idx: NodeIndex)
        requires
            old(self).wf(),
            old(self)@.nodes.len() < u32::MAX,
        ensures
            final(self).wf(),
            idx.0 == old(self)@.nodes.len(),
            final(self)@.nodes == old(self)@.nodes.push(node@),
            final(self)@.edges == old(self)@.edges,
            forall|t: i64|
                #![trigger final(self)@.home.contains_key(t)]
                final(self)@.home.contains_key(t) <==> old(self)@.home.contains_key(t)
                    || node.members@.contains(ThreadId(t)),
            forall|t: i64|
                #![trigger final(self)@.home[t]]
                final(self)@.home.contains_key(t) ==> final(self)@.home[t] == (
                if node.members@.contains(ThreadId(t)) {
                    idx.0
                } else {
                    old(self)@.home[t]
                }),
    {
        let idx: u32 = self.topology.add_node();
        let n: usize = node.members.len();
        for k in 0..n
            invariant
                n == node.members@.len(),
                idx == old(self)@.nodes.len(),
                self.topology.wf(),
                self.topology@.nodes == old(self).nodes@.len() + 1,
                self.topology@.edges == old(self).topology@.edges,
                self.nodes == old(self).nodes,
                self.weights == old(self).weights,
                old(self).wf(),
                forall|t: i64|
                    #![trigger self.node_map@.contains_key(t)]
                    self.node_map@.contains_key(t) <==> old(self).node_map@.contains_key(t)
                        || node.members@.take(k as int).contains(ThreadId(t)),
                forall|t: i64|
                    #![trigger self.node_map@[t]]
                    self.node_map@.contains_key(t) ==> self.node_map@[t] == (
                    if node.members@.take(k as int).contains(ThreadId(t)) {
                        idx
                    } else {
                        old(self).node_map@[t]
                    }),
        {
            let ghost before = self.node_map@;
            let tid = node.members[k];
            self.node_map.insert(tid.0, idx);
            proof {
                let some = node.members@.take(k as int);
                let more = node.members@.take(k + 1);
                assert(more =~= some.push(tid));
                assert forall|t: i64| more.contains(ThreadId(t)) <==> some.contains(ThreadId(t))
                    || t == tid.0 by {
                    if some.contains(ThreadId(t)) {
                        let i = choose|i: int| 0 <= i < some.len() && some[i] == ThreadId(t);
                        assert(more[i] == ThreadId(t));
                    }
                    assert(more[k as int] == tid);
                    if more.contains(ThreadId(t)) {
                        let i = choose|i: int| 0 <= i < more.len() && more[i] == ThreadId(t);
                        if i < k {
                            assert(some[i] == ThreadId(t));
                        }
                    }
                }
                assert(self.node_map@ == before.insert(tid.0, idx));
            }
        }
        proof {
            assert(node.members@.take(n as int) =~= node.members@);
        }
        self.nodes.push(node);
        proof {
            assert(self@.nodes =~= old(self)@.nodes.push(node@));
            assert(self@.edges =~= old(self)@.edges);
            assert forall|t: i64| #[trigger] self.node_map@.contains_key(t) implies self.node_map@[t]
                < self.nodes@.len() by {
                if !node.members@.contains(ThreadId(t)) {
                    assert(old(self).node_map@.contains_key(t));
                }
                assert(self.node_map@[t] <= idx);
            }
        }
        NodeIndex(idx)
    }

    /// Adds a link between two nodes.
    pub fn add_link(&mut self, src: NodeIndex, dst: NodeIndex, weight: u64) -> (idx: EdgeIndex)
        requires
            old(self).wf(),
            src.0 < old(self)@.nodes.len(),
            dst.0 < old(self)@.nodes.len(),
            old(self)@.edges.len() < u32::MAX,
        ensures
            final(self).wf(),
            idx.0 == old(self)@.edges.len(),
            final(self)@.nodes == old(self)@.nodes,
            final(self)@.home == old(self)@.home,
            final(self)@.edges == old(self)@.edges.push(
                DagEdge { src: src.0 as int, dst: dst.0 as int, weight },
            ),
    {
        let idx: u32 = self.topology.add_edge(src.0, dst.0);
        self.weights.push(weight);
        proof {
            assert(self@.edges =~= old(self)@.edges.push(
                DagEdge { src: src.0 as int, dst: dst.0 as int, weight },
            ));
        }
        EdgeIndex(idx)
    }

    /// The node with a given index.
    pub fn super_node(&self, idx: NodeIndex) -> (n: &SuperNode)
        requires
            idx.0 < self@.nodes.len(),
        ensures
            n@ == self@.nodes[idx.0 as int],
    {
        &self.nodes[idx.0 as usize]
    }

    /// The node with a given index, to be changed in place.
    pub fn super_node_mut(&mut self, idx: NodeIndex) -> (n: &mut SuperNode)
        requires
            old(self).wf(),
            idx.0 < old(self)@.nodes.len(),
        ensures
            n@ == old(self)@.nodes[idx.0 as int],
            final(self).wf(),
            final(self)@.nodes =~= old(self)@.nodes.update(idx.0 as int, final(n)@),
            final(self)@.edges == old(self)@.edges,
            final(self)@.home == old(self)@.home,
    {
        &mut self.nodes[idx.0 as usize]
    }

    /// The node that a thread belongs to.
    pub fn scc_of(&self, tid: &ThreadId) -> (r: Option<NodeIndex>)
        ensures
            r == (if self@.home.contains_key(tid.0) {
                Some(NodeIndex(self@.home[tid.0]))
            } else {
                None
            }),
    {
        match self.node_map.get(&tid.0) {
            Some(idx) => Some(NodeIndex(*idx)),
            None => None,
        }
    }

    /// Number of nodes.
    pub fn node_count(&self) -> (n: usize)
        requires
            self.wf(),
        ensures
            n == self@.nodes.len(),
    {
        self.topology.node_count()
    }

    /// Number of links.
    pub fn edge_count(&self) -> (n: usize)
        requires
            self.wf(),
        ensures
            n == self@.edges.len(),
    {
        self.topology.edge_count()
    }

    /// All nodes, by index.
    pub fn all_super_nodes(&self) -> (r: Vec<(NodeIndex, &SuperNode)>)
        requires
            self.wf(),
        ensures
            r@.len() == self@.nodes.len(),
            forall|i: int|
                0 <= i < r@.len() ==> (#[trigger] r@[i]).0.0 == i && r@[i].1@ == self@.nodes[i],
    {
        proof {
            self.topology.lemma_bounds();
        }
        let mut r: Vec<(NodeIndex, &SuperNode)> = Vec::new();
        for i in 0..self.nodes.len()
            invariant
                self.nodes@.len() <= u32::MAX,
                r@.len() == i,
                forall|k: int|
                    0 <= k < i ==> (#[trigger] r@[k]).0.0 == k && r@[k].1@ == self@.nodes[k],
        {
            r.push((NodeIndex(i as u32), &self.nodes[i]));
        }
        r
    }

    /// The links that leave a node, latest first, each with its target; none for
    /// an unknown index.
    pub(crate) fn outgoing_links(&self, idx: NodeIndex) -> (r: Vec<(u32, u64)>)
        requires
            self.wf(),
        ensures
            r@.len() == incident(self@.links(), idx.0 as int, true).len(),
            forall|k: int|
                #![trigger r@[k]]
                0 <= k < r@.len() ==> {
                    let e = incident(self@.links(), idx.0 as int, true)[k];
                    0 <= e < self@.edges.len() && r@[k].0 == self@.edges[e].dst && r@[k].1
                        == self@.edges[e].weight
                },
    {
        proof {
            self.topology.lemma_bounds();
            assert(self@.links() =~= self.topology@.edges);
            lemma_incident(self.topology@.edges, idx.0 as int, true);
        }
        let mut r: Vec<(u32, u64)> = Vec::new();
        if idx.0 as usize >= self.nodes.len() {
            proof {
                let at = incident(self.topology@.edges, idx.0 as int, true);
                if at.len() > 0 {
                    let e = at[0];
                    assert(self.topology@.edges[e].0 == idx.0);
                }
            }
            return r;
        }
        let list = self.topology.outgoing(idx.0);
        let ghost at = incident(self.topology@.edges, idx.0 as int, true);
        assert(as_ints(list@) == at);
        for k in 0..list.len()
            invariant
                self.wf(),
                as_ints(list@) == at,
                self@.links() == self.topology@.edges,
                r@.len() == k,
                forall|i: int| 0 <= i < at.len() ==> 0 <= #[trigger] at[i] < self@.edges.len(),
                forall|i: int|
                    0 <= i < k ==> (#[trigger] r@[i]).0 == self@.edges[at[i]].dst && r@[i].1
                        == self@.edges[at[i]].weight,
        {
            proof {
                assert(as_ints(list@)[k as int] == list@[k as int]);
                assert(0 <= at[k as int] < self@.edges.len());
                self.topology.lemma_bounds();
            }
            let e: u32 = list[k];
            let ends = self.topology.endpoints(e);
            r.push((ends.1, self.weights[e as usize]));
        }
        proof {
            assert(r@.len() == at.len()) by {
                assert(as_ints(list@).len() == list@.len());
            }
        }
        r
    }

    /// How many links leave a node; none for an unknown index.
    pub fn out_degree(&self, idx: NodeIndex) -> (n: usize)
        requires
            self.wf(),
        ensures
            n == incident(self@.links(), idx.0 as int, true).len(),
    {
        self.outgoing_links(idx).len()
    }

    /// The nodes that no link leaves, by index.
    pub fn sinks(&self) -> (r: Vec<NodeIndex>)
        requires
            self.wf(),
        ensures
            r@.map_values(|i: NodeIndex| i.0 as int) == sink_list(self@, self@.nodes.len() as int),
    {
        proof {
            self.topology.lemma_bounds();
        }
        let mut r: Vec<NodeIndex> = Vec::new();
        assert(r@.map_values(|i: NodeIndex| i.0 as int) =~= sink_list(self@, 0));
        for i in 0..self.nodes.len()
            invariant
                self.wf(),
                self.nodes@.len() <= u32::MAX,
                r@.map_values(|i: NodeIndex| i.0 as int) == sink_list(self@, i as int),
        {
            let ghost before = r@;
            if self.out_degree(NodeIndex(i as u32)) == 0 {
                r.push(NodeIndex(i as u32));
                assert(r@.map_values(|i: NodeIndex| i.0 as int) =~= before.map_values(
                    |i: NodeIndex| i.0 as int,
                ).push(i as int));
            }
        }
        r
    }

    /// The topological order that petgraph picks, if there is one.
    pub closed spec fn sorted_nodes(&self) -> Option<Seq<int>> {
        self.topology.sorted_nodes()
    }

    /// A topological order of the nodes; `None` exactly if there is a cycle.
    pub(crate) fn topological_order(&self) -> (order: Option<Vec<u32>>)
        requires
            self.wf(),
        ensures
            order is Some <==> acyclic(self@.links()),
            order is Some ==> self.sorted_nodes() == Some(as_ints(order->0@)),
            order is Some ==> is_topological_order(
                self@.nodes.len(),
                self@.links(),
                as_ints(order->0@),
            ),
    {
        assert(self@.links() =~= self.topology@.edges);
        self.topology.topological_order()
    }
}

/// The nodes before number `n` that no link leaves.
pub open spec fn sink_list(dag: DagView, n: int) -> Seq<int>
    decreases n,
{
    if n <= 0 {
        Seq::empty()
    } else if incident(dag.links(), n - 1, true).len() == 0 {
        sink_list(dag, n - 1).push(n - 1)
    } else {
        sink_list(dag, n - 1)
    }
}

// ---------------------------------------------------------------------------
// Components
// ---------------------------------------------------------------------------

/// A copy of a list of threads.
pub(crate) fn copy_tids(v: &Vec<ThreadId>) -> (r: Vec<ThreadId>)
    ensures
        r@ == v@,
{
    let mut r: Vec<ThreadId> = Vec::new();
    for i in 0..v.len()
        invariant
            r@ == v@.take(i as int),
    {
        r.push(v[i]);
        assert(v@.take(i + 1) =~= v@.take(i as int).push(v@[i as int]));
    }
    assert(v@.take(v@.len() as int) =~= v@);
    r
}

/// The strongly connected components, in reverse topological order: those that
/// others lead to come first.
pub fn find_sccs(graph: &WaitForGraph) -> (sccs: Vec<Scc>)
    requires
        graph.wf(),
    ensures
        sccs@.map_values(|s: Scc| s@) == scc_lists(graph@, graph.components()),
        is_scc_list(graph@, sccs@.map_values(|s: Scc| s@)),
{
    let components = graph.strongly_connected();
    let ghost comps = graph.components();
    let mut sccs: Vec<Scc> = Vec::new();
    for c in 0..components.len()
        invariant
            graph.wf(),
            comps == as_int_lists(components@),
            comps == graph.components(),
            lists_components(graph@, comps),
            sccs@.len() == c,
            forall|i: int|
                0 <= i < c ==> (#[trigger] sccs@[i])@ == member_tids(graph@.nodes, comps[i]),
    {
        let mut members: Vec<ThreadId> = Vec::new();
        let component = &components[c];
        assert(comps[c as int] == as_ints(component@));
        for k in 0..component.len()
            invariant
                graph.wf(),
                0 <= c < comps.len(),
                comps[c as int] == as_ints(component@),
                lists_components(graph@, comps),
                members@.len() == k,
                forall|i: int|
                    0 <= i < k ==> #[trigger] members@[i] == graph@.nodes[comps[c as int][i]].tid,
        {
            assert(comps[c as int][k as int] == component@[k as int]);
            members.push(graph.thread_id(NodeIndex(component[k])));
        }
        assert(members@ =~= comps[c as int].map_values(|v: int| graph@.nodes[v].tid));
        sccs.push(Scc { members: sort_dedup(&members) });
    }
    proof {
        let lists = sccs@.map_values(|s: Scc| s@);
        assert(lists =~= scc_lists(graph@, comps));
        graph.lemma_wf();
        lemma_scc_lists(graph@, comps);
    }
    sccs
}

/// The condensation of the graph along its strongly connected components.
pub fn build_condensation(graph: &WaitForGraph) -> (dag: CondensationDag)
    requires
        graph.wf(),
    ensures
        dag.wf(),
        is_scc_list(graph@, scc_lists(graph@, graph.components())),
        is_condensation(graph@.edges, scc_lists(graph@, graph.components()), dag@),
        acyclic(dag@.links()),
{
    let sccs = find_sccs(graph);
    proof {
        graph.lemma_wf();
        lemma_scc_count(graph@, sccs@.map_values(|s: Scc| s@));
    }
    let dag = condense(graph, &sccs);
    proof {
        dag.lemma_wf();
        law_condensation_is_acyclic(graph@, sccs@.map_values(|s: Scc| s@), dag@);
    }
    dag
}

/// A link before it is known to be the heaviest of its pair.
#[derive(Debug, Clone, Copy)]
struct Crossing {
    src: u32,
    dst: u32,
    weight: u64,
}

impl Ranked for Crossing {
    closed spec fn not_after(self, other: Self) -> bool {
        self.src < other.src || (self.src == other.src && (self.dst < other.dst || (self.dst
            == other.dst && self.weight <= other.weight)))
    }

    proof fn order_is_total() {
    }

    fn is_not_after(&self, other: &Self) -> (b: bool) {
        self.src < other.src || (self.src == other.src && (self.dst < other.dst || (self.dst
            == other.dst && self.weight <= other.weight)))
    }
}

/// `x` stands for some edge between different components.
spec fn is_crossing(edges: Seq<WaitEdge>, sccs: Seq<Seq<ThreadId>>, x: Crossing) -> bool {
    exists|e: int| #[trigger]
        crosses(edges, sccs, e, x.src as int, x.dst as int)
            && edges[e].weight.attributed_delay_ms == x.weight
}

/// Condenses the graph along the given split of its threads.
pub fn condense(graph: &WaitForGraph, sccs: &Vec<Scc>) -> (dag: CondensationDag)
    requires
        graph.wf(),
        splits_threads(graph@, sccs@.map_values(|s: Scc| s@)),
        sccs@.len() <= u32::MAX,
    ensures
        dag.wf(),
        is_condensation(graph@.edges, sccs@.map_values(|s: Scc| s@), dag@),
{
    let ghost lists = sccs@.map_values(|s: Scc| s@);
    let ghost edges = graph@.edges;
    let mut dag = CondensationDag::new();
    for i in 0..sccs.len()
        invariant
            lists == sccs@.map_values(|s: Scc| s@),
            splits_threads(graph@, lists),
            sccs@.len() <= u32::MAX,
            dag.wf(),
            dag@.edges.len() == 0,
            dag@.nodes == Seq::new(
                i as nat,
                |k: int| SuperNodeView { scc_index: k, members: lists[k], weight: 0 },
            ),
            forall|tid: ThreadId|
                #![trigger dag@.home.contains_key(tid.0)]
                dag@.home.contains_key(tid.0) <==> exists|c: int|
                    0 <= c < i && #[trigger] in_scc(lists, c, tid),
            forall|c: int, tid: ThreadId|
                c < i && #[trigger] in_scc(lists, c, tid) ==> dag@.home[tid.0] == c,
    {
        let ghost before = dag@;
        let node = SuperNode { scc_index: i, members: copy_tids(&sccs[i].members), weight: 0 };
        proof {
            assert(lists[i as int] == sccs@[i as int]@);
        }
        dag.add_super_node(node);
        proof {
            assert(dag@.nodes =~= Seq::new(
                (i + 1) as nat,
                |k: int| SuperNodeView { scc_index: k, members: lists[k], weight: 0 },
            ));
            assert forall|tid: ThreadId|
                #![trigger dag@.home.contains_key(tid.0)]
                dag@.home.contains_key(tid.0) <==> exists|c: int|
                    0 <= c < i + 1 && #[trigger] in_scc(lists, c, tid) by {
                assert(ThreadId(tid.0) == tid);
                assert(before.home.contains_key(tid.0) <==> exists|c: int|
                    0 <= c < i && #[trigger] in_scc(lists, c, tid));
                if before.home.contains_key(tid.0) {
                    let c = choose|c: int| 0 <= c < i && #[trigger] in_scc(lists, c, tid);
                    assert(in_scc(lists, c, tid));
                }
                if lists[i as int].contains(tid) {
                    assert(in_scc(lists, i as int, tid));
                }
            }
            assert forall|c: int, tid: ThreadId|
                c < i + 1 && #[trigger] in_scc(lists, c, tid) implies dag@.home[tid.0] == c by {
                assert(ThreadId(tid.0) == tid);
                assert(dag@.home.contains_key(tid.0));
                if c < i {
                    assert(before.home[tid.0] == c);
                    assert(!in_scc(lists, i as int, tid));
                    assert(before.home.contains_key(tid.0));
                }
            }
        }
    }
    proof {
        assert forall|tid: ThreadId|
            #![trigger dag@.home.contains_key(tid.0)]
            dag@.home.contains_key(tid.0) <==> in_some_scc(lists, tid) by {
            if in_some_scc(lists, tid) {
                let c = choose|c: int| in_scc(lists, c, tid);
                assert(0 <= c < lists.len() && in_scc(lists, c, tid));
            }
            if dag@.home.contains_key(tid.0) {
                let c = choose|c: int| 0 <= c < lists.len() && #[trigger] in_scc(lists, c, tid);
                assert(in_scc(lists, c, tid));
            }
        }
    }
    let ghost home = dag@.home;
    let ghost nodes = dag@.nodes;
    let mut crossings: Vec<Crossing> = Vec::new();
    let n: usize = graph.edge_count();
    proof {
        graph.lemma_wf();
    }
    for e in 0..n
        invariant
            graph.wf(),
            edges == graph@.edges,
            n == edges.len(),
            n <= u32::MAX,
            splits_threads(graph@, lists),
            dag.wf(),
            home == dag@.home,
            dag@.nodes.len() == lists.len(),
            forall|tid: ThreadId|
                #![trigger home.contains_key(tid.0)]
                home.contains_key(tid.0) <==> in_some_scc(lists, tid),
            forall|c: int, tid: ThreadId| #[trigger]
                in_scc(lists, c, tid) ==> home[tid.0] == c,
            crossings@.len() <= e,
            forall|k: int|
                0 <= k < crossings@.len() ==> is_crossing(edges, lists, #[trigger] crossings@[k]),
            forall|f: int, c: int, d: int|
                f < e && #[trigger] crosses(edges, lists, f, c, d) ==> crossings@.contains(
                    Crossing {
                        src: c as u32,
                        dst: d as u32,
                        weight: edges[f].weight.attributed_delay_ms,
                    },
                ),
    {
        let (src, dst, weight) = graph.edge(EdgeIndex(e as u32));
        let ghost before = crossings@;
        proof {
            graph.lemma_wf();
            assert(graph@.has(edges[e as int].src) && graph@.has(edges[e as int].dst));
            assert(in_some_scc(lists, src) && in_some_scc(lists, dst));
            assert(home.contains_key(src.0) && home.contains_key(dst.0));
        }
        let src_scc: u32 = dag.scc_of(&src).unwrap().0;
        let dst_scc: u32 = dag.scc_of(&dst).unwrap().0;
        proof {
            let c = choose|c: int| in_scc(lists, c, src);
            let d = choose|d: int| in_scc(lists, d, dst);
            assert(home[src.0] == c && home[dst.0] == d);
            assert(in_scc(lists, src_scc as int, src));
            assert(in_scc(lists, dst_scc as int, dst));
        }
        if src_scc != dst_scc {
            let x = Crossing { src: src_scc, dst: dst_scc, weight: weight.attributed_delay_ms };
            crossings.push(x);
            proof {
                assert(crosses(edges, lists, e as int, x.src as int, x.dst as int));
                assert(edges[e as int].weight.attributed_delay_ms == x.weight);
                assert(is_crossing(edges, lists, x));
                assert(crossings@[before.len() as int] == x);
            }
        }
        proof {
            assert forall|f: int, c: int, d: int|
                f < e + 1 && #[trigger] crosses(edges, lists, f, c, d) implies crossings@.contains(
                Crossing {
                    src: c as u32,
                    dst: d as u32,
                    weight: edges[f].weight.attributed_delay_ms,
                },
            ) by {
                let x = Crossing {
                    src: c as u32,
                    dst: d as u32,
                    weight: edges[f].weight.attributed_delay_ms,
                };
                if f < e {
                    assert(before.contains(x));
                    let k = choose|k: int| 0 <= k < before.len() && before[k] == x;
                    assert(crossings@[k] == x);
                } else {
                    assert(home[edges[f].src.0] == c && home[edges[f].dst.0] == d);
                    assert(crossings@[before.len() as int] == x);
                }
            }
        }
    }
    let keys = merge_sort(&crossings);
    proof {
        lemma_same_elements(crossings@, keys@);
        assert forall|k: int| 0 <= k < keys@.len() implies is_crossing(
            edges,
            lists,
            #[trigger] keys@[k],
        ) by {
            assert(keys@.contains(keys@[k]));
            assert(crossings@.contains(keys@[k]));
            let j = choose|j: int| 0 <= j < crossings@.len() && crossings@[j] == keys@[k];
            assert(is_crossing(edges, lists, crossings@[j]));
        }
    }
    let m: usize = keys.len();
    for i in 0..m
        invariant
            m == keys@.len(),
            m <= u32::MAX,
            sorted(keys@),
            lists.len() == nodes.len(),
            splits_threads(graph@, lists),
            forall|k: int|
                0 <= k < keys@.len() ==> is_crossing(edges, lists, #[trigger] keys@[k]),
            dag.wf(),
            dag@.nodes == nodes,
            dag@.home == home,
            dag@.edges.len() <= i,
            lists.len() <= u32::MAX,
            forall|k: int, l: int|
                0 <= k < l < dag@.edges.len() ==> {
                    let a = #[trigger] dag@.edges[k];
                    let b = #[trigger] dag@.edges[l];
                    a.src < b.src || (a.src == b.src && a.dst < b.dst)
                },
            forall|k: int|
                0 <= k < dag@.edges.len() ==> is_group_last(keys@, #[trigger] dag@.edges[k]),
            forall|k: int|
                0 <= k < dag@.edges.len() && i < m ==> {
                    let a = #[trigger] dag@.edges[k];
                    a.src < keys@[i as int].src || (a.src == keys@[i as int].src && a.dst
                        < keys@[i as int].dst)
                },
            forall|j: int|
                0 <= j < i ==> has_link(
                    dag@,
                    (#[trigger] keys@[j]).src as int,
                    keys@[j].dst as int,
                ) || (i < m && keys@[j].src == keys@[i as int].src && keys@[j].dst
                    == keys@[i as int].dst),
    {
        let x = keys[i];
        let ghost before = dag@;
        proof {
            assert(is_crossing(edges, lists, x));
            let e = choose|e: int| #[trigger]
                crosses(edges, lists, e, x.src as int, x.dst as int)
                    && edges[e].weight.attributed_delay_ms == x.weight;
            assert(in_scc(lists, x.src as int, edges[e].src));
            assert(in_scc(lists, x.dst as int, edges[e].dst));
        }
        let last = i + 1 == m || keys[i + 1].src != x.src || keys[i + 1].dst != x.dst;
        if last {
            dag.add_link(NodeIndex(x.src), NodeIndex(x.dst), x.weight);
            proof {
                let link = DagEdge { src: x.src as int, dst: x.dst as int, weight: x.weight };
                assert(is_group_last(keys@, link)) by {
                    assert(keys@[i as int] == x);
                    assert forall|j: int|
                        0 <= j < keys@.len() && (#[trigger] keys@[j]).src == x.src && keys@[j].dst
                            == x.dst implies keys@[j].weight <= x.weight by {
                        if j < i {
                            assert(keys@[j].not_after(keys@[i as int]));
                        } else if j > i {
                            assert(i + 1 < m);
                            assert(keys@[i as int].not_after(keys@[i + 1]));
                            if j > i + 1 {
                                assert(keys@[i + 1].not_after(keys@[j]));
                            }
                        }
                    }
                }
                assert(dag@.edges[before.edges.len() as int] == link);
                assert(has_link(dag@, x.src as int, x.dst as int));
            }
        }
        proof {
            assert forall|c: int, d: int| has_link(before, c, d) implies has_link(dag@, c, d) by {
                let k = choose|k: int|
                    0 <= k < before.edges.len() && (#[trigger] before.edges[k]).src == c
                        && before.edges[k].dst == d;
                assert(dag@.edges[k] == before.edges[k]);
            }
            if i + 1 < m {
                assert(keys@[i as int].not_after(keys@[i + 1]));
            }
            assert forall|k: int| 0 <= k < dag@.edges.len() && i + 1 < m implies {
                let a = #[trigger] dag@.edges[k];
                a.src < keys@[i + 1].src || (a.src == keys@[i + 1].src && a.dst
                    < keys@[i + 1].dst)
            } by {
                if k < before.edges.len() {
                    assert(dag@.edges[k] == before.edges[k]);
                }
            }
            assert forall|k: int, l: int| 0 <= k < l < dag@.edges.len() implies {
                let a = #[trigger] dag@.edges[k];
                let b = #[trigger] dag@.edges[l];
                a.src < b.src || (a.src == b.src && a.dst < b.dst)
            } by {
                assert(dag@.edges[k] == before.edges[k]);
                if l < before.edges.len() {
                    assert(dag@.edges[l] == before.edges[l]);
                }
            }
            assert forall|k: int| 0 <= k < dag@.edges.len() implies is_group_last(
                keys@,
                #[trigger] dag@.edges[k],
            ) by {
                if k < before.edges.len() {
                    assert(dag@.edges[k] == before.edges[k]);
                }
            }
        }
    }
    proof {
        assert forall|k: int| 0 <= k < dag@.edges.len() implies is_heaviest_crossing(
            edges,
            lists,
            (#[trigger] dag@.edges[k]).src,
            dag@.edges[k].dst,
            dag@.edges[k].weight,
        ) by {
            let a = dag@.edges[k];
            reveal(is_heaviest_crossing);
            assert(is_group_last(keys@, a));
            let j = choose|j: int|
                0 <= j < keys@.len() && (#[trigger] keys@[j]).src == a.src && keys@[j].dst == a.dst
                    && keys@[j].weight == a.weight;
            assert(is_crossing(edges, lists, keys@[j]));
            assert forall|e: int| #[trigger] crosses(edges, lists, e, a.src, a.dst) implies
                edges[e].weight.attributed_delay_ms <= a.weight by {
                let x = Crossing {
                    src: a.src as u32,
                    dst: a.dst as u32,
                    weight: edges[e].weight.attributed_delay_ms,
                };
                assert(crossings@.contains(x));
                assert(keys@.contains(x));
                let i = choose|i: int| 0 <= i < keys@.len() && keys@[i] == x;
                assert(keys@[i].src == a.src && keys@[i].dst == a.dst);
            }
        }
        assert forall|e: int, c: int, d: int| #[trigger]
            crosses(edges, lists, e, c, d) implies has_link(dag@, c, d) by {
            let x = Crossing {
                src: c as u32,
                dst: d as u32,
                weight: edges[e].weight.attributed_delay_ms,
            };
            assert(crossings@.contains(x));
            assert(keys@.contains(x));
            let i = choose|i: int| 0 <= i < keys@.len() && keys@[i] == x;
            assert(has_link(dag@, keys@[i].src as int, keys@[i].dst as int));
        }
    }
    dag
}

/// The link stands for the heaviest of the crossings between its two nodes.
spec fn is_group_last(keys: Seq<Crossing>, link: DagEdge) -> bool {
    &&& exists|j: int|
        0 <= j < keys.len() && (#[trigger] keys[j]).src == link.src && keys[j].dst == link.dst
            && keys[j].weight == link.weight
    &&& forall|j: int|
        0 <= j < keys.len() && (#[trigger] keys[j]).src == link.src && keys[j].dst == link.dst
            ==> keys[j].weight <= link.weight
}

/// The edges among `ids` that lead to a member, in their order.
pub open spec fn keep_inside(
    edges: Seq<WaitEdge>,
    ids: Seq<int>,
    members: Seq<ThreadId>,
) -> Seq<int>
    decreases ids.len(),
{
    if ids.len() == 0 {
        Seq::empty()
    } else {
        let before = keep_inside(edges, ids.drop_last(), members);
        if members.contains(edges[ids.last()].dst) {
            before.push(ids.last())
        } else {
            before
        }
    }
}

/// The edges that lead from the first `n` members to members: member by
/// member, the latest first.
pub open spec fn internal_list(edges: Seq<WaitEdge>, members: Seq<ThreadId>, n: int) -> Seq<int>
    decreases n,
{
    if n <= 0 {
        Seq::empty()
    } else {
        internal_list(edges, members, n - 1) + keep_inside(
            edges,
            edges_at(edges, members[n - 1], true),
            members,
        )
    }
}

/// The edges with both ends in the component.
pub fn internal_edges<'a>(graph: &'a WaitForGraph, scc: &Scc) -> (r: Vec<
    (ThreadId, ThreadId, &'a EdgeWeight),
>)
    requires
        graph.wf(),
        forall|i: int| 0 <= i < scc@.len() ==> graph@.has(#[trigger] scc@[i]),
    ensures
        r@.len() == internal_list(graph@.edges, scc@, scc@.len() as int).len(),
        forall|k: int|
            #![trigger r@[k]]
            0 <= k < r@.len() ==> {
                let e = internal_list(graph@.edges, scc@, scc@.len() as int)[k];
                0 <= e < graph@.edges.len() && r@[k].0 == graph@.edges[e].src && r@[k].1
                    == graph@.edges[e].dst && *r@[k].2 == graph@.edges[e].weight
            },
{
    let ghost edges = graph@.edges;
    let ghost members = scc@;
    let mut r: Vec<(ThreadId, ThreadId, &'a EdgeWeight)> = Vec::new();
    for i in 0..scc.members.len()
        invariant
            graph.wf(),
            edges == graph@.edges,
            members == scc@,
            forall|i: int| 0 <= i < members.len() ==> graph@.has(#[trigger] members[i]),
            r@.len() == internal_list(edges, members, i as int).len(),
            forall|k: int|
                #![trigger r@[k]]
                0 <= k < r@.len() ==> {
                    let e = internal_list(edges, members, i as int)[k];
                    0 <= e < edges.len() && r@[k].0 == edges[e].src && r@[k].1 == edges[e].dst
                        && *r@[k].2 == edges[e].weight
                },
    {
        let src_tid = scc.members[i];
        assert(graph@.has(members[i as int]));
        let src_idx = graph.node_index(&src_tid).unwrap();
        let out = graph.outgoing_edges(src_idx);
        let ghost at = edges_at(edges, src_tid, true);
        let ghost base = internal_list(edges, members, i as int);
        proof {
            lemma_edges_at(edges, src_tid, true);
            assert(base + keep_inside(edges, at.take(0), members) =~= base);
        }
        for j in 0..out.len()
            invariant
                edges == graph@.edges,
                members == scc@,
                at == edges_at(edges, src_tid, true),
                out@.len() == at.len(),
                forall|k: int|
                    0 <= k < out@.len() ==> (#[trigger] out@[k]).0.0 == at[k] && 0 <= at[k]
                        < edges.len() && out@[k].1 == edges[at[k]].dst && *out@[k].2
                        == edges[at[k]].weight,
                forall|k: int| 0 <= k < at.len() ==> edges[#[trigger] at[k]].src == src_tid,
                r@.len() == (base + keep_inside(edges, at.take(j as int), members)).len(),
                forall|k: int|
                    #![trigger r@[k]]
                    0 <= k < r@.len() ==> {
                        let e = (base + keep_inside(edges, at.take(j as int), members))[k];
                        0 <= e < edges.len() && r@[k].0 == edges[e].src && r@[k].1 == edges[e].dst
                            && *r@[k].2 == edges[e].weight
                    },
        {
            let (_, dst_tid, weight) = out[j];
            proof {
                assert(out@[j as int].0.0 == at[j as int]);
                assert(edges[at[j as int]].src == src_tid);
                assert(at.take(j + 1).drop_last() =~= at.take(j as int));
                assert(at.take(j + 1).last() == at[j as int]);
            }
            if contains_tid(&scc.members, dst_tid) {
                r.push((src_tid, dst_tid, weight));
            }
        }
        proof {
            assert(at.take(at.len() as int) =~= at);
        }
    }
    r
}

/// Whether a list holds a thread.
pub(crate) fn contains_tid(v: &Vec<ThreadId>, tid: ThreadId) -> (b: bool)
    ensures
        b == v@.contains(tid),
{
    for i in 0..v.len()
        invariant
            forall|k: int| 0 <= k < i ==> v@[k] != tid,
    {
        if v[i].0 == tid.0 {
            assert(v@[i as int] == tid);
            return true;
        }
        assert(v@[i as int] != tid);
    }
    false
}

// ---------------------------------------------------------------------------
// Lemmas
// ---------------------------------------------------------------------------

/// Component lists by node number give component lists by thread.
proof fn lemma_scc_lists(g: GraphView, comps: Seq<Seq<int>>)
    requires
        g.well_formed(),
        lists_components(g, comps),
    ensures
        is_scc_list(g, scc_lists(g, comps)),
{
    let sccs = scc_lists(g, comps);
    assert forall|c: int, tid: ThreadId| #[trigger] in_scc(sccs, c, tid) <==> (0 <= c < comps.len()
        && exists|k: int|
        0 <= k < comps[c].len() && g.nodes[#[trigger] comps[c][k]].tid == tid) by {
        if 0 <= c < comps.len() {
            lemma_member(g, comps, c, tid);
        }
    }
    assert forall|c: int| 0 <= c < sccs.len() implies (#[trigger] sccs[c]).len() > 0 && sorted(
        sccs[c],
    ) && sccs[c].no_duplicates() by {
        lemma_ranked_set(comps[c].map_values(|v: int| g.nodes[v].tid));
        let tid = g.nodes[comps[c][0]].tid;
        lemma_member(g, comps, c, tid);
        assert(in_scc(sccs, c, tid));
    }
    assert forall|c: int, d: int, tid: ThreadId| #[trigger]
        in_scc(sccs, c, tid) && #[trigger] in_scc(sccs, d, tid) implies c == d by {
        let k = choose|k: int| 0 <= k < comps[c].len() && g.nodes[#[trigger] comps[c][k]].tid == tid;
        let l = choose|l: int| 0 <= l < comps[d].len() && g.nodes[#[trigger] comps[d][l]].tid == tid;
        assert(g.nodes[comps[c][k]].tid == g.nodes[comps[d][l]].tid);
        assert(comps[c][k] == comps[d][l]);
    }
    assert forall|tid: ThreadId| g.has(tid) <==> #[trigger] in_some_scc(sccs, tid) by {
        if g.has(tid) {
            let v = choose|v: int| 0 <= v < g.nodes.len() && (#[trigger] g.nodes[v]).tid == tid;
            assert(is_listed(comps, v));
            let (c, k) = choose|c: int, k: int|
                0 <= c < comps.len() && 0 <= k < comps[c].len() && #[trigger] comps[c][k] == v;
            assert(g.nodes[comps[c][k]].tid == tid);
            assert(in_scc(sccs, c, tid));
        }
        if in_some_scc(sccs, tid) {
            let c = choose|c: int| in_scc(sccs, c, tid);
            let k = choose|k: int|
                0 <= k < comps[c].len() && g.nodes[#[trigger] comps[c][k]].tid == tid;
            assert(0 <= comps[c][k] < g.nodes.len());
        }
    }
    assert forall|c: int, d: int, a: ThreadId, b: ThreadId| #[trigger]
        in_scc(sccs, c, a) && #[trigger] in_scc(sccs, d, b) implies (c == d <==> reaches(
        g.links(),
        a.0 as int,
        b.0 as int,
    ) && reaches(g.links(), b.0 as int, a.0 as int)) by {
        let k = choose|k: int| 0 <= k < comps[c].len() && g.nodes[#[trigger] comps[c][k]].tid == a;
        let l = choose|l: int| 0 <= l < comps[d].len() && g.nodes[#[trigger] comps[d][l]].tid == b;
        assert(0 <= comps[c][k] < g.nodes.len() && 0 <= comps[d][l] < g.nodes.len());
    }
    assert forall|e: int, c: int, d: int|
        #![trigger in_scc(sccs, c, g.edges[e].src), in_scc(sccs, d, g.edges[e].dst)]
        0 <= e < g.edges.len() && in_scc(sccs, c, g.edges[e].src) && in_scc(
            sccs,
            d,
            g.edges[e].dst,
        ) implies c >= d by {
        let a = g.edges[e].src;
        let b = g.edges[e].dst;
        let k = choose|k: int| 0 <= k < comps[c].len() && g.nodes[#[trigger] comps[c][k]].tid == a;
        let l = choose|l: int| 0 <= l < comps[d].len() && g.nodes[#[trigger] comps[d][l]].tid == b;
        assert(g.nodes[comps[c][k]].tid == a && g.nodes[comps[d][l]].tid == b);
    }
}

proof fn lemma_member(g: GraphView, comps: Seq<Seq<int>>, c: int, tid: ThreadId)
    requires
        0 <= c < comps.len(),
    ensures
        in_scc(scc_lists(g, comps), c, tid) <==> exists|k: int|
            0 <= k < comps[c].len() && g.nodes[#[trigger] comps[c][k]].tid == tid,
{
    let tids = comps[c].map_values(|v: int| g.nodes[v].tid);
    lemma_ranked_set(tids);
    assert(scc_lists(g, comps)[c] == ranked_set(tids));
    assert(ranked_set(tids).contains(tid) <==> tids.contains(tid));
    if tids.contains(tid) {
        let k = choose|k: int| 0 <= k < tids.len() && tids[k] == tid;
        assert(g.nodes[comps[c][k]].tid == tid);
    }
    if exists|k: int| 0 <= k < comps[c].len() && g.nodes[#[trigger] comps[c][k]].tid == tid {
        let k = choose|k: int|
            0 <= k < comps[c].len() && g.nodes[#[trigger] comps[c][k]].tid == tid;
        assert(tids[k] == tid);
    }
}

/// The node of a thread.
spec fn node_of(g: GraphView, tid: ThreadId) -> int {
    choose|i: int| 0 <= i < g.nodes.len() && (#[trigger] g.nodes[i]).tid == tid
}

/// There are no more components than threads.
proof fn lemma_scc_count(g: GraphView, sccs: Seq<Seq<ThreadId>>)
    requires
        g.well_formed(),
        splits_threads(g, sccs),
    ensures
        sccs.len() <= g.nodes.len(),
{
    let firsts = Seq::new(sccs.len(), |c: int| node_of(g, sccs[c][0]));
    assert forall|c: int| 0 <= c < sccs.len() implies 0 <= #[trigger] firsts[c] < g.nodes.len()
        && g.nodes[firsts[c]].tid == sccs[c][0] by {
        assert(sccs[c].len() > 0);
        assert(sccs[c].contains(sccs[c][0]));
        assert(in_scc(sccs, c, sccs[c][0]));
        assert(in_some_scc(sccs, sccs[c][0]));
        assert(g.has(sccs[c][0]));
    }
    assert forall|c: int, d: int|
        0 <= c < firsts.len() && 0 <= d < firsts.len() && c != d implies firsts[c] != firsts[d] by {
        assert(0 <= firsts[c] < g.nodes.len());
        assert(0 <= firsts[d] < g.nodes.len());
        if firsts[c] == firsts[d] {
            let tid = sccs[c][0];
            assert(sccs[c].len() > 0 && sccs[d].len() > 0);
            assert(sccs[d][0] == tid);
            assert(sccs[c].contains(tid) && sccs[d].contains(tid));
            assert(in_scc(sccs, c, tid) && in_scc(sccs, d, tid));
        }
    }
    assert(firsts.no_duplicates());
    let all = vstd::set_lib::set_int_range(0, g.nodes.len() as int);
    vstd::set_lib::lemma_int_range(0, g.nodes.len() as int);
    firsts.unique_seq_to_set();
    assert(firsts.to_set().subset_of(all));
    vstd::set_lib::lemma_len_subset(firsts.to_set(), all);
}

/// The condensation along strongly connected components has no cycle.
pub proof fn law_condensation_is_acyclic(g: GraphView, sccs: Seq<Seq<ThreadId>>, dag: DagView)
    requires
        is_scc_list(g, sccs),
        is_condensation(g.edges, sccs, dag),
    ensures
        acyclic(dag.links()),
{
    let n = dag.nodes.len();
    let order = Seq::new(n, |i: int| n - 1 - i);
    let links = dag.links();
    assert forall|e: int| 0 <= e < links.len() implies 0 <= (#[trigger] links[e]).0 < n && 0
        <= links[e].1 < n && links[e].0 > links[e].1 by {
        lemma_link_descends(g, sccs, dag, e);
    }
    assert(is_topological_order(n, links, order)) by {
        assert forall|e: int, i: int, j: int|
            #![trigger links[e], order[i], order[j]]
            0 <= e < links.len() && 0 <= i < order.len() && 0 <= j < order.len() && links[e] == (
                order[i],
                order[j],
            ) implies i < j by {
            assert(links[e].0 > links[e].1);
        }
    }
    lemma_ordered_is_acyclic(n, links, order);
}

/// Links lead to earlier components.
proof fn lemma_link_descends(g: GraphView, sccs: Seq<Seq<ThreadId>>, dag: DagView, e: int)
    requires
        is_scc_list(g, sccs),
        is_condensation(g.edges, sccs, dag),
        0 <= e < dag.edges.len(),
    ensures
        0 <= dag.edges[e].dst < dag.edges[e].src < dag.nodes.len(),
{
    let a = dag.edges[e];
    assert(is_heaviest_crossing(g.edges, sccs, a.src, a.dst, a.weight));
    let w = lemma_crossing_edge(g.edges, sccs, a.src, a.dst, a.weight);
    assert(in_scc(sccs, a.src, g.edges[w].src) && in_scc(sccs, a.dst, g.edges[w].dst));
}

/// An edge behind a link.
proof fn lemma_crossing_edge(
    edges: Seq<WaitEdge>,
    sccs: Seq<Seq<ThreadId>>,
    c: int,
    d: int,
    weight: u64,
) -> (w: int)
    requires
        is_heaviest_crossing(edges, sccs, c, d, weight),
    ensures
        crosses(edges, sccs, w, c, d),
        edges[w].weight.attributed_delay_ms == weight,
{
    reveal(is_heaviest_crossing);
    choose|w: int| #[trigger]
        crosses(edges, sccs, w, c, d) && edges[w].weight.attributed_delay_ms == weight
}

/// Edge `e` leads from a member of node `c` to a member of another node `d`.
pub open spec fn joins(g: GraphView, dag: DagView, e: int, c: int, d: int) -> bool {
    &&& 0 <= e < g.edges.len()
    &&& 0 <= c < dag.nodes.len()
    &&& 0 <= d < dag.nodes.len()
    &&& c != d
    &&& dag.nodes[c].members.contains(g.edges[e].src)
    &&& dag.nodes[d].members.contains(g.edges[e].dst)
}

/// Some edge that joins `c` and `d` has the given delay attributed to it.
pub open spec fn is_joined_by(g: GraphView, dag: DagView, c: int, d: int, delay: u64) -> bool {
    exists|e: int| #[trigger]
        joins(g, dag, e, c, d) && g.edges[e].weight.attributed_delay_ms == delay
}

/// A condensation has every thread of the graph, and no other, in a node, together
/// with exactly those that it reaches and that reach it.
pub proof fn law_condensation_gathers_threads(g: GraphView, sccs: Seq<Seq<ThreadId>>, dag: DagView)
    requires
        is_scc_list(g, sccs),
        is_condensation(g.edges, sccs, dag),
    ensures
        forall|t: ThreadId|
            #![trigger g.has(t)]
            g.has(t) <==> exists|c: int|
                0 <= c < dag.nodes.len() && (#[trigger] dag.nodes[c]).members.contains(t),
        forall|c: int, d: int, a: ThreadId, b: ThreadId|
            #![trigger dag.nodes[c].members.contains(a), dag.nodes[d].members.contains(b)]
            0 <= c < dag.nodes.len() && 0 <= d < dag.nodes.len() && dag.nodes[c].members.contains(a)
                && dag.nodes[d].members.contains(b) ==> (c == d <==> reaches(
                g.links(),
                a.0 as int,
                b.0 as int,
            ) && reaches(g.links(), b.0 as int, a.0 as int)),
{
    assert forall|t: ThreadId|
        #![trigger g.has(t)]
        g.has(t) <==> exists|c: int|
            0 <= c < dag.nodes.len() && (#[trigger] dag.nodes[c]).members.contains(t) by {
        assert(g.has(t) <==> in_some_scc(sccs, t));
        if in_some_scc(sccs, t) {
            let c = choose|c: int| in_scc(sccs, c, t);
            assert(dag.nodes[c].members.contains(t));
        }
        if exists|c: int|
            0 <= c < dag.nodes.len() && (#[trigger] dag.nodes[c]).members.contains(t) {
            let c = choose|c: int|
                0 <= c < dag.nodes.len() && (#[trigger] dag.nodes[c]).members.contains(t);
            assert(in_scc(sccs, c, t));
        }
    }
    assert forall|c: int, d: int, a: ThreadId, b: ThreadId|
        #![trigger dag.nodes[c].members.contains(a), dag.nodes[d].members.contains(b)]
        0 <= c < dag.nodes.len() && 0 <= d < dag.nodes.len() && dag.nodes[c].members.contains(a)
            && dag.nodes[d].members.contains(b) implies (c == d <==> reaches(
        g.links(),
        a.0 as int,
        b.0 as int,
    ) && reaches(g.links(), b.0 as int, a.0 as int)) by {
        assert(in_scc(sccs, c, a) && in_scc(sccs, d, b));
    }
}

/// Two nodes of a condensation are linked exactly if an edge joins their members,
/// and then once. The link carries the largest delay attributed to such an edge:
/// none has more, and one has as much.
pub proof fn law_condensation_links_nodes(
    g: GraphView,
    sccs: Seq<Seq<ThreadId>>,
    dag: DagView,
    c: int,
    d: int,
)
    requires
        is_scc_list(g, sccs),
        is_condensation(g.edges, sccs, dag),
    ensures
        forall|k: int|
            0 <= k < dag.edges.len() && (#[trigger] dag.edges[k]).src == c && dag.edges[k].dst == d
                ==> is_joined_by(g, dag, c, d, dag.edges[k].weight),
        forall|e: int| #[trigger]
            joins(g, dag, e, c, d) ==> exists|k: int|
                0 <= k < dag.edges.len() && (#[trigger] dag.edges[k]).src == c && dag.edges[k].dst
                    == d && g.edges[e].weight.attributed_delay_ms <= dag.edges[k].weight,
        forall|k: int, l: int|
            #![trigger dag.edges[k], dag.edges[l]]
            0 <= k < dag.edges.len() && 0 <= l < dag.edges.len() && dag.edges[k].src == c
                && dag.edges[k].dst == d && dag.edges[l].src == c && dag.edges[l].dst == d ==> k
                == l,
{
    assert forall|k: int|
        0 <= k < dag.edges.len() && (#[trigger] dag.edges[k]).src == c && dag.edges[k].dst
            == d implies is_joined_by(g, dag, c, d, dag.edges[k].weight) by {
        assert(is_heaviest_crossing(g.edges, sccs, c, d, dag.edges[k].weight));
        let e = lemma_crossing_edge(g.edges, sccs, c, d, dag.edges[k].weight);
        assert(joins(g, dag, e, c, d));
    }
    assert forall|e: int| #[trigger] joins(g, dag, e, c, d) implies exists|k: int|
        0 <= k < dag.edges.len() && (#[trigger] dag.edges[k]).src == c && dag.edges[k].dst == d
            && g.edges[e].weight.attributed_delay_ms <= dag.edges[k].weight by {
        assert(crosses(g.edges, sccs, e, c, d));
        assert(has_link(dag, c, d));
        let k = choose|k: int|
            0 <= k < dag.edges.len() && (#[trigger] dag.edges[k]).src == c && dag.edges[k].dst == d;
        assert(is_heaviest_crossing(g.edges, sccs, c, d, dag.edges[k].weight));
        reveal(is_heaviest_crossing);
        assert(g.edges[e].weight.attributed_delay_ms <= dag.edges[k].weight);
    }
}

/// The nodes of a condensation are numbered like the components, weigh nothing
/// yet, and list their threads in ascending order; each thread of the graph is
/// found in its node; and links lead to nodes with lower numbers.
pub proof fn law_condensation_numbers_nodes(
    g: GraphView,
    sccs: Seq<Seq<ThreadId>>,
    dag: DagView,
    t: ThreadId,
)
    requires
        is_scc_list(g, sccs),
        is_condensation(g.edges, sccs, dag),
    ensures
        dag.nodes.len() == sccs.len(),
        forall|c: int|
            0 <= c < dag.nodes.len() ==> {
                &&& (#[trigger] dag.nodes[c]).scc_index == c
                &&& dag.nodes[c].weight == 0
                &&& dag.nodes[c].members == sccs[c]
                &&& forall|i: int, j: int|
                    0 <= i < j < sccs[c].len() ==> (#[trigger] sccs[c][i]).0 < (
                    #[trigger] sccs[c][j]).0
            },
        g.has(t) <==> dag.home.contains_key(t.0),
        g.has(t) ==> 0 <= dag.home[t.0] < dag.nodes.len() && dag.nodes[dag.home[t.0] as int].members.contains(
            t,
        ),
        forall|k: int|
            0 <= k < dag.edges.len() ==> (#[trigger] dag.edges[k]).src > dag.edges[k].dst,
{
    assert forall|c: int| 0 <= c < dag.nodes.len() implies {
        &&& (#[trigger] dag.nodes[c]).scc_index == c
        &&& dag.nodes[c].weight == 0
        &&& dag.nodes[c].members == sccs[c]
        &&& forall|i: int, j: int|
            0 <= i < j < sccs[c].len() ==> (#[trigger] sccs[c][i]).0 < (#[trigger] sccs[c][j]).0
    } by {
        assert(sorted(sccs[c]) && sccs[c].no_duplicates());
        assert forall|i: int, j: int| 0 <= i < j < sccs[c].len() implies (#[trigger] sccs[c][i]).0
            < (#[trigger] sccs[c][j]).0 by {
            assert(sccs[c][i].not_after(sccs[c][j]));
            assert(sccs[c][i] != sccs[c][j]);
        }
    }
    assert(g.has(t) <==> in_some_scc(sccs, t));
    if g.has(t) {
        let c = choose|c: int| in_scc(sccs, c, t);
        assert(dag.home[t.0] == c);
        assert(dag.nodes[c].members == sccs[c]);
    }
    assert forall|k: int| 0 <= k < dag.edges.len() implies (#[trigger] dag.edges[k]).src
        > dag.edges[k].dst by {
        let link = dag.edges[k];
        assert(is_heaviest_crossing(g.edges, sccs, link.src, link.dst, link.weight));
        reveal(is_heaviest_crossing);
        let e = choose|e: int| #[trigger]
            crosses(g.edges, sccs, e, link.src, link.dst)
                && g.edges[e].weight.attributed_delay_ms == link.weight;
        assert(in_scc(sccs, link.src, g.edges[e].src) && in_scc(sccs, link.dst, g.edges[e].dst));
    }
}

} // verus!
