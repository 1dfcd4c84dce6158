//! The wait-for graph: a [`Topology`] with thread ids, node kinds and waits.

use std::collections::BTreeMap;

use vstd::prelude::*;

use super::topology::{
    acyclic, as_int_lists, as_ints, incident, is_listed, lemma_full_list, lemma_relabel_acyclic,
    lemma_relabel_reaches, reaches, relabel, Topology,
};
use super::types::{
    fresh_weight, EdgeKind, EdgeWeight, NodeKind, NodeWeight, ThreadId, TimeWindow, WaitType,
};
use crate::sorting::{lemma_same_elements, lemma_sorted_unique, merge_sort, sorted, Ranked};

verus! {

broadcast use vstd::std_specs::btree::group_btree_axioms;

/// Number of a node, in the order of insertion.
#[derive(Debug, Clone, Copy, PartialEq, Eq, Structural)]
pub struct NodeIndex(pub u32);

/// Number of an edge, in the order of insertion.
#[derive(Debug, Clone, Copy, PartialEq, Eq, Structural)]
pub struct EdgeIndex(pub u32);

// ---------------------------------------------------------------------------
// The mathematical model
// ---------------------------------------------------------------------------

/// `src` waits for `dst`.
pub struct WaitEdge {
    pub src: ThreadId,
    pub dst: ThreadId,
    pub weight: EdgeWeight,
}

/// What a [`WaitForGraph`] stands for: its nodes and edges in order of insertion.
#[verifier::ext_equal]
pub struct GraphView {
    pub nodes: Seq<NodeWeight>,
    pub edges: Seq<WaitEdge>,
}

impl GraphView {
    /// The thread `tid` is a node.
    pub open spec fn has(&self, tid: ThreadId) -> bool {
        exists|i: int| 0 <= i < self.nodes.len() && (#[trigger] self.nodes[i]).tid == tid
    }

    /// Every thread is a node at most once, and edges join nodes.
    pub open spec fn well_formed(&self) -> bool {
        &&& forall|i: int, j: int|
            #![trigger self.nodes[i], self.nodes[j]]
            0 <= i < self.nodes.len() && 0 <= j < self.nodes.len() && self.nodes[i].tid
                == self.nodes[j].tid ==> i == j
        &&& forall|e: int|
            0 <= e < self.edges.len() ==> self.has((#[trigger] self.edges[e]).src) && self.has(
                self.edges[e].dst,
            )
    }

    /// No edge ends before it starts.
    pub open spec fn windows_valid(&self) -> bool {
        forall|e: int|
            0 <= e < self.edges.len() ==> (#[trigger] self.edges[e]).weight.time_window.valid()
    }

    /// The endpoints of the edges, as numbers.
    pub open spec fn links(&self) -> Seq<(int, int)> {
        self.edges.map_values(|e: WaitEdge| (e.src.0 as int, e.dst.0 as int))
    }
}

/// The edges that leave (`outgoing`) or enter a thread, latest first.
pub open spec fn edges_at(edges: Seq<WaitEdge>, tid: ThreadId, outgoing: bool) -> Seq<int>
    decreases edges.len(),
{
    if edges.len() == 0 {
        Seq::empty()
    } else {
        let rest = edges_at(edges.drop_last(), tid, outgoing);
        let end = if outgoing {
            edges.last().src
        } else {
            edges.last().dst
        };
        if end == tid {
            seq![edges.len() - 1] + rest
        } else {
            rest
        }
    }
}

/// The sum of the raw waits.
pub open spec fn sum_raw(edges: Seq<WaitEdge>) -> nat
    decreases edges.len(),
{
    if edges.len() == 0 {
        0
    } else {
        sum_raw(edges.drop_last()) + edges.last().weight.raw_wait_ms as nat
    }
}

/// The sum of the attributed delays.
pub open spec fn sum_attributed(edges: Seq<WaitEdge>) -> nat
    decreases edges.len(),
{
    if edges.len() == 0 {
        0
    } else {
        sum_attributed(edges.drop_last()) + edges.last().weight.attributed_delay_ms as nat
    }
}

/// `components` splits the nodes of the graph into its strongly connected
/// components, those that others lead to first.
pub open spec fn lists_components(g: GraphView, components: Seq<Seq<int>>) -> bool {
    &&& forall|c: int| 0 <= c < components.len() ==> (#[trigger] components[c]).len() > 0
    &&& forall|c: int, k: int|
        0 <= c < components.len() && 0 <= k < components[c].len() ==> 0
            <= #[trigger] components[c][k] < g.nodes.len()
    &&& forall|v: int| 0 <= v < g.nodes.len() ==> #[trigger] is_listed(components, v)
    &&& forall|c: int, k: int, d: int, l: int|
        #![trigger components[c][k], components[d][l]]
        0 <= c < components.len() && 0 <= k < components[c].len() && 0 <= d < components.len() && 0
            <= l < components[d].len() && components[c][k] == components[d][l] ==> c == d && k == l
    &&& forall|c: int, k: int, d: int, l: int|
        #![trigger components[c][k], components[d][l]]
        0 <= c < components.len() && 0 <= k < components[c].len() && 0 <= d < components.len() && 0
            <= l < components[d].len() ==> (c == d <==> reaches(
            g.links(),
            g.nodes[components[c][k]].tid.0 as int,
            g.nodes[components[d][l]].tid.0 as int,
        ) && reaches(
            g.links(),
            g.nodes[components[d][l]].tid.0 as int,
            g.nodes[components[c][k]].tid.0 as int,
        ))
    &&& forall|e: int, c: int, k: int, d: int, l: int|
        #![trigger g.edges[e], components[c][k], components[d][l]]
        0 <= e < g.edges.len() && 0 <= c < components.len() && 0 <= k < components[c].len() && 0
            <= d < components.len() && 0 <= l < components[d].len() && g.edges[e].src
            == g.nodes[components[c][k]].tid && g.edges[e].dst == g.nodes[components[d][l]].tid
            ==> c >= d
}

/// The edge with its full wait attributed again.
pub open spec fn reset_edge(e: WaitEdge) -> WaitEdge {
    WaitEdge {
        src: e.src,
        dst: e.dst,
        weight: fresh_weight(e.weight.time_window, e.weight.wait_type, e.weight.kind),
    }
}

/// `order` lists every node number once, by ascending thread id.
pub open spec fn is_tid_order(nodes: Seq<NodeWeight>, order: Seq<int>) -> bool {
    &&& order.len() == nodes.len()
    &&& forall|k: int| 0 <= k < order.len() ==> 0 <= #[trigger] order[k] < nodes.len()
    &&& forall|k: int, l: int|
        0 <= k < l < order.len() ==> nodes[#[trigger] order[k]].tid.0
            < nodes[#[trigger] order[l]].tid.0
}

/// The node numbers by ascending thread id.
pub open spec fn tid_order(nodes: Seq<NodeWeight>) -> Seq<int> {
    choose|order: Seq<int>| is_tid_order(nodes, order)
}

/// `order` lists every edge number once, by source, target and insertion.
pub open spec fn is_edge_order(edges: Seq<WaitEdge>, order: Seq<int>) -> bool {
    &&& order.len() == edges.len()
    &&& forall|k: int| 0 <= k < order.len() ==> 0 <= #[trigger] order[k] < edges.len()
    &&& forall|k: int, l: int|
        0 <= k < l < order.len() ==> edge_before(edges, #[trigger] order[k], #[trigger] order[l])
}

/// Edge `e` comes before edge `f` by source, target and insertion.
pub open spec fn edge_before(edges: Seq<WaitEdge>, e: int, f: int) -> bool {
    ||| edges[e].src.0 < edges[f].src.0
    ||| edges[e].src == edges[f].src && edges[e].dst.0 < edges[f].dst.0
    ||| edges[e].src == edges[f].src && edges[e].dst == edges[f].dst && e < f
}

/// The edge numbers by source, target and insertion.
pub open spec fn edge_order(edges: Seq<WaitEdge>) -> Seq<int> {
    choose|order: Seq<int>| is_edge_order(edges, order)
}

/// An edge's place in the order by source, target and insertion.
#[derive(Debug, Clone, Copy)]
pub struct EdgeKey {
    pub src: i64,
    pub dst: i64,
    pub index: u32,
}

impl Ranked for EdgeKey {
    open spec fn not_after(self, other: Self) -> bool {
        self.src < other.src || (self.src == other.src && (self.dst < other.dst || (self.dst
            == other.dst && self.index <= other.index)))
    }

    proof fn order_is_total() {
    }

    fn is_not_after(&self, other: &Self) -> (b: bool) {
        self.src < other.src || (self.src == other.src && (self.dst < other.dst || (self.dst
            == other.dst && self.index <= other.index)))
    }
}

/// The place of edge `e` in the order by source, target and insertion.
pub open spec fn edge_key(edges: Seq<WaitEdge>, e: int) -> EdgeKey {
    EdgeKey { src: edges[e].src.0, dst: edges[e].dst.0, index: e as u32 }
}

// ---------------------------------------------------------------------------
// The graph
// ---------------------------------------------------------------------------

/// The wait-for graph: nodes are threads or pseudo-threads, an edge leads from
/// a waiter to what it waits for.
#[derive(Debug)]
pub struct WaitForGraph {
    topology: Topology,
    nodes: Vec<NodeWeight>,
    edges: Vec<EdgeWeight>,
    node_map: BTreeMap<i64, u32>,
}

impl View for WaitForGraph {
    type V = GraphView;

    closed spec fn view(&self) -> GraphView {
        GraphView {
            nodes: self.nodes@,
            edges: Seq::new(
                self.edges@.len(),
                |e: int|
                    WaitEdge {
                        src: self.nodes@[self.topology@.edges[e].0].tid,
                        dst: self.nodes@[self.topology@.edges[e].1].tid,
                        weight: self.edges@[e],
                    },
            ),
        }
    }
}

impl WaitForGraph {
    /// The parts agree: node and edge numbers, and the map from thread ids.
    pub closed spec fn wf(&self) -> bool {
        &&& self.topology.wf()
        &&& self.topology@.nodes == self.nodes@.len()
        &&& self.topology@.edges.len() == self.edges@.len()
        &&& forall|i: int|
            0 <= i < self.nodes@.len() ==> self.node_map@.contains_key(
                (#[trigger] self.nodes@[i]).tid.0,
            ) && self.node_map@[self.nodes@[i].tid.0] == i
        &&& forall|t: i64| #[trigger]
            self.node_map@.contains_key(t) ==> self.node_map@[t] < self.nodes@.len()
                && self.nodes@[self.node_map@[t] as int].tid.0 == t
    }

    /// What well-formedness means for the graph's model.
    pub proof fn lemma_wf(&self)
        requires
            self.wf(),
        ensures
            self@.well_formed(),
            self@.nodes.len() <= u32::MAX,
            self@.edges.len() <= u32::MAX,
    {
        self.topology.lemma_bounds();
        assert forall|e: int| 0 <= e < self@.edges.len() implies self@.has(
            (#[trigger] self@.edges[e]).src,
        ) && self@.has(self@.edges[e].dst) by {
            let ends = self.topology@.edges[e];
            assert(self@.nodes[ends.0].tid == self@.edges[e].src);
            assert(self@.nodes[ends.1].tid == self@.edges[e].dst);
        }
        assert forall|i: int, j: int|
            #![trigger self@.nodes[i], self@.nodes[j]]
            0 <= i < self@.nodes.len() && 0 <= j < self@.nodes.len() && self@.nodes[i].tid
                == self@.nodes[j].tid implies i == j by {
            assert(self.node_map@[self.nodes@[i].tid.0] == i);
            assert(self.node_map@[self.nodes@[j].tid.0] == j);
        }
    }

    proof fn lemma_incident_tids(&self, i: int, outgoing: bool, n: int)
        requires
            self.wf(),
            0 <= i < self.nodes@.len(),
            0 <= n <= self.edges@.len(),
        ensures
            incident(self.topology@.edges.take(n), i, outgoing) == edges_at(
                self@.edges.take(n),
                self.nodes@[i].tid,
                outgoing,
            ),
        decreases n,
    {
        let links = self.topology@.edges.take(n);
        let edges = self@.edges.take(n);
        if n > 0 {
            self.topology.lemma_bounds();
            self.lemma_incident_tids(i, outgoing, n - 1);
            assert(links.drop_last() =~= self.topology@.edges.take(n - 1));
            assert(edges.drop_last() =~= self@.edges.take(n - 1));
            let ends = self.topology@.edges[n - 1];
            let end = if outgoing {
                ends.0
            } else {
                ends.1
            };
            self.lemma_wf();
            assert(self@.nodes[end].tid == self@.nodes[i].tid <==> end == i);
        }
    }

    pub fn new() -> (g: Self)
        ensures
            g.wf(),
            g@ == (GraphView { nodes: Seq::empty(), edges: Seq::empty() }),
    {
        let g = WaitForGraph {
            topology: Topology::new(),
            nodes: Vec::new(),
            edges: Vec::new(),
            node_map: BTreeMap::new(),
        };
        assert(g@.edges =~= Seq::empty());
        g
    }

    /// Adds a thread. A thread that is there already keeps its index and kind.
    pub fn add_node(&mut self, tid: ThreadId, kind: NodeKind) -> (idx: NodeIndex)
        requires
            old(self).wf(),
            old(self)@.has(tid) || old(self)@.nodes.len() < u32::MAX,
        ensures
            final(self).wf(),
            idx.0 < final(self)@.nodes.len(),
            final(self)@.nodes[idx.0 as int].tid == tid,
            final(self)@.edges == old(self)@.edges,
            old(self)@.has(tid) ==> final(self)@ == old(self)@,
            !old(self)@.has(tid) ==> final(self)@.nodes == old(self)@.nodes.push(
                NodeWeight { tid, kind },
            ) && idx.0 == old(self)@.nodes.len(),
    {
        if let Some(idx) = self.node_map.get(&tid.0) {
            assert(self@.nodes[*idx as int].tid == tid);
            return NodeIndex(*idx);
        }
        proof {
            self.topology.lemma_bounds();
            if self@.has(tid) {
                let i = choose|i: int|
                    0 <= i < self@.nodes.len() && (#[trigger] self@.nodes[i]).tid == tid;
                assert(self.node_map@.contains_key(self.nodes@[i].tid.0));
            }
        }
        let idx: u32 = self.topology.add_node();
        self.nodes.push(NodeWeight { tid, kind });
        self.node_map.insert(tid.0, idx);
        proof {
            assert(self@.edges =~= old(self)@.edges);
            assert(self@.nodes[idx as int].tid == tid);
        }
        NodeIndex(idx)
    }

    fn push_edge(&mut self, src: ThreadId, dst: ThreadId, weight: EdgeWeight) -> (idx: EdgeIndex)
        requires
            old(self).wf(),
            old(self)@.has(src),
            old(self)@.has(dst),
            old(self)@.edges.len() < u32::MAX,
        ensures
            final(self).wf(),
            idx.0 == old(self)@.edges.len(),
            final(self)@.nodes == old(self)@.nodes,
            final(self)@.edges == old(self)@.edges.push(WaitEdge { src, dst, weight }),
    {
        proof {
            let i = choose|i: int|
                0 <= i < self@.nodes.len() && (#[trigger] self@.nodes[i]).tid == src;
            assert(self.node_map@.contains_key(self.nodes@[i].tid.0));
            let j = choose|j: int|
                0 <= j < self@.nodes.len() && (#[trigger] self@.nodes[j]).tid == dst;
            assert(self.node_map@.contains_key(self.nodes@[j].tid.0));
            self.topology.lemma_bounds();
        }
        let src_idx: u32 = *self.node_map.get(&src.0).unwrap();
        let dst_idx: u32 = *self.node_map.get(&dst.0).unwrap();
        let idx: u32 = self.topology.add_edge(src_idx, dst_idx);
        self.edges.push(weight);
        proof {
            assert(self@.edges =~= old(self)@.edges.push(WaitEdge { src, dst, weight }));
        }
        EdgeIndex(idx)
    }

    /// Adds an edge: `src` waits for `dst` during `window`.
    pub fn add_edge(&mut self, src: ThreadId, dst: ThreadId, window: TimeWindow) -> (idx: EdgeIndex)
        requires
            old(self).wf(),
            old(self)@.has(src),
            old(self)@.has(dst),
            old(self)@.edges.len() < u32::MAX,
            window.valid(),
        ensures
            final(self).wf(),
            idx.0 == old(self)@.edges.len(),
            final(self)@.nodes == old(self)@.nodes,
            final(self)@.edges == old(self)@.edges.push(
                WaitEdge { src, dst, weight: fresh_weight(window, None, EdgeKind::Normal) },
            ),
    {
        self.push_edge(src, dst, EdgeWeight::new(window))
    }

    /// Adds an edge with a wait type.
    pub fn add_edge_with_wait_type(
        &mut self,
        src: ThreadId,
        dst: ThreadId,
        window: TimeWindow,
        wait_type: WaitType,
    ) -> (idx: EdgeIndex)
        requires
            old(self).wf(),
            old(self)@.has(src),
            old(self)@.has(dst),
            old(self)@.edges.len() < u32::MAX,
            window.valid(),
        ensures
            final(self).wf(),
            idx.0 == old(self)@.edges.len(),
            final(self)@.nodes == old(self)@.nodes,
            final(self)@.edges == old(self)@.edges.push(
                WaitEdge {
                    src,
                    dst,
                    weight: fresh_weight(window, Some(wait_type), EdgeKind::Normal),
                },
            ),
    {
        self.push_edge(src, dst, EdgeWeight::with_wait_type(window, wait_type))
    }

    /// Adds the edge back from a device to the thread that waited for it.
    pub fn add_synthetic_closure_return(
        &mut self,
        src: ThreadId,
        dst: ThreadId,
        window: TimeWindow,
        wait_type: WaitType,
    ) -> (idx: EdgeIndex)
        requires
            old(self).wf(),
            old(self)@.has(src),
            old(self)@.has(dst),
            old(self)@.edges.len() < u32::MAX,
            window.valid(),
        ensures
            final(self).wf(),
            idx.0 == old(self)@.edges.len(),
            final(self)@.nodes == old(self)@.nodes,
            final(self)@.edges == old(self)@.edges.push(
                WaitEdge {
                    src,
                    dst,
                    weight: fresh_weight(
                        window,
                        Some(wait_type),
                        EdgeKind::SyntheticClosureReturn,
                    ),
                },
            ),
    {
        let mut weight = EdgeWeight::with_wait_type(window, wait_type);
        weight.kind = EdgeKind::SyntheticClosureReturn;
        self.push_edge(src, dst, weight)
    }

    /// The thread at a node.
    pub fn thread_id(&self, idx: NodeIndex) -> (tid: ThreadId)
        requires
            idx.0 < self@.nodes.len(),
        ensures
            tid == self@.nodes[idx.0 as int].tid,
    {
        self.nodes[idx.0 as usize].tid
    }

    /// The node of a thread, if it is in the graph.
    pub fn node_index(&self, tid: &ThreadId) -> (idx: Option<NodeIndex>)
        requires
            self.wf(),
        ensures
            idx is Some <==> self@.has(*tid),
            idx matches Some(i) ==> i.0 < self@.nodes.len() && self@.nodes[i.0 as int].tid == *tid,
    {
        match self.node_map.get(&tid.0) {
            Some(idx) => {
                assert(self@.nodes[*idx as int].tid == *tid);
                Some(NodeIndex(*idx))
            },
            None => {
                proof {
                    if self@.has(*tid) {
                        let i = choose|i: int|
                            0 <= i < self@.nodes.len() && (#[trigger] self@.nodes[i]).tid == *tid;
                        assert(self.node_map@.contains_key(self.nodes@[i].tid.0));
                    }
                }
                None
            },
        }
    }

    /// The edges that leave `node`, latest first; none for an unknown index.
    pub fn outgoing_edges(&self, node: NodeIndex) -> (r: Vec<(EdgeIndex, ThreadId, &EdgeWeight)>)
        requires
            self.wf(),
        ensures
            node.0 >= self@.nodes.len() ==> r@.len() == 0,
            node.0 < self@.nodes.len() ==> {
                let at = edges_at(self@.edges, self@.nodes[node.0 as int].tid, true);
                &&& r@.len() == at.len()
                &&& forall|k: int|
                    0 <= k < r@.len() ==> (#[trigger] r@[k]).0.0 == at[k] && 0 <= at[k]
                        < self@.edges.len() && r@[k].1 == self@.edges[at[k]].dst && *r@[k].2
                        == self@.edges[at[k]].weight
            },
    {
        let mut r: Vec<(EdgeIndex, ThreadId, &EdgeWeight)> = Vec::new();
        if node.0 as usize >= self.nodes.len() {
            return r;
        }
        let list = self.topology.outgoing(node.0);
        let ghost at = edges_at(self@.edges, self@.nodes[node.0 as int].tid, true);
        proof {
            self.lemma_incident_tids(node.0 as int, true, self.edges@.len() as int);
            assert(self.topology@.edges.take(self.edges@.len() as int) =~= self.topology@.edges);
            assert(self@.edges.take(self.edges@.len() as int) =~= self@.edges);
            super::topology::lemma_incident(self.topology@.edges, node.0 as int, true);
            self.topology.lemma_bounds();
            assert(as_ints(list@) == at);
        }
        for k in 0..list.len()
            invariant
                self.wf(),
                as_ints(list@) == at,
                r@.len() == k,
                forall|i: int|
                    0 <= i < list.len() ==> 0 <= #[trigger] as_ints(list@)[i] < self@.edges.len(),
                forall|i: int|
                    0 <= i < k ==> (#[trigger] r@[i]).0.0 == at[i] && r@[i].1
                        == self@.edges[at[i]].dst && *r@[i].2 == self@.edges[at[i]].weight,
        {
            proof {
                assert(as_ints(list@)[k as int] == list@[k as int]);
                self.topology.lemma_bounds();
            }
            let e: u32 = list[k];
            let ends = self.topology.endpoints(e);
            r.push((EdgeIndex(e), self.nodes[ends.1 as usize].tid, &self.edges[e as usize]));
        }
        proof {
            assert forall|i: int| 0 <= i < r@.len() implies 0 <= #[trigger] at[i]
                < self@.edges.len() by {
                assert(as_ints(list@)[i] == at[i]);
            }
        }
        r
    }

    /// The edges that enter `node`, latest first; none for an unknown index.
    pub fn incoming_edges(&self, node: NodeIndex) -> (r: Vec<(EdgeIndex, ThreadId, &EdgeWeight)>)
        requires
            self.wf(),
        ensures
            node.0 >= self@.nodes.len() ==> r@.len() == 0,
            node.0 < self@.nodes.len() ==> {
                let at = edges_at(self@.edges, self@.nodes[node.0 as int].tid, false);
                &&& r@.len() == at.len()
                &&& forall|k: int|
                    0 <= k < r@.len() ==> (#[trigger] r@[k]).0.0 == at[k] && 0 <= at[k]
                        < self@.edges.len() && r@[k].1 == self@.edges[at[k]].src && *r@[k].2
                        == self@.edges[at[k]].weight
            },
    {
        let mut r: Vec<(EdgeIndex, ThreadId, &EdgeWeight)> = Vec::new();
        if node.0 as usize >= self.nodes.len() {
            return r;
        }
        let list = self.topology.incoming(node.0);
        let ghost at = edges_at(self@.edges, self@.nodes[node.0 as int].tid, false);
        proof {
            self.lemma_incident_tids(node.0 as int, false, self.edges@.len() as int);
            assert(self.topology@.edges.take(self.edges@.len() as int) =~= self.topology@.edges);
            assert(self@.edges.take(self.edges@.len() as int) =~= self@.edges);
            super::topology::lemma_incident(self.topology@.edges, node.0 as int, false);
            self.topology.lemma_bounds();
            assert(as_ints(list@) == at);
        }
        for k in 0..list.len()
            invariant
                self.wf(),
                as_ints(list@) == at,
                r@.len() == k,
                forall|i: int|
                    0 <= i < list.len() ==> 0 <= #[trigger] as_ints(list@)[i] < self@.edges.len(),
                forall|i: int|
                    0 <= i < k ==> (#[trigger] r@[i]).0.0 == at[i] && r@[i].1
                        == self@.edges[at[i]].src && *r@[i].2 == self@.edges[at[i]].weight,
        {
            proof {
                assert(as_ints(list@)[k as int] == list@[k as int]);
                self.topology.lemma_bounds();
            }
            let e: u32 = list[k];
            let ends = self.topology.endpoints(e);
            r.push((EdgeIndex(e), self.nodes[ends.0 as usize].tid, &self.edges[e as usize]));
        }
        proof {
            assert forall|i: int| 0 <= i < r@.len() implies 0 <= #[trigger] at[i]
                < self@.edges.len() by {
                assert(as_ints(list@)[i] == at[i]);
            }
        }
        r
    }

    /// Total number of nodes.
    pub fn node_count(&self) -> (n: usize)
        requires
            self.wf(),
        ensures
            n == self@.nodes.len(),
    {
        self.topology.node_count()
    }

    /// Total number of edges.
    pub fn edge_count(&self) -> (n: usize)
        requires
            self.wf(),
        ensures
            n == self@.edges.len(),
    {
        self.topology.edge_count()
    }

    /// The endpoints and the weight of an edge.
    pub(crate) fn edge(&self, idx: EdgeIndex) -> (r: (ThreadId, ThreadId, EdgeWeight))
        requires
            self.wf(),
            idx.0 < self@.edges.len(),
        ensures
            (WaitEdge { src: r.0, dst: r.1, weight: r.2 }) == self@.edges[idx.0 as int],
    {
        proof {
            self.topology.lemma_bounds();
        }
        let ends = self.topology.endpoints(idx.0);
        (
            self.nodes[ends.0 as usize].tid,
            self.nodes[ends.1 as usize].tid,
            self.edges[idx.0 as usize],
        )
    }

    /// The weight of an edge.
    pub fn edge_weight(&self, idx: EdgeIndex) -> (w: &EdgeWeight)
        requires
            idx.0 < self@.edges.len(),
        ensures
            *w == self@.edges[idx.0 as int].weight,
    {
        &self.edges[idx.0 as usize]
    }

    /// The weight of an edge, to be changed in place.
    pub fn edge_weight_mut(&mut self, idx: EdgeIndex) -> (w: &mut EdgeWeight)
        requires
            old(self).wf(),
            idx.0 < old(self)@.edges.len(),
        ensures
            *w == old(self)@.edges[idx.0 as int].weight,
            final(self).wf(),
            final(self)@.nodes == old(self)@.nodes,
            final(self)@.edges == old(self)@.edges.update(
                idx.0 as int,
                WaitEdge { weight: *final(w), ..old(self)@.edges[idx.0 as int] },
            ),
    {
        &mut self.edges[idx.0 as usize]
    }

    /// The weight of a node.
    pub fn node_weight(&self, idx: NodeIndex) -> (w: &NodeWeight)
        requires
            idx.0 < self@.nodes.len(),
        ensures
            *w == self@.nodes[idx.0 as int],
    {
        &self.nodes[idx.0 as usize]
    }

    /// All edges, by source, target and insertion.
    pub fn all_edges(&self) -> (r: Vec<(EdgeIndex, ThreadId, ThreadId, &EdgeWeight)>)
        requires
            self.wf(),
        ensures
            is_edge_order(self@.edges, edge_order(self@.edges)),
            r@.len() == self@.edges.len(),
            forall|k: int|
                0 <= k < r@.len() ==> {
                    let e = edge_order(self@.edges)[k];
                    &&& (#[trigger] r@[k]).0.0 == e
                    &&& r@[k].1 == self@.edges[e].src
                    &&& r@[k].2 == self@.edges[e].dst
                    &&& *r@[k].3 == self@.edges[e].weight
                },
    {
        let mut keys: Vec<EdgeKey> = Vec::new();
        let n: usize = self.edges.len();
        proof {
            self.topology.lemma_bounds();
        }
        for i in 0..n
            invariant
                self.wf(),
                n == self.edges@.len(),
                n <= u32::MAX,
                keys@.len() == i,
                forall|k: int| 0 <= k < i ==> #[trigger] keys@[k] == edge_key(self@.edges, k),
        {
            proof {
                self.topology.lemma_bounds();
                assert(0 <= self.topology@.edges[i as int].0 < self.topology@.nodes);
            }
            let ends = self.topology.endpoints(i as u32);
            keys.push(
                EdgeKey {
                    src: self.nodes[ends.0 as usize].tid.0,
                    dst: self.nodes[ends.1 as usize].tid.0,
                    index: i as u32,
                },
            );
        }
        let order = merge_sort(&keys);
        let ghost ids = order@.map_values(|key: EdgeKey| key.index as int);
        proof {
            lemma_same_elements(keys@, order@);
            assert forall|k: int| 0 <= k < ids.len() implies 0 <= #[trigger] ids[k]
                < self@.edges.len() && order@[k] == edge_key(self@.edges, ids[k]) by {
                assert(order@.contains(order@[k]));
                assert(keys@.contains(order@[k]));
            }
            assert forall|k: int, l: int| 0 <= k < l < ids.len() implies edge_before(
                self@.edges,
                #[trigger] ids[k],
                #[trigger] ids[l],
            ) by {
                assert(order@[k].not_after(order@[l]));
                assert(order@[k] != order@[l]);
            }
            lemma_edge_order(self@.edges, ids);
        }
        let mut r: Vec<(EdgeIndex, ThreadId, ThreadId, &EdgeWeight)> = Vec::new();
        for k in 0..order.len()
            invariant
                n == self.edges@.len(),
                ids == order@.map_values(|key: EdgeKey| key.index as int),
                r@.len() == k,
                forall|i: int|
                    0 <= i < ids.len() ==> 0 <= #[trigger] ids[i] < self@.edges.len() && order@[i]
                        == edge_key(self@.edges, ids[i]),
                forall|i: int|
                    0 <= i < k ==> (#[trigger] r@[i]).0.0 == ids[i] && r@[i].1
                        == self@.edges[ids[i]].src && r@[i].2 == self@.edges[ids[i]].dst
                        && *r@[i].3 == self@.edges[ids[i]].weight,
        {
            assert(0 <= ids[k as int] < self@.edges.len());
            let key = order[k];
            r.push(
                (
                    EdgeIndex(key.index),
                    ThreadId(key.src),
                    ThreadId(key.dst),
                    &self.edges[key.index as usize],
                ),
            );
        }
        r
    }

    /// All node indices, by ascending thread id.
    pub fn node_indices(&self) -> (r: Vec<NodeIndex>)
        requires
            self.wf(),
        ensures
            is_tid_order(self@.nodes, tid_order(self@.nodes)),
            r@.len() == self@.nodes.len(),
            forall|k: int|
                0 <= k < r@.len() ==> (#[trigger] r@[k]).0 == tid_order(self@.nodes)[k],
    {
        let mut tids: Vec<i64> = Vec::new();
        for i in 0..self.nodes.len()
            invariant
                tids@.len() == i,
                forall|k: int| 0 <= k < i ==> #[trigger] tids@[k] == self.nodes@[k].tid.0,
        {
            tids.push(self.nodes[i].tid.0);
        }
        let order = merge_sort(&tids);
        proof {
            self.lemma_wf();
            assert(tids@.no_duplicates()) by {
                assert forall|i: int, j: int|
                    0 <= i < tids@.len() && 0 <= j < tids@.len() && i != j implies tids@[i]
                    != tids@[j] by {
                    if tids@[i] == tids@[j] {
                        assert(self@.nodes[i].tid == self@.nodes[j].tid);
                    }
                }
            }
            lemma_same_elements(tids@, order@);
        }
        let mut r: Vec<NodeIndex> = Vec::new();
        for k in 0..order.len()
            invariant
                self.wf(),
                r@.len() == k,
                forall|t: i64| #[trigger] order@.contains(t) ==> tids@.contains(t),
                tids@.len() == self.nodes@.len(),
                forall|i: int|
                    0 <= i < tids@.len() ==> #[trigger] tids@[i] == self.nodes@[i].tid.0,
                forall|i: int|
                    0 <= i < k ==> (#[trigger] r@[i]).0 < self.nodes@.len()
                        && self.nodes@[r@[i].0 as int].tid.0 == order@[i],
        {
            proof {
                let t = order@[k as int];
                assert(order@.contains(t));
                assert(tids@.contains(t));
                let i = choose|i: int| 0 <= i < tids@.len() && tids@[i] == t;
                assert(self.nodes@[i].tid.0 == t);
            }
            r.push(NodeIndex(*self.node_map.get(&order[k]).unwrap()));
        }
        proof {
            let ids = r@.map_values(|n: NodeIndex| n.0 as int);
            assert forall|k: int, l: int| 0 <= k < l < ids.len() implies self@.nodes[#[trigger] ids[k]].tid.0
                < self@.nodes[#[trigger] ids[l]].tid.0 by {
                assert(order@[k].not_after(order@[l]));
                assert(order@[k] != order@[l]);
                assert(r@[k].0 < self.nodes@.len());
                assert(r@[l].0 < self.nodes@.len());
            }
            assert forall|k: int| 0 <= k < ids.len() implies 0 <= #[trigger] ids[k]
                < self@.nodes.len() by {
                assert(r@[k].0 < self.nodes@.len());
            }
            lemma_tid_order(self@.nodes, ids);
        }
        r
    }

    /// The same threads and waits, with every wait attributed in full again.
    /// Nodes come by ascending thread id, edges keep their numbers.
    pub fn clone_with_reset_attribution(&self) -> (g: Self)
        requires
            self.wf(),
            self@.windows_valid(),
        ensures
            g.wf(),
            is_tid_order(self@.nodes, tid_order(self@.nodes)),
            g@.nodes == tid_order(self@.nodes).map_values(|i: int| self@.nodes[i]),
            g@.edges == self@.edges.map_values(|e: WaitEdge| reset_edge(e)),
    {
        let mut g = WaitForGraph::new();
        let order = self.node_indices();
        let ghost ids = tid_order(self@.nodes);
        let ghost sorted_nodes = ids.map_values(|i: int| self@.nodes[i]);
        proof {
            self.lemma_wf();
        }
        for k in 0..order.len()
            invariant
                self.wf(),
                g.wf(),
                ids == tid_order(self@.nodes),
                is_tid_order(self@.nodes, ids),
                sorted_nodes == ids.map_values(|i: int| self@.nodes[i]),
                order@.len() == ids.len(),
                ids.len() <= u32::MAX,
                forall|i: int| 0 <= i < order@.len() ==> (#[trigger] order@[i]).0 == ids[i],
                g@.nodes == sorted_nodes.take(k as int),
                g@.edges.len() == 0,
        {
            let w = self.nodes[order[k].0 as usize];
            proof {
                assert(ids[k as int] == order@[k as int].0);
                assert(w == sorted_nodes[k as int]);
                if g@.has(w.tid) {
                    let i = choose|i: int|
                        0 <= i < g@.nodes.len() && (#[trigger] g@.nodes[i]).tid == w.tid;
                    assert(g@.nodes[i] == sorted_nodes[i]);
                    assert(self@.nodes[ids[i]].tid.0 < self@.nodes[ids[k as int]].tid.0);
                }
                assert(sorted_nodes.take(k as int).push(w) =~= sorted_nodes.take(k + 1));
            }
            g.add_node(w.tid, w.kind);
        }
        proof {
            assert(sorted_nodes.take(order@.len() as int) =~= sorted_nodes);
            assert forall|i: int| 0 <= i < self@.nodes.len() implies g@.has(
                (#[trigger] self@.nodes[i]).tid,
            ) by {
                lemma_tid_order_complete(self@.nodes, ids);
                assert(ids.contains(i));
                let k = choose|k: int| 0 <= k < ids.len() && ids[k] == i;
                assert(g@.nodes[k].tid == self@.nodes[i].tid);
            }
            assert(g@.edges =~= self@.edges.take(0).map_values(|e: WaitEdge| reset_edge(e)));
        }
        for e in 0..self.edges.len()
            invariant
                self.wf(),
                self@.windows_valid(),
                self.edges@.len() <= u32::MAX,
                g.wf(),
                g@.nodes == sorted_nodes,
                forall|i: int|
                    0 <= i < self@.nodes.len() ==> g@.has((#[trigger] self@.nodes[i]).tid),
                g@.edges == self@.edges.take(e as int).map_values(|e: WaitEdge| reset_edge(e)),
        {
            proof {
                self.topology.lemma_bounds();
                let ends = self.topology@.edges[e as int];
                assert(g@.has(self@.nodes[ends.0].tid));
                assert(g@.has(self@.nodes[ends.1].tid));
                assert(self@.edges[e as int].weight.time_window.valid());
            }
            let ends = self.topology.endpoints(e as u32);
            let old_weight = self.edges[e];
            let mut weight = EdgeWeight::new(old_weight.time_window);
            weight.wait_type = old_weight.wait_type;
            weight.kind = old_weight.kind;
            let ghost before = g@;
            g.push_edge(self.nodes[ends.0 as usize].tid, self.nodes[ends.1 as usize].tid, weight);
            proof {
                assert(self@.edges.take(e + 1) =~= self@.edges.take(e as int).push(
                    self@.edges[e as int],
                ));
                assert(g@.edges =~= self@.edges.take(e + 1).map_values(
                    |e: WaitEdge| reset_edge(e),
                ));
                assert forall|i: int| 0 <= i < self@.nodes.len() implies g@.has(
                    (#[trigger] self@.nodes[i]).tid,
                ) by {
                    assert(before.has(self@.nodes[i].tid));
                }
            }
        }
        proof {
            assert(self@.edges.take(self.edges@.len() as int) =~= self@.edges);
        }
        g
    }

    /// Sum of all raw waits.
    pub fn total_raw_wait(&self) -> (total: u64)
        requires
            self.wf(),
            sum_raw(self@.edges) <= u64::MAX,
        ensures
            total == sum_raw(self@.edges),
    {
        let mut total: u64 = 0;
        for e in 0..self.edges.len()
            invariant
                sum_raw(self@.edges) <= u64::MAX,
                total == sum_raw(self@.edges.take(e as int)),
        {
            proof {
                lemma_sums_grow(self@.edges, e + 1);
                assert(self@.edges.take(e + 1).drop_last() =~= self@.edges.take(e as int));
            }
            total = total + self.edges[e].raw_wait_ms;
        }
        assert(self@.edges.take(self.edges@.len() as int) =~= self@.edges);
        total
    }

    /// Whether the graph has no directed cycle.
    pub fn is_acyclic(&self) -> (b: bool)
        requires
            self.wf(),
        ensures
            b == acyclic(self@.links()),
    {
        proof {
            self.topology.lemma_bounds();
            let labels = self@.nodes.map_values(|w: NodeWeight| w.tid.0 as int);
            self.lemma_labels();
            lemma_relabel_acyclic(self.topology@.edges, labels);
        }
        self.topology.topological_order().is_some()
    }

    /// The strongly connected components as petgraph lists them, by node number.
    pub closed spec fn components(&self) -> Seq<Seq<int>> {
        self.topology.components()
    }

    /// The strongly connected components, by node number.
    pub(crate) fn strongly_connected(&self) -> (components: Vec<Vec<u32>>)
        requires
            self.wf(),
        ensures
            as_int_lists(components@) == self.components(),
            lists_components(self@, self.components()),
    {
        let components = self.topology.strongly_connected();
        proof {
            self.topology.lemma_bounds();
            self.lemma_labels();
            let labels = self@.nodes.map_values(|w: NodeWeight| w.tid.0 as int);
            let comps = self.components();
            let links = self.topology@.edges;
            assert forall|c: int, k: int, d: int, l: int|
                #![trigger comps[c][k], comps[d][l]]
                0 <= c < comps.len() && 0 <= k < comps[c].len() && 0 <= d < comps.len() && 0 <= l
                    < comps[d].len() implies (c == d <==> reaches(
                self@.links(),
                self@.nodes[comps[c][k]].tid.0 as int,
                self@.nodes[comps[d][l]].tid.0 as int,
            ) && reaches(
                self@.links(),
                self@.nodes[comps[d][l]].tid.0 as int,
                self@.nodes[comps[c][k]].tid.0 as int,
            )) by {
                lemma_relabel_reaches(links, labels, comps[c][k], comps[d][l]);
                lemma_relabel_reaches(links, labels, comps[d][l], comps[c][k]);
            }
            assert forall|e: int, c: int, k: int, d: int, l: int|
                #![trigger self@.edges[e], comps[c][k], comps[d][l]]
                0 <= e < self@.edges.len() && 0 <= c < comps.len() && 0 <= k < comps[c].len() && 0
                    <= d < comps.len() && 0 <= l < comps[d].len() && self@.edges[e].src
                    == self@.nodes[comps[c][k]].tid && self@.edges[e].dst
                    == self@.nodes[comps[d][l]].tid implies c >= d by {
                self.lemma_wf();
                assert(0 <= links[e].0 < self.topology@.nodes);
                assert(self@.nodes[links[e].0].tid == self@.nodes[comps[c][k]].tid);
                assert(self@.nodes[links[e].1].tid == self@.nodes[comps[d][l]].tid);
                assert(links[e] == (comps[c][k], comps[d][l]));
            }
        }
        components
    }

    /// The edges between thread ids are the numbered edges, relabelled.
    proof fn lemma_labels(&self)
        requires
            self.wf(),
        ensures
            self@.nodes.map_values(|w: NodeWeight| w.tid.0 as int).no_duplicates(),
            self@.links() == relabel(
                self.topology@.edges,
                self@.nodes.map_values(|w: NodeWeight| w.tid.0 as int),
            ),
    {
        let labels = self@.nodes.map_values(|w: NodeWeight| w.tid.0 as int);
        self.lemma_wf();
        self.topology.lemma_bounds();
        assert forall|i: int, j: int|
            0 <= i < labels.len() && 0 <= j < labels.len() && i != j implies labels[i]
            != labels[j] by {
            if labels[i] == labels[j] {
                assert(self@.nodes[i].tid == self@.nodes[j].tid);
            }
        }
        assert(self@.links() =~= relabel(self.topology@.edges, labels)) by {
            assert forall|e: int| 0 <= e < self@.edges.len() implies self@.links()[e] == relabel(
                self.topology@.edges,
                labels,
            )[e] by {
                assert(0 <= self.topology@.edges[e].0 < self.topology@.nodes);
            }
        }
    }

    /// Sum of all attributed delays.
    pub fn total_attributed(&self) -> (total: u64)
        requires
            self.wf(),
            sum_attributed(self@.edges) <= u64::MAX,
        ensures
            total == sum_attributed(self@.edges),
    {
        let mut total: u64 = 0;
        for e in 0..self.edges.len()
            invariant
                sum_attributed(self@.edges) <= u64::MAX,
                total == sum_attributed(self@.edges.take(e as int)),
        {
            proof {
                lemma_sums_grow(self@.edges, e + 1);
                assert(self@.edges.take(e + 1).drop_last() =~= self@.edges.take(e as int));
            }
            total = total + self.edges[e].attributed_delay_ms;
        }
        assert(self@.edges.take(self.edges@.len() as int) =~= self@.edges);
        total
    }
}

impl Default for WaitForGraph {
    fn default() -> (g: Self)
        ensures
            g.wf(),
            g@ == (GraphView { nodes: Seq::empty(), edges: Seq::empty() }),
    {
        WaitForGraph::new()
    }
}

// ---------------------------------------------------------------------------
// Lemmas
// ---------------------------------------------------------------------------

/// `edges_at` lists exactly the edges at the thread, without repetition.
pub proof fn lemma_edges_at(edges: Seq<WaitEdge>, tid: ThreadId, outgoing: bool)
    ensures
        forall|k: int|
            0 <= k < edges_at(edges, tid, outgoing).len() ==> {
                let e = #[trigger] edges_at(edges, tid, outgoing)[k];
                0 <= e < edges.len() && (if outgoing {
                    edges[e].src
                } else {
                    edges[e].dst
                }) == tid
            },
        forall|e: int|
            0 <= e < edges.len() && (if outgoing {
                (#[trigger] edges[e]).src
            } else {
                edges[e].dst
            }) == tid ==> edges_at(edges, tid, outgoing).contains(e),
    decreases edges.len(),
{
    if edges.len() > 0 {
        let rest = edges_at(edges.drop_last(), tid, outgoing);
        let all = edges_at(edges, tid, outgoing);
        lemma_edges_at(edges.drop_last(), tid, outgoing);
        let hit = (if outgoing {
            edges.last().src
        } else {
            edges.last().dst
        }) == tid;
        assert forall|e: int|
            0 <= e < edges.len() && (if outgoing {
                (#[trigger] edges[e]).src
            } else {
                edges[e].dst
            }) == tid implies all.contains(e) by {
            if e == edges.len() - 1 {
                assert(all[0] == e);
            } else {
                assert(edges.drop_last()[e] == edges[e]);
                assert(rest.contains(e));
                let k = choose|k: int| 0 <= k < rest.len() && rest[k] == e;
                if hit {
                    assert(all[k + 1] == e);
                } else {
                    assert(all[k] == e);
                }
            }
        }
        assert forall|k: int| 0 <= k < all.len() implies {
            let e = #[trigger] all[k];
            0 <= e < edges.len() && (if outgoing {
                edges[e].src
            } else {
                edges[e].dst
            }) == tid
        } by {
            if hit {
                if k > 0 {
                    assert(all[k] == rest[k - 1]);
                }
            } else {
                assert(all[k] == rest[k]);
            }
        }
    }
}

/// The sums over some of the first edges do not exceed those over all.
pub proof fn lemma_sums_grow(edges: Seq<WaitEdge>, n: int)
    requires
        0 <= n <= edges.len(),
    ensures
        sum_raw(edges.take(n)) <= sum_raw(edges),
        sum_attributed(edges.take(n)) <= sum_attributed(edges),
    decreases edges.len(),
{
    if n < edges.len() {
        assert(edges.drop_last().take(n) =~= edges.take(n));
        lemma_sums_grow(edges.drop_last(), n);
    } else {
        assert(edges.take(n) =~= edges);
    }
}

/// An order by source, target and insertion is the only one.
pub proof fn lemma_edge_order(edges: Seq<WaitEdge>, order: Seq<int>)
    requires
        is_edge_order(edges, order),
        edges.len() <= u32::MAX,
    ensures
        order == edge_order(edges),
        is_edge_order(edges, edge_order(edges)),
{
    let other = edge_order(edges);
    assert(is_edge_order(edges, other));
    let a = order.map_values(|e: int| edge_key(edges, e));
    let b = other.map_values(|e: int| edge_key(edges, e));
    lemma_edge_keys(edges, order);
    lemma_edge_keys(edges, other);
    assert forall|x: EdgeKey| a.contains(x) <==> b.contains(x) by {
        if a.contains(x) {
            let k = choose|k: int| 0 <= k < a.len() && a[k] == x;
            assert(other.contains(order[k]));
            let l = choose|l: int| 0 <= l < other.len() && other[l] == order[k];
            assert(b[l] == x);
        }
        if b.contains(x) {
            let k = choose|k: int| 0 <= k < b.len() && b[k] == x;
            assert(order.contains(other[k]));
            let l = choose|l: int| 0 <= l < order.len() && order[l] == other[k];
            assert(a[l] == x);
        }
    }
    lemma_sorted_unique(a, b);
    assert forall|k: int| 0 <= k < order.len() implies order[k] == other[k] by {
        assert(a[k].index == b[k].index);
    }
    assert(order =~= other);
}

/// The edges have an order by source, target and insertion.
pub proof fn lemma_edge_order_exists(edges: Seq<WaitEdge>)
    ensures
        is_edge_order(edges, edge_order(edges)),
    decreases edges.len(),
{
    let order = place_edges(edges, edges.len() as int);
    lemma_place_edges(edges, edges.len() as int);
    assert(is_edge_order(edges, order));
}

/// The first `n` edges, each put at its place among those before.
spec fn place_edges(edges: Seq<WaitEdge>, n: int) -> Seq<int>
    decreases n,
{
    if n <= 0 {
        Seq::empty()
    } else {
        let before = place_edges(edges, n - 1);
        place_edge(edges, before, n - 1)
    }
}

spec fn place_edge(edges: Seq<WaitEdge>, order: Seq<int>, e: int) -> Seq<int>
    decreases order.len(),
{
    if order.len() == 0 || edge_before(edges, order.last(), e) {
        order.push(e)
    } else {
        place_edge(edges, order.drop_last(), e).push(order.last())
    }
}

proof fn lemma_place_edges(edges: Seq<WaitEdge>, n: int)
    requires
        0 <= n <= edges.len(),
    ensures
        place_edges(edges, n).len() == n,
        forall|k: int| 0 <= k < n ==> 0 <= #[trigger] place_edges(edges, n)[k] < n,
        forall|k: int, l: int|
            0 <= k < l < n ==> edge_before(
                edges,
                #[trigger] place_edges(edges, n)[k],
                #[trigger] place_edges(edges, n)[l],
            ),
    decreases n,
{
    if n > 0 {
        lemma_place_edges(edges, n - 1);
        lemma_place_edge(edges, place_edges(edges, n - 1), n - 1);
    }
}

proof fn lemma_place_edge(edges: Seq<WaitEdge>, order: Seq<int>, e: int)
    requires
        0 <= e < edges.len(),
        forall|k: int| 0 <= k < order.len() ==> 0 <= #[trigger] order[k] < e,
        forall|k: int, l: int|
            0 <= k < l < order.len() ==> edge_before(
                edges,
                #[trigger] order[k],
                #[trigger] order[l],
            ),
    ensures
        place_edge(edges, order, e).len() == order.len() + 1,
        forall|k: int| 0 <= k <= order.len() ==> 0 <= #[trigger] place_edge(edges, order, e)[k] <= e,
        forall|k: int|
            0 <= k <= order.len() ==> (#[trigger] place_edge(edges, order, e)[k]) == e
                || order.contains(place_edge(edges, order, e)[k]),
        forall|k: int, l: int|
            0 <= k < l <= order.len() ==> edge_before(
                edges,
                #[trigger] place_edge(edges, order, e)[k],
                #[trigger] place_edge(edges, order, e)[l],
            ),
    decreases order.len(),
{
    let r = place_edge(edges, order, e);
    if order.len() == 0 || edge_before(edges, order.last(), e) {
        assert forall|k: int, l: int| 0 <= k < l <= order.len() implies edge_before(
            edges,
            #[trigger] r[k],
            #[trigger] r[l],
        ) by {
            if l == order.len() && k < order.len() - 1 {
                assert(edge_before(edges, order[k], order[order.len() - 1]));
            }
        }
    } else {
        let front = order.drop_last();
        let inner = place_edge(edges, front, e);
        lemma_place_edge(edges, front, e);
        let last = order.last();
        assert(order[order.len() - 1] == last);
        assert forall|k: int| 0 <= k < inner.len() implies edge_before(
            edges,
            #[trigger] inner[k],
            last,
        ) by {
            if inner[k] != e {
                assert(front.contains(inner[k]));
                let i = choose|i: int| 0 <= i < front.len() && front[i] == inner[k];
                assert(edge_before(edges, order[i], order[order.len() - 1]));
            }
        }
        assert forall|k: int| 0 <= k <= order.len() implies (#[trigger] r[k]) == e
            || order.contains(r[k]) by {
            if k < inner.len() && inner[k] != e {
                assert(front.contains(inner[k]));
                let i = choose|i: int| 0 <= i < front.len() && front[i] == inner[k];
                assert(order[i] == r[k]);
            }
        }
    }
}

/// An order by source, target and insertion lists every edge.
pub proof fn lemma_edge_order_complete(edges: Seq<WaitEdge>, order: Seq<int>)
    requires
        is_edge_order(edges, order),
        edges.len() <= u32::MAX,
    ensures
        forall|e: int| 0 <= e < edges.len() ==> order.contains(e),
{
    lemma_edge_keys(edges, order);
}

/// The keys of an edge order are sorted and distinct, and cover all edges.
proof fn lemma_edge_keys(edges: Seq<WaitEdge>, order: Seq<int>)
    requires
        is_edge_order(edges, order),
        edges.len() <= u32::MAX,
    ensures
        sorted(order.map_values(|e: int| edge_key(edges, e))),
        order.map_values(|e: int| edge_key(edges, e)).no_duplicates(),
        forall|e: int| 0 <= e < edges.len() ==> order.contains(e),
{
    let keys = order.map_values(|e: int| edge_key(edges, e));
    assert forall|i: int, j: int| 0 <= i < j < keys.len() implies (#[trigger] keys[i]).not_after(
        #[trigger] keys[j],
    ) by {
        assert(edge_before(edges, order[i], order[j]));
    }
    assert forall|i: int, j: int|
        0 <= i < keys.len() && 0 <= j < keys.len() && i != j implies keys[i] != keys[j] by {
        if i < j {
            assert(edge_before(edges, order[i], order[j]));
        } else {
            assert(edge_before(edges, order[j], order[i]));
        }
    }
    assert(order.no_duplicates()) by {
        assert forall|i: int, j: int|
            0 <= i < order.len() && 0 <= j < order.len() && i != j implies order[i]
            != order[j] by {
            assert(keys[i] != keys[j]);
        }
    }
    lemma_full_list(edges.len(), order);
}

/// An order by thread id lists every node.
pub proof fn lemma_tid_order_complete(nodes: Seq<NodeWeight>, order: Seq<int>)
    requires
        is_tid_order(nodes, order),
    ensures
        forall|i: int| 0 <= i < nodes.len() ==> order.contains(i),
{
    assert(order.no_duplicates()) by {
        assert forall|i: int, j: int|
            0 <= i < order.len() && 0 <= j < order.len() && i != j implies order[i]
            != order[j] by {
            if i < j {
                assert(nodes[order[i]].tid.0 < nodes[order[j]].tid.0);
            } else {
                assert(nodes[order[j]].tid.0 < nodes[order[i]].tid.0);
            }
        }
    }
    lemma_full_list(nodes.len(), order);
}

/// An order by thread id is the only one.
pub proof fn lemma_tid_order(nodes: Seq<NodeWeight>, order: Seq<int>)
    requires
        is_tid_order(nodes, order),
    ensures
        order == tid_order(nodes),
        is_tid_order(nodes, tid_order(nodes)),
{
    let other = tid_order(nodes);
    assert(is_tid_order(nodes, other));
    let a = order.map_values(|i: int| nodes[i].tid.0);
    let b = other.map_values(|i: int| nodes[i].tid.0);
    lemma_tid_order_complete(nodes, order);
    lemma_tid_order_complete(nodes, other);
    assert forall|x: i64| a.contains(x) <==> b.contains(x) by {
        if a.contains(x) {
            let k = choose|k: int| 0 <= k < a.len() && a[k] == x;
            assert(other.contains(order[k]));
            let l = choose|l: int| 0 <= l < other.len() && other[l] == order[k];
            assert(b[l] == x);
        }
        if b.contains(x) {
            let k = choose|k: int| 0 <= k < b.len() && b[k] == x;
            assert(order.contains(other[k]));
            let l = choose|l: int| 0 <= l < order.len() && order[l] == other[k];
            assert(a[l] == x);
        }
    }
    assert forall|i: int, j: int| 0 <= i < j < a.len() implies a[i] < a[j] by {
        assert(nodes[order[i]].tid.0 < nodes[order[j]].tid.0);
    }
    assert forall|i: int, j: int| 0 <= i < j < b.len() implies b[i] < b[j] by {
        assert(nodes[other[i]].tid.0 < nodes[other[j]].tid.0);
    }
    lemma_sorted_unique(a, b);
    assert forall|k: int| 0 <= k < order.len() implies order[k] == other[k] by {
        assert(a[k] == b[k]);
        assert(other.contains(order[k]));
        let l = choose|l: int| 0 <= l < other.len() && other[l] == order[k];
        assert(b[l] == b[k]);
        if l < k {
            assert(b[l] < b[k]);
        } else if k < l {
            assert(b[k] < b[l]);
        }
    }
    assert(order =~= other);
}

/// Sums over edges add up: nothing for no edges, an edge's own figure for one,
/// and for two lists the sum of both.
pub proof fn law_sums_add_up(a: Seq<WaitEdge>, b: Seq<WaitEdge>)
    ensures
        sum_raw(Seq::empty()) == 0,
        sum_attributed(Seq::empty()) == 0,
        forall|e: WaitEdge| #[trigger] sum_raw(seq![e]) == e.weight.raw_wait_ms,
        forall|e: WaitEdge| #[trigger] sum_attributed(seq![e]) == e.weight.attributed_delay_ms,
        sum_raw(a + b) == sum_raw(a) + sum_raw(b),
        sum_attributed(a + b) == sum_attributed(a) + sum_attributed(b),
    decreases b.len(),
{
    assert forall|e: WaitEdge| #[trigger] sum_raw(seq![e]) == e.weight.raw_wait_ms by {
        assert(seq![e].drop_last() =~= Seq::empty());
        assert(sum_raw(seq![e].drop_last()) == 0);
    }
    assert forall|e: WaitEdge| #[trigger]
        sum_attributed(seq![e]) == e.weight.attributed_delay_ms by {
        assert(seq![e].drop_last() =~= Seq::empty());
        assert(sum_attributed(seq![e].drop_last()) == 0);
    }
    if b.len() == 0 {
        assert(a + b =~= a);
    } else {
        law_sums_add_up(a, b.drop_last());
        assert((a + b).drop_last() =~= a + b.drop_last());
    }
}

/// The edges at a thread are all that leave it, or all that enter it, the latest
/// first.
pub proof fn law_edges_at_a_thread(edges: Seq<WaitEdge>, tid: ThreadId, outgoing: bool)
    ensures
        forall|e: int| #[trigger]
            edges_at(edges, tid, outgoing).contains(e) <==> 0 <= e < edges.len() && (outgoing
                ==> edges[e].src == tid) && (!outgoing ==> edges[e].dst == tid),
        forall|k: int, l: int|
            0 <= k < l < edges_at(edges, tid, outgoing).len() ==> (#[trigger] edges_at(
                edges,
                tid,
                outgoing,
            )[k]) > (#[trigger] edges_at(edges, tid, outgoing)[l]),
    decreases edges.len(),
{
    lemma_edges_at(edges, tid, outgoing);
    let at = edges_at(edges, tid, outgoing);
    assert forall|e: int| #[trigger] at.contains(e) implies 0 <= e < edges.len() && (outgoing
        ==> edges[e].src == tid) && (!outgoing ==> edges[e].dst == tid) by {
        let k = choose|k: int| 0 <= k < at.len() && at[k] == e;
        assert(at[k] == e);
    }
    if edges.len() > 0 {
        let front = edges.drop_last();
        let rest = edges_at(front, tid, outgoing);
        law_edges_at_a_thread(front, tid, outgoing);
        lemma_edges_at(front, tid, outgoing);
        let end = if outgoing {
            edges.last().src
        } else {
            edges.last().dst
        };
        if end == tid {
            assert forall|k: int, l: int| 0 <= k < l < at.len() implies (#[trigger] at[k]) > (
            #[trigger] at[l]) by {
                assert(at[l] == rest[l - 1]);
                if k > 0 {
                    assert(at[k] == rest[k - 1]);
                }
            }
        }
    }
}

/// An order by thread id has every node once, and smaller ids first.
pub proof fn law_nodes_by_thread(nodes: Seq<NodeWeight>, order: Seq<int>)
    requires
        is_tid_order(nodes, order),
    ensures
        order == tid_order(nodes),
        order.len() == nodes.len(),
        forall|i: int| 0 <= i < nodes.len() ==> order.contains(i),
        forall|k: int, l: int|
            0 <= k < l < order.len() ==> nodes[#[trigger] order[k]].tid.0
                < nodes[#[trigger] order[l]].tid.0,
{
    lemma_tid_order(nodes, order);
    lemma_tid_order_complete(nodes, order);
}

} // verus!
