//! Directed multigraph over dense node and edge numbers, kept in petgraph.
//!
//! Node and edge weights live beside it, in the types that use it
//! ([`WaitForGraph`](crate::graph::wfg::WaitForGraph) and
//! [`CondensationDag`](crate::scc::tarjan::CondensationDag)), indexed by the
//! numbers that are handed out here.

use petgraph::algo::{tarjan_scc, toposort};
use petgraph::graph::{EdgeIndex, Graph, NodeIndex};
use petgraph::visit::EdgeRef;
use petgraph::{Directed, Direction};
use vstd::prelude::*;

verus! {

// ---------------------------------------------------------------------------
// The mathematical model
// ---------------------------------------------------------------------------

/// What a [`Topology`] stands for: `nodes` node numbers, and the endpoints of
/// each edge by edge number.
#[verifier::ext_equal]
pub struct TopologyView {
    pub nodes: nat,
    pub edges: Seq<(int, int)>,
}

/// The edges that leave (`outgoing`) or enter a node, most recently added first.
pub open spec fn incident(edges: Seq<(int, int)>, node: int, outgoing: bool) -> Seq<int>
    decreases edges.len(),
{
    if edges.len() == 0 {
        Seq::empty()
    } else {
        let rest = incident(edges.drop_last(), node, outgoing);
        let end = if outgoing {
            edges.last().0
        } else {
            edges.last().1
        };
        if end == node {
            seq![edges.len() - 1] + rest
        } else {
            rest
        }
    }
}

/// Step number `i` of the path follows an edge.
pub open spec fn follows_edge(edges: Seq<(int, int)>, path: Seq<int>, i: int) -> bool {
    edges.contains((path[i], path[i + 1]))
}

/// `path` visits at least one node and follows an edge at every step.
pub open spec fn is_path(edges: Seq<(int, int)>, path: Seq<int>) -> bool {
    &&& path.len() > 0
    &&& forall|i: int| 0 <= i < path.len() - 1 ==> #[trigger] follows_edge(edges, path, i)
}

/// Some path, possibly of no step, leads from `a` to `b`.
pub open spec fn reaches(edges: Seq<(int, int)>, a: int, b: int) -> bool {
    exists|path: Seq<int>| #[trigger] is_path(edges, path) && path.first() == a && path.last() == b
}

/// No path of at least one step returns to its start.
pub open spec fn acyclic(edges: Seq<(int, int)>) -> bool {
    forall|path: Seq<int>| #[trigger]
        is_path(edges, path) && path.len() >= 2 ==> path.first() != path.last()
}

/// `order` lists every node once, and every edge leads forward in it.
pub open spec fn is_topological_order(nodes: nat, edges: Seq<(int, int)>, order: Seq<int>) -> bool {
    &&& order.len() == nodes
    &&& order.no_duplicates()
    &&& forall|i: int| 0 <= i < order.len() ==> 0 <= #[trigger] order[i] < nodes
    &&& forall|e: int, i: int, j: int|
        #![trigger edges[e], order[i], order[j]]
        0 <= e < edges.len() && 0 <= i < order.len() && 0 <= j < order.len() && edges[e] == (
            order[i],
            order[j],
        ) ==> i < j
}

/// Some list of `components` holds `v`.
pub open spec fn is_listed(components: Seq<Seq<int>>, v: int) -> bool {
    exists|c: int, k: int|
        0 <= c < components.len() && 0 <= k < components[c].len() && #[trigger] components[c][k]
            == v
}

/// `components` splits the nodes into the strongly connected components, the
/// components that others lead to first.
pub open spec fn is_component_list(
    nodes: nat,
    edges: Seq<(int, int)>,
    components: Seq<Seq<int>>,
) -> bool {
    &&& forall|c: int| 0 <= c < components.len() ==> (#[trigger] components[c]).len() > 0
    &&& forall|c: int, k: int|
        0 <= c < components.len() && 0 <= k < components[c].len() ==> 0
            <= #[trigger] components[c][k] < nodes
    &&& forall|v: int|
        0 <= v < nodes ==> #[trigger] is_listed(components, v)
    &&& forall|c: int, k: int, d: int, l: int|
        #![trigger components[c][k], components[d][l]]
        0 <= c < components.len() && 0 <= k < components[c].len() && 0 <= d < components.len() && 0
            <= l < components[d].len() && components[c][k] == components[d][l] ==> c == d && k == l
    &&& forall|c: int, k: int, d: int, l: int|
        #![trigger components[c][k], components[d][l]]
        0 <= c < components.len() && 0 <= k < components[c].len() && 0 <= d < components.len() && 0
            <= l < components[d].len() ==> (c == d <==> reaches(
            edges,
            components[c][k],
            components[d][l],
        ) && reaches(edges, components[d][l], components[c][k]))
    &&& forall|e: int, c: int, k: int, d: int, l: int|
        #![trigger edges[e], components[c][k], components[d][l]]
        0 <= e < edges.len() && 0 <= c < components.len() && 0 <= k < components[c].len() && 0 <= d
            < components.len() && 0 <= l < components[d].len() && edges[e] == (
            components[c][k],
            components[d][l],
        ) ==> c >= d
}

/// The numbers in `v`, as mathematical integers.
pub open spec fn as_ints(v: Seq<u32>) -> Seq<int> {
    v.map_values(|n: u32| n as int)
}

/// The numbers in each list of `v`, as mathematical integers.
pub open spec fn as_int_lists(v: Seq<Vec<u32>>) -> Seq<Seq<int>> {
    v.map_values(|c: Vec<u32>| as_ints(c@))
}

// ---------------------------------------------------------------------------
// petgraph
// ---------------------------------------------------------------------------

/// petgraph's adjacency-list graph, carried through as an opaque value.
#[verifier::external_type_specification]
#[verifier::external_body]
#[verifier::reject_recursive_types(N)]
#[verifier::reject_recursive_types(E)]
#[verifier::reject_recursive_types(Ty)]
#[verifier::reject_recursive_types(Ix)]
pub struct ExGraph<N, E, Ty, Ix>(Graph<N, E, Ty, Ix>);

/// petgraph's marker type for directed edges.
#[verifier::external_type_specification]
#[verifier::external_body]
pub struct ExDirected(Directed);

/// How many nodes a petgraph graph holds.
pub uninterp spec fn graph_node_count(g: Graph<(), (), Directed, u32>) -> nat;

/// The endpoints of a petgraph graph's edges, by edge index.
pub uninterp spec fn graph_edges(g: Graph<(), (), Directed, u32>) -> Seq<(int, int)>;

/// For each node index, the outgoing edges in the order in which petgraph walks them.
pub uninterp spec fn graph_outgoing(g: Graph<(), (), Directed, u32>) -> Map<int, Seq<int>>;

/// For each node index, the incoming edges in the order in which petgraph walks them.
pub uninterp spec fn graph_incoming(g: Graph<(), (), Directed, u32>) -> Map<int, Seq<int>>;

/// The order that `petgraph::algo::toposort` finds, if it finds one.
pub uninterp spec fn graph_toposort(g: Graph<(), (), Directed, u32>) -> Option<Seq<int>>;

/// The components that `petgraph::algo::tarjan_scc` finds, in its order.
pub uninterp spec fn graph_components(g: Graph<(), (), Directed, u32>) -> Seq<Seq<int>>;

/// Calls `petgraph::graph::Graph::new`: the graph has no nodes and no edges.
#[verifier::external_body]
fn graph_new() -> (g: Graph<(), (), Directed, u32>)
    ensures
        graph_node_count(g) == 0,
        graph_edges(g).len() == 0,
{
    Graph::new()
}

/// Calls `petgraph::graph::Graph::add_node`: the new node gets the next index
/// and has no edges. petgraph panics once all indices below `u32::MAX` are used.
#[verifier::external_body]
fn graph_add_node(g: &mut Graph<(), (), Directed, u32>) -> (node: u32)
    requires
        graph_node_count(*old(g)) < u32::MAX,
    ensures
        node == graph_node_count(*old(g)),
        graph_node_count(*final(g)) == graph_node_count(*old(g)) + 1,
        graph_edges(*final(g)) == graph_edges(*old(g)),
        graph_outgoing(*final(g)) == graph_outgoing(*old(g)).insert(node as int, Seq::empty()),
        graph_incoming(*final(g)) == graph_incoming(*old(g)).insert(node as int, Seq::empty()),
{
    g.add_node(()).index() as u32
}

/// Calls `petgraph::graph::Graph::add_edge`: the new edge gets the next index
/// and comes first among the outgoing edges of `a` and the incoming edges of
/// `b`. petgraph panics on an unknown node, and once all indices below
/// `u32::MAX` are used.
#[verifier::external_body]
fn graph_add_edge(g: &mut Graph<(), (), Directed, u32>, a: u32, b: u32) -> (edge: u32)
    requires
        a < graph_node_count(*old(g)),
        b < graph_node_count(*old(g)),
        graph_edges(*old(g)).len() < u32::MAX,
    ensures
        edge == graph_edges(*old(g)).len(),
        graph_node_count(*final(g)) == graph_node_count(*old(g)),
        graph_edges(*final(g)) == graph_edges(*old(g)).push((a as int, b as int)),
        graph_outgoing(*final(g)) == graph_outgoing(*old(g)).insert(
            a as int,
            seq![edge as int] + graph_outgoing(*old(g))[a as int],
        ),
        graph_incoming(*final(g)) == graph_incoming(*old(g)).insert(
            b as int,
            seq![edge as int] + graph_incoming(*old(g))[b as int],
        ),
{
    g.add_edge(NodeIndex::new(a as usize), NodeIndex::new(b as usize), ()).index() as u32
}

/// Calls `petgraph::graph::Graph::node_count`: the number of nodes.
#[verifier::external_body]
fn graph_count_nodes(g: &Graph<(), (), Directed, u32>) -> (n: usize)
    ensures
        n == graph_node_count(*g),
{
    g.node_count()
}

/// Calls `petgraph::graph::Graph::edge_count`: the number of edges.
#[verifier::external_body]
fn graph_count_edges(g: &Graph<(), (), Directed, u32>) -> (n: usize)
    ensures
        n == graph_edges(*g).len(),
{
    g.edge_count()
}

/// Calls `petgraph::graph::Graph::edge_endpoints`: the source and the target
/// of an edge that exists, `None` for another index.
#[verifier::external_body]
fn graph_endpoints(g: &Graph<(), (), Directed, u32>, edge: u32) -> (ends: Option<(u32, u32)>)
    ensures
        ends is Some <==> edge < graph_edges(*g).len(),
        ends matches Some(pair) ==> (pair.0 as int, pair.1 as int) == graph_edges(*g)[edge as int],
{
    let ends = g.edge_endpoints(EdgeIndex::new(edge as usize));
    ends.map(|(a, b)| (a.index() as u32, b.index() as u32))
}

/// Calls `petgraph::graph::Graph::edges_directed` with `Direction::Outgoing`:
/// the indices of the edges that leave `node`.
#[verifier::external_body]
fn graph_edges_out(g: &Graph<(), (), Directed, u32>, node: u32) -> (edges: Vec<u32>)
    requires
        node < graph_node_count(*g),
    ensures
        as_ints(edges@) == graph_outgoing(*g)[node as int],
{
    let edges = g.edges_directed(NodeIndex::new(node as usize), Direction::Outgoing);
    edges.map(|e| e.id().index() as u32).collect()
}

/// Calls `petgraph::graph::Graph::edges_directed` with `Direction::Incoming`:
/// the indices of the edges that enter `node`.
#[verifier::external_body]
fn graph_edges_in(g: &Graph<(), (), Directed, u32>, node: u32) -> (edges: Vec<u32>)
    requires
        node < graph_node_count(*g),
    ensures
        as_ints(edges@) == graph_incoming(*g)[node as int],
{
    let edges = g.edges_directed(NodeIndex::new(node as usize), Direction::Incoming);
    edges.map(|e| e.id().index() as u32).collect()
}

/// Calls `petgraph::algo::toposort`: an order in which each node stands before
/// its successors, or `None` on a graph with a cycle (a self loop is one).
/// Which of several such orders comes back is left to petgraph.
#[verifier::external_body]
fn graph_sort(g: &Graph<(), (), Directed, u32>) -> (order: Option<Vec<u32>>)
    ensures
        order is Some ==> graph_toposort(*g) == Some(as_ints(order->0@)),
        order is None ==> graph_toposort(*g) is None,
        order is Some ==> is_topological_order(
            graph_node_count(*g),
            graph_edges(*g),
            as_ints(order->0@),
        ),
        order is None ==> !acyclic(graph_edges(*g)),
{
    let order = toposort(g, None).ok();
    order.map(|nodes| nodes.iter().map(|n| n.index() as u32).collect())
}

/// Calls `petgraph::algo::tarjan_scc`: the strongly connected components, in
/// postorder (reverse topological order). The order within a component, and
/// that of components which do not lead to one another, is left to petgraph.
#[verifier::external_body]
fn graph_scc(g: &Graph<(), (), Directed, u32>) -> (components: Vec<Vec<u32>>)
    ensures
        as_int_lists(components@) == graph_components(*g),
        is_component_list(graph_node_count(*g), graph_edges(*g), as_int_lists(components@)),
{
    let components = tarjan_scc(g);
    components.iter().map(|c| c.iter().map(|n| n.index() as u32).collect()).collect()
}

// ---------------------------------------------------------------------------
// The verified layer
// ---------------------------------------------------------------------------

/// A directed multigraph that only grows.
#[derive(Debug)]
pub struct Topology {
    graph: Graph<(), (), Directed, u32>,
}

impl View for Topology {
    type V = TopologyView;

    closed spec fn view(&self) -> TopologyView {
        TopologyView { nodes: graph_node_count(self.graph), edges: graph_edges(self.graph) }
    }
}

impl Topology {
    /// Endpoints exist, indices fit, and petgraph's edge lists hold exactly the
    /// edges of each node, latest first.
    pub closed spec fn wf(&self) -> bool {
        &&& self@.nodes <= u32::MAX
        &&& self@.edges.len() <= u32::MAX
        &&& forall|e: int|
            0 <= e < self@.edges.len() ==> 0 <= (#[trigger] self@.edges[e]).0 < self@.nodes && 0
                <= self@.edges[e].1 < self@.nodes
        &&& forall|n: int|
            0 <= n < self@.nodes ==> #[trigger] graph_outgoing(self.graph)[n] == incident(
                self@.edges,
                n,
                true,
            )
        &&& forall|n: int|
            0 <= n < self@.nodes ==> #[trigger] graph_incoming(self.graph)[n] == incident(
                self@.edges,
                n,
                false,
            )
    }

    /// The topological order that petgraph picks, if there is one.
    pub closed spec fn sorted_nodes(&self) -> Option<Seq<int>> {
        graph_toposort(self.graph)
    }

    /// The strongly connected components, as petgraph lists them.
    pub closed spec fn components(&self) -> Seq<Seq<int>> {
        graph_components(self.graph)
    }

    /// Well-formedness, as far as it concerns users of the graph.
    pub proof fn lemma_bounds(&self)
        requires
            self.wf(),
        ensures
            self@.nodes <= u32::MAX,
            self@.edges.len() <= u32::MAX,
            forall|e: int|
                0 <= e < self@.edges.len() ==> 0 <= (#[trigger] self@.edges[e]).0 < self@.nodes && 0
                    <= self@.edges[e].1 < self@.nodes,
    {
    }

    pub fn new() -> (t: Topology)
        ensures
            t.wf(),
            t@.nodes == 0,
            t@.edges == Seq::<(int, int)>::empty(),
    {
        let t = Topology { graph: graph_new() };
        assert(t@.edges =~= Seq::<(int, int)>::empty());
        t
    }

    pub fn add_node(&mut self) -> (node: u32)
        requires
            old(self).wf(),
            old(self)@.nodes < u32::MAX,
        ensures
            final(self).wf(),
            node == old(self)@.nodes,
            final(self)@.nodes == old(self)@.nodes + 1,
            final(self)@.edges == old(self)@.edges,
    {
        let ghost before = self@;
        let node: u32 = graph_add_node(&mut self.graph);
        proof {
            lemma_incident_absent(before.edges, before.nodes as int, true);
            lemma_incident_absent(before.edges, before.nodes as int, false);
        }
        node
    }

    pub fn add_edge(&mut self, a: u32, b: u32) -> (edge: u32)
        requires
            old(self).wf(),
            a < old(self)@.nodes,
            b < old(self)@.nodes,
            old(self)@.edges.len() < u32::MAX,
        ensures
            final(self).wf(),
            edge == old(self)@.edges.len(),
            final(self)@.nodes == old(self)@.nodes,
            final(self)@.edges == old(self)@.edges.push((a as int, b as int)),
    {
        let ghost before = self@;
        let edge: u32 = graph_add_edge(&mut self.graph, a, b);
        proof {
            assert(self@.edges.drop_last() =~= before.edges);
        }
        edge
    }

    pub fn node_count(&self) -> (n: usize)
        ensures
            n == self@.nodes,
    {
        graph_count_nodes(&self.graph)
    }

    pub fn edge_count(&self) -> (n: usize)
        ensures
            n == self@.edges.len(),
    {
        graph_count_edges(&self.graph)
    }

    pub fn endpoints(&self, edge: u32) -> (ends: (u32, u32))
        requires
            edge < self@.edges.len(),
        ensures
            (ends.0 as int, ends.1 as int) == self@.edges[edge as int],
    {
        graph_endpoints(&self.graph, edge).unwrap()
    }

    pub fn outgoing(&self, node: u32) -> (edges: Vec<u32>)
        requires
            self.wf(),
            node < self@.nodes,
        ensures
            as_ints(edges@) == incident(self@.edges, node as int, true),
    {
        graph_edges_out(&self.graph, node)
    }

    pub fn incoming(&self, node: u32) -> (edges: Vec<u32>)
        requires
            self.wf(),
            node < self@.nodes,
        ensures
            as_ints(edges@) == incident(self@.edges, node as int, false),
    {
        graph_edges_in(&self.graph, node)
    }

    /// A topological order; `None` exactly on a graph with a cycle.
    pub fn topological_order(&self) -> (order: Option<Vec<u32>>)
        requires
            self.wf(),
        ensures
            order is Some <==> acyclic(self@.edges),
            order is Some ==> self.sorted_nodes() == Some(as_ints(order->0@)),
            order is Some ==> is_topological_order(self@.nodes, self@.edges, as_ints(order->0@)),
            order is None ==> self.sorted_nodes() is None,
    {
        let order = graph_sort(&self.graph);
        proof {
            if order is Some {
                lemma_ordered_is_acyclic(self@.nodes, self@.edges, as_ints(order->0@));
            }
        }
        order
    }

    pub fn strongly_connected(&self) -> (components: Vec<Vec<u32>>)
        requires
            self.wf(),
        ensures
            as_int_lists(components@) == self.components(),
            is_component_list(self@.nodes, self@.edges, as_int_lists(components@)),
    {
        graph_scc(&self.graph)
    }
}

// ---------------------------------------------------------------------------
// Lemmas
// ---------------------------------------------------------------------------

/// A node that is no edge's endpoint has no incident edges.
proof fn lemma_incident_absent(edges: Seq<(int, int)>, node: int, outgoing: bool)
    requires
        forall|e: int|
            0 <= e < edges.len() ==> (#[trigger] edges[e]).0 != node && edges[e].1 != node,
    ensures
        incident(edges, node, outgoing) =~= Seq::<int>::empty(),
    decreases edges.len(),
{
    if edges.len() > 0 {
        assert(edges.last() == edges[edges.len() - 1]);
        lemma_incident_absent(edges.drop_last(), node, outgoing);
    }
}

/// `incident` lists exactly the edges at the node, without repetition.
pub proof fn lemma_incident(edges: Seq<(int, int)>, node: int, outgoing: bool)
    ensures
        forall|k: int|
            0 <= k < incident(edges, node, outgoing).len() ==> {
                let e = #[trigger] incident(edges, node, outgoing)[k];
                0 <= e < edges.len() && (if outgoing {
                    edges[e].0
                } else {
                    edges[e].1
                }) == node
            },
        forall|e: int|
            0 <= e < edges.len() && (if outgoing {
                (#[trigger] edges[e]).0
            } else {
                edges[e].1
            }) == node ==> incident(edges, node, outgoing).contains(e),
        forall|k: int, l: int|
            0 <= k < l < incident(edges, node, outgoing).len() ==> incident(edges, node, outgoing)[k]
                > incident(edges, node, outgoing)[l],
    decreases edges.len(),
{
    if edges.len() > 0 {
        let rest = incident(edges.drop_last(), node, outgoing);
        let all = incident(edges, node, outgoing);
        lemma_incident(edges.drop_last(), node, outgoing);
        let hit = (if outgoing {
            edges.last().0
        } else {
            edges.last().1
        }) == node;
        assert forall|e: int|
            0 <= e < edges.len() && (if outgoing {
                (#[trigger] edges[e]).0
            } else {
                edges[e].1
            }) == node implies all.contains(e) by {
            if e == edges.len() - 1 {
                assert(all[0] == e);
            } else {
                assert(edges.drop_last()[e] == edges[e]);
                assert(rest.contains(e));
                let k = choose|k: int| 0 <= k < rest.len() && rest[k] == e;
                if hit {
                    assert(all[k + 1] == e);
                } else {
                    assert(all[k] == e);
                }
            }
        }
        assert forall|k: int| 0 <= k < all.len() implies {
            let e = #[trigger] all[k];
            0 <= e < edges.len() && (if outgoing {
                edges[e].0
            } else {
                edges[e].1
            }) == node
        } by {
            if hit {
                if k > 0 {
                    assert(all[k] == rest[k - 1]);
                }
            } else {
                assert(all[k] == rest[k]);
            }
        }
    }
}

/// Along a path, positions in a topological order grow with every step.
proof fn lemma_path_climbs(
    nodes: nat,
    edges: Seq<(int, int)>,
    order: Seq<int>,
    path: Seq<int>,
    i: int,
    j: int,
)
    requires
        is_topological_order(nodes, edges, order),
        is_path(edges, path),
        path.len() >= 2,
        0 <= i < order.len(),
        0 <= j < order.len(),
        order[i] == path.first(),
        order[j] == path.last(),
        forall|v: int| 0 <= v < nodes ==> order.contains(v),
        forall|e: int|
            0 <= e < edges.len() ==> 0 <= (#[trigger] edges[e]).0 < nodes && 0 <= edges[e].1
                < nodes,
    ensures
        i < j,
    decreases path.len(),
{
    let last = path.len() - 2;
    assert(follows_edge(edges, path, last));
    let e = choose|e: int| 0 <= e < edges.len() && edges[e] == (path[last], path[last + 1]);
    assert(0 <= edges[e].0 < nodes);
    assert(order.contains(path[last]));
    let m = choose|m: int| 0 <= m < order.len() && order[m] == path[last];
    assert(edges[e] == (order[m], order[j]));
    assert(m < j);
    if path.len() > 2 {
        let front = path.drop_last();
        assert forall|k: int| 0 <= k < front.len() - 1 implies #[trigger] follows_edge(
        edges,
        front,
        k,
    ) by {
            assert(follows_edge(edges, path, k));
        }
        lemma_path_climbs(nodes, edges, order, front, i, m);
    }
}

/// A list without repetitions of as many numbers below `n` as there are holds
/// all of them.
pub proof fn lemma_full_list(n: nat, list: Seq<int>)
    requires
        list.len() == n,
        list.no_duplicates(),
        forall|i: int| 0 <= i < list.len() ==> 0 <= #[trigger] list[i] < n,
    ensures
        forall|v: int| 0 <= v < n ==> list.contains(v),
{
    let all = vstd::set_lib::set_int_range(0, n as int);
    vstd::set_lib::lemma_int_range(0, n as int);
    list.unique_seq_to_set();
    assert(list.to_set().subset_of(all));
    vstd::set_lib::lemma_subset_equality(list.to_set(), all);
    assert forall|v: int| 0 <= v < n implies list.contains(v) by {
        assert(all.contains(v));
        assert(list.to_set().contains(v));
    }
}

/// A graph with a topological order has no cycle.
pub proof fn lemma_ordered_is_acyclic(nodes: nat, edges: Seq<(int, int)>, order: Seq<int>)
    requires
        is_topological_order(nodes, edges, order),
        forall|e: int|
            0 <= e < edges.len() ==> 0 <= (#[trigger] edges[e]).0 < nodes && 0 <= edges[e].1
                < nodes,
    ensures
        acyclic(edges),
{
    lemma_full_list(nodes, order);
    assert forall|path: Seq<int>| #[trigger] is_path(edges, path) && path.len() >= 2 implies
        path.first() != path.last() by {
        if path.first() == path.last() {
            assert(follows_edge(edges, path, 0));
            let e = choose|e: int| 0 <= e < edges.len() && edges[e] == (path[0], path[1]);
            assert(0 <= edges[e].0 < nodes);
            assert(order.contains(path[0]));
            let i = choose|i: int| 0 <= i < order.len() && order[i] == path[0];
            lemma_path_climbs(nodes, edges, order, path, i, i);
        }
    }
}

/// The edges between the labels of their endpoints.
pub open spec fn relabel(edges: Seq<(int, int)>, labels: Seq<int>) -> Seq<(int, int)> {
    edges.map_values(|e: (int, int)| (labels[e.0], labels[e.1]))
}

/// The first number that carries a label.
spec fn label_index(labels: Seq<int>, label: int) -> int {
    choose|i: int| 0 <= i < labels.len() && labels[i] == label
}

/// Paths carry over to labels.
proof fn lemma_path_forward(edges: Seq<(int, int)>, labels: Seq<int>, path: Seq<int>)
    requires
        is_path(edges, path),
    ensures
        is_path(relabel(edges, labels), path.map_values(|v: int| labels[v])),
{
    let named = path.map_values(|v: int| labels[v]);
    let links = relabel(edges, labels);
    assert forall|i: int| 0 <= i < named.len() - 1 implies #[trigger] follows_edge(
        links,
        named,
        i,
    ) by {
        assert(follows_edge(edges, path, i));
        let e = choose|e: int| 0 <= e < edges.len() && edges[e] == (path[i], path[i + 1]);
        assert(links[e] == (named[i], named[i + 1]));
    }
}

/// Paths carry over from labels.
proof fn lemma_path_backward(edges: Seq<(int, int)>, labels: Seq<int>, named: Seq<int>)
    requires
        labels.no_duplicates(),
        forall|e: int|
            0 <= e < edges.len() ==> 0 <= (#[trigger] edges[e]).0 < labels.len() && 0 <= edges[e].1
                < labels.len(),
        is_path(relabel(edges, labels), named),
        labels.contains(named[0]),
    ensures
        is_path(edges, named.map_values(|l: int| label_index(labels, l))),
        forall|i: int| 0 <= i < named.len() ==> labels.contains(#[trigger] named[i]),
{
    let path = named.map_values(|l: int| label_index(labels, l));
    let links = relabel(edges, labels);
    assert forall|i: int| 0 <= i < named.len() implies labels.contains(#[trigger] named[i]) by {
        if i > 0 {
            let k = i - 1;
            assert(follows_edge(links, named, k));
            let e = choose|e: int| 0 <= e < links.len() && links[e] == (named[k], named[k + 1]);
            assert(0 <= edges[e].1 < labels.len());
            assert(labels[edges[e].1] == named[i]);
        }
    }
    assert forall|i: int| 0 <= i < path.len() - 1 implies #[trigger] follows_edge(
        edges,
        path,
        i,
    ) by {
        assert(follows_edge(links, named, i));
        let e = choose|e: int| 0 <= e < links.len() && links[e] == (named[i], named[i + 1]);
        assert(0 <= edges[e].0 < labels.len() && 0 <= edges[e].1 < labels.len());
        assert(labels[edges[e].0] == named[i] && labels[edges[e].1] == named[i + 1]);
        assert(labels.contains(named[i]) && labels.contains(named[i + 1]));
        assert(path[i] == edges[e].0);
        assert(path[i + 1] == edges[e].1);
        assert(edges[e] == (path[i], path[i + 1]));
    }
}

/// Distinct labels keep reachability.
pub proof fn lemma_relabel_reaches(edges: Seq<(int, int)>, labels: Seq<int>, a: int, b: int)
    requires
        labels.no_duplicates(),
        0 <= a < labels.len(),
        0 <= b < labels.len(),
        forall|e: int|
            0 <= e < edges.len() ==> 0 <= (#[trigger] edges[e]).0 < labels.len() && 0 <= edges[e].1
                < labels.len(),
    ensures
        reaches(edges, a, b) <==> reaches(relabel(edges, labels), labels[a], labels[b]),
{
    let links = relabel(edges, labels);
    if reaches(edges, a, b) {
        let path = choose|path: Seq<int>| #[trigger]
            is_path(edges, path) && path.first() == a && path.last() == b;
        lemma_path_forward(edges, labels, path);
        let named = path.map_values(|v: int| labels[v]);
        assert(is_path(links, named) && named.first() == labels[a] && named.last() == labels[b]);
    }
    if reaches(links, labels[a], labels[b]) {
        let named = choose|named: Seq<int>| #[trigger]
            is_path(links, named) && named.first() == labels[a] && named.last() == labels[b];
        assert(labels.contains(named[0]));
        lemma_path_backward(edges, labels, named);
        let path = named.map_values(|l: int| label_index(labels, l));
        assert(labels.contains(labels[b]));
        assert(is_path(edges, path) && path.first() == a && path.last() == b);
    }
}

/// Distinct labels keep cycles.
pub proof fn lemma_relabel_acyclic(edges: Seq<(int, int)>, labels: Seq<int>)
    requires
        labels.no_duplicates(),
        forall|e: int|
            0 <= e < edges.len() ==> 0 <= (#[trigger] edges[e]).0 < labels.len() && 0 <= edges[e].1
                < labels.len(),
    ensures
        acyclic(edges) <==> acyclic(relabel(edges, labels)),
{
    let links = relabel(edges, labels);
    if acyclic(links) {
        assert forall|path: Seq<int>| #[trigger] is_path(edges, path) && path.len() >= 2 implies
            path.first() != path.last() by {
            lemma_path_forward(edges, labels, path);
            let named = path.map_values(|v: int| labels[v]);
            assert(is_path(links, named));
            assert(named.first() != named.last());
        }
    }
    if acyclic(edges) {
        assert forall|named: Seq<int>| #[trigger] is_path(links, named) && named.len() >= 2 implies
            named.first() != named.last() by {
            assert(follows_edge(links, named, 0));
            let e = choose|e: int| 0 <= e < links.len() && links[e] == (named[0], named[1]);
            assert(0 <= edges[e].0 < labels.len());
            assert(labels[edges[e].0] == named[0]);
            lemma_path_backward(edges, labels, named);
            let path = named.map_values(|l: int| label_index(labels, l));
            assert(is_path(edges, path));
            assert(path.first() != path.last());
        }
    }
}

} // verus!
