//! What is reported of a cascade.

use vstd::prelude::*;

use crate::cascade::invariants::{invariants_ok, non_amplified, same_waits};
use crate::graph::types::ThreadId;
use crate::graph::wfg::{
    edge_before, edge_order, is_edge_order, lemma_edge_order_complete, lemma_edge_order_exists,
    sum_attributed, sum_raw, GraphView, WaitEdge, WaitForGraph,
};
use crate::sorting::Ranked;

verus! {

/// The outcome of a cascade.
#[derive(Debug, Clone)]
pub struct CascadeResult {
    pub edges: Vec<EdgeOutput>,
    pub graph_metrics: GraphMetrics,
}

/// An edge as it is reported.
#[derive(Debug, Clone, Copy, PartialEq, Eq, Structural)]
pub struct EdgeOutput {
    pub src: ThreadId,
    pub dst: ThreadId,
    pub raw_wait_ms: u64,
    pub attributed_delay_ms: u64,
}

/// Lexicographic order: by source, target, attributed delay and raw wait.
impl Ranked for EdgeOutput {
    open spec fn not_after(self, other: Self) -> bool {
        self.src.0 < other.src.0 || (self.src.0 == other.src.0 && (self.dst.0 < other.dst.0 || (
        self.dst.0 == other.dst.0 && (self.attributed_delay_ms < other.attributed_delay_ms || (
        self.attributed_delay_ms == other.attributed_delay_ms && self.raw_wait_ms
            <= other.raw_wait_ms)))))
    }

    proof fn order_is_total() {
    }

    fn is_not_after(&self, other: &Self) -> (b: bool) {
        self.src.0 < other.src.0 || (self.src.0 == other.src.0 && (self.dst.0 < other.dst.0 || (
        self.dst.0 == other.dst.0 && (self.attributed_delay_ms < other.attributed_delay_ms || (
        self.attributed_delay_ms == other.attributed_delay_ms && self.raw_wait_ms
            <= other.raw_wait_ms)))))
    }
}

/// Figures on the graph as a whole.
#[derive(Debug, Clone, Copy, PartialEq, Eq, Structural)]
pub struct GraphMetrics {
    pub total_raw_wait_ms: u64,
    pub total_attributed_delay_ms: u64,
    /// No delay exceeds its wait, and the waits are those of the original.
    pub invariants_ok: bool,
    pub edge_count: usize,
    pub node_count: usize,
}

/// What is reported of an edge.
pub open spec fn reported(e: WaitEdge) -> EdgeOutput {
    EdgeOutput {
        src: e.src,
        dst: e.dst,
        raw_wait_ms: e.weight.raw_wait_ms,
        attributed_delay_ms: e.weight.attributed_delay_ms,
    }
}

/// All edges as they are reported, by source, target and insertion.
pub open spec fn reported_edges(edges: Seq<WaitEdge>) -> Seq<EdgeOutput> {
    Seq::new(edges.len(), |k: int| reported(edges[edge_order(edges)[k]]))
}

impl CascadeResult {
    /// This is what is reported of a cascade from `original` to `result`.
    pub open spec fn reports(&self, original: GraphView, result: GraphView) -> bool {
        &&& self.edges@ == reported_edges(result.edges)
        &&& self.graph_metrics.total_raw_wait_ms == sum_raw(original.edges)
        &&& self.graph_metrics.total_attributed_delay_ms == sum_attributed(result.edges)
        &&& self.graph_metrics.invariants_ok == (non_amplified(result.edges) && same_waits(
            original.edges,
            result.edges,
        ))
        &&& self.graph_metrics.edge_count == result.edges.len()
        &&& self.graph_metrics.node_count == result.nodes.len()
    }

    /// Reports on a cascade from `original` to `result`.
    pub fn from_graph(original: &WaitForGraph, result: &WaitForGraph) -> (r: Self)
        requires
            original.wf(),
            result.wf(),
            sum_raw(original@.edges) <= u64::MAX,
            sum_attributed(result@.edges) <= u64::MAX,
        ensures
            r.reports(original@, result@),
    {
        let all = result.all_edges();
        let ghost order = edge_order(result@.edges);
        let mut edges: Vec<EdgeOutput> = Vec::new();
        for k in 0..all.len()
            invariant
                order == edge_order(result@.edges),
                is_edge_order(result@.edges, order),
                all@.len() == result@.edges.len(),
                forall|i: int|
                    0 <= i < all@.len() ==> {
                        let e = order[i];
                        &&& (#[trigger] all@[i]).0.0 == e
                        &&& all@[i].1 == result@.edges[e].src
                        &&& all@[i].2 == result@.edges[e].dst
                        &&& *all@[i].3 == result@.edges[e].weight
                    },
                edges@ == reported_edges(result@.edges).take(k as int),
        {
            let (_, src, dst, weight) = all[k];
            edges.push(
                EdgeOutput {
                    src,
                    dst,
                    raw_wait_ms: weight.raw_wait_ms,
                    attributed_delay_ms: weight.attributed_delay_ms,
                },
            );
            proof {
                assert(all@[k as int].0.0 == order[k as int]);
                assert(edges@ =~= reported_edges(result@.edges).take(k + 1));
            }
        }
        assert(edges@ =~= reported_edges(result@.edges));
        CascadeResult {
            edges,
            graph_metrics: GraphMetrics {
                total_raw_wait_ms: original.total_raw_wait(),
                total_attributed_delay_ms: result.total_attributed(),
                invariants_ok: invariants_ok(original, result),
                edge_count: result.edge_count(),
                node_count: result.node_count(),
            },
        }
    }
}

/// Every edge is reported once, with its ends, its raw wait and the delay that is
/// attributed to it, by source, then by target, then in the order of insertion.
pub proof fn law_every_edge_is_reported(edges: Seq<WaitEdge>) -> (place: Seq<int>)
    requires
        edges.len() <= u32::MAX,
    ensures
        reported_edges(edges).len() == edges.len(),
        place.len() == edges.len(),
        forall|e: int|
            0 <= e < edges.len() ==> {
                let k = #[trigger] place[e];
                let told = reported_edges(edges)[k];
                &&& 0 <= k < edges.len()
                &&& told.src == edges[e].src
                &&& told.dst == edges[e].dst
                &&& told.raw_wait_ms == edges[e].weight.raw_wait_ms
                &&& told.attributed_delay_ms == edges[e].weight.attributed_delay_ms
            },
        forall|e: int, f: int|
            0 <= e < edges.len() && 0 <= f < edges.len() && (edges[e].src.0 < edges[f].src.0 || (
            edges[e].src == edges[f].src && (edges[e].dst.0 < edges[f].dst.0 || (edges[e].dst
                == edges[f].dst && e < f)))) ==> (#[trigger] place[e]) < (#[trigger] place[f]),
{
    lemma_edge_order_exists(edges);
    let order = edge_order(edges);
    lemma_edge_order_complete(edges, order);
    let place = Seq::new(
        edges.len(),
        |e: int| choose|k: int| 0 <= k < order.len() && order[k] == e,
    );
    assert forall|e: int| 0 <= e < edges.len() implies 0 <= (#[trigger] place[e]) < order.len()
        && order[place[e]] == e by {
        assert(order.contains(e));
        let k = choose|k: int| 0 <= k < order.len() && order[k] == e;
        assert(0 <= k < order.len() && order[k] == e);
    }
    assert forall|e: int, f: int|
        0 <= e < edges.len() && 0 <= f < edges.len() && (edges[e].src.0 < edges[f].src.0 || (
        edges[e].src == edges[f].src && (edges[e].dst.0 < edges[f].dst.0 || (edges[e].dst
            == edges[f].dst && e < f)))) implies (#[trigger] place[e]) < (#[trigger] place[f]) by {
        let (k, l) = (place[e], place[f]);
        assert(order[k] == e && order[l] == f);
        if l < k {
            assert(edge_before(edges, order[l], order[k]));
        }
    }
    place
}

/// Reported edges are ordered by the first in which they differ: source, target,
/// attributed delay, raw wait.
pub proof fn law_first_difference_decides(a: EdgeOutput, b: EdgeOutput)
    ensures
        a.src.0 < b.src.0 ==> a.not_after(b) && !b.not_after(a),
        a.src == b.src && a.dst.0 < b.dst.0 ==> a.not_after(b) && !b.not_after(a),
        a.src == b.src && a.dst == b.dst && a.attributed_delay_ms < b.attributed_delay_ms
            ==> a.not_after(b) && !b.not_after(a),
        a.src == b.src && a.dst == b.dst && a.attributed_delay_ms == b.attributed_delay_ms
            && a.raw_wait_ms < b.raw_wait_ms ==> a.not_after(b) && !b.not_after(a),
        a == b ==> a.not_after(b),
{
}

} // verus!
