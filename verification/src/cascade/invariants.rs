//! Structural checks on the result of a cascade.

use vstd::prelude::*;

use crate::graph::wfg::{
    edge_before, edge_order, is_edge_order, lemma_edge_order, lemma_edge_order_complete,
    lemma_edge_order_exists, sum_attributed, WaitEdge, WaitForGraph,
};

use crate::text::{bool_text, push_bool};

use super::engine::{cascade_engine, cascaded, waits_fill_windows};
use super::laws::{is_chain, law_cascade_is_idempotent, law_chain_total_is_monotonic};

verus! {

/// The outcome of the checks when one of them fails.
#[derive(Debug, Clone, Copy, PartialEq, Eq, Structural)]
pub struct InvariantError {
    /// No edge is attributed more than its raw wait.
    pub i2_ok: bool,
    /// The waits are those of the original graph.
    pub i7_ok: bool,
}

impl InvariantError {
    /// The text of the error.
    pub open spec fn text(&self) -> Seq<char> {
        violation_text(self.i2_ok, self.i7_ok)
    }

    /// The error in words.
    pub fn message(&self) -> (s: String)
        ensures
            s@ == self.text(),
    {
        violation(self.i2_ok, self.i7_ok)
    }
}

/// The text that tells which checks failed.
pub open spec fn violation_text(i2_ok: bool, i7_ok: bool) -> Seq<char> {
    "I-1 VIOLATION: conservation check failed (I-2="@ + bool_text(i2_ok) + ", I-7="@ + bool_text(
        i7_ok,
    ) + ")"@
}

fn violation(i2_ok: bool, i7_ok: bool) -> (s: String)
    ensures
        s@ == violation_text(i2_ok, i7_ok),
{
    let mut s = "I-1 VIOLATION: conservation check failed (I-2=".to_owned();
    push_bool(&mut s, i2_ok);
    s.append(", I-7=");
    push_bool(&mut s, i7_ok);
    s.append(")");
    s
}

// ---------------------------------------------------------------------------
// The mathematical model
// ---------------------------------------------------------------------------

/// No edge is attributed more than its raw wait.
pub open spec fn non_amplified(edges: Seq<WaitEdge>) -> bool {
    forall|e: int|
        0 <= e < edges.len() ==> (#[trigger] edges[e]).weight.attributed_delay_ms
            <= edges[e].weight.raw_wait_ms
}

/// Two edges record the same wait.
pub open spec fn same_wait(a: WaitEdge, b: WaitEdge) -> bool {
    &&& a.src == b.src
    &&& a.dst == b.dst
    &&& a.weight.time_window == b.weight.time_window
    &&& a.weight.raw_wait_ms == b.weight.raw_wait_ms
}

/// Two graphs record the same waits, compared in the order by source, target
/// and insertion.
pub open spec fn same_waits(a: Seq<WaitEdge>, b: Seq<WaitEdge>) -> bool {
    &&& a.len() == b.len()
    &&& forall|k: int|
        0 <= k < a.len() ==> same_wait(a[#[trigger] edge_order(a)[k]], b[edge_order(b)[k]])
}

// ---------------------------------------------------------------------------
// The checks
// ---------------------------------------------------------------------------

/// Non-amplification: no attributed delay exceeds its raw wait.
pub fn check_non_amplification(result: &WaitForGraph) -> (b: bool)
    requires
        result.wf(),
    ensures
        b == non_amplified(result@.edges),
{
    let all = result.all_edges();
    let ghost edges = result@.edges;
    let ghost order = edge_order(edges);
    for k in 0..all.len()
        invariant
            edges == result@.edges,
            order == edge_order(edges),
            is_edge_order(edges, order),
            all@.len() == edges.len(),
            forall|i: int| 0 <= i < all@.len() ==> *(#[trigger] all@[i]).3 == edges[order[i]].weight,
            forall|i: int|
                0 <= i < k ==> edges[#[trigger] order[i]].weight.attributed_delay_ms
                    <= edges[order[i]].weight.raw_wait_ms,
    {
        let weight = all[k].3;
        proof {
            assert(*all@[k as int].3 == edges[order[k as int]].weight);
            assert(0 <= order[k as int] < edges.len());
        }
        if weight.attributed_delay_ms > weight.raw_wait_ms {
            return false;
        }
    }
    proof {
        result.lemma_wf();
        lemma_edge_order_complete(edges, order);
        assert forall|e: int| 0 <= e < edges.len() implies (
        #[trigger] edges[e]).weight.attributed_delay_ms <= edges[e].weight.raw_wait_ms by {
            assert(order.contains(e));
            let i = choose|i: int| 0 <= i < order.len() && order[i] == e;
            assert(edges[order[i]].weight.attributed_delay_ms <= edges[order[i]].weight.raw_wait_ms);
        }
    }
    true
}

/// Non-negativity: delays are unsigned.
pub fn check_non_negativity(_result: &WaitForGraph) -> (b: bool)
    ensures
        b,
{
    true
}

/// Termination: the number of nodes and edges is unchanged.
pub fn check_termination(original: &WaitForGraph, result: &WaitForGraph) -> (b: bool)
    requires
        original.wf(),
        result.wf(),
    ensures
        b == (original@.nodes.len() == result@.nodes.len() && original@.edges.len()
            == result@.edges.len()),
{
    original.node_count() == result.node_count() && original.edge_count() == result.edge_count()
}

/// Locality: every edge has the endpoints, the window and the raw wait that it
/// has in the original.
pub fn check_locality(original: &WaitForGraph, result: &WaitForGraph) -> (b: bool)
    requires
        original.wf(),
        result.wf(),
    ensures
        b == same_waits(original@.edges, result@.edges),
{
    let orig_edges = original.all_edges();
    let res_edges = result.all_edges();
    if orig_edges.len() != res_edges.len() {
        return false;
    }
    let ghost a = original@.edges;
    let ghost b = result@.edges;
    for k in 0..orig_edges.len()
        invariant
            a == original@.edges,
            b == result@.edges,
            orig_edges@.len() == a.len(),
            res_edges@.len() == a.len(),
            b.len() == a.len(),
            forall|i: int|
                0 <= i < a.len() ==> (#[trigger] orig_edges@[i]).1 == a[edge_order(a)[i]].src
                    && orig_edges@[i].2 == a[edge_order(a)[i]].dst && *orig_edges@[i].3
                    == a[edge_order(a)[i]].weight,
            forall|i: int|
                0 <= i < a.len() ==> (#[trigger] res_edges@[i]).1 == b[edge_order(b)[i]].src
                    && res_edges@[i].2 == b[edge_order(b)[i]].dst && *res_edges@[i].3
                    == b[edge_order(b)[i]].weight,
            forall|i: int|
                0 <= i < k ==> same_wait(a[#[trigger] edge_order(a)[i]], b[edge_order(b)[i]]),
    {
        let orig = &orig_edges[k];
        let res = &res_edges[k];
        let ghost x = a[edge_order(a)[k as int]];
        let ghost y = b[edge_order(b)[k as int]];
        proof {
            assert(orig_edges@[k as int].1 == x.src);
            assert(res_edges@[k as int].1 == y.src);
        }
        if orig.1.0 != res.1.0 || orig.2.0 != res.2.0 {
            return false;
        }
        if orig.3.time_window.start_ms != res.3.time_window.start_ms
            || orig.3.time_window.end_ms != res.3.time_window.end_ms {
            return false;
        }
        if orig.3.raw_wait_ms != res.3.raw_wait_ms {
            return false;
        }
        assert(same_wait(x, y));
    }
    true
}

/// Whether non-amplification and locality hold.
pub fn invariants_ok(original: &WaitForGraph, result: &WaitForGraph) -> (b: bool)
    requires
        original.wf(),
        result.wf(),
    ensures
        b == (non_amplified(result@.edges) && same_waits(original@.edges, result@.edges)),
{
    check_non_amplification(result) && check_locality(original, result)
}

/// Checks non-amplification and locality, and tells which failed.
pub fn verify_engine_postconditions(original: &WaitForGraph, result: &WaitForGraph) -> (r: Result<
    (),
    InvariantError,
>)
    requires
        original.wf(),
        result.wf(),
    ensures
        r is Ok <==> non_amplified(result@.edges) && same_waits(original@.edges, result@.edges),
        r matches Err(e) ==> e.i2_ok == non_amplified(result@.edges) && e.i7_ok == same_waits(
            original@.edges,
            result@.edges,
        ),
{
    let i2_ok = check_non_amplification(result);
    let i7_ok = check_locality(original, result);
    if i2_ok && i7_ok {
        Ok(())
    } else {
        Err(InvariantError { i2_ok, i7_ok })
    }
}

/// The outcome of the checks when conservation fails.
#[derive(Debug, Clone, Copy, PartialEq, Eq, Structural)]
pub struct ConservationError {
    pub i2_ok: bool,
    pub i7_ok: bool,
}

impl ConservationError {
    /// The text of the error.
    pub open spec fn text(&self) -> Seq<char> {
        violation_text(self.i2_ok, self.i7_ok)
    }

    /// The error in words.
    pub fn message(&self) -> (s: String)
        ensures
            s@ == self.text(),
    {
        violation(self.i2_ok, self.i7_ok)
    }
}

/// Whether no attributed delay exceeds its raw wait. [`invariants_ok`] also
/// holds the waits against the original.
pub fn is_conserved(result: &WaitForGraph) -> (b: bool)
    requires
        result.wf(),
    ensures
        b == non_amplified(result@.edges),
{
    check_non_amplification(result)
}

/// Checks non-amplification and locality, and tells which failed.
pub fn verify_conservation(original: &WaitForGraph, result: &WaitForGraph) -> (r: Result<
    (),
    ConservationError,
>)
    requires
        original.wf(),
        result.wf(),
    ensures
        r is Ok <==> non_amplified(result@.edges) && same_waits(original@.edges, result@.edges),
        r matches Err(e) ==> e.i2_ok == non_amplified(result@.edges) && e.i7_ok == same_waits(
            original@.edges,
            result@.edges,
        ),
{
    match verify_engine_postconditions(original, result) {
        Ok(()) => Ok(()),
        Err(e) => Err(ConservationError { i2_ok: e.i2_ok, i7_ok: e.i7_ok }),
    }
}

/// Idempotency: whether a second cascade attributes the same delays. It always
/// does, as [`law_cascade_is_idempotent`] shows.
pub fn check_idempotency(graph: &WaitForGraph, max_depth: u32) -> (b: bool)
    requires
        graph.wf(),
        graph@.windows_valid(),
        waits_fill_windows(graph@.edges),
    ensures
        b,
{
    let ghost edges = graph@.edges;
    proof {
        law_cascade_is_idempotent(edges, max_depth as nat);
    }
    let first = match cascade_engine(graph, Some(max_depth)) {
        Ok(g) => g,
        Err(_) => {
            return false;
        },
    };
    proof {
        assert(first@.edges == cascaded(edges, max_depth as nat));
        assert forall|e: int| 0 <= e < first@.edges.len() implies (
        #[trigger] first@.edges[e]).weight.time_window.valid() by {
            assert(edges[e].weight.time_window.valid());
        }
    }
    let second = match cascade_engine(&first, Some(max_depth)) {
        Ok(g) => g,
        Err(_) => {
            return false;
        },
    };
    let e1 = first.all_edges();
    let e2 = second.all_edges();
    if e1.len() != e2.len() {
        return false;
    }
    for k in 0..e1.len()
        invariant
            second@.edges == first@.edges,
            e1@.len() == first@.edges.len(),
            e2@.len() == first@.edges.len(),
            forall|i: int|
                0 <= i < e1@.len() ==> *(#[trigger] e1@[i]).3 == first@.edges[edge_order(
                    first@.edges,
                )[i]].weight,
            forall|i: int|
                0 <= i < e2@.len() ==> *(#[trigger] e2@[i]).3 == second@.edges[edge_order(
                    second@.edges,
                )[i]].weight,
    {
        proof {
            assert(*e1@[k as int].3 == *e2@[k as int].3);
        }
        if e1[k].3.attributed_delay_ms != e2[k].3.attributed_delay_ms {
            return false;
        }
    }
    true
}

/// Depth monotonicity: whether a cascade of depth ten attributes no more in
/// total than one of depth two. It does on chains, where every thread waits for
/// at most one other and is waited for by at most one.
pub fn check_depth_monotonicity(graph: &WaitForGraph) -> (b: bool)
    requires
        graph.wf(),
        graph@.windows_valid(),
        waits_fill_windows(graph@.edges),
        sum_attributed(cascaded(graph@.edges, 2)) <= u64::MAX,
        sum_attributed(cascaded(graph@.edges, 10)) <= u64::MAX,
    ensures
        b == (sum_attributed(cascaded(graph@.edges, 10)) <= sum_attributed(
            cascaded(graph@.edges, 2),
        )),
        is_chain(graph@.edges) ==> b,
{
    proof {
        if is_chain(graph@.edges) {
            law_chain_total_is_monotonic(graph@.edges, 2, 10);
        }
    }
    let shallow = match cascade_engine(graph, Some(2)) {
        Ok(g) => g,
        Err(_) => {
            return false;
        },
    };
    let deep = match cascade_engine(graph, Some(10)) {
        Ok(g) => g,
        Err(_) => {
            return false;
        },
    };
    deep.total_attributed() <= shallow.total_attributed()
}

// ---------------------------------------------------------------------------
// Lemmas
// ---------------------------------------------------------------------------

/// Where endpoints and windows agree edge by edge, two graphs record the same
/// waits exactly if the raw waits agree.
pub proof fn lemma_same_waits(a: Seq<WaitEdge>, b: Seq<WaitEdge>)
    requires
        a.len() == b.len(),
        a.len() <= u32::MAX,
        forall|e: int|
            0 <= e < a.len() ==> (#[trigger] a[e]).src == b[e].src && a[e].dst == b[e].dst
                && a[e].weight.time_window == b[e].weight.time_window,
    ensures
        same_waits(a, b) <==> forall|e: int|
            0 <= e < a.len() ==> (#[trigger] a[e]).weight.raw_wait_ms == b[e].weight.raw_wait_ms,
{
    lemma_edge_order_exists(a);
    let order = edge_order(a);
    assert(is_edge_order(b, order)) by {
        assert forall|k: int, l: int| 0 <= k < l < order.len() implies edge_before(
            b,
            #[trigger] order[k],
            #[trigger] order[l],
        ) by {
            assert(edge_before(a, order[k], order[l]));
            assert(a[order[k]].src == b[order[k]].src);
            assert(a[order[l]].src == b[order[l]].src);
        }
    }
    lemma_edge_order(b, order);
    lemma_edge_order_complete(a, order);
    if same_waits(a, b) {
        assert forall|e: int| 0 <= e < a.len() implies (#[trigger] a[e]).weight.raw_wait_ms
            == b[e].weight.raw_wait_ms by {
            assert(order.contains(e));
            let k = choose|k: int| 0 <= k < order.len() && order[k] == e;
            assert(same_wait(a[edge_order(a)[k]], b[edge_order(b)[k]]));
        }
    }
    if forall|e: int|
        0 <= e < a.len() ==> (#[trigger] a[e]).weight.raw_wait_ms == b[e].weight.raw_wait_ms {
        assert forall|k: int| 0 <= k < a.len() implies same_wait(
            a[#[trigger] edge_order(a)[k]],
            b[edge_order(b)[k]],
        ) by {
            assert(a[order[k]].weight.raw_wait_ms == b[order[k]].weight.raw_wait_ms);
        }
    }
}

// ---------------------------------------------------------------------------
// Laws
// ---------------------------------------------------------------------------

/// What the check of locality compares. If two graphs record the same waits, then
/// each wait of the one has a counterpart in the other: between the same threads,
/// at the same time, and as long. And an edge that kept its place but not its raw
/// wait is found.
pub proof fn law_same_waits_have_counterparts(a: Seq<WaitEdge>, b: Seq<WaitEdge>)
    requires
        a.len() <= u32::MAX,
    ensures
        same_waits(a, b) ==> a.len() == b.len(),
        same_waits(a, b) ==> forall|e: int|
            0 <= e < a.len() ==> exists|f: int|
                0 <= f < b.len() && (#[trigger] a[e]).src == (#[trigger] b[f]).src && a[e].dst
                    == b[f].dst && a[e].weight.time_window == b[f].weight.time_window
                    && a[e].weight.raw_wait_ms == b[f].weight.raw_wait_ms,
        same_waits(a, a),
{
    lemma_same_waits(a, a);
    if same_waits(a, b) {
        lemma_edge_order_exists(a);
        lemma_edge_order_exists(b);
        lemma_edge_order_complete(a, edge_order(a));
        assert forall|e: int| 0 <= e < a.len() implies exists|f: int|
            0 <= f < b.len() && (#[trigger] a[e]).src == (#[trigger] b[f]).src && a[e].dst
                == b[f].dst && a[e].weight.time_window == b[f].weight.time_window
                && a[e].weight.raw_wait_ms == b[f].weight.raw_wait_ms by {
            assert(edge_order(a).contains(e));
            let k = choose|k: int| 0 <= k < edge_order(a).len() && edge_order(a)[k] == e;
            let f = edge_order(b)[k];
            assert(same_wait(a[edge_order(a)[k]], b[edge_order(b)[k]]));
            assert(0 <= f < b.len());
            assert(a[e].src == b[f].src);
        }
    }
}

/// The check of non-amplification finds one edge that is attributed more than its
/// raw wait, wherever it stands, and objects to nothing else.
pub proof fn law_amplification_is_found(edges: Seq<WaitEdge>, e: int)
    requires
        0 <= e < edges.len(),
    ensures
        edges[e].weight.attributed_delay_ms > edges[e].weight.raw_wait_ms ==> !non_amplified(edges),
        !non_amplified(edges) ==> exists|f: int|
            0 <= f < edges.len() && (#[trigger] edges[f]).weight.attributed_delay_ms
                > edges[f].weight.raw_wait_ms,
{
}

} // verus!
