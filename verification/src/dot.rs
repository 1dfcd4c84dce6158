//! Cascade results as Graphviz digraphs.

use vstd::prelude::*;

use crate::format::stream::StreamError;
use crate::graph::types::{thread_name, ThreadId};
use crate::output::{CascadeResult, EdgeOutput};
use crate::report::ReportError;
use crate::sorting::{
    lemma_ranked, lemma_ranked_set, lemma_same_elements, lemma_sorted_same, lemma_sorted_unique,
    merge_sort, ranked, ranked_set, sort_dedup, sorted,
};
use crate::text::{decimal, law_decimal_is_read_back, negated, number, push_u64};

verus! {

// ---------------------------------------------------------------------------
// The text of a digraph
// ---------------------------------------------------------------------------

/// The name of a thread as a node: an identifier without a sign.
pub open spec fn node_name(tid: i64) -> Seq<char> {
    if tid < 0 {
        "neg_"@ + decimal((-tid) as nat)
    } else {
        "t"@ + decimal(tid as nat)
    }
}

/// The line that declares a node.
pub open spec fn node_line(tid: i64) -> Seq<char> {
    "    "@ + node_name(tid) + " [label=\""@ + thread_name(tid) + "\"];\n"@
}

/// The line that declares an edge.
pub open spec fn edge_line(e: EdgeOutput) -> Seq<char> {
    "    "@ + node_name(e.src.0) + " -> "@ + node_name(e.dst.0) + " [label=\""@ + decimal(
        e.attributed_delay_ms as nat,
    ) + "ms (raw "@ + decimal(e.raw_wait_ms as nat) + "ms)\"];\n"@
}

/// The lines that declare nodes.
pub open spec fn node_lines(tids: Seq<i64>) -> Seq<char>
    decreases tids.len(),
{
    if tids.len() == 0 {
        Seq::empty()
    } else {
        node_lines(tids.drop_last()) + node_line(tids.last())
    }
}

/// The lines that declare edges.
pub open spec fn edge_lines(edges: Seq<EdgeOutput>) -> Seq<char>
    decreases edges.len(),
{
    if edges.len() == 0 {
        Seq::empty()
    } else {
        edge_lines(edges.drop_last()) + edge_line(edges.last())
    }
}

/// The threads at the ends of edges, as often as they occur.
pub open spec fn ends(edges: Seq<EdgeOutput>) -> Seq<i64>
    decreases edges.len(),
{
    if edges.len() == 0 {
        Seq::empty()
    } else {
        ends(edges.drop_last()).push(edges.last().src.0).push(edges.last().dst.0)
    }
}

/// The lines before the nodes.
pub open spec fn preamble() -> Seq<char> {
    "digraph wperf {\n    rankdir=LR;\n    node [shape=box];\n"@
}

/// A digraph: each thread once and in ascending order, then the edges by source,
/// target, attributed delay and raw wait.
pub open spec fn digraph(edges: Seq<EdgeOutput>) -> Seq<char> {
    preamble() + node_lines(ranked_set(ends(edges))) + edge_lines(ranked(edges)) + "}\n"@
}

// ---------------------------------------------------------------------------
// Rendering
// ---------------------------------------------------------------------------

/// Renders a cascade result as a digraph. The text does not depend on the order
/// of its edges.
pub fn render_dot(cascade: &CascadeResult) -> (out: String)
    ensures
        out@ == digraph(cascade.edges@),
{
    let mut out = "digraph wperf {\n    rankdir=LR;\n    node [shape=box];\n".to_owned();
    let mut ids: Vec<i64> = Vec::new();
    let ghost all = cascade.edges@;
    for i in 0..cascade.edges.len()
        invariant
            all == cascade.edges@,
            ids@ == ends(all.take(i as int)),
    {
        ids.push(cascade.edges[i].src.0);
        ids.push(cascade.edges[i].dst.0);
        assert(all.take(i + 1).drop_last() =~= all.take(i as int));
    }
    assert(all.take(all.len() as int) =~= all);
    let nodes = sort_dedup(&ids);
    for i in 0..nodes.len()
        invariant
            out@ == preamble() + node_lines(nodes@.take(i as int)),
    {
        push_node(&mut out, nodes[i]);
        proof {
            assert(nodes@.take(i + 1).drop_last() =~= nodes@.take(i as int));
            assert(out@ =~= preamble() + node_lines(nodes@.take(i + 1)));
        }
    }
    assert(nodes@.take(nodes@.len() as int) =~= nodes@);
    let ghost upper = preamble() + node_lines(nodes@);
    let edges = merge_sort(&cascade.edges);
    assert(out@ =~= upper + edge_lines(edges@.take(0)));
    for i in 0..edges.len()
        invariant
            out@ == upper + edge_lines(edges@.take(i as int)),
    {
        push_edge(&mut out, &edges[i]);
        proof {
            assert(edges@.take(i + 1).drop_last() =~= edges@.take(i as int));
            assert(out@ =~= upper + edge_lines(edges@.take(i + 1)));
        }
    }
    assert(edges@.take(edges@.len() as int) =~= edges@);
    out.append("}\n");
    out
}

fn push_node(out: &mut String, tid: i64)
    ensures
        final(out)@ == old(out)@ + node_line(tid),
{
    let ghost before = out@;
    out.append("    ");
    out.append(dot_id(tid).as_str());
    out.append(" [label=\"");
    out.append(ThreadId(tid).label().as_str());
    out.append("\"];\n");
    assert(out@ =~= before + node_line(tid));
}

fn push_edge(out: &mut String, e: &EdgeOutput)
    ensures
        final(out)@ == old(out)@ + edge_line(*e),
{
    let ghost before = out@;
    out.append("    ");
    out.append(dot_id(e.src.0).as_str());
    out.append(" -> ");
    out.append(dot_id(e.dst.0).as_str());
    out.append(" [label=\"");
    push_u64(out, e.attributed_delay_ms);
    out.append("ms (raw ");
    push_u64(out, e.raw_wait_ms);
    out.append("ms)\"];\n");
    assert(out@ =~= before + edge_line(*e));
}

/// The name of a thread as a node.
pub fn dot_id(tid: i64) -> (s: String)
    ensures
        s@ == node_name(tid),
{
    if tid < 0 {
        let mut s = "neg_".to_owned();
        push_u64(&mut s, negated(tid));
        s
    } else {
        let mut s = "t".to_owned();
        push_u64(&mut s, tid as u64);
        s
    }
}

/// What came of running Graphviz on a digraph.
#[derive(Debug, Clone)]
pub enum DotRun {
    /// There is no such program.
    NotFound,
    /// The program could not be started or waited for.
    Failed(StreamError),
    /// The program ended.
    Ended {
        /// Why it did not take in the whole digraph, if it did not.
        unfed: Option<StreamError>,
        success: bool,
        exit_code: Option<i32>,
        stdout: Vec<u8>,
        stderr: String,
    },
}

/// The drawing, or why there is none. What the program says of its end counts
/// more than whether it took in the whole digraph.
pub fn svg_of_run(run: DotRun) -> (r: Result<Vec<u8>, ReportError>)
    ensures
        r == (match run {
            DotRun::NotFound => Err::<Vec<u8>, ReportError>(ReportError::GraphvizNotFound),
            DotRun::Failed(e) => Err(ReportError::Io(e)),
            DotRun::Ended { unfed, success, exit_code, stdout, stderr } => if !success {
                Err(ReportError::GraphvizFailed { exit_code, stderr })
            } else {
                match unfed {
                    None => Ok(stdout),
                    Some(e) => Err(ReportError::Io(e)),
                }
            },
        }),
{
    match run {
        DotRun::NotFound => Err(ReportError::GraphvizNotFound),
        DotRun::Failed(e) => Err(ReportError::Io(e)),
        DotRun::Ended { unfed, success, exit_code, stdout, stderr } => {
            if !success {
                return Err(ReportError::GraphvizFailed { exit_code, stderr });
            }
            match unfed {
                None => Ok(stdout),
                Some(e) => Err(ReportError::Io(e)),
            }
        },
    }
}

// ---------------------------------------------------------------------------
// Laws
// ---------------------------------------------------------------------------

/// The text of a digraph depends on which edges there are, not on their order.
pub proof fn law_digraph_is_deterministic(a: Seq<EdgeOutput>, b: Seq<EdgeOutput>)
    requires
        a.to_multiset() == b.to_multiset(),
    ensures
        digraph(a) == digraph(b),
{
    lemma_ranked(a);
    lemma_ranked(b);
    lemma_sorted_same(ranked(a), ranked(b));
    lemma_same_elements(a, b);
    assert forall|t: i64| ends(a).contains(t) <==> ends(b).contains(t) by {
        lemma_ends(a, t);
        lemma_ends(b, t);
        if ends(a).contains(t) {
            let i = choose|i: int|
                0 <= i < a.len() && ((#[trigger] a[i]).src.0 == t || a[i].dst.0 == t);
            assert(a.contains(a[i]));
            assert(b.contains(a[i]));
            let j = choose|j: int| 0 <= j < b.len() && b[j] == a[i];
            assert(b[j].src.0 == t || b[j].dst.0 == t);
        }
        if ends(b).contains(t) {
            let i = choose|i: int|
                0 <= i < b.len() && ((#[trigger] b[i]).src.0 == t || b[i].dst.0 == t);
            assert(b.contains(b[i]));
            assert(a.contains(b[i]));
            let j = choose|j: int| 0 <= j < a.len() && a[j] == b[i];
            assert(a[j].src.0 == t || a[j].dst.0 == t);
        }
    }
    lemma_ranked_set(ends(a));
    lemma_ranked_set(ends(b));
    lemma_sorted_unique(ranked_set(ends(a)), ranked_set(ends(b)));
}

/// The ends of edges are their sources and targets.
proof fn lemma_ends(edges: Seq<EdgeOutput>, t: i64)
    ensures
        ends(edges).contains(t) <==> exists|i: int|
            0 <= i < edges.len() && ((#[trigger] edges[i]).src.0 == t || edges[i].dst.0 == t),
    decreases edges.len(),
{
    if edges.len() == 0 {
    } else {
        let front = edges.drop_last();
        lemma_ends(front, t);
        let inner = ends(front);
        let all = ends(edges);
        assert(edges[edges.len() - 1] == edges.last());
        assert(all[inner.len() as int] == edges.last().src.0);
        assert(all[inner.len() as int + 1] == edges.last().dst.0);
        if inner.contains(t) {
            let k = choose|k: int| 0 <= k < inner.len() && inner[k] == t;
            assert(all[k] == t);
            let i = choose|i: int|
                0 <= i < front.len() && ((#[trigger] front[i]).src.0 == t || front[i].dst.0 == t);
            assert(edges[i] == front[i]);
        }
        if all.contains(t) {
            let k = choose|k: int| 0 <= k < all.len() && all[k] == t;
            if k < inner.len() {
                assert(inner[k] == t);
                assert(inner.contains(t));
            }
        }
        if exists|i: int|
            0 <= i < edges.len() && ((#[trigger] edges[i]).src.0 == t || edges[i].dst.0 == t) {
            let i = choose|i: int|
                0 <= i < edges.len() && ((#[trigger] edges[i]).src.0 == t || edges[i].dst.0 == t);
            if i < front.len() {
                assert(front[i] == edges[i]);
                assert(inner.contains(t));
                let k = choose|k: int| 0 <= k < inner.len() && inner[k] == t;
                assert(all[k] == t);
            }
        }
    }
}

/// Distinct threads have distinct names.
pub proof fn law_node_names_differ(a: i64, b: i64)
    requires
        a != b,
    ensures
        node_name(a) != node_name(b),
{
    reveal_strlit("neg_");
    reveal_strlit("t");
    let na: nat = if a < 0 {
        (-a) as nat
    } else {
        a as nat
    };
    let nb: nat = if b < 0 {
        (-b) as nat
    } else {
        b as nat
    };
    law_decimal_is_read_back(na);
    law_decimal_is_read_back(nb);
    let (x, y) = (node_name(a), node_name(b));
    if x == y {
        assert(x[0] == y[0]);
        assert((a < 0) == (b < 0));
        if a < 0 {
            assert(x.skip(4) =~= decimal(na));
            assert(y.skip(4) =~= decimal(nb));
        } else {
            assert(x.skip(1) =~= decimal(na));
            assert(y.skip(1) =~= decimal(nb));
        }
        assert(number(decimal(na)) == number(decimal(nb)));
    }
}

/// What a digraph declares: each thread that is at an end of an edge, and no
/// other, once and in ascending order; then each edge, in order.
pub proof fn law_digraph_declares_all(
    edges: Seq<EdgeOutput>,
    threads: Seq<i64>,
    ordered: Seq<EdgeOutput>,
)
    requires
        forall|i: int, j: int| 0 <= i < j < threads.len() ==> threads[i] < threads[j],
        forall|t: i64| #[trigger]
            threads.contains(t) <==> exists|i: int|
                0 <= i < edges.len() && ((#[trigger] edges[i]).src.0 == t || edges[i].dst.0 == t),
        sorted(ordered),
        ordered.to_multiset() == edges.to_multiset(),
    ensures
        digraph(edges) == "digraph wperf {\n    rankdir=LR;\n    node [shape=box];\n"@ + node_lines(
            threads,
        ) + edge_lines(ordered) + "}\n"@,
{
    lemma_ranked(edges);
    lemma_sorted_same(ranked(edges), ordered);
    lemma_ranked_set(ends(edges));
    assert forall|t: i64| ranked_set(ends(edges)).contains(t) <==> threads.contains(t) by {
        lemma_ends(edges, t);
    }
    assert(sorted(threads));
    assert(threads.no_duplicates());
    lemma_sorted_unique(ranked_set(ends(edges)), threads);
}

/// The lines of a digraph stand one after the other, one for each thread and each
/// edge. A thread is labelled by its name; an edge leads from its source to its
/// target, and tells the delay that is attributed to it and its raw wait.
pub proof fn law_lines_add_up(
    a: Seq<EdgeOutput>,
    b: Seq<EdgeOutput>,
    s: Seq<i64>,
    t: Seq<i64>,
)
    ensures
        edge_lines(a + b) == edge_lines(a) + edge_lines(b),
        node_lines(s + t) == node_lines(s) + node_lines(t),
        forall|e: EdgeOutput| #[trigger]
            edge_lines(seq![e]) == "    "@ + node_name(e.src.0) + " -> "@ + node_name(e.dst.0)
                + " [label=\""@ + decimal(e.attributed_delay_ms as nat) + "ms (raw "@ + decimal(
                e.raw_wait_ms as nat,
            ) + "ms)\"];\n"@,
        forall|n: i64| #[trigger]
            node_lines(seq![n]) == "    "@ + node_name(n) + " [label=\""@ + thread_name(n)
                + "\"];\n"@,
    decreases b.len() + t.len(),
{
    assert forall|e: EdgeOutput| #[trigger] edge_lines(seq![e]) == "    "@ + node_name(e.src.0)
        + " -> "@ + node_name(e.dst.0) + " [label=\""@ + decimal(e.attributed_delay_ms as nat)
        + "ms (raw "@ + decimal(e.raw_wait_ms as nat) + "ms)\"];\n"@ by {
        assert(seq![e].drop_last() =~= Seq::empty());
        assert(edge_lines(seq![e].drop_last()) =~= Seq::empty());
        assert(edge_lines(seq![e]) =~= edge_line(e));
    }
    assert forall|n: i64| #[trigger] node_lines(seq![n]) == "    "@ + node_name(n) + " [label=\""@
        + thread_name(n) + "\"];\n"@ by {
        assert(seq![n].drop_last() =~= Seq::empty());
        assert(node_lines(seq![n].drop_last()) =~= Seq::empty());
        assert(node_lines(seq![n]) =~= node_line(n));
    }
    if b.len() > 0 {
        law_lines_add_up(a, b.drop_last(), s, t);
        assert((a + b).drop_last() =~= a + b.drop_last());
        assert(edge_lines(a + b) =~= edge_lines(a) + edge_lines(b));
    } else {
        assert(a + b =~= a);
        assert(edge_lines(a) + edge_lines(b) =~= edge_lines(a));
    }
    if t.len() > 0 {
        law_lines_add_up(a, b, s, t.drop_last());
        assert((s + t).drop_last() =~= s + t.drop_last());
        assert(node_lines(s + t) =~= node_lines(s) + node_lines(t));
    } else {
        assert(s + t =~= s);
        assert(node_lines(s) + node_lines(t) =~= node_lines(s));
    }
}

} // verus!
