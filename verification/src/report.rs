//! The report on a trace: everything from reading the file to the knots.

use vstd::prelude::*;

use crate::cascade::engine::{
    cascade_engine, cascaded, depth_or_default, waits_fill_windows,
};
use crate::cascade::invariants::{lemma_same_waits, non_amplified, InvariantError};
use crate::cascade::laws::{
    are_wait_moments, is_chain, law_cascade_changes_only_delays, law_cascade_never_amplifies,
    law_chain_attributes_own_time,
};
use crate::correlate::{correlated, graph_fits, law_correlated_graph};
use crate::critical_path::bounds::{paths_fit, weighed_dag};
use crate::critical_path::{critical_path_if_it_fits, is_critical_path, CriticalPath};
use crate::format::reader::{footer_outcome, Metadata, ReaderError, WperfReader};
use crate::format::stream::{ByteStream, StreamError};
use crate::graph::types::{EdgeKind, NodeKind, NodeWeight, ThreadId};
use crate::graph::wfg::{
    is_tid_order, law_nodes_by_thread, sum_attributed, sum_raw, tid_order, EdgeIndex, GraphView,
    WaitEdge, WaitForGraph,
};
use crate::output::{law_every_edge_is_reported, reported_edges, CascadeResult};
use crate::pipeline::{
    ahead, build_wait_for_graph, graph_of_any_events, tells_why, PipelineError, PipelineStats,
};
use crate::scc::heuristic::apply_max_heuristic;
use crate::scc::knot::{detect_knots, knot_list, Knot};
use crate::scc::tarjan::{
    build_condensation, in_scc, in_some_scc, is_condensation, scc_lists, sink_list, CondensationDag,
    DagView,
};
use crate::sorting::ranked;
use crate::text::{push_i64, signed_decimal};

verus! {

/// Why there is no report.
#[derive(Debug, Clone)]
pub enum ReportError {
    Io(StreamError),
    Pipeline(PipelineError),
    Cascade(InvariantError),
    /// Graphviz is not installed.
    GraphvizNotFound,
    /// Graphviz failed.
    GraphvizFailed {
        exit_code: Option<i32>,
        stderr: String,
    },
}

/// How much of the output of a failed program is told.
pub const STDERR_LIMIT: usize = 1024;

/// The first characters of a text.
pub open spec fn cut(s: Seq<char>, limit: int) -> Seq<char> {
    if s.len() <= limit {
        s
    } else {
        s.take(limit)
    }
}

impl ReportError {
    /// The text of the error.
    pub open spec fn text(&self) -> Seq<char> {
        match self {
            ReportError::Io(e) => "I/O error: "@ + e.text(),
            ReportError::Pipeline(e) => "pipeline error: "@ + e.text(),
            ReportError::Cascade(e) => "cascade invariant error: "@ + e.text(),
            ReportError::GraphvizNotFound =>
                "Graphviz 'dot' not found in PATH; install graphviz (https://graphviz.org) or use --format dot"@,
            ReportError::GraphvizFailed { exit_code, stderr } => {
                let code = match exit_code {
                    Some(c) => " (exit code "@ + signed_decimal(*c as int) + ")"@,
                    None => Seq::empty(),
                };
                let told = if stderr@.len() > 0 {
                    ": "@ + cut(stderr@, STDERR_LIMIT as int)
                } else {
                    Seq::empty()
                };
                "Graphviz 'dot' failed"@ + code + told
            },
        }
    }

    /// The error in words.
    pub fn message(&self) -> (s: String)
        ensures
            s@ == self.text(),
    {
        match self {
            ReportError::Io(e) => {
                let mut s = "I/O error: ".to_owned();
                s.append(e.message().as_str());
                s
            },
            ReportError::Pipeline(e) => {
                let mut s = "pipeline error: ".to_owned();
                s.append(e.message().as_str());
                s
            },
            ReportError::Cascade(e) => {
                let mut s = "cascade invariant error: ".to_owned();
                s.append(e.message().as_str());
                s
            },
            ReportError::GraphvizNotFound =>
                "Graphviz 'dot' not found in PATH; install graphviz (https://graphviz.org) or use --format dot".to_owned(),
            ReportError::GraphvizFailed { exit_code, stderr } => {
                let mut s = "Graphviz 'dot' failed".to_owned();
                let ghost start = s@;
                match exit_code {
                    Some(c) => {
                        s.append(" (exit code ");
                        push_i64(&mut s, *c as i64);
                        s.append(")");
                        assert(s@ =~= start + (" (exit code "@ + signed_decimal(*c as int) + ")"@));
                    },
                    None => {
                        assert(s@ =~= start + Seq::empty());
                    },
                }
                let ghost middle = s@;
                let n: usize = stderr.as_str().unicode_len();
                if n > 0 {
                    s.append(": ");
                    if n > STDERR_LIMIT {
                        s.append(stderr.as_str().substring_char(0, STDERR_LIMIT));
                    } else {
                        s.append(stderr.as_str());
                    }
                    assert(s@ =~= middle + (": "@ + cut(stderr@, STDERR_LIMIT as int)));
                } else {
                    assert(s@ =~= middle + Seq::empty());
                }
                s
            },
        }
    }

    /// The text of the error behind this one, if there is one.
    pub fn source_message(&self) -> (r: Option<String>)
        ensures
            r is Some <==> self is Io || self is Pipeline || self is Cascade,
            self matches ReportError::Io(e) ==> r->0@ == e.text(),
            self matches ReportError::Pipeline(e) ==> r->0@ == e.text(),
            self matches ReportError::Cascade(e) ==> r->0@ == e.text(),
    {
        match self {
            ReportError::Io(e) => Some(e.message()),
            ReportError::Pipeline(e) => Some(e.message()),
            ReportError::Cascade(e) => Some(e.message()),
            _ => None,
        }
    }
}

/// The error to report when a file cannot be opened: failures of the stream as
/// such, everything else as a fault in the file.
pub fn open_failure(e: ReaderError) -> (r: ReportError)
    ensures
        e matches ReaderError::Io(io) ==> r == ReportError::Io(io),
        !(e is Io) ==> r == ReportError::Pipeline(PipelineError::Reader(e)),
{
    match e {
        ReaderError::Io(io) => ReportError::Io(io),
        other => ReportError::Pipeline(PipelineError::Reader(other)),
    }
}

/// A threshold in microseconds, in nanoseconds.
pub fn threshold_ns(threshold_us: u32) -> (ns: u64)
    ensures
        ns == threshold_us * 1000,
{
    threshold_us as u64 * 1000
}

/// The report.
#[derive(Debug, Clone)]
pub struct ReportOutput {
    pub cascade: CascadeResult,
    pub critical_path: Option<CriticalPath>,
    pub knots: Vec<Knot>,
    pub stats: PipelineStats,
    pub health: HealthMetrics,
}

/// How far the report can be trusted.
#[derive(Debug, Clone)]
pub struct HealthMetrics {
    /// No delay exceeds its wait, and the waits are those of the trace.
    pub invariants_ok: bool,
    /// Events lost while recording, if the file tells.
    pub drop_count: Option<u64>,
    /// Wakeups of threads that were not known to sleep.
    pub unmatched_wakeup_count: u64,
    /// Not measured.
    pub partial_stack_count: Option<u64>,
    /// Not measured.
    pub cascade_depth_truncation_count: Option<u64>,
    /// Waits dropped because the thread was woken in vain.
    pub false_wakeup_filtered_count: Option<u64>,
    /// Completions of block requests whose issue was not seen.
    pub io_orphan_complete_count: Option<u64>,
    /// Block requests still pending at the end.
    pub io_pending_at_end_count: Option<u64>,
    /// Issues that replaced a pending request on the same sectors.
    pub io_userspace_pair_collision_count: Option<u64>,
    /// How much of the waits for each device is attributed to it; `None` if
    /// nothing was waited for.
    pub attributed_delay_ratio: Option<Vec<DelayRatio>>,
}

/// How much of the waits for a device is attributed to it: the ratio of two
/// sums, of which the second is not zero.
#[derive(Debug, Clone)]
pub struct DelayRatio {
    pub device: String,
    pub attributed_ms: u64,
    pub raw_ms: u64,
}

// ---------------------------------------------------------------------------
// Waits for devices
// ---------------------------------------------------------------------------

/// What a [`DelayRatio`] stands for.
#[verifier::ext_equal]
pub struct RatioView {
    pub device: Seq<char>,
    pub attributed_ms: nat,
    pub raw_ms: nat,
}

impl View for DelayRatio {
    type V = RatioView;

    open spec fn view(&self) -> RatioView {
        RatioView {
            device: self.device@,
            attributed_ms: self.attributed_ms as nat,
            raw_ms: self.raw_ms as nat,
        }
    }
}

/// The thread is a node of the given kind.
pub open spec fn is_of_kind(nodes: Seq<NodeWeight>, tid: ThreadId, kind: NodeKind) -> bool {
    exists|i: int|
        0 <= i < nodes.len() && (#[trigger] nodes[i]).tid == tid && nodes[i].kind == kind
}

/// The edge is a wait for a device of the given kind. The way back from a
/// device is none.
pub open spec fn waits_for_device(nodes: Seq<NodeWeight>, e: WaitEdge, kind: NodeKind) -> bool {
    e.weight.kind != EdgeKind::SyntheticClosureReturn && is_of_kind(nodes, e.dst, kind)
}

/// The raw waits for devices of a kind, and the delays attributed to them.
pub open spec fn device_sums(nodes: Seq<NodeWeight>, edges: Seq<WaitEdge>, kind: NodeKind) -> (
    nat,
    nat,
)
    decreases edges.len(),
{
    if edges.len() == 0 {
        (0, 0)
    } else {
        let before = device_sums(nodes, edges.drop_last(), kind);
        let e = edges.last();
        if waits_for_device(nodes, e, kind) {
            (
                before.0 + e.weight.raw_wait_ms as nat,
                before.1 + e.weight.attributed_delay_ms as nat,
            )
        } else {
            before
        }
    }
}

/// The ratio for devices of a kind, if they were waited for at all.
pub open spec fn device_ratio(g: GraphView, kind: NodeKind, device: Seq<char>) -> Seq<RatioView> {
    let sums = device_sums(g.nodes, g.edges, kind);
    if sums.0 > 0 {
        seq![RatioView { device, attributed_ms: sums.1, raw_ms: sums.0 }]
    } else {
        Seq::empty()
    }
}

/// The ratios for all devices, by name.
pub open spec fn device_ratios(g: GraphView) -> Seq<RatioView> {
    device_ratio(g, NodeKind::PseudoDisk, "disk"@) + device_ratio(
        g,
        NodeKind::PseudoNic,
        "nic"@,
    ) + device_ratio(g, NodeKind::PseudoSoftirq, "softirq"@)
}

/// A list of ratios says what `device_ratios` does.
pub open spec fn tells_ratios(r: Option<Vec<DelayRatio>>, g: GraphView) -> bool {
    match r {
        None => device_ratios(g).len() == 0,
        Some(v) => device_ratios(g).len() > 0 && v@.map_values(|d: DelayRatio| d@)
            == device_ratios(g),
    }
}

/// The sums for devices of a kind are ones that a `u64` can hold.
pub open spec fn device_sums_fit(g: GraphView, kind: NodeKind) -> bool {
    device_sums(g.nodes, g.edges, kind).0 <= u64::MAX && device_sums(g.nodes, g.edges, kind).1
        <= u64::MAX
}

proof fn lemma_device_sums_grow(
    nodes: Seq<NodeWeight>,
    edges: Seq<WaitEdge>,
    kind: NodeKind,
    n: int,
)
    requires
        0 <= n <= edges.len(),
    ensures
        device_sums(nodes, edges.take(n), kind).0 <= device_sums(nodes, edges, kind).0,
        device_sums(nodes, edges.take(n), kind).1 <= device_sums(nodes, edges, kind).1,
    decreases edges.len(),
{
    if n < edges.len() {
        assert(edges.drop_last().take(n) =~= edges.take(n));
        lemma_device_sums_grow(nodes, edges.drop_last(), kind, n);
    } else {
        assert(edges.take(n) =~= edges);
    }
}

/// Waits for devices are some of all waits.
pub proof fn lemma_device_sums(nodes: Seq<NodeWeight>, edges: Seq<WaitEdge>, kind: NodeKind)
    ensures
        device_sums(nodes, edges, kind).0 <= sum_raw(edges),
        device_sums(nodes, edges, kind).1 <= sum_attributed(edges),
    decreases edges.len(),
{
    if edges.len() > 0 {
        lemma_device_sums(nodes, edges.drop_last(), kind);
    }
}

fn sum_for_device(graph: &WaitForGraph, kind: NodeKind) -> (sums: (u64, u64))
    requires
        graph.wf(),
        device_sums_fit(graph@, kind),
    ensures
        sums.0 == device_sums(graph@.nodes, graph@.edges, kind).0,
        sums.1 == device_sums(graph@.nodes, graph@.edges, kind).1,
{
    let ghost nodes = graph@.nodes;
    let ghost edges = graph@.edges;
    proof {
        graph.lemma_wf();
    }
    let n: usize = graph.edge_count();
    let mut raw: u64 = 0;
    let mut attributed: u64 = 0;
    for i in 0..n
        invariant
            graph.wf(),
            graph@.well_formed(),
            nodes == graph@.nodes,
            edges == graph@.edges,
            n == edges.len(),
            n <= u32::MAX,
            device_sums_fit(graph@, kind),
            raw == device_sums(nodes, edges.take(i as int), kind).0,
            attributed == device_sums(nodes, edges.take(i as int), kind).1,
    {
        let (_, dst, weight) = graph.edge(EdgeIndex(i as u32));
        proof {
            assert(graph@.has(edges[i as int].dst));
            assert(edges.take(i + 1).drop_last() =~= edges.take(i as int));
            lemma_device_sums_grow(nodes, edges, kind, i + 1);
        }
        match graph.node_index(&dst) {
            Some(idx) => {
                let hit = graph.node_weight(idx).kind == kind;
                proof {
                    assert(hit == is_of_kind(nodes, dst, kind)) by {
                        assert(nodes[idx.0 as int].tid == dst);
                        if is_of_kind(nodes, dst, kind) {
                            let k = choose|k: int|
                                0 <= k < nodes.len() && (#[trigger] nodes[k]).tid == dst
                                    && nodes[k].kind == kind;
                            assert(k == idx.0);
                        }
                    }
                }
                if hit && weight.kind != EdgeKind::SyntheticClosureReturn {
                    raw = raw + weight.raw_wait_ms;
                    attributed = attributed + weight.attributed_delay_ms;
                }
            },
            None => {},
        }
    }
    assert(edges.take(edges.len() as int) =~= edges);
    (raw, attributed)
}

fn push_ratio(r: &mut Vec<DelayRatio>, graph: &WaitForGraph, kind: NodeKind, device: &str)
    requires
        graph.wf(),
        device_sums_fit(graph@, kind),
    ensures
        final(r)@.map_values(|d: DelayRatio| d@) == old(r)@.map_values(|d: DelayRatio| d@)
            + device_ratio(graph@, kind, device@),
{
    let (raw_ms, attributed_ms) = sum_for_device(graph, kind);
    if raw_ms > 0 {
        r.push(DelayRatio { device: device.to_owned(), attributed_ms, raw_ms });
    }
    assert(r@.map_values(|d: DelayRatio| d@) =~= old(r)@.map_values(|d: DelayRatio| d@)
        + device_ratio(graph@, kind, device@));
}

/// How much of the waits for each device is attributed to it.
///
/// For each device the sums go over the edges that lead to it, other than the
/// ways back. Devices that nobody waited for are left out; `None` means that
/// none is left.
pub fn compute_io_attributed_delay_ratio(cascaded: &WaitForGraph) -> (r: Option<Vec<DelayRatio>>)
    requires
        cascaded.wf(),
        device_sums_fit(cascaded@, NodeKind::PseudoDisk),
        device_sums_fit(cascaded@, NodeKind::PseudoNic),
        device_sums_fit(cascaded@, NodeKind::PseudoSoftirq),
    ensures
        tells_ratios(r, cascaded@),
{
    let mut r: Vec<DelayRatio> = Vec::new();
    assert(r@.map_values(|d: DelayRatio| d@) =~= Seq::empty());
    push_ratio(&mut r, cascaded, NodeKind::PseudoDisk, "disk");
    push_ratio(&mut r, cascaded, NodeKind::PseudoNic, "nic");
    push_ratio(&mut r, cascaded, NodeKind::PseudoSoftirq, "softirq");
    assert(r@.map_values(|d: DelayRatio| d@) == device_ratios(cascaded@));
    assert(r@.len() == r@.map_values(|d: DelayRatio| d@).len());
    if r.len() == 0 {
        None
    } else {
        Some(r)
    }
}

// ---------------------------------------------------------------------------
// The model of a report
// ---------------------------------------------------------------------------

/// The graph that a cascade makes of another: nodes by thread, edges with the
/// attributed delays.
pub open spec fn cascaded_graph(g: GraphView) -> GraphView {
    GraphView {
        nodes: tid_order(g.nodes).map_values(|i: int| g.nodes[i]),
        edges: cascaded(g.edges, depth_or_default(None)),
    }
}

/// All sums over the graph are ones that a `u64` can hold.
pub open spec fn sums_fit(g: GraphView) -> bool {
    sum_raw(g.edges) <= u64::MAX && paths_fit(cascaded_graph(g))
}

/// `dag` is the condensation of the graph with the heuristic's weights.
pub open spec fn is_weighed_condensation(graph: WaitForGraph, dag: DagView) -> bool {
    exists|plain: DagView| #[trigger]
        is_condensation(graph@.edges, scc_lists(graph@, graph.components()), plain) && dag
            == weighed_dag(graph@.edges, plain)
}

/// `knots` and `path` are those of the graph.
pub open spec fn is_analysis(
    graph: WaitForGraph,
    dag: CondensationDag,
    knots: Seq<Knot>,
    path: Option<CriticalPath>,
) -> bool {
    &&& is_weighed_condensation(graph, dag@)
    &&& is_critical_path(dag, path)
    &&& knots.map_values(|k: Knot| k@) == knot_list(
        dag@,
        graph@,
        sink_list(dag@, dag@.nodes.len() as int),
        sink_list(dag@, dag@.nodes.len() as int).len() as int,
    )
}

/// The health metrics follow from the rest.
pub open spec fn is_health(
    h: HealthMetrics,
    invariants_ok: bool,
    drop_count: Option<u64>,
    stats: PipelineStats,
    g: GraphView,
) -> bool {
    &&& h.invariants_ok == invariants_ok
    &&& h.drop_count == drop_count
    &&& h.unmatched_wakeup_count == stats.correlation.unmatched_wakeup_count
    &&& h.partial_stack_count is None
    &&& h.cascade_depth_truncation_count is None
    &&& h.false_wakeup_filtered_count == Some(stats.correlation.false_wakeup_filtered_count)
    &&& h.io_orphan_complete_count == Some(stats.correlation.io_orphan_complete_count)
    &&& h.io_pending_at_end_count == Some(stats.correlation.io_pending_at_end_count)
    &&& h.io_userspace_pair_collision_count == Some(
        stats.correlation.io_userspace_pair_collision_count,
    )
    &&& tells_ratios(h.attributed_delay_ratio, g)
}

/// `r` is the report on the graph `g`.
pub open spec fn is_report(
    r: ReportOutput,
    g: GraphView,
    stats: PipelineStats,
    drop_count: Option<u64>,
) -> bool {
    &&& r.stats == stats
    &&& r.cascade.reports(g, cascaded_graph(g))
    &&& is_health(
        r.health,
        r.cascade.graph_metrics.invariants_ok,
        drop_count,
        stats,
        cascaded_graph(g),
    )
    &&& exists|graph: WaitForGraph, dag: CondensationDag|
        graph@ == cascaded_graph(g) && #[trigger] is_analysis(
            graph,
            dag,
            r.knots@,
            r.critical_path,
        )
}

// ---------------------------------------------------------------------------
// Building a report
// ---------------------------------------------------------------------------

proof fn lemma_attributed_within_raw(edges: Seq<WaitEdge>)
    requires
        non_amplified(edges),
    ensures
        sum_attributed(edges) <= sum_raw(edges),
    decreases edges.len(),
{
    if edges.len() > 0 {
        let front = edges.drop_last();
        assert(non_amplified(front)) by {
            assert forall|e: int| 0 <= e < front.len() implies (
            #[trigger] front[e]).weight.attributed_delay_ms <= front[e].weight.raw_wait_ms by {
                assert(front[e] == edges[e]);
            }
        }
        lemma_attributed_within_raw(front);
        assert(edges[edges.len() - 1] == edges.last());
    }
}

proof fn lemma_same_raw(a: Seq<WaitEdge>, b: Seq<WaitEdge>)
    requires
        a.len() == b.len(),
        forall|e: int|
            0 <= e < a.len() ==> (#[trigger] a[e]).weight.raw_wait_ms == b[e].weight.raw_wait_ms,
    ensures
        sum_raw(a) == sum_raw(b),
    decreases a.len(),
{
    if a.len() > 0 {
        let c = a.drop_last();
        let d = b.drop_last();
        assert forall|e: int| 0 <= e < c.len() implies (#[trigger] c[e]).weight.raw_wait_ms
            == d[e].weight.raw_wait_ms by {
            assert(c[e] == a[e] && d[e] == b[e]);
        }
        lemma_same_raw(c, d);
        assert(a[a.len() - 1] == a.last() && b[b.len() - 1] == b.last());
    }
}

/// What a cascade attributes is no more than what was waited in all.
pub proof fn law_total_never_grows(g: GraphView)
    requires
        g.windows_valid(),
        waits_fill_windows(g.edges),
    ensures
        sum_raw(cascaded_graph(g).edges) == sum_raw(g.edges),
        sum_attributed(cascaded_graph(g).edges) <= sum_raw(g.edges),
{
    let result = cascaded_graph(g).edges;
    law_cascade_never_amplifies(g.edges, depth_or_default(None));
    lemma_attributed_within_raw(result);
    lemma_same_raw(g.edges, result);
}

/// The report on a graph: cascade, condensation, critical path and knots.
///
/// Fails exactly if some raw wait is not as long as its window, with the outcome
/// of the checks on the cascade.
pub fn report_on_graph(graph: &WaitForGraph, stats: PipelineStats, drop_count: Option<u64>) -> (r:
    Result<ReportOutput, ReportError>)
    requires
        graph.wf(),
        graph@.windows_valid(),
        sums_fit(graph@),
    ensures
        r is Ok <==> waits_fill_windows(graph@.edges),
        r matches Ok(report) ==> is_report(report, graph@, stats, drop_count)
            && report.cascade.edges@ == reported_edges(cascaded(graph@.edges, 10)),
        r matches Err(e) ==> (e matches ReportError::Cascade(c) && !c.i7_ok && c.i2_ok
            == non_amplified(cascaded_graph(graph@).edges)),
{
    report_if_it_fits(graph, stats, drop_count).unwrap()
}

/// The report on a graph, whatever its waits add up to: it is `None` only if a
/// sum over the graph is one that a `u64` cannot hold.
pub fn report_if_it_fits(graph: &WaitForGraph, stats: PipelineStats, drop_count: Option<u64>) -> (r:
    Option<Result<ReportOutput, ReportError>>)
    requires
        graph.wf(),
        graph@.windows_valid(),
    ensures
        match r {
            None => waits_fill_windows(graph@.edges) && !sums_fit(graph@),
            Some(Ok(report)) => waits_fill_windows(graph@.edges) && is_report(
                report,
                graph@,
                stats,
                drop_count,
            ) && report.cascade.edges@ == reported_edges(cascaded(graph@.edges, 10)),
            Some(Err(e)) => !waits_fill_windows(graph@.edges) && (e matches ReportError::Cascade(c)
                && !c.i7_ok && c.i2_ok == non_amplified(cascaded_graph(graph@).edges)),
        },
{
    let cascaded = match cascade_engine(graph, None) {
        Ok(c) => c,
        Err(e) => {
            return Some(Err(ReportError::Cascade(e)));
        },
    };
    let ghost g = graph@;
    proof {
        law_total_never_grows(g);
        assert(cascaded@ =~= cascaded_graph(g));
        lemma_device_sums(cascaded@.nodes, cascaded@.edges, NodeKind::PseudoDisk);
        lemma_device_sums(cascaded@.nodes, cascaded@.edges, NodeKind::PseudoNic);
        lemma_device_sums(cascaded@.nodes, cascaded@.edges, NodeKind::PseudoSoftirq);
    }
    if raw_total(graph) > u64::MAX as u128 {
        return None;
    }
    let cascade = CascadeResult::from_graph(graph, &cascaded);
    let mut cdag = build_condensation(&cascaded);
    let ghost plain = cdag@;
    let ghost sccs = scc_lists(cascaded@, cascaded.components());
    proof {
        assert forall|i: int, k: int|
            0 <= i < plain.nodes.len() && 0 <= k < plain.nodes[i].members.len() implies cascaded@.has(
        #[trigger] plain.nodes[i].members[k]) by {
            let tid = plain.nodes[i].members[k];
            assert(plain.nodes[i].members == sccs[i]);
            assert(sccs[i].contains(tid));
            assert(in_scc(sccs, i, tid));
            assert(in_some_scc(sccs, tid));
        }
    }
    apply_max_heuristic(&mut cdag, &cascaded);
    proof {
        assert(cdag@ =~= weighed_dag(cascaded@.edges, plain));
        assert(cdag@.links() =~= plain.links());
        assert(is_condensation(cascaded@.edges, sccs, plain));
    }
    let critical_path = match critical_path_if_it_fits(&cdag) {
        Some(path) => path,
        None => {
            return None;
        },
    };
    let knots = detect_knots(&cdag, &cascaded);
    proof {
        assert(is_weighed_condensation(cascaded, cdag@));
        assert(is_analysis(cascaded, cdag, knots@, critical_path));
    }
    let invariants_ok = cascade.graph_metrics.invariants_ok;
    let attributed_delay_ratio = compute_io_attributed_delay_ratio(&cascaded);
    let health = HealthMetrics {
        invariants_ok,
        drop_count,
        unmatched_wakeup_count: stats.correlation.unmatched_wakeup_count,
        partial_stack_count: None,
        cascade_depth_truncation_count: None,
        false_wakeup_filtered_count: Some(stats.correlation.false_wakeup_filtered_count),
        io_orphan_complete_count: Some(stats.correlation.io_orphan_complete_count),
        io_pending_at_end_count: Some(stats.correlation.io_pending_at_end_count),
        io_userspace_pair_collision_count: Some(
            stats.correlation.io_userspace_pair_collision_count,
        ),
        attributed_delay_ratio,
    };
    let report = ReportOutput { cascade, critical_path, knots, stats, health };
    proof {
        assert(report.cascade.reports(g, cascaded_graph(g)));
        assert(is_health(report.health, invariants_ok, drop_count, stats, cascaded_graph(g)));
        assert(is_analysis(cascaded, cdag, report.knots@, report.critical_path));
    }
    Some(Ok(report))
}

/// What a report on what the reader `before` has before it may come to: the
/// result and the reader. The drop count is the one that reading the footer gives.
pub open spec fn report_outcome<R: ByteStream>(
    before: WperfReader<R>,
    threshold: u64,
    r: Result<ReportOutput, ReportError>,
    after: WperfReader<R>,
) -> bool {
    let (events, end, _) = ahead(before);
    let (graph, counts) = correlated(ranked(events), threshold);
    match r {
        Ok(report) => {
            &&& end is End
            &&& report.stats.events_read == events.len()
            &&& report.stats.correlation@ == counts
            &&& is_report(report, graph, report.stats, report.health.drop_count)
            &&& exists|m: Metadata| #[trigger]
                footer_outcome(before, Ok(m), after) && report.health.drop_count == m.drop_count
        },
        Err(ReportError::Pipeline(PipelineError::Reader(e))) => {
            ||| tells_why(e, end, before.healthy(), after.failure())
            ||| end is End && footer_outcome(before, Err(e), after)
        },
        Err(_) => false,
    }
}

/// Runs the whole analysis on what a reader has before it.
///
/// Fails exactly if the records or the footer cannot be read.
pub fn build_report<R: ByteStream>(reader: &mut WperfReader<R>, spurious_threshold_ns: u64) -> (r:
    Result<ReportOutput, ReportError>)
    requires
        old(reader).wf(),
        ahead(*old(reader)).1 is End ==> ({
            let g = correlated(ranked(ahead(*old(reader)).0), spurious_threshold_ns).0;
            graph_fits(g) && sums_fit(g)
        }),
    ensures
        final(reader).wf(),
        final(reader).same_file(old(reader)),
        old(reader).healthy() ==> final(reader).healthy(),
        report_outcome(*old(reader), spurious_threshold_ns, r, *final(reader)),
{
    let (wfg, stats) = match build_wait_for_graph(reader, spurious_threshold_ns) {
        Ok(built) => built,
        Err(e) => {
            return Err(ReportError::Pipeline(e));
        },
    };
    let metadata = match reader.read_metadata() {
        Ok(m) => m,
        Err(e) => {
            return Err(ReportError::Pipeline(PipelineError::Reader(e)));
        },
    };
    proof {
        assert(footer_outcome(*old(reader), Ok(metadata), *reader));
        law_correlated_graph(ranked(ahead(*old(reader)).0), spurious_threshold_ns);
    }
    report_on_graph(&wfg, stats, metadata.drop_count)
}

/// The sum of the raw waits, without bound.
fn raw_total(graph: &WaitForGraph) -> (total: u128)
    requires
        graph.wf(),
    ensures
        total == sum_raw(graph@.edges),
        total <= u32::MAX * u64::MAX,
{
    let ghost edges = graph@.edges;
    proof {
        graph.lemma_wf();
    }
    let n: usize = graph.edge_count();
    let mut total: u128 = 0;
    for i in 0..n
        invariant
            graph.wf(),
            edges == graph@.edges,
            n == edges.len(),
            n <= u32::MAX,
            total == sum_raw(edges.take(i as int)),
            total <= i * u64::MAX,
    {
        proof {
            assert(edges.take(i + 1).drop_last() =~= edges.take(i as int));
        }
        total = total + graph.edge_weight(EdgeIndex(i as u32)).raw_wait_ms as u128;
    }
    assert(edges.take(edges.len() as int) =~= edges);
    total
}

/// Runs the whole analysis on what a reader has before it, whatever that is.
/// Returns `None` only for a trace whose graph is too large, or with waits too
/// long for their sums to be held.
pub fn build_any_report<R: ByteStream>(
    reader: &mut WperfReader<R>,
    spurious_threshold_ns: u64,
) -> (r: Option<Result<ReportOutput, ReportError>>)
    requires
        old(reader).wf(),
    ensures
        final(reader).wf(),
        final(reader).same_file(old(reader)),
        old(reader).healthy() ==> final(reader).healthy(),
        r matches Some(report) ==> report_outcome(
            *old(reader),
            spurious_threshold_ns,
            report,
            *final(reader),
        ),
        r is None ==> ahead(*old(reader)).1 is End && ({
            let g = correlated(ranked(ahead(*old(reader)).0), spurious_threshold_ns).0;
            !graph_fits(g) || !sums_fit(g)
        }),
{
    let events = match reader.read_all_events() {
        Ok(events) => events,
        Err(e) => {
            return Some(Err(ReportError::Pipeline(PipelineError::Reader(e))));
        },
    };
    let (wfg, stats) = match graph_of_any_events(&events, spurious_threshold_ns) {
        Some(built) => built,
        None => {
            return None;
        },
    };
    let metadata = match reader.read_metadata() {
        Ok(m) => m,
        Err(e) => {
            return Some(Err(ReportError::Pipeline(PipelineError::Reader(e))));
        },
    };
    proof {
        assert(footer_outcome(*old(reader), Ok(metadata), *reader));
        law_correlated_graph(ranked(events@), spurious_threshold_ns);
    }
    report_if_it_fits(&wfg, stats, metadata.drop_count)
}

// ---------------------------------------------------------------------------
// Laws
// ---------------------------------------------------------------------------

/// A report tells the edges of the graph after a cascade of depth ten. The totals
/// are those of the edges, and the counters those of the trace.
pub proof fn law_report_tells_the_cascade(
    r: ReportOutput,
    g: GraphView,
    stats: PipelineStats,
    drop_count: Option<u64>,
)
    requires
        is_report(r, g, stats, drop_count),
    ensures
        r.cascade.edges@ == reported_edges(cascaded(g.edges, 10)),
        r.cascade.graph_metrics.total_raw_wait_ms == sum_raw(g.edges),
        r.cascade.graph_metrics.total_attributed_delay_ms == sum_attributed(
            cascaded(g.edges, 10),
        ),
        r.cascade.graph_metrics.edge_count == g.edges.len(),
        r.stats == stats,
        r.health.invariants_ok == r.cascade.graph_metrics.invariants_ok,
        r.health.drop_count == drop_count,
        r.health.unmatched_wakeup_count == stats.correlation.unmatched_wakeup_count,
        r.health.false_wakeup_filtered_count == Some(
            stats.correlation.false_wakeup_filtered_count,
        ),
        r.health.io_orphan_complete_count == Some(stats.correlation.io_orphan_complete_count),
        r.health.io_pending_at_end_count == Some(stats.correlation.io_pending_at_end_count),
        r.health.io_userspace_pair_collision_count == Some(
            stats.correlation.io_userspace_pair_collision_count,
        ),
        r.health.partial_stack_count is None,
        r.health.cascade_depth_truncation_count is None,
{
}

/// A report on a chain redistributes: the delay that it tells for a wait is the
/// raw wait less the time in which the thread that is waited for waits itself.
pub proof fn law_report_redistributes(
    r: ReportOutput,
    g: GraphView,
    stats: PipelineStats,
    drop_count: Option<u64>,
    e: int,
    moments: Set<int>,
)
    requires
        is_report(r, g, stats, drop_count),
        g.edges.len() <= u32::MAX,
        g.windows_valid(),
        waits_fill_windows(g.edges),
        is_chain(g.edges),
        0 <= e < g.edges.len(),
        g.edges[e].src != g.edges[e].dst,
        are_wait_moments(g.edges, g.edges[e].dst, g.edges[e].weight.time_window, moments),
    ensures
        exists|k: int|
            0 <= k < r.cascade.edges@.len() && {
                let told = #[trigger] r.cascade.edges@[k];
                &&& told.src == g.edges[e].src
                &&& told.dst == g.edges[e].dst
                &&& told.raw_wait_ms == g.edges[e].weight.raw_wait_ms
                &&& told.attributed_delay_ms == g.edges[e].weight.raw_wait_ms - moments.len()
            },
{
    law_report_tells_the_cascade(r, g, stats, drop_count);
    let after = cascaded(g.edges, 10);
    let place = law_every_edge_is_reported(after);
    law_cascade_changes_only_delays(g.edges, 10, e);
    law_chain_attributes_own_time(g.edges, e, 10, moments);
    assert(0 <= place[e] < r.cascade.edges@.len());
    let told = r.cascade.edges@[place[e]];
    assert(told.src == g.edges[e].src);
}

/// The sums for a kind of devices add up over the edges: an edge counts, with its
/// raw wait and its attributed delay, if it leads to a node of that kind and is
/// not the way back from a device.
pub proof fn law_device_sums_add_up(
    nodes: Seq<NodeWeight>,
    a: Seq<WaitEdge>,
    b: Seq<WaitEdge>,
    kind: NodeKind,
)
    ensures
        device_sums(nodes, Seq::empty(), kind) == (0nat, 0nat),
        forall|e: WaitEdge|
            #![trigger device_sums(nodes, seq![e], kind)]
            {
                let counts = e.weight.kind == EdgeKind::Normal && exists|i: int|
                    0 <= i < nodes.len() && (#[trigger] nodes[i]).tid == e.dst && nodes[i].kind
                        == kind;
                &&& counts ==> device_sums(nodes, seq![e], kind) == (
                    e.weight.raw_wait_ms as nat,
                    e.weight.attributed_delay_ms as nat,
                )
                &&& !counts ==> device_sums(nodes, seq![e], kind) == (0nat, 0nat)
            },
        device_sums(nodes, a + b, kind).0 == device_sums(nodes, a, kind).0 + device_sums(
            nodes,
            b,
            kind,
        ).0,
        device_sums(nodes, a + b, kind).1 == device_sums(nodes, a, kind).1 + device_sums(
            nodes,
            b,
            kind,
        ).1,
    decreases b.len(),
{
    assert forall|e: WaitEdge|
        #![trigger device_sums(nodes, seq![e], kind)]
        {
            let counts = e.weight.kind == EdgeKind::Normal && exists|i: int|
                0 <= i < nodes.len() && (#[trigger] nodes[i]).tid == e.dst && nodes[i].kind == kind;
            &&& counts ==> device_sums(nodes, seq![e], kind) == (
                e.weight.raw_wait_ms as nat,
                e.weight.attributed_delay_ms as nat,
            )
            &&& !counts ==> device_sums(nodes, seq![e], kind) == (0nat, 0nat)
        } by {
        assert(seq![e].drop_last() =~= Seq::empty());
        assert(device_sums(nodes, Seq::empty(), kind) == (0nat, 0nat));
    }
    if b.len() == 0 {
        assert(a + b =~= a);
    } else {
        law_device_sums_add_up(nodes, a, b.drop_last(), kind);
        assert((a + b).drop_last() =~= a + b.drop_last());
    }
}

/// A ratio is told for the disk, the network card and soft interrupts, in this
/// order, each only if it was waited for, with both sums over the edges.
pub proof fn law_ratios_tell_all_devices(g: GraphView, r: Option<Vec<DelayRatio>>)
    requires
        tells_ratios(r, g),
    ensures
        ({
            let disk = device_sums(g.nodes, g.edges, NodeKind::PseudoDisk);
            let nic = device_sums(g.nodes, g.edges, NodeKind::PseudoNic);
            let softirq = device_sums(g.nodes, g.edges, NodeKind::PseudoSoftirq);
            let after_disk: int = if disk.0 > 0 {
                1
            } else {
                0
            };
            let after_nic: int = if nic.0 > 0 {
                after_disk + 1
            } else {
                after_disk
            };
            let count: int = if softirq.0 > 0 {
                after_nic + 1
            } else {
                after_nic
            };
            &&& r is None <==> count == 0
            &&& r matches Some(v) ==> {
                &&& v@.len() == count
                &&& disk.0 > 0 ==> v@[0].device@ == "disk"@ && v@[0].raw_ms == disk.0
                    && v@[0].attributed_ms == disk.1
                &&& nic.0 > 0 ==> v@[after_disk].device@ == "nic"@ && v@[after_disk].raw_ms == nic.0
                    && v@[after_disk].attributed_ms == nic.1
                &&& softirq.0 > 0 ==> v@[after_nic].device@ == "softirq"@ && v@[after_nic].raw_ms
                    == softirq.0 && v@[after_nic].attributed_ms == softirq.1
            }
        }),
{
    let a = device_ratio(g, NodeKind::PseudoDisk, "disk"@);
    let b = device_ratio(g, NodeKind::PseudoNic, "nic"@);
    let c = device_ratio(g, NodeKind::PseudoSoftirq, "softirq"@);
    let all = a + b + c;
    assert(all == device_ratios(g));
    assert(all.len() == a.len() + b.len() + c.len());
    if let Some(v) = r {
        let views = v@.map_values(|d: DelayRatio| d@);
        assert forall|i: int| 0 <= i < v@.len() implies #[trigger] all[i] == v@[i]@ by {
            assert(views[i] == v@[i]@);
        }
        assert(views.len() == v@.len());
        if a.len() > 0 {
            assert(all[0] == a[0]);
            assert(all[0] == v@[0]@);
        }
        if b.len() > 0 {
            assert(all[a.len() as int] == b[0]);
            assert(all[a.len() as int] == v@[a.len() as int]@);
        }
        if c.len() > 0 {
            assert(all[(a.len() + b.len()) as int] == c[0]);
            assert(all[(a.len() + b.len()) as int] == v@[(a.len() + b.len()) as int]@);
        }
    }
}

/// Of the output of a failed program no more than its first 1024 characters are
/// told, and all of it if it has no more.
pub proof fn law_output_is_cut(s: Seq<char>)
    ensures
        s.len() <= 1024 ==> cut(s, STDERR_LIMIT as int) == s,
        s.len() > 1024 ==> cut(s, STDERR_LIMIT as int) == s.subrange(0, 1024),
{
}

/// A report on waits that are as long as their windows says that the checks hold:
/// no delay exceeds its wait, and the waits are those of the trace.
pub proof fn law_report_is_sound(
    r: ReportOutput,
    g: GraphView,
    stats: PipelineStats,
    drop_count: Option<u64>,
)
    requires
        is_report(r, g, stats, drop_count),
        g.edges.len() <= u32::MAX,
        g.windows_valid(),
        waits_fill_windows(g.edges),
    ensures
        r.cascade.graph_metrics.invariants_ok,
        r.health.invariants_ok,
        r.cascade.graph_metrics.total_attributed_delay_ms
            <= r.cascade.graph_metrics.total_raw_wait_ms,
{
    let after = cascaded(g.edges, 10);
    assert(cascaded_graph(g).edges == after);
    assert forall|e: int| 0 <= e < g.edges.len() implies (
    #[trigger] g.edges[e]).weight.time_window.valid() by {}
    law_cascade_never_amplifies(g.edges, 10);
    assert forall|e: int| 0 <= e < g.edges.len() implies (#[trigger] g.edges[e]).src == after[e].src
        && g.edges[e].dst == after[e].dst && g.edges[e].weight.time_window
        == after[e].weight.time_window && g.edges[e].weight.raw_wait_ms
        == after[e].weight.raw_wait_ms by {
        law_cascade_changes_only_delays(g.edges, 10, e);
    }
    lemma_same_waits(g.edges, after);
    law_total_never_grows(g);
}

/// A report counts every node of the graph.
pub proof fn law_report_counts_nodes(
    r: ReportOutput,
    g: GraphView,
    stats: PipelineStats,
    drop_count: Option<u64>,
    order: Seq<int>,
)
    requires
        is_report(r, g, stats, drop_count),
        is_tid_order(g.nodes, order),
    ensures
        r.cascade.graph_metrics.node_count == g.nodes.len(),
{
    law_nodes_by_thread(g.nodes, order);
}

} // verus!
