//! From a `.wperf` file to a wait-for graph: read, sort, correlate.

use vstd::prelude::*;

use crate::correlate::{
    correlate_any_events, correlate_events, correlated, empty_graph, graph_fits,
    law_correlated_graph, law_no_events, no_events, time_ordered, CorrelationStats,
};
use crate::format::event::{WperfEvent, EVENT_SIZE};
use crate::format::reader::{scan_all, ReaderError, Scan, WperfReader};
use crate::format::stream::{ByteStream, ErrorView};
use crate::format::writer::REC_TYPE_SCHED_EVENT;
use crate::graph::wfg::WaitForGraph;
use crate::sorting::{lemma_ranked, lemma_sorted_same, merge_sort, ranked, sorted, Ranked};

verus! {

/// Why a file could not be turned into a graph.
#[derive(Debug, Clone)]
pub enum PipelineError {
    /// The file could not be read.
    Reader(ReaderError),
}

impl PipelineError {
    /// The text of the error.
    pub open spec fn text(&self) -> Seq<char> {
        match self {
            PipelineError::Reader(e) => "reader error: "@ + e.text(),
        }
    }

    /// The error in words.
    pub fn message(&self) -> (s: String)
        ensures
            s@ == self.text(),
    {
        match self {
            PipelineError::Reader(e) => {
                let mut s = "reader error: ".to_owned();
                s.append(e.message().as_str());
                s
            },
        }
    }

    /// The error behind this one.
    pub fn source(&self) -> (r: Option<&ReaderError>)
        ensures
            r matches Some(e) && *self == PipelineError::Reader(*e),
    {
        match self {
            PipelineError::Reader(e) => Some(e),
        }
    }
}

/// Figures on the way from file to graph.
#[derive(Debug, Clone, Copy, PartialEq, Eq, Structural)]
pub struct PipelineStats {
    /// How many events the file holds.
    pub events_read: u64,
    pub correlation: CorrelationStats,
}

impl Default for PipelineStats {
    fn default() -> (s: Self)
        ensures
            s.events_read == 0,
            s.correlation@ == no_events(),
    {
        PipelineStats { events_read: 0, correlation: CorrelationStats::default() }
    }
}

/// The events that a reader has before it, what ends them, and where.
pub open spec fn ahead<R: ByteStream>(reader: WperfReader<R>) -> (Seq<WperfEvent>, Scan, int) {
    scan_all(reader.bytes(), reader.data_end(), reader.at())
}

/// `e` tells why the events end as they do. I/O errors come of streams that are
/// not healthy, and are the last error of theirs, `failure`.
pub open spec fn tells_why(
    e: ReaderError,
    end: Scan,
    healthy: bool,
    failure: Option<ErrorView>,
) -> bool {
    match e {
        ReaderError::PayloadTooLarge { rec_type, length } => end == Scan::TooLarge {
            rec_type,
            length,
        },
        ReaderError::UnexpectedPayloadSize { rec_type, expected, actual } => end == Scan::BadSize {
            actual,
        } && rec_type == REC_TYPE_SCHED_EVENT && expected == EVENT_SIZE,
        ReaderError::Io(io) => !healthy && failure == Some(io@),
        _ => false,
    }
}

/// What turning what the reader `before` has before it into a graph may come to:
/// the result and the reader.
pub open spec fn graph_outcome<R: ByteStream>(
    before: WperfReader<R>,
    threshold: u64,
    r: Result<(WaitForGraph, PipelineStats), PipelineError>,
    after: WperfReader<R>,
) -> bool {
    let (events, end, _) = ahead(before);
    match r {
        Ok((graph, stats)) => {
            &&& end is End
            &&& graph.wf()
            &&& (graph@, stats.correlation@) == correlated(ranked(events), threshold)
            &&& stats.events_read == events.len()
        },
        Err(PipelineError::Reader(e)) => tells_why(e, end, before.healthy(), after.failure()),
    }
}

/// Reads all events, sorts them by time, ties broken by the other fields, and
/// correlates them.
pub fn build_wait_for_graph<R: ByteStream>(
    reader: &mut WperfReader<R>,
    spurious_threshold_ns: u64,
) -> (r: Result<(WaitForGraph, PipelineStats), PipelineError>)
    requires
        old(reader).wf(),
        ahead(*old(reader)).1 is End ==> graph_fits(
            correlated(ranked(ahead(*old(reader)).0), spurious_threshold_ns).0,
        ),
    ensures
        final(reader).wf(),
        final(reader).same_file(old(reader)),
        old(reader).healthy() ==> final(reader).healthy(),
        graph_outcome(*old(reader), spurious_threshold_ns, r, *final(reader)),
{
    let events = match reader.read_all_events() {
        Ok(events) => events,
        Err(e) => {
            return Err(PipelineError::Reader(e));
        },
    };
    let (graph, stats) = graph_of_events(&events, spurious_threshold_ns);
    Ok((graph, stats))
}

/// Sorts events and correlates them.
pub fn graph_of_events(events: &Vec<WperfEvent>, spurious_threshold_ns: u64) -> (r: (
    WaitForGraph,
    PipelineStats,
))
    requires
        graph_fits(correlated(ranked(events@), spurious_threshold_ns).0),
    ensures
        r.0.wf(),
        (r.0@, r.1.correlation@) == correlated(ranked(events@), spurious_threshold_ns),
        r.1.events_read == events@.len(),
{
    let ordered = merge_sort(events);
    proof {
        lemma_sorted_in_time(ordered@);
    }
    let (graph, correlation) = correlate_events(ordered.as_slice(), spurious_threshold_ns);
    (graph, PipelineStats { events_read: events.len() as u64, correlation })
}

/// Sorts events and correlates them, however many they are: it is `None` exactly
/// if the graph is too large.
pub fn graph_of_any_events(events: &Vec<WperfEvent>, spurious_threshold_ns: u64) -> (r: Option<
    (WaitForGraph, PipelineStats),
>)
    ensures
        r is Some <==> graph_fits(correlated(ranked(events@), spurious_threshold_ns).0),
        r matches Some((graph, stats)) ==> {
            &&& graph.wf()
            &&& (graph@, stats.correlation@) == correlated(ranked(events@), spurious_threshold_ns)
            &&& stats.events_read == events@.len()
        },
{
    let ordered = merge_sort(events);
    proof {
        lemma_sorted_in_time(ordered@);
    }
    match correlate_any_events(ordered.as_slice(), spurious_threshold_ns) {
        Some((graph, correlation)) => Some(
            (graph, PipelineStats { events_read: events.len() as u64, correlation }),
        ),
        None => None,
    }
}

/// Sorted events are in the order of time.
pub proof fn lemma_sorted_in_time(events: Seq<WperfEvent>)
    requires
        sorted(events),
    ensures
        time_ordered(events),
{
    assert forall|i: int, j: int| 0 <= i < j < events.len() implies (
    #[trigger] events[i]).timestamp_ns <= (#[trigger] events[j]).timestamp_ns by {
        assert(events[i].not_after(events[j]));
    }
}

/// Graph and figures depend on nothing but which events two files hold, in
/// whatever order: wherever both are read they come out the same, as those of the
/// sorted events. All events count. Reading fails only where a device does.
pub proof fn law_files_with_the_same_events<A: ByteStream, B: ByteStream>(
    one: WperfReader<A>,
    r: Result<(WaitForGraph, PipelineStats), PipelineError>,
    one_after: WperfReader<A>,
    other: WperfReader<B>,
    s: Result<(WaitForGraph, PipelineStats), PipelineError>,
    other_after: WperfReader<B>,
    threshold: u64,
)
    requires
        ahead(one).1 is End,
        ahead(other).1 is End,
        ahead(one).0.to_multiset() == ahead(other).0.to_multiset(),
        graph_outcome(one, threshold, r, one_after),
        graph_outcome(other, threshold, s, other_after),
    ensures
        one.healthy() ==> r is Ok,
        other.healthy() ==> s is Ok,
        r matches Ok((graph, stats)) ==> {
            let sorted_events = ranked(ahead(one).0);
            &&& (graph@, stats.correlation@) == correlated(sorted_events, threshold)
            &&& stats.events_read == ahead(one).0.len()
            &&& stats.correlation.events_processed == ahead(one).0.len()
            &&& ahead(one).0.len() == 0 ==> graph@ == empty_graph() && stats.correlation@
                == no_events()
        },
        r matches Ok((graph, stats)) ==> (s matches Ok((graph2, stats2)) ==> graph@ == graph2@
            && stats == stats2),
{
    let a = ahead(one).0;
    let b = ahead(other).0;
    law_recorded_order_is_irrelevant(a, b, threshold);
    lemma_ranked(a);
    law_correlated_graph(ranked(a), threshold);
    assert(a.len() == b.len()) by {
        broadcast use vstd::seq_lib::group_to_multiset_ensures;

        assert(a.to_multiset().len() == a.len() && b.to_multiset().len() == b.len());
    }
    if a.len() == 0 {
        assert(ranked(a) =~= Seq::empty());
        law_no_events(threshold);
    }
    if let (Ok((_, stats)), Ok((_, stats2))) = (r, s) {
        assert(stats.correlation@ == stats2.correlation@);
        assert(stats.correlation == stats2.correlation);
    }
}

/// The order in which events were recorded does not matter: the same events
/// give the same graph and the same figures.
pub proof fn law_recorded_order_is_irrelevant(
    a: Seq<WperfEvent>,
    b: Seq<WperfEvent>,
    threshold: u64,
)
    requires
        a.to_multiset() == b.to_multiset(),
    ensures
        correlated(ranked(a), threshold) == correlated(ranked(b), threshold),
{
    lemma_ranked(a);
    lemma_ranked(b);
    lemma_sorted_same(ranked(a), ranked(b));
}

} // verus!
