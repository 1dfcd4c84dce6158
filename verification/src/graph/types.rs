//! Core types of the wait-for graph.
//!
//! All time values are `u64` milliseconds, so that conservation is exact.

use vstd::prelude::*;

use crate::sorting::Ranked;
use crate::text::{push_i64, signed_decimal};

verus! {

/// Thread identifier: the kernel's thread id. Negative values stand for
/// pseudo-threads (see the constants below).
#[derive(Debug, Clone, Copy, PartialEq, Eq, Hash, PartialOrd, Ord, Structural)]
pub struct ThreadId(pub i64);

impl Ranked for ThreadId {
    open spec fn not_after(self, other: Self) -> bool {
        self.0 <= other.0
    }

    proof fn order_is_total() {
    }

    fn is_not_after(&self, other: &Self) -> (b: bool) {
        self.0 <= other.0
    }
}

/// The name of a thread in reports: that of the device for pseudo-threads,
/// else the letter `T` and the number.
pub open spec fn thread_name(tid: i64) -> Seq<char> {
    if tid == NIC_TID {
        "NIC"@
    } else if tid == DISK_TID {
        "Disk"@
    } else if tid == SOFTIRQ_TID {
        "SoftIRQ"@
    } else if tid == HARDIRQ_TID {
        "HardIRQ"@
    } else {
        "T"@ + signed_decimal(tid as int)
    }
}

impl ThreadId {
    /// The thread's name in reports.
    pub fn label(&self) -> (s: String)
        ensures
            s@ == thread_name(self.0),
    {
        if self.0 == NIC_TID {
            "NIC".to_owned()
        } else if self.0 == DISK_TID {
            "Disk".to_owned()
        } else if self.0 == SOFTIRQ_TID {
            "SoftIRQ".to_owned()
        } else if self.0 == HARDIRQ_TID {
            "HardIRQ".to_owned()
        } else {
            let mut s = "T".to_owned();
            push_i64(&mut s, self.0);
            s
        }
    }
}

/// Pseudo-thread of the network card.
pub const NIC_TID: i64 = -4;

/// Pseudo-thread of the disk.
pub const DISK_TID: i64 = -5;

/// Pseudo-thread of hard interrupts.
pub const HARDIRQ_TID: i64 = -15;

/// Pseudo-thread of soft interrupts.
pub const SOFTIRQ_TID: i64 = -16;

/// Half-open time interval `[start_ms, end_ms)`.
#[derive(Debug, Clone, Copy, PartialEq, Eq, Structural)]
pub struct TimeWindow {
    pub start_ms: u64,
    pub end_ms: u64,
}

impl TimeWindow {
    /// The window does not end before it starts.
    pub open spec fn valid(&self) -> bool {
        self.start_ms <= self.end_ms
    }

    /// How long the window lasts.
    pub open spec fn span(&self) -> int {
        self.end_ms - self.start_ms
    }

    /// The moment `t` lies in the window.
    pub open spec fn has(&self, t: int) -> bool {
        self.start_ms <= t < self.end_ms
    }

    /// The moments that two windows share, if there are any.
    pub open spec fn meet(&self, other: TimeWindow) -> Option<TimeWindow> {
        let start = if self.start_ms >= other.start_ms {
            self.start_ms
        } else {
            other.start_ms
        };
        let end = if self.end_ms <= other.end_ms {
            self.end_ms
        } else {
            other.end_ms
        };
        if start < end {
            Some(TimeWindow { start_ms: start, end_ms: end })
        } else {
            None
        }
    }

    pub fn new(start_ms: u64, end_ms: u64) -> (w: Self)
        requires
            start_ms <= end_ms,
        ensures
            w == (TimeWindow { start_ms, end_ms }),
    {
        TimeWindow { start_ms, end_ms }
    }

    pub fn duration(&self) -> (d: u64)
        requires
            self.valid(),
        ensures
            d == self.span(),
    {
        self.end_ms - self.start_ms
    }

    /// The overlap with `other`, or `None` if the windows are disjoint: the
    /// result holds exactly the moments that lie in both.
    pub fn overlap(&self, other: &TimeWindow) -> (r: Option<TimeWindow>)
        ensures
            r == self.meet(*other),
            r matches Some(w) ==> w.start_ms < w.end_ms && forall|t: int|
                #[trigger] w.has(t) <==> self.has(t) && other.has(t),
            r is None ==> forall|t: int| !(#[trigger] self.has(t) && other.has(t)),
    {
        let s: u64 = if self.start_ms >= other.start_ms {
            self.start_ms
        } else {
            other.start_ms
        };
        let e: u64 = if self.end_ms <= other.end_ms {
            self.end_ms
        } else {
            other.end_ms
        };
        if s < e {
            Some(TimeWindow { start_ms: s, end_ms: e })
        } else {
            None
        }
    }

    /// Whether `point_ms` lies in the window.
    pub fn contains(&self, point_ms: u64) -> (b: bool)
        ensures
            b == self.has(point_ms as int),
    {
        point_ms >= self.start_ms && point_ms < self.end_ms
    }
}

/// What a thread was blocked on.
#[derive(Debug, Clone, Copy, PartialEq, Eq, Structural)]
pub enum WaitType {
    FutexWait,
    FutexLockPi,
    FutexWaitBitset,
    FutexWaitRequeuePi,
    IoBlock,
    Unknown,
}

/// Whether an edge records a wait or only closes a cycle through a device.
#[derive(Debug, Clone, Copy, PartialEq, Eq, Structural)]
pub enum EdgeKind {
    /// An observed wait: counts in attribution.
    Normal,
    /// The way back from a device pseudo-thread to the thread that waited for
    /// it. It makes the two strongly connected and carries no wait of its own.
    SyntheticClosureReturn,
}

/// Edge metadata of the wait-for graph.
#[derive(Debug, Clone, Copy, PartialEq, Eq, Structural)]
pub struct EdgeWeight {
    pub time_window: TimeWindow,
    pub raw_wait_ms: u64,
    pub attributed_delay_ms: u64,
    pub wait_type: Option<WaitType>,
    pub kind: EdgeKind,
}

/// The weight of an edge before any attribution.
pub open spec fn fresh_weight(
    window: TimeWindow,
    wait_type: Option<WaitType>,
    kind: EdgeKind,
) -> EdgeWeight {
    EdgeWeight {
        time_window: window,
        raw_wait_ms: window.span() as u64,
        attributed_delay_ms: window.span() as u64,
        wait_type,
        kind,
    }
}

impl EdgeWeight {
    /// A wait of unrecorded type, attributed in full.
    pub fn new(time_window: TimeWindow) -> (w: Self)
        requires
            time_window.valid(),
        ensures
            w == fresh_weight(time_window, None, EdgeKind::Normal),
    {
        let raw: u64 = time_window.duration();
        EdgeWeight {
            time_window,
            raw_wait_ms: raw,
            attributed_delay_ms: raw,
            wait_type: None,
            kind: EdgeKind::Normal,
        }
    }

    /// A wait of a known type, attributed in full.
    pub fn with_wait_type(time_window: TimeWindow, wait_type: WaitType) -> (w: Self)
        requires
            time_window.valid(),
        ensures
            w == fresh_weight(time_window, Some(wait_type), EdgeKind::Normal),
    {
        let mut w = EdgeWeight::new(time_window);
        w.wait_type = Some(wait_type);
        w
    }
}

/// Node metadata.
#[derive(Debug, Clone, Copy, PartialEq, Eq, Structural)]
pub struct NodeWeight {
    pub tid: ThreadId,
    pub kind: NodeKind,
}

#[derive(Debug, Clone, Copy, PartialEq, Eq, Structural)]
pub enum NodeKind {
    UserThread,
    KernelThread,
    PseudoDisk,
    PseudoNic,
    PseudoSoftirq,
}

/// A maximal time slice in which the set of concurrent wait targets is constant.
#[derive(Debug, Clone)]
pub struct ElementaryInterval {
    pub window: TimeWindow,
    /// Ascending, without repetitions.
    pub targets: Vec<ThreadId>,
}

/// What an [`ElementaryInterval`] stands for.
#[verifier::ext_equal]
pub struct IntervalView {
    pub window: TimeWindow,
    pub targets: Seq<ThreadId>,
}

impl View for ElementaryInterval {
    type V = IntervalView;

    open spec fn view(&self) -> IntervalView {
        IntervalView { window: self.window, targets: self.targets@ }
    }
}

// ---------------------------------------------------------------------------
// Laws
// ---------------------------------------------------------------------------

/// The overlap of two windows is the time that both hold: it has exactly the
/// moments that lie in the one and in the other, and there is none exactly if no
/// moment does. Which window comes first makes no difference.
pub proof fn law_overlap_is_shared_time(a: TimeWindow, b: TimeWindow)
    ensures
        a.meet(b) == b.meet(a),
        a.meet(b) matches Some(w) ==> {
            &&& w.start_ms < w.end_ms
            &&& forall|t: u64|
                #![trigger w.has(t as int)]
                (w.start_ms <= t && t < w.end_ms) <==> (a.start_ms <= t && t < a.end_ms
                    && b.start_ms <= t && t < b.end_ms)
        },
        a.meet(b) is None <==> forall|t: u64|
            #![trigger a.has(t as int)]
            !(a.start_ms <= t && t < a.end_ms && b.start_ms <= t && t < b.end_ms),
{
    if let Some(w) = a.meet(b) {
        let t = w.start_ms;
        assert(a.has(t as int));
    }
}

/// A new wait is as long as its window, and attributed in full.
pub proof fn law_new_waits_are_attributed_in_full(
    window: TimeWindow,
    wait_type: Option<WaitType>,
    kind: EdgeKind,
)
    requires
        window.start_ms <= window.end_ms,
    ensures
        ({
            let w = fresh_weight(window, wait_type, kind);
            &&& w.time_window == window
            &&& w.raw_wait_ms == window.end_ms - window.start_ms
            &&& w.attributed_delay_ms == window.end_ms - window.start_ms
            &&& w.wait_type == wait_type
            &&& w.kind == kind
        }),
{
}

/// Devices are named; threads have the letter `T` and their number for a name.
pub proof fn law_devices_are_named(tid: i64)
    ensures
        tid == -4 ==> thread_name(tid) == "NIC"@,
        tid == -5 ==> thread_name(tid) == "Disk"@,
        tid == -15 ==> thread_name(tid) == "HardIRQ"@,
        tid == -16 ==> thread_name(tid) == "SoftIRQ"@,
        tid != -4 && tid != -5 && tid != -15 && tid != -16 ==> thread_name(tid) == "T"@
            + signed_decimal(tid as int),
{
}

} // verus!
