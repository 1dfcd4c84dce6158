//! Recording: from kernel events to a `.wperf` file.
//!
//! Loading programs into the kernel, waiting for events and the clock are the
//! caller's. What to load, how large buffers are, which bytes are events, in
//! which order they reach the file and when to stop is decided here.

use vstd::prelude::*;

use crate::correlate::time_ordered;
use crate::format::event::{
    event_bytes, event_from, law_bytes_round_trip, law_event_round_trip, WperfEvent, EVENT_SIZE,
};
use crate::format::header::HEADER_SIZE;
use crate::format::laws::written;
use crate::format::stream::{overwrite, ByteStream, ErrorView, StreamError};
use crate::format::wire::lemma_le_len;
use crate::format::writer::{
    after_record, bookmark_cut, finish_cut, finished_bytes, footer_size,
    law_failed_write_keeps_records, lemma_record, opened, record_bytes, record_cut, WperfWriter,
    WriterView, BOOKMARK_INTERVAL, RECORD_SIZE,
};
use crate::probe::features::{TracepointMode, TransportMode};
use crate::sorting::sorted;
use crate::text::{chars_of, next_word, parse_u32, unsigned_32, words};
use crate::transport::config::{
    default_config, is_next_power, is_ringbuf_size, next_power_of_two, TransportConfig,
};
use crate::transport::reorder::{
    flow, fresh_buffer, late_within, law_reorder_keeps_events, law_reorder_restores_order,
    taken_in, ReorderBuf, ReorderView, DEFAULT_WINDOW_NS,
};

verus! {

/// Why a recording failed.
#[derive(Debug, Clone)]
pub enum RecordError {
    /// Support for loading programs is not compiled in.
    NoBpfSupport,
    /// Probing failed.
    Probe(String),
    /// Loading or attaching programs failed.
    Bpf(String),
    /// Signal handlers could not be registered.
    SignalSetup(StreamError),
    Io(StreamError),
}

impl RecordError {
    /// The text of the error.
    pub open spec fn text(&self) -> Seq<char> {
        match self {
            RecordError::NoBpfSupport =>
                "this build of wperf was compiled without BPF support; rebuild with `--features bpf`"@,
            RecordError::Probe(msg) => "feature probing failed: "@ + msg@,
            RecordError::Bpf(msg) => "BPF error: "@ + msg@,
            RecordError::SignalSetup(e) => "failed to register signal handler: "@ + e.text(),
            RecordError::Io(e) => "record I/O error: "@ + e.text(),
        }
    }

    /// The error in words.
    pub fn message(&self) -> (s: String)
        ensures
            s@ == self.text(),
    {
        match self {
            RecordError::NoBpfSupport =>
                "this build of wperf was compiled without BPF support; rebuild with `--features bpf`".to_owned(),
            RecordError::Probe(msg) => {
                let mut s = "feature probing failed: ".to_owned();
                s.append(msg.as_str());
                s
            },
            RecordError::Bpf(msg) => {
                let mut s = "BPF error: ".to_owned();
                s.append(msg.as_str());
                s
            },
            RecordError::SignalSetup(e) => {
                let mut s = "failed to register signal handler: ".to_owned();
                s.append(e.message().as_str());
                s
            },
            RecordError::Io(e) => {
                let mut s = "record I/O error: ".to_owned();
                s.append(e.message().as_str());
                s
            },
        }
    }

    /// The error of the stream behind this one, if there is any.
    pub fn source(&self) -> (r: Option<&StreamError>)
        ensures
            r == (match self {
                RecordError::SignalSetup(e) => Some(e),
                RecordError::Io(e) => Some(e),
                _ => None,
            }),
    {
        match self {
            RecordError::SignalSetup(e) => Some(e),
            RecordError::Io(e) => Some(e),
            _ => None,
        }
    }
}

// ---------------------------------------------------------------------------
// Setting up
// ---------------------------------------------------------------------------

/// `size` bytes in pages, rounded up.
pub open spec fn pages(size: u32, page_size: int) -> int {
    (size + page_size - 1) / page_size
}

/// The text of the error for an unknown page size.
pub open spec fn page_size_text() -> Seq<char> {
    "failed to retrieve system page size via sysconf"@
}

/// The transport for a mode and the buffer size that was asked for, if any was.
///
/// A ring buffer takes the size as it is. Per-CPU buffers take the least power
/// of two of pages that holds it; `page_size` is what the system says, and not
/// positive if it does not know.
pub fn choose_transport(mode: TransportMode, buffer_size: Option<u32>, page_size: i64) -> (r:
    Result<TransportConfig, RecordError>)
    requires
        mode is RingBuf ==> (buffer_size matches Some(size) ==> is_ringbuf_size(size)),
        mode is PerfArray ==> (buffer_size matches Some(size) ==> page_size <= u32::MAX && (
        page_size > 0 ==> pages(size, page_size as int) <= 0x8000_0000)),
    ensures
        buffer_size is None ==> r == Ok::<TransportConfig, RecordError>(default_config(mode)),
        mode is RingBuf ==> (buffer_size matches Some(size) ==> r == Ok::<
            TransportConfig,
            RecordError,
        >((TransportConfig { mode, ringbuf_size: size, perf_pages: 0 }))),
        mode is PerfArray && buffer_size is Some && page_size <= 0 ==> (r matches Err(
            RecordError::Io(e),
        ) && e is Other && e.text() == page_size_text()),
        mode is PerfArray && page_size > 0 ==> (buffer_size matches Some(size) ==> (r matches Ok(
            c,
        ) && c.mode == mode && c.ringbuf_size == 0 && is_next_power(
            pages(size, page_size as int),
            c.perf_pages as int,
        ))),
{
    match buffer_size {
        None => Ok(TransportConfig::from_mode(mode)),
        Some(size) => match mode {
            TransportMode::RingBuf => Ok(TransportConfig::ringbuf(size)),
            TransportMode::PerfArray => {
                if page_size <= 0 {
                    return Err(
                        RecordError::Io(
                            StreamError::other("failed to retrieve system page size via sysconf"),
                        ),
                    );
                }
                let page: u64 = page_size as u64;
                let n: u64 = (size as u64 + page - 1) / page;
                Ok(TransportConfig::perfarray(next_power_of_two(n as u32)))
            },
        },
    }
}

/// The programs that are not loaded in a tracepoint mode: those written for the
/// other one.
pub open spec fn unused_programs(mode: TracepointMode) -> Seq<Seq<char>> {
    match mode {
        TracepointMode::TpBtf => seq![
            "handle_sched_switch_raw"@,
            "handle_sched_wakeup_raw"@,
            "handle_block_rq_issue_raw"@,
            "handle_block_rq_complete_raw"@,
        ],
        TracepointMode::RawTp => seq![
            "handle_sched_switch_btf"@,
            "handle_sched_wakeup_btf"@,
            "handle_block_rq_issue_btf"@,
            "handle_block_rq_complete_btf"@,
        ],
    }
}

/// The programs that are not loaded in a tracepoint mode.
pub fn disabled_programs(mode: TracepointMode) -> (r: Vec<String>)
    ensures
        r@.len() == 4,
        forall|i: int| 0 <= i < 4 ==> (#[trigger] r@[i])@ == unused_programs(mode)[i],
{
    let mut r: Vec<String> = Vec::new();
    match mode {
        TracepointMode::TpBtf => {
            r.push("handle_sched_switch_raw".to_owned());
            r.push("handle_sched_wakeup_raw".to_owned());
            r.push("handle_block_rq_issue_raw".to_owned());
            r.push("handle_block_rq_complete_raw".to_owned());
        },
        TracepointMode::RawTp => {
            r.push("handle_sched_switch_btf".to_owned());
            r.push("handle_sched_wakeup_btf".to_owned());
            r.push("handle_block_rq_issue_btf".to_owned());
            r.push("handle_block_rq_complete_btf".to_owned());
        },
    }
    r
}

/// How long the first line of a text is.
pub open spec fn line_len(s: Seq<char>) -> nat
    decreases s.len(),
{
    if s.len() == 0 || s[0] == '\n' {
        0
    } else {
        1 + line_len(s.skip(1))
    }
}

/// The process id on a line of `/proc/self/status`: the first word after the
/// label `NSpid:`, if it is a number.
pub open spec fn line_pid(line: Seq<char>) -> Option<u32> {
    let label = "NSpid:"@;
    if label.is_prefix_of(line) && words(line.skip(label.len() as int)).len() > 0 {
        unsigned_32(words(line.skip(label.len() as int))[0])
    } else {
        None
    }
}

/// The first process id that a line of `/proc/self/status` gives.
pub open spec fn status_pid(status: Seq<char>) -> Option<u32>
    decreases status.len(),
{
    let n = line_len(status) as int;
    match line_pid(status.take(n)) {
        Some(pid) => Some(pid),
        None => if n < status.len() {
            status_pid(status.skip(n + 1))
        } else {
            None
        },
    }
}

/// The process id on a line.
fn pid_on_line(line: &Vec<char>) -> (r: Option<u32>)
    ensures
        r == line_pid(line@),
{
    proof {
        reveal_strlit("NSpid:");
    }
    let ghost label = "NSpid:"@;
    if line.len() < 6 || line[0] != 'N' || line[1] != 'S' || line[2] != 'p' || line[3] != 'i'
        || line[4] != 'd' || line[5] != ':' {
        proof {
            if label.is_prefix_of(line@) {
                assert(label[0] == 'N' && label[1] == 'S' && label[2] == 'p' && label[3] == 'i'
                    && label[4] == 'd' && label[5] == ':');
                assert(forall|i: int| 0 <= i < 6 ==> label[i] == #[trigger] line@[i]);
            }
        }
        return None;
    }
    assert(label =~= line@.subrange(0, 6));
    match next_word(line, 6) {
        None => None,
        Some((a, b)) => {
            assert(words(line@.skip(6))[0] == line@.subrange(a as int, b as int));
            parse_u32(line, a, b)
        },
    }
}

/// The process id of this process in the outermost namespace, which is what
/// kernel programs see: the one that `/proc/self/status` gives, if it could be
/// read and gives one, else the plain process id.
pub fn global_tgid(status: Option<&str>, process_id: u32) -> (pid: u32)
    ensures
        pid == (match status {
            Some(text) => match status_pid(text@) {
                Some(p) => p,
                None => process_id,
            },
            None => process_id,
        }),
{
    let text = match status {
        Some(text) => text,
        None => {
            return process_id;
        },
    };
    let s = chars_of(text);
    let mut from: usize = 0;
    assert(s@.skip(0) =~= s@);
    loop
        invariant
            from <= s@.len(),
            s@ == text@,
            status == Some(text),
            status_pid(text@) == status_pid(s@.skip(from as int)),
        decreases s@.len() - from,
    {
        let ghost rest = s@.skip(from as int);
        let mut line: Vec<char> = Vec::new();
        let mut to: usize = from;
        while to < s.len() && s[to] != '\n'
            invariant
                from <= to <= s@.len(),
                line@ == s@.subrange(from as int, to as int),
                line_len(s@.skip(from as int)) == to - from + line_len(s@.skip(to as int)),
            decreases s@.len() - to,
        {
            assert(s@.skip(to as int).skip(1) =~= s@.skip(to + 1));
            assert(s@.subrange(from as int, to + 1) =~= s@.subrange(from as int, to as int).push(
                s@[to as int],
            ));
            line.push(s[to]);
            to = to + 1;
        }
        proof {
            assert(line_len(rest) == to - from);
            assert(rest.take(to - from) =~= line@);
        }
        match pid_on_line(&line) {
            Some(pid) => {
                return pid;
            },
            None => {},
        }
        if to == s.len() {
            return process_id;
        }
        assert(rest.skip(to - from + 1) =~= s@.skip(to + 1));
        from = to + 1;
    }
}

// ---------------------------------------------------------------------------
// Recording
// ---------------------------------------------------------------------------

/// A recording goes on until a stop is requested, or the deadline comes, if
/// there is one.
pub open spec fn goes_on(stop_requested: bool, now_ns: u64, deadline_ns: Option<u64>) -> bool {
    !stop_requested && (deadline_ns matches Some(d) ==> now_ns < d)
}

/// Whether to go on waiting for events.
pub fn keep_polling(stop_requested: bool, now_ns: u64, deadline_ns: Option<u64>) -> (b: bool)
    ensures
        b == goes_on(stop_requested, now_ns, deadline_ns),
{
    if stop_requested {
        return false;
    }
    match deadline_ns {
        Some(d) => now_ns < d,
        None => true,
    }
}

/// What a recording does next.
#[derive(Debug, Clone, Copy, PartialEq, Eq, Structural)]
pub enum Step {
    /// Take in the events that have come, waiting for them if need be.
    Poll,
    /// Let some time pass.
    Pause,
    /// Take in the events that are still queued, and write those held back.
    Drain,
    /// Close the file.
    Finish,
}

/// For how long a poll of per-CPU buffers waits, in milliseconds. Ring buffers
/// are read without waiting.
pub const POLL_TIMEOUT_MS: i32 = 500;

/// How long a pause is, in milliseconds.
pub const PAUSE_MS: u64 = 50;

/// What follows after the step `last`, if there was one: polls for as long as
/// the recording goes on, then one drain, then the end. A ring buffer that had
/// nothing to give, `idle`, is left alone for a while.
pub open spec fn step_after(
    mode: TransportMode,
    last: Option<Step>,
    idle: bool,
    keep_going: bool,
) -> Step {
    match last {
        Some(Step::Drain) => Step::Finish,
        Some(Step::Finish) => Step::Finish,
        Some(Step::Poll) if mode is RingBuf && idle => Step::Pause,
        _ => if keep_going {
            Step::Poll
        } else {
            Step::Drain
        },
    }
}

/// What a recording does next, after the step `last`, if there was one.
pub fn next_step(
    mode: TransportMode,
    last: Option<Step>,
    idle: bool,
    stop_requested: bool,
    now_ns: u64,
    deadline_ns: Option<u64>,
) -> (step: Step)
    ensures
        step == step_after(mode, last, idle, goes_on(stop_requested, now_ns, deadline_ns)),
{
    match last {
        Some(Step::Drain) => {
            return Step::Finish;
        },
        Some(Step::Finish) => {
            return Step::Finish;
        },
        Some(Step::Poll) => {
            if idle && mode == TransportMode::RingBuf {
                return Step::Pause;
            }
        },
        _ => {},
    }
    if keep_polling(stop_requested, now_ns, deadline_ns) {
        Step::Poll
    } else {
        Step::Drain
    }
}

/// For how long a poll waits, in milliseconds.
pub fn poll_timeout_ms(mode: TransportMode) -> (ms: i32)
    ensures
        ms == (match mode {
            TransportMode::RingBuf => 0i32,
            TransportMode::PerfArray => POLL_TIMEOUT_MS,
        }),
{
    match mode {
        TransportMode::RingBuf => 0,
        TransportMode::PerfArray => POLL_TIMEOUT_MS,
    }
}

/// The event in the bytes that the kernel delivered. What is shorter than an
/// event is none; what is longer is cut.
pub open spec fn sample_event(data: Seq<u8>) -> Option<WperfEvent> {
    if data.len() < EVENT_SIZE {
        None
    } else {
        Some(event_from(data.take(EVENT_SIZE as int)))
    }
}

/// The event in the bytes that the kernel delivered, if they hold one.
pub fn decode_sample(data: &[u8]) -> (r: Option<WperfEvent>)
    ensures
        r == sample_event(data@),
{
    if data.len() < EVENT_SIZE {
        return None;
    }
    let mut raw: [u8; EVENT_SIZE] = [0u8; EVENT_SIZE];
    for i in 0..EVENT_SIZE
        invariant
            data@.len() >= EVENT_SIZE,
            forall|k: int| 0 <= k < i ==> #[trigger] raw@[k] == data@[k],
    {
        raw[i] = data[i];
    }
    assert(raw@ =~= data@.take(EVENT_SIZE as int));
    Some(WperfEvent::from_bytes(&raw))
}

/// A writer after more events.
pub open spec fn writes(v: WriterView, events: Seq<WperfEvent>) -> WriterView
    decreases events.len(),
{
    if events.len() == 0 {
        v
    } else {
        after_record(writes(v, events.drop_last()), event_bytes(events.last()))
    }
}

/// `w` is what may become of the writer `v` if, of `events`, the one at `k` is the
/// first that cannot be written: those before it are written, and nothing is
/// written after it.
pub open spec fn stopped_at(
    v: WriterView,
    events: Seq<WperfEvent>,
    k: int,
    w: WriterView,
) -> bool {
    let before = writes(v, events.take(k));
    let raw = event_bytes(events[k]);
    &&& 0 <= k < events.len()
    &&& record_cut(before, raw, w) || bookmark_cut(before, raw, w)
}

/// What may come of writing events with the writer `v`: the result `r`, the
/// writer `w`, the last failure of its stream, and how many events, `n`, were
/// written without an error. The error is that of the write that failed.
pub open spec fn writes_outcome(
    v: WriterView,
    events: Seq<WperfEvent>,
    r: Result<(), RecordError>,
    w: WriterView,
    failure: Option<ErrorView>,
    n: int,
) -> bool {
    match r {
        Ok(()) => w == writes(v, events) && n == events.len(),
        Err(RecordError::Io(e)) => failure == Some(e@) && stopped_at(v, events, n, w),
        Err(_) => false,
    }
}

/// What becomes of events that a transport delivered: the buffer, and those that
/// go to the file. A ring buffer delivers events in order; those of per-CPU
/// buffers go through the reorder buffer.
pub open spec fn let_through(mode: TransportMode, b: ReorderView, events: Seq<WperfEvent>) -> (
    ReorderView,
    Seq<WperfEvent>,
) {
    match mode {
        TransportMode::RingBuf => (b, events),
        TransportMode::PerfArray => flow(b, events),
    }
}

/// A recording in progress: a file, a buffer that puts events in order, and how
/// many events were written without an error.
#[derive(Debug)]
pub struct Recorder<W: ByteStream> {
    writer: WperfWriter<W>,
    reorder: ReorderBuf,
    recorded: u64,
}

impl<W: ByteStream> Recorder<W> {
    /// The file so far.
    pub closed spec fn file(&self) -> WriterView {
        self.writer@
    }

    /// The events held back.
    pub closed spec fn buffer(&self) -> ReorderView {
        self.reorder@
    }

    /// The device behind the file never fails.
    pub closed spec fn healthy(&self) -> bool {
        self.writer.healthy()
    }

    /// The error of the last operation on the file that failed, if one did.
    pub closed spec fn failure(&self) -> Option<ErrorView> {
        self.writer.failure()
    }

    /// How many events were written without an error.
    pub closed spec fn recorded(&self) -> nat {
        self.recorded as nat
    }

    /// The events held back are in order, and the file counts those recorded.
    pub closed spec fn wf(&self) -> bool {
        self.reorder.wf() && self.recorded <= self.writer@.event_count
    }

    /// Starts a recording with a writer.
    pub fn new(writer: WperfWriter<W>) -> (r: Self)
        ensures
            r.wf(),
            r.file() == writer@,
            r.buffer() == fresh_buffer(DEFAULT_WINDOW_NS),
            r.buffer().window == 50_000_000,
            r.recorded() == 0,
            r.healthy() == writer.healthy(),
            r.failure() == writer.failure(),
    {
        Recorder { writer, reorder: ReorderBuf::new(), recorded: 0 }
    }

    /// How many events were written without an error.
    pub fn event_count(&self) -> (n: u64)
        ensures
            n == self.recorded(),
    {
        self.recorded
    }

    /// Takes in bytes from a ring buffer, which delivers events in order: an
    /// event goes to the file at once, other bytes are passed over.
    pub fn accept_raw(&mut self, data: &[u8]) -> (r: Result<(), RecordError>)
        requires
            old(self).wf(),
            old(self).file().event_count < u64::MAX,
        ensures
            final(self).wf(),
            final(self).buffer() == old(self).buffer(),
            data@.len() < EVENT_SIZE ==> r is Ok && *final(self) == *old(self),
            data@.len() >= EVENT_SIZE ==> match r {
                Ok(()) => {
                    &&& final(self).file() == after_record(
                        old(self).file(),
                        data@.take(EVENT_SIZE as int),
                    )
                    &&& final(self).recorded() == old(self).recorded() + 1
                },
                Err(RecordError::Io(e)) => {
                    let raw = data@.take(EVENT_SIZE as int);
                    &&& final(self).failure() == Some(e@)
                    &&& final(self).recorded() == old(self).recorded()
                    &&& record_cut(old(self).file(), raw, final(self).file()) || bookmark_cut(
                        old(self).file(),
                        raw,
                        final(self).file(),
                    )
                },
                Err(_) => false,
            },
            old(self).healthy() ==> final(self).healthy(),
            old(self).healthy() && old(self).file().at + RECORD_SIZE <= isize::MAX ==> r is Ok,
    {
        match decode_sample(data) {
            None => Ok(()),
            Some(event) => {
                proof {
                    law_bytes_round_trip(data@.take(EVENT_SIZE as int));
                }
                match self.writer.write_event(&event) {
                    Ok(()) => {
                        self.recorded = self.recorded + 1;
                        Ok(())
                    },
                    Err(e) => Err(RecordError::Io(e)),
                }
            },
        }
    }

    /// Takes in the events that a transport delivered since the last time.
    pub fn accept(&mut self, mode: TransportMode, pending: &Vec<WperfEvent>) -> (r: Result<
        (),
        RecordError,
    >)
        requires
            old(self).wf(),
            old(self).file().event_count + old(self).buffer().held.len() + pending@.len()
                <= u64::MAX,
        ensures
            final(self).wf(),
            final(self).buffer() == let_through(mode, old(self).buffer(), pending@).0,
            writes_outcome(
                old(self).file(),
                let_through(mode, old(self).buffer(), pending@).1,
                r,
                final(self).file(),
                final(self).failure(),
                final(self).recorded() - old(self).recorded(),
            ),
            old(self).healthy() ==> final(self).healthy(),
            old(self).healthy() && old(self).file().at + RECORD_SIZE * (
            old(self).buffer().held.len() + pending@.len()) <= isize::MAX ==> r is Ok,
    {
        match mode {
            TransportMode::RingBuf => self.write_all(pending),
            TransportMode::PerfArray => self.accept_batch(pending),
        }
    }

    /// Takes in the events that per-CPU buffers delivered since the last time:
    /// they go through the reorder buffer, and those that it lets go are written.
    pub fn accept_batch(&mut self, pending: &Vec<WperfEvent>) -> (r: Result<(), RecordError>)
        requires
            old(self).wf(),
            old(self).file().event_count + old(self).buffer().held.len() + pending@.len()
                <= u64::MAX,
        ensures
            final(self).wf(),
            final(self).buffer() == flow(old(self).buffer(), pending@).0,
            writes_outcome(
                old(self).file(),
                flow(old(self).buffer(), pending@).1,
                r,
                final(self).file(),
                final(self).failure(),
                final(self).recorded() - old(self).recorded(),
            ),
            old(self).healthy() ==> final(self).healthy(),
            old(self).healthy() && old(self).file().at + RECORD_SIZE * (
            old(self).buffer().held.len() + pending@.len()) <= isize::MAX ==> r is Ok,
    {
        let mut out: Vec<WperfEvent> = Vec::new();
        let ghost start = self.reorder@;
        assert(pending@.take(0) =~= Seq::empty());
        for i in 0..pending.len()
            invariant
                self.reorder.wf(),
                self.reorder@ == flow(start, pending@.take(i as int)).0,
                out@ == flow(start, pending@.take(i as int)).1,
                self.writer == old(self).writer,
                self.recorded == old(self).recorded,
                self.recorded <= self.writer@.event_count,
        {
            proof {
                assert(pending@.take(i + 1).drop_last() =~= pending@.take(i as int));
                assert(pending@.take(i + 1).last() == pending@[i as int]);
            }
            self.reorder.push(pending[i], &mut out);
        }
        proof {
            assert(pending@.take(pending@.len() as int) =~= pending@);
            lemma_flow_len(start, pending@);
        }
        self.write_all(&out)
    }

    /// Writes the events that are still held back.
    pub fn drain(&mut self) -> (r: Result<(), RecordError>)
        requires
            old(self).wf(),
            old(self).file().event_count + old(self).buffer().held.len() <= u64::MAX,
        ensures
            final(self).wf(),
            final(self).buffer() == fresh_buffer(old(self).buffer().window),
            writes_outcome(
                old(self).file(),
                old(self).buffer().held,
                r,
                final(self).file(),
                final(self).failure(),
                final(self).recorded() - old(self).recorded(),
            ),
            old(self).healthy() ==> final(self).healthy(),
            old(self).healthy() && old(self).file().at + RECORD_SIZE
                * old(self).buffer().held.len() <= isize::MAX ==> r is Ok,
    {
        let mut out: Vec<WperfEvent> = Vec::new();
        self.reorder.drain(&mut out);
        assert(out@ =~= old(self).buffer().held);
        self.write_all(&out)
    }

    /// Writes events, up to the first that fails.
    fn write_all(&mut self, events: &Vec<WperfEvent>) -> (r: Result<(), RecordError>)
        requires
            old(self).wf(),
            old(self).file().event_count + events@.len() <= u64::MAX,
        ensures
            final(self).wf(),
            final(self).buffer() == old(self).buffer(),
            writes_outcome(
                old(self).file(),
                events@,
                r,
                final(self).file(),
                final(self).failure(),
                final(self).recorded() - old(self).recorded(),
            ),
            old(self).healthy() ==> final(self).healthy(),
            old(self).healthy() && old(self).file().at + RECORD_SIZE * events@.len() <= isize::MAX
                ==> r is Ok,
    {
        assert(events@.take(0) =~= Seq::empty());
        for i in 0..events.len()
            invariant
                self.reorder == old(self).reorder,
                self.reorder.wf(),
                self.writer@ == writes(old(self).writer@, events@.take(i as int)),
                self.writer@.event_count == old(self).writer@.event_count + i,
                self.recorded == old(self).recorded + i,
                old(self).recorded <= old(self).writer@.event_count,
                self.writer@.at == old(self).writer@.at + RECORD_SIZE * i,
                old(self).writer@.event_count + events@.len() <= u64::MAX,
                old(self).writer.healthy() ==> self.writer.healthy(),
        {
            proof {
                assert(events@.take(i + 1).drop_last() =~= events@.take(i as int));
                assert(events@.take(i + 1).last() == events@[i as int]);
            }
            match self.writer.write_event(&events[i]) {
                Ok(()) => {
                    self.recorded = self.recorded + 1;
                },
                Err(e) => {
                    assert(stopped_at(old(self).file(), events@, i as int, self.file()));
                    return Err(RecordError::Io(e));
                },
            }
        }
        assert(events@.take(events@.len() as int) =~= events@);
        Ok(())
    }

    /// Ends the recording. Lost events are those that the kernel could not queue
    /// and those that the transport lost. The error is that of the first step that
    /// failed, and nothing is done after it.
    pub fn finish(self, kernel_drops: u64, transport_lost: u64) -> (r: Result<W, RecordError>)
        requires
            kernel_drops + transport_lost <= u64::MAX,
        ensures
            r matches Ok(w) ==> {
                &&& w.bytes() == finished_bytes(
                    self.file(),
                    (kernel_drops + transport_lost) as u64,
                )
                &&& w.failure() == self.failure()
                &&& self.healthy() ==> w.healthy()
            },
            r matches Err(e) ==> (e matches RecordError::Io(io) && exists|s: W| #[trigger]
                s.failure() == Some(io@) && finish_cut(
                    self.file(),
                    (kernel_drops + transport_lost) as u64,
                    s.bytes(),
                )),
            self.healthy() && self.file().at + footer_size() <= isize::MAX ==> r is Ok,
    {
        match self.writer.finish(kernel_drops + transport_lost) {
            Ok(w) => Ok(w),
            Err(e) => Err(RecordError::Io(e)),
        }
    }
}

// ---------------------------------------------------------------------------
// Laws
// ---------------------------------------------------------------------------

proof fn lemma_flow_len(v: ReorderView, events: Seq<WperfEvent>)
    requires
        sorted(v.held),
    ensures
        flow(v, events).1.len() + flow(v, events).0.held.len() == v.held.len() + events.len(),
{
    broadcast use vstd::seq_lib::group_to_multiset_ensures;

    law_reorder_keeps_events(v, events);
    let (after, out) = flow(v, events);
    assert(out.to_multiset().add(after.held.to_multiset()).len() == out.len() + after.held.len());
    assert(v.held.to_multiset().add(events.to_multiset()).len() == v.held.len() + events.len());
}

/// Writing on in two steps is writing on in one.
pub proof fn lemma_writes_concat(v: WriterView, a: Seq<WperfEvent>, b: Seq<WperfEvent>)
    ensures
        writes(writes(v, a), b) == writes(v, a + b),
    decreases b.len(),
{
    if b.len() == 0 {
        assert(a + b =~= a);
    } else {
        lemma_writes_concat(v, a, b.drop_last());
        assert((a + b).drop_last() =~= a + b.drop_last());
        assert((a + b).last() == b.last());
    }
}

proof fn lemma_writes_from_start(events: Seq<WperfEvent>, n: int, host_arch: u8)
    requires
        0 <= n <= events.len(),
    ensures
        writes(opened(Seq::empty(), 0, host_arch), events.take(n)) == written(
            events,
            n,
            host_arch,
        ),
    decreases n,
{
    if n > 0 {
        lemma_writes_from_start(events, n - 1, host_arch);
        assert(events.take(n).drop_last() =~= events.take(n - 1));
        assert(events.take(n).last() == events[n - 1]);
    } else {
        assert(events.take(n) =~= Seq::empty());
    }
}

/// Writing at the end of a file goes on at its end, and counts every event.
proof fn lemma_writes_at_end(v: WriterView, events: Seq<WperfEvent>)
    requires
        v.at >= HEADER_SIZE,
        v.at == v.bytes.len(),
    ensures
        ({
            let w = writes(v, events);
            &&& w.at == w.bytes.len()
            &&& w.at == v.at + RECORD_SIZE * events.len()
            &&& w.event_count == v.event_count + events.len()
        }),
    decreases events.len(),
{
    if events.len() > 0 {
        lemma_writes_at_end(v, events.drop_last());
        let before = writes(v, events.drop_last());
        let raw = event_bytes(events.last());
        law_event_round_trip(events.last());
        lemma_record(raw);
        lemma_le_len(before.at + RECORD_SIZE as nat, 8);
        assert(overwrite(before.bytes, before.at, record_bytes(raw)) =~= before.bytes
            + record_bytes(raw));
    }
}

/// A recording that fails keeps what it had. The file holds the records of the
/// events before the one that failed, and no more than that one's behind them;
/// exactly the events whose records are complete count.
pub proof fn law_failed_recording(
    v: WriterView,
    events: Seq<WperfEvent>,
    k: int,
    w: WriterView,
)
    requires
        v.at >= HEADER_SIZE,
        v.at == v.bytes.len(),
        stopped_at(v, events, k, w),
    ensures
        ({
            let kept = writes(v, events.take(k));
            &&& kept.bytes.len() == v.at + RECORD_SIZE * k
            &&& kept.bytes.len() <= w.bytes.len() <= kept.bytes.len() + RECORD_SIZE
            &&& forall|i: int|
                0 <= i < kept.bytes.len() && !(8 <= i < 16) ==> #[trigger] w.bytes[i]
                    == kept.bytes[i]
            &&& w.event_count == v.event_count + k || (w.event_count == v.event_count + k + 1 && (
            v.event_count + k + 1) % BOOKMARK_INTERVAL as int == 0)
            &&& w.event_count == v.event_count + k <==> w.bytes.len() < kept.bytes.len()
                + RECORD_SIZE
        }),
{
    lemma_writes_at_end(v, events.take(k));
    law_event_round_trip(events[k]);
    law_failed_write_keeps_records(writes(v, events.take(k)), event_bytes(events[k]), w);
}

/// How deliveries are cut into batches makes no difference: two batches come to
/// the same as one with all their events.
pub proof fn law_batches_make_no_difference(
    mode: TransportMode,
    b: ReorderView,
    first: Seq<WperfEvent>,
    second: Seq<WperfEvent>,
)
    ensures
        ({
            let (mid, out) = let_through(mode, b, first);
            let (end, more) = let_through(mode, mid, second);
            let_through(mode, b, first + second) == (end, out + more)
        }),
    decreases second.len(),
{
    if mode is PerfArray {
        let (mid, out) = flow(b, first);
        if second.len() == 0 {
            assert(first + second =~= first);
            assert(out + Seq::empty() =~= out);
        } else {
            law_batches_make_no_difference(mode, b, first, second.drop_last());
            assert((first + second).drop_last() =~= first + second.drop_last());
            assert((first + second).last() == second.last());
            let (before, more) = flow(mid, second.drop_last());
            let last = taken_in(before, second.last()).1;
            assert((out + more) + last =~= out + (more + last));
        }
    }
}

/// A recording is closed only once it has been drained, and a stop takes effect
/// at once: no poll comes after it, and at most one pause before the drain.
pub proof fn law_stop_is_heeded(mode: TransportMode, last: Option<Step>, idle: bool)
    ensures
        forall|keep_going: bool| #[trigger]
            step_after(mode, last, idle, keep_going) is Finish <==> last == Some(Step::Drain)
                || last == Some(Step::Finish),
        step_after(mode, last, idle, false) !is Poll,
        step_after(mode, last, idle, false) is Pause ==> last == Some(Step::Poll),
        forall|later: bool| #[trigger]
            step_after(mode, Some(Step::Pause), later, false) is Drain,
{
}

/// What a recording leaves in the file, once the buffer is drained: every event
/// that came in, once each. Those of a ring buffer are in the order in which they
/// came; those of per-CPU buffers in the order of time, if none came later than
/// the window allows.
pub proof fn law_recording_is_complete(
    mode: TransportMode,
    events: Seq<WperfEvent>,
    host_arch: u8,
)
    ensures
        ({
            let (after, out) = let_through(mode, fresh_buffer(DEFAULT_WINDOW_NS), events);
            let all = out + after.held;
            let start = opened(Seq::empty(), 0, host_arch);
            &&& writes(writes(start, out), after.held) == written(all, all.len() as int, host_arch)
            &&& all.to_multiset() == events.to_multiset()
            &&& mode is RingBuf ==> all == events
            &&& mode is PerfArray && late_within(events, DEFAULT_WINDOW_NS) ==> time_ordered(all)
        }),
{
    let (after, out) = let_through(mode, fresh_buffer(DEFAULT_WINDOW_NS), events);
    let all = out + after.held;
    let start = opened(Seq::empty(), 0, host_arch);
    lemma_writes_concat(start, out, after.held);
    lemma_writes_from_start(all, all.len() as int, host_arch);
    assert(all.take(all.len() as int) =~= all);
    if mode is RingBuf {
        assert(all =~= events);
    } else {
        law_reorder_keeps_events(fresh_buffer(DEFAULT_WINDOW_NS), events);
        vstd::seq_lib::lemma_multiset_commutative(out, after.held);
        assert(all.to_multiset() =~= events.to_multiset()) by {
            broadcast use vstd::seq_lib::group_to_multiset_ensures;

            assert(Seq::<WperfEvent>::empty().to_multiset().add(events.to_multiset())
                =~= events.to_multiset());
        }
        if late_within(events, DEFAULT_WINDOW_NS) {
            law_reorder_restores_order(DEFAULT_WINDOW_NS, events);
        }
    }
}

/// Pages hold what they must: as many as are needed, and none more.
pub proof fn law_pages_hold_the_size(size: u32, page_size: int)
    requires
        page_size > 0,
    ensures
        pages(size, page_size) * page_size >= size,
        (pages(size, page_size) - 1) * page_size < size,
        pages(size, page_size) >= 0,
{
    let n = size + page_size - 1;
    let q = n / page_size;
    assert(n == q * page_size + n % page_size && 0 <= n % page_size < page_size && q >= 0)
        by (nonlinear_arith)
        requires
            page_size > 0,
            n >= 0,
            q == n / page_size,
    ;
    assert((q - 1) * page_size == q * page_size - page_size) by (nonlinear_arith);
}

/// When a recording goes on: until it is told to stop, and before the deadline.
/// Once it has ended it does not go on later.
pub proof fn law_recording_ends(stop: bool, now: u64, later: u64, deadline: Option<u64>)
    requires
        now <= later,
    ensures
        stop ==> !goes_on(stop, now, deadline),
        !stop && deadline is None ==> goes_on(stop, now, deadline),
        !stop ==> (deadline matches Some(d) ==> (goes_on(stop, now, deadline) <==> now < d)),
        goes_on(stop, later, deadline) ==> goes_on(stop, now, deadline),
{
}

/// A recording that goes on polls, except that a ring buffer with nothing to give
/// is left alone once after each poll, whether or not a stop has come meanwhile;
/// per-CPU buffers, which wait by themselves, are polled without a pause.
pub proof fn law_recording_polls(mode: TransportMode, last: Option<Step>, idle: bool)
    ensures
        last is None ==> step_after(mode, last, idle, true) is Poll,
        last == Some(Step::Pause) ==> step_after(mode, last, idle, true) is Poll,
        last == Some(Step::Poll) && !idle ==> step_after(mode, last, idle, true) is Poll,
        last == Some(Step::Poll) && idle ==> forall|keep_going: bool|
            (#[trigger] step_after(mode, last, idle, keep_going) is Pause) == (mode is RingBuf),
        last == Some(Step::Poll) && mode is PerfArray ==> step_after(mode, last, idle, true) is Poll
            && step_after(mode, last, idle, false) is Drain,
        last == Some(Step::Poll) && !idle ==> step_after(mode, last, idle, false) is Drain,
        last is None ==> step_after(mode, last, idle, false) is Drain,
{
}

/// The bytes of an event, with or without more behind them, are read as that
/// event; fewer bytes are none.
pub proof fn law_samples_are_events(e: WperfEvent, more: Seq<u8>, n: int)
    requires
        0 <= n < 40,
    ensures
        sample_event(event_bytes(e) + more) == Some(e),
        sample_event(event_bytes(e).take(n)) is None,
{
    law_event_round_trip(e);
    assert((event_bytes(e) + more).take(40) =~= event_bytes(e));
}

/// The process id comes from the first line with the label and a number: lines
/// are taken in turn, and a line that tells none is passed over.
pub proof fn law_status_is_read_by_line(line: Seq<char>, rest: Seq<char>)
    requires
        !line.contains('\n'),
    ensures
        status_pid(line) == line_pid(line),
        line_pid(line) is Some ==> status_pid(line + seq!['\n'] + rest) == line_pid(line),
        line_pid(line) is None ==> status_pid(line + seq!['\n'] + rest) == status_pid(rest),
{
    lemma_line_len(line, Seq::empty());
    lemma_line_len(line, seq!['\n'] + rest);
    let all = line + seq!['\n'] + rest;
    assert(line + (seq!['\n'] + rest) =~= all);
    assert(line + Seq::empty() =~= line);
    assert(line.take(line.len() as int) =~= line);
    assert(all.take(line.len() as int) =~= line);
    assert(all.skip(line.len() as int + 1) =~= rest);
}

proof fn lemma_line_len(line: Seq<char>, more: Seq<char>)
    requires
        !line.contains('\n'),
        more.len() > 0 ==> more[0] == '\n',
    ensures
        line_len(line + more) == line.len(),
    decreases line.len(),
{
    let all = line + more;
    if line.len() == 0 {
        assert(all =~= more);
    } else {
        assert(line.contains(line[0]));
        assert(all[0] == line[0]);
        assert(all.skip(1) =~= line.skip(1) + more);
        assert forall|i: int| 0 <= i < line.skip(1).len() implies line.skip(1)[i] != '\n' by {
            assert(line.contains(line[i + 1]));
        }
        lemma_line_len(line.skip(1), more);
    }
}

/// What the label must be, and what follows it: the first word is read as the
/// number.
pub proof fn law_label_tells_the_pid(rest: Seq<char>, line: Seq<char>)
    ensures
        words(rest).len() > 0 ==> line_pid("NSpid:"@ + rest) == unsigned_32(words(rest)[0]),
        words(rest).len() == 0 ==> line_pid("NSpid:"@ + rest) is None,
        line.len() < 6 || line.take(6) != "NSpid:"@ ==> line_pid(line) is None,
{
    reveal_strlit("NSpid:");
    let label = "NSpid:"@;
    let all = label + rest;
    assert(all.skip(6) =~= rest);
    assert(all.subrange(0, 6) =~= label);
    if label.is_prefix_of(line) {
        assert(line.take(6) =~= label);
    }
}

/// In each tracepoint mode the programs left out are those written for the other.
pub proof fn law_modes_leave_out_the_others(mode: TracepointMode, i: int)
    requires
        0 <= i < 4,
    ensures
        unused_programs(mode).len() == 4,
        ({
            let name = unused_programs(mode)[i];
            let end = name.subrange(name.len() - 4, name.len() as int);
            &&& name.len() > 4
            &&& mode is TpBtf ==> end == "_raw"@
            &&& mode is RawTp ==> end == "_btf"@
        }),
{
    reveal_strlit("_raw");
    reveal_strlit("_btf");
    reveal_strlit("handle_sched_switch_raw");
    reveal_strlit("handle_sched_wakeup_raw");
    reveal_strlit("handle_block_rq_issue_raw");
    reveal_strlit("handle_block_rq_complete_raw");
    reveal_strlit("handle_sched_switch_btf");
    reveal_strlit("handle_sched_wakeup_btf");
    reveal_strlit("handle_block_rq_issue_btf");
    reveal_strlit("handle_block_rq_complete_btf");
    let name = unused_programs(mode)[i];
    let end = name.subrange(name.len() - 4, name.len() as int);
    if mode is TpBtf {
        assert(end =~= "_raw"@);
    } else {
        assert(end =~= "_btf"@);
    }
}

} // verus!
