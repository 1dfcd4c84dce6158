//! Probing of kernel features at startup.
//!
//! Each feature is tested on its own. Kernel type information is required;
//! every other probe falls back to the lesser mode when it fails.

use vstd::prelude::*;

use crate::format::stream::StreamError;
use crate::text::{has_word, push_i64, signed_decimal, words};

verus! {

/// Why probing failed.
#[derive(Debug, Clone)]
pub enum ProbeError {
    /// Kernel type information (BTF) is required and not there.
    BtfRequired,
    /// A file could not be read.
    Io(StreamError),
    /// A system call failed in an unexpected way.
    Syscall(String),
}

/// The text that tells that kernel type information is missing.
pub open spec fn btf_required_text() -> Seq<char> {
    "BTF not available: /sys/kernel/btf/vmlinux not found. Minimum supported: RHEL 8.2+ / Rocky 8.4+ with CONFIG_DEBUG_INFO_BTF=y"@
}

impl ProbeError {
    /// The text of the error.
    pub open spec fn text(&self) -> Seq<char> {
        match self {
            ProbeError::BtfRequired => btf_required_text(),
            ProbeError::Io(e) => "I/O error during feature probing: "@ + e.text(),
            ProbeError::Syscall(msg) => "syscall probe failed: "@ + msg@,
        }
    }

    /// The error in words.
    pub fn message(&self) -> (s: String)
        ensures
            s@ == self.text(),
    {
        match self {
            ProbeError::BtfRequired =>
                "BTF not available: /sys/kernel/btf/vmlinux not found. Minimum supported: RHEL 8.2+ / Rocky 8.4+ with CONFIG_DEBUG_INFO_BTF=y".to_owned(),
            ProbeError::Io(e) => {
                let mut s = "I/O error during feature probing: ".to_owned();
                s.append(e.message().as_str());
                s
            },
            ProbeError::Syscall(msg) => {
                let mut s = "syscall probe failed: ".to_owned();
                s.append(msg.as_str());
                s
            },
        }
    }

    /// The error of the stream behind this one, if there is any.
    pub fn source(&self) -> (r: Option<&StreamError>)
        ensures
            r == (match self {
                ProbeError::Io(e) => Some(e),
                _ => None,
            }),
    {
        match self {
            ProbeError::Io(e) => Some(e),
            _ => None,
        }
    }
}

/// How events come from the kernel.
#[derive(Debug, Clone, Copy, PartialEq, Eq, Structural)]
pub enum TransportMode {
    /// Through one ring buffer, in order.
    RingBuf,
    /// Through a buffer per CPU, to be put in order by the reader.
    PerfArray,
}

/// How scheduler tracepoints are attached.
#[derive(Debug, Clone, Copy, PartialEq, Eq, Structural)]
pub enum TracepointMode {
    /// Typed tracepoints.
    TpBtf,
    /// Raw tracepoints.
    RawTp,
}

/// What the running kernel offers.
#[derive(Debug, Clone, Copy, PartialEq, Eq, Structural)]
pub struct FeatureMatrix {
    pub transport: TransportMode,
    pub tracepoint: TracepointMode,
    /// Kernel type information is there.
    pub has_btf: bool,
    /// The helper `bpf_loop` is there.
    pub has_bpf_loop: bool,
    /// The second version of control groups is mounted.
    pub has_cgroupv2: bool,
    /// Programs can be attached to function entries.
    pub has_fentry: bool,
}

/// The files that the probes look at.
#[derive(Debug, Clone)]
pub struct ProbePaths {
    pub btf_vmlinux: String,
    pub cgroup_controllers: String,
    pub tracing_events: String,
    pub kprobe_blacklist: String,
    pub available_filter_functions: String,
}

impl Default for ProbePaths {
    fn default() -> (p: Self)
        ensures
            p.btf_vmlinux@ == "/sys/kernel/btf/vmlinux"@,
            p.cgroup_controllers@ == "/sys/fs/cgroup/cgroup.controllers"@,
            p.tracing_events@ == "/sys/kernel/tracing/events"@,
            p.kprobe_blacklist@ == "/sys/kernel/debug/kprobes/blacklist"@,
            p.available_filter_functions@
                == "/sys/kernel/debug/tracing/available_filter_functions"@,
    {
        ProbePaths {
            btf_vmlinux: "/sys/kernel/btf/vmlinux".to_owned(),
            cgroup_controllers: "/sys/fs/cgroup/cgroup.controllers".to_owned(),
            tracing_events: "/sys/kernel/tracing/events".to_owned(),
            kprobe_blacklist: "/sys/kernel/debug/kprobes/blacklist".to_owned(),
            available_filter_functions:
                "/sys/kernel/debug/tracing/available_filter_functions".to_owned(),
        }
    }
}

// ---------------------------------------------------------------------------
// Files
// ---------------------------------------------------------------------------

/// Whether the file with kernel type information was found; an error if not.
pub fn probe_btf(found: bool) -> (r: Result<bool, ProbeError>)
    ensures
        found ==> r == Ok::<bool, ProbeError>(true),
        !found ==> r == Err::<bool, ProbeError>(ProbeError::BtfRequired),
{
    if found {
        Ok(true)
    } else {
        Err(ProbeError::BtfRequired)
    }
}

/// What came of reading a file line by line.
#[derive(Debug, Clone)]
pub enum FileLines {
    /// There is no such file.
    Missing,
    /// The file could not be opened.
    Unreadable(StreamError),
    /// The lines; where one could not be read, the reason.
    Lines(Vec<Result<String, StreamError>>),
}

/// Whether one of the lines from `i` on holds `word` as a word. The first line
/// that holds it, or could not be read, decides. An error is given by its text.
pub open spec fn search(
    lines: Seq<Result<String, StreamError>>,
    i: int,
    word: Seq<char>,
) -> Result<bool, Seq<char>>
    decreases lines.len() - i,
{
    if i < 0 || i >= lines.len() {
        Ok(false)
    } else {
        match lines[i] {
            Err(e) => Err(e.text()),
            Ok(line) => if words(line@).contains(word) {
                Ok(true)
            } else {
                search(lines, i + 1, word)
            },
        }
    }
}

/// Whether a file holds `word` as a word. A missing file holds none.
pub open spec fn file_outcome(file: FileLines, word: Seq<char>) -> Result<bool, Seq<char>> {
    match file {
        FileLines::Missing => Ok(false),
        FileLines::Unreadable(e) => Err(e.text()),
        FileLines::Lines(lines) => search(lines@, 0, word),
    }
}

/// Whether a kernel function can be probed: the blacklist does not hold it, and
/// the list of functions does. The list is not consulted where the blacklist
/// decides.
pub open spec fn kprobe_outcome(
    blacklist: FileLines,
    available: FileLines,
    function: Seq<char>,
) -> Result<bool, Seq<char>> {
    match file_outcome(blacklist, function) {
        Err(e) => Err(e),
        Ok(true) => Ok(false),
        Ok(false) => file_outcome(available, function),
    }
}

/// An error stands for a text, if it is an I/O error with that text.
pub open spec fn tells(r: Result<bool, ProbeError>, outcome: Result<bool, Seq<char>>) -> bool {
    match r {
        Ok(b) => outcome == Ok::<bool, Seq<char>>(b),
        Err(ProbeError::Io(e)) => outcome == Err::<bool, Seq<char>>(e.text()),
        Err(_) => false,
    }
}

/// Whether a file holds `needle` as a word of one of its lines.
pub fn file_contains_line(file: &FileLines, needle: &str) -> (r: Result<bool, ProbeError>)
    ensures
        tells(r, file_outcome(*file, needle@)),
{
    match file {
        FileLines::Missing => Ok(false),
        FileLines::Unreadable(e) => Err(ProbeError::Io(e.duplicate())),
        FileLines::Lines(lines) => {
            for i in 0..lines.len()
                invariant
                    file_outcome(*file, needle@) == search(lines@, i as int, needle@),
            {
                match &lines[i] {
                    Err(e) => {
                        return Err(ProbeError::Io(e.duplicate()));
                    },
                    Ok(line) => {
                        if has_word(line.as_str(), needle) {
                            return Ok(true);
                        }
                    },
                }
            }
            Ok(false)
        },
    }
}

/// Whether a kernel function can be probed.
pub fn probe_kprobe(blacklist: &FileLines, available: &FileLines, function: &str) -> (r: Result<
    bool,
    ProbeError,
>)
    ensures
        tells(r, kprobe_outcome(*blacklist, *available, function@)),
{
    match file_contains_line(blacklist, function) {
        Err(e) => Err(e),
        Ok(listed) => if listed {
            Ok(false)
        } else {
            file_contains_line(available, function)
        },
    }
}

// ---------------------------------------------------------------------------
// Programs
// ---------------------------------------------------------------------------

/// Which transport there is. Without support for loading programs, per-CPU
/// buffers are assumed.
pub fn probe_ringbuf() -> (r: Result<TransportMode, ProbeError>)
    ensures
        r == Ok::<TransportMode, ProbeError>(TransportMode::PerfArray),
{
    Ok(TransportMode::PerfArray)
}

/// Whether the helper `bpf_loop` is there. Without support for loading
/// programs, it is assumed not to be.
pub fn probe_bpf_loop() -> (r: Result<bool, ProbeError>)
    ensures
        r == Ok::<bool, ProbeError>(false),
{
    Ok(false)
}

/// What the answer to a helper query means: one is yes, zero is no, and
/// anything else is a failure of the query.
pub fn bpf_loop_answer(answer: i32) -> (r: Result<bool, ProbeError>)
    ensures
        answer == 1 ==> r == Ok::<bool, ProbeError>(true),
        answer == 0 ==> r == Ok::<bool, ProbeError>(false),
        answer != 0 && answer != 1 ==> (r matches Err(ProbeError::Syscall(msg)) && msg@
            == "libbpf_probe_bpf_helper returned "@ + signed_decimal(answer as int)),
{
    if answer == 1 {
        Ok(true)
    } else if answer == 0 {
        Ok(false)
    } else {
        let mut msg = "libbpf_probe_bpf_helper returned ".to_owned();
        push_i64(&mut msg, answer as i64);
        Err(ProbeError::Syscall(msg))
    }
}

/// How scheduler tracepoints are attached: as raw ones.
pub fn probe_tp_btf() -> (r: Result<TracepointMode, ProbeError>)
    ensures
        r == Ok::<TracepointMode, ProbeError>(TracepointMode::RawTp),
{
    Ok(TracepointMode::RawTp)
}

/// Whether programs can be attached to function entries: it is assumed that
/// they cannot.
pub fn probe_fentry() -> (r: Result<bool, ProbeError>)
    ensures
        r == Ok::<bool, ProbeError>(false),
{
    Ok(false)
}

// ---------------------------------------------------------------------------
// All features
// ---------------------------------------------------------------------------

/// What a probe found, or the fallback where it failed.
pub open spec fn found_or<T>(r: Result<T, ProbeError>, fallback: T) -> T {
    match r {
        Ok(v) => v,
        Err(_) => fallback,
    }
}

/// The texts of a list of strings.
pub open spec fn texts(list: Seq<String>) -> Seq<Seq<char>> {
    Seq::new(list.len(), |i: int| list[i]@)
}

/// The note on a failed probe; none on one that succeeded.
pub open spec fn note<T>(r: Result<T, ProbeError>, before: Seq<char>, after: Seq<char>) -> Seq<
    Seq<char>,
> {
    match r {
        Ok(_) => Seq::empty(),
        Err(e) => seq![before + e.text() + after],
    }
}

fn settle<T: Copy>(
    r: &Result<T, ProbeError>,
    fallback: T,
    before: &str,
    after: &str,
    notes: &mut Vec<String>,
) -> (v: T)
    ensures
        v == found_or(*r, fallback),
        texts(final(notes)@) == texts(old(notes)@) + note(*r, before@, after@),
{
    match r {
        Ok(v) => {
            assert(texts(notes@) =~= texts(notes@) + note(*r, before@, after@));
            *v
        },
        Err(e) => {
            let mut s = before.to_owned();
            s.append(e.message().as_str());
            s.append(after);
            notes.push(s);
            assert(texts(notes@) =~= texts(old(notes)@) + note(*r, before@, after@));
            fallback
        },
    }
}

/// The features that probes found. Where a probe failed, the lesser mode is
/// taken, and a note tells so.
pub fn feature_matrix(
    has_cgroupv2: bool,
    ringbuf: &Result<TransportMode, ProbeError>,
    tp_btf: &Result<TracepointMode, ProbeError>,
    bpf_loop: &Result<bool, ProbeError>,
    fentry: &Result<bool, ProbeError>,
) -> (r: (FeatureMatrix, Vec<String>))
    ensures
        r.0 == (FeatureMatrix {
            transport: found_or(*ringbuf, TransportMode::PerfArray),
            tracepoint: found_or(*tp_btf, TracepointMode::RawTp),
            has_btf: true,
            has_bpf_loop: found_or(*bpf_loop, false),
            has_cgroupv2,
            has_fentry: found_or(*fentry, false),
        }),
        texts(r.1@) == note(
            *ringbuf,
            "probe: ringbuf probe failed ("@,
            "), falling back to perfarray"@,
        ) + note(*tp_btf, "probe: tp_btf probe failed ("@, "), falling back to raw_tp"@) + note(
            *bpf_loop,
            "probe: bpf_loop probe failed ("@,
            "), assuming unavailable"@,
        ) + note(*fentry, "probe: fentry probe failed ("@, "), assuming unavailable"@),
{
    let mut notes: Vec<String> = Vec::new();
    assert(texts(notes@) =~= Seq::empty());
    let transport = settle(
        ringbuf,
        TransportMode::PerfArray,
        "probe: ringbuf probe failed (",
        "), falling back to perfarray",
        &mut notes,
    );
    let tracepoint = settle(
        tp_btf,
        TracepointMode::RawTp,
        "probe: tp_btf probe failed (",
        "), falling back to raw_tp",
        &mut notes,
    );
    let has_bpf_loop = settle(
        bpf_loop,
        false,
        "probe: bpf_loop probe failed (",
        "), assuming unavailable",
        &mut notes,
    );
    let has_fentry = settle(
        fentry,
        false,
        "probe: fentry probe failed (",
        "), assuming unavailable",
        &mut notes,
    );
    (
        FeatureMatrix {
            transport,
            tracepoint,
            has_btf: true,
            has_bpf_loop,
            has_cgroupv2,
            has_fentry,
        },
        notes,
    )
}

/// Runs all probes, given which of the probed files were found. Fails if there
/// is no kernel type information.
pub fn probe_all(btf_found: bool, cgroupv2_found: bool) -> (r: Result<FeatureMatrix, ProbeError>)
    ensures
        !btf_found ==> r == Err::<FeatureMatrix, ProbeError>(ProbeError::BtfRequired),
        btf_found ==> r == Ok::<FeatureMatrix, ProbeError>(
            (FeatureMatrix {
                transport: TransportMode::PerfArray,
                tracepoint: TracepointMode::RawTp,
                has_btf: true,
                has_bpf_loop: false,
                has_cgroupv2: cgroupv2_found,
                has_fentry: false,
            }),
        ),
{
    match probe_btf(btf_found) {
        Ok(_) => {},
        Err(e) => {
            return Err(e);
        },
    }
    let (matrix, _) = feature_matrix(
        cgroupv2_found,
        &probe_ringbuf(),
        &probe_tp_btf(),
        &probe_bpf_loop(),
        &probe_fentry(),
    );
    Ok(matrix)
}

// ---------------------------------------------------------------------------
// Laws
// ---------------------------------------------------------------------------

/// The first line that decides counts: a word is found if a line holds it and all
/// lines before could be read; the reading fails if a line cannot be read and none
/// before holds the word; and the word is not there only if all lines were read.
pub proof fn law_first_deciding_line(
    lines: Seq<Result<String, StreamError>>,
    from: int,
    word: Seq<char>,
)
    requires
        0 <= from,
    ensures
        search(lines, from, word) == Ok::<bool, Seq<char>>(true) ==> exists|i: int|
            {
                &&& from <= i < lines.len()
                &&& #[trigger] lines[i] matches Ok(line) && words(line@).contains(word)
                &&& forall|j: int|
                    from <= j < i ==> (#[trigger] lines[j] matches Ok(l) && !words(
                        l@,
                    ).contains(word))
            },
        search(lines, from, word) == Ok::<bool, Seq<char>>(false) ==> forall|j: int|
            from <= j < lines.len() ==> (#[trigger] lines[j] matches Ok(l) && !words(l@).contains(
                word,
            )),
        search(lines, from, word) matches Err(text) ==> exists|i: int|
            {
                &&& from <= i < lines.len()
                &&& #[trigger] lines[i] matches Err(e) && e.text() == text
                &&& forall|j: int|
                    from <= j < i ==> (#[trigger] lines[j] matches Ok(l) && !words(
                        l@,
                    ).contains(word))
            },
    decreases lines.len() - from,
{
    if from < lines.len() {
        match lines[from] {
            Err(e) => {},
            Ok(line) => {
                if !words(line@).contains(word) {
                    law_first_deciding_line(lines, from + 1, word);
                }
            },
        }
    }
}

/// A function can be probed if the list of functions holds it and the blacklist
/// does not. A blacklist that is not there forbids nothing; a list that is not
/// there holds nothing.
pub proof fn law_blacklist_forbids(
    blacklist: FileLines,
    available: FileLines,
    function: Seq<char>,
)
    ensures
        file_outcome(FileLines::Missing, function) == Ok::<bool, Seq<char>>(false),
        kprobe_outcome(blacklist, available, function) == Ok::<bool, Seq<char>>(true)
            <==> file_outcome(blacklist, function) == Ok::<bool, Seq<char>>(false) && file_outcome(
            available,
            function,
        ) == Ok::<bool, Seq<char>>(true),
        file_outcome(blacklist, function) == Ok::<bool, Seq<char>>(true) ==> kprobe_outcome(
            blacklist,
            available,
            function,
        ) == Ok::<bool, Seq<char>>(false),
        file_outcome(blacklist, function) is Err ==> kprobe_outcome(blacklist, available, function)
            == file_outcome(blacklist, function),
        kprobe_outcome(FileLines::Missing, available, function) == file_outcome(
            available,
            function,
        ),
        kprobe_outcome(blacklist, FileLines::Missing, function) != Ok::<bool, Seq<char>>(true),
        file_outcome(blacklist, function) == Ok::<bool, Seq<char>>(false) && file_outcome(
            available,
            function,
        ) is Err ==> kprobe_outcome(blacklist, available, function) == file_outcome(
            available,
            function,
        ),
{
}

/// What a probe found is taken, and only where it failed the fallback; a note is
/// made of each failure and of nothing else.
pub proof fn law_fallback_only_on_failure<T>(
    r: Result<T, ProbeError>,
    fallback: T,
    before: Seq<char>,
    after: Seq<char>,
)
    ensures
        r matches Ok(v) ==> found_or(r, fallback) == v && note(r, before, after).len() == 0,
        r matches Err(e) ==> {
            &&& found_or(r, fallback) == fallback
            &&& note(r, before, after).len() == 1
            &&& note(r, before, after)[0] == before + e.text() + after
        },
{
}

} // verus!
