//! Checks on raw captures: whether events that came from the kernel hold what a
//! known workload must have left in them.

use std::collections::BTreeMap;

use vstd::prelude::*;

use crate::format::wire::{
    from_le, get_le, lemma_capacities, lemma_from_le_round_trip,
};
use crate::text::chars_of;

verus! {

broadcast use vstd::std_specs::btree::group_btree_axioms;

/// The kind of a switch from one thread to another.
pub const EVENT_SWITCH: u8 = 0;

/// The kind of a wakeup of one thread by another.
pub const EVENT_WAKEUP: u8 = 1;

/// The size of a raw event.
pub const RAW_EVENT_SIZE: usize = 31;

/// A raw event.
#[derive(Debug, Clone, Copy, PartialEq, Eq, Structural)]
pub struct RawEvent {
    pub kind: u8,
    pub cpu: u16,
    pub prev_pid: u32,
    pub prev_tgid: u32,
    pub next_pid: u32,
    pub next_tgid: u32,
    pub timestamp_ns: u64,
    pub prev_state: u32,
}

/// The event that 31 bytes stand for.
pub open spec fn raw_event_from(b: Seq<u8>) -> RawEvent {
    RawEvent {
        kind: b[0],
        cpu: from_le(b.subrange(1, 3)) as u16,
        prev_pid: from_le(b.subrange(3, 7)) as u32,
        prev_tgid: from_le(b.subrange(7, 11)) as u32,
        next_pid: from_le(b.subrange(11, 15)) as u32,
        next_tgid: from_le(b.subrange(15, 19)) as u32,
        timestamp_ns: from_le(b.subrange(19, 27)) as u64,
        prev_state: from_le(b.subrange(27, 31)) as u32,
    }
}

/// The event in a sample, unless it is too short. Further bytes are ignored.
pub fn decode_raw_event(data: &[u8]) -> (r: Option<RawEvent>)
    ensures
        r == (if data@.len() >= RAW_EVENT_SIZE {
            Some(raw_event_from(data@))
        } else {
            None
        }),
{
    if data.len() < RAW_EVENT_SIZE {
        return None;
    }
    proof {
        lemma_capacities();
        lemma_from_le_round_trip(data@.subrange(1, 3));
        lemma_from_le_round_trip(data@.subrange(3, 7));
        lemma_from_le_round_trip(data@.subrange(7, 11));
        lemma_from_le_round_trip(data@.subrange(11, 15));
        lemma_from_le_round_trip(data@.subrange(15, 19));
        lemma_from_le_round_trip(data@.subrange(27, 31));
    }
    Some(
        RawEvent {
            kind: data[0],
            cpu: get_le(data, 1, 2) as u16,
            prev_pid: get_le(data, 3, 4) as u32,
            prev_tgid: get_le(data, 7, 4) as u32,
            next_pid: get_le(data, 11, 4) as u32,
            next_tgid: get_le(data, 15, 4) as u32,
            timestamp_ns: get_le(data, 19, 8),
            prev_state: get_le(data, 27, 4) as u32,
        },
    )
}

// ---------------------------------------------------------------------------
// Events of the workload
// ---------------------------------------------------------------------------

/// A switch from or to one of the two threads.
pub open spec fn is_switch(e: RawEvent, a: u32, b: u32) -> bool {
    e.kind == EVENT_SWITCH && (e.prev_pid == a || e.prev_pid == b || e.next_pid == a || e.next_pid
        == b)
}

/// A wakeup of one of the two threads.
pub open spec fn is_wakeup(e: RawEvent, a: u32, b: u32) -> bool {
    e.kind == EVENT_WAKEUP && (e.next_pid == a || e.next_pid == b)
}

/// The switches from or to one of the two threads, in order.
pub open spec fn switches(all: Seq<RawEvent>, a: u32, b: u32) -> Seq<RawEvent> {
    all.filter(|e: RawEvent| is_switch(e, a, b))
}

/// The wakeups of one of the two threads, in order.
pub open spec fn wakeups(all: Seq<RawEvent>, a: u32, b: u32) -> Seq<RawEvent> {
    all.filter(|e: RawEvent| is_wakeup(e, a, b))
}

fn workload_events(all: &Vec<RawEvent>, a: u32, b: u32) -> (r: (Vec<RawEvent>, Vec<RawEvent>))
    ensures
        r.0@ == switches(all@, a, b),
        r.1@ == wakeups(all@, a, b),
{
    let mut sw: Vec<RawEvent> = Vec::new();
    let mut wu: Vec<RawEvent> = Vec::new();
    for i in 0..all.len()
        invariant
            sw@ == switches(all@.take(i as int), a, b),
            wu@ == wakeups(all@.take(i as int), a, b),
    {
        let e = all[i];
        proof {
            reveal(Seq::filter);
            assert(all@.take(i + 1).drop_last() =~= all@.take(i as int));
            assert(all@.take(i + 1).last() == e);
        }
        let touches = e.next_pid == a || e.next_pid == b;
        if e.kind == EVENT_SWITCH && (e.prev_pid == a || e.prev_pid == b || touches) {
            sw.push(e);
        }
        if e.kind == EVENT_WAKEUP && touches {
            wu.push(e);
        }
    }
    assert(all@.take(all@.len() as int) =~= all@);
    (sw, wu)
}

// ---------------------------------------------------------------------------
// Matching wakeups and switches
// ---------------------------------------------------------------------------

/// The switch answers the wakeup: it is one to the thread woken, and not before.
pub open spec fn answers(switch: RawEvent, wakeup: RawEvent) -> bool {
    switch.next_pid == wakeup.next_pid && switch.timestamp_ns >= wakeup.timestamp_ns
}

/// The first switch from `from` on that answers the wakeup.
pub open spec fn first_answer(sw: Seq<RawEvent>, wakeup: RawEvent, from: int) -> Option<int>
    decreases sw.len() - from,
{
    if from < 0 || from >= sw.len() {
        None
    } else if answers(sw[from], wakeup) {
        Some(from)
    } else {
        first_answer(sw, wakeup, from + 1)
    }
}

/// How many of the first `n` wakeups are answered, each by the first switch
/// behind the one that answered the last; and where that leaves off.
pub open spec fn matched(sw: Seq<RawEvent>, wu: Seq<RawEvent>, n: int) -> (nat, int)
    decreases n,
{
    if n <= 0 {
        (0, 0)
    } else {
        let (count, from) = matched(sw, wu, n - 1);
        match first_answer(sw, wu[n - 1], from) {
            Some(j) => (count + 1, j + 1),
            None => (count, from),
        }
    }
}

proof fn lemma_first_answer(sw: Seq<RawEvent>, wakeup: RawEvent, from: int)
    requires
        0 <= from,
    ensures
        first_answer(sw, wakeup, from) matches Some(j) ==> from <= j < sw.len(),
    decreases sw.len() - from,
{
    if from < sw.len() && !answers(sw[from], wakeup) {
        lemma_first_answer(sw, wakeup, from + 1);
    }
}

/// Every answered wakeup has a switch of its own.
pub proof fn law_matches_are_paired(sw: Seq<RawEvent>, wu: Seq<RawEvent>, n: int)
    requires
        0 <= n <= wu.len(),
    ensures
        matched(sw, wu, n).0 <= n,
        matched(sw, wu, n).0 <= matched(sw, wu, n).1 <= sw.len(),
    decreases n,
{
    if n > 0 {
        law_matches_are_paired(sw, wu, n - 1);
        lemma_first_answer(sw, wu[n - 1], matched(sw, wu, n - 1).1);
    }
}

/// How many wakeups are answered.
pub fn match_wakeups(sw: &Vec<RawEvent>, wu: &Vec<RawEvent>) -> (count: usize)
    ensures
        count == matched(sw@, wu@, wu@.len() as int).0,
        count <= wu@.len(),
{
    let mut count: usize = 0;
    let mut from: usize = 0;
    for i in 0..wu.len()
        invariant
            (count as nat, from as int) == matched(sw@, wu@, i as int),
            count <= i,
            from <= sw@.len(),
    {
        let mut j: usize = from;
        let w = wu[i];
        while j < sw.len() && !(sw[j].next_pid == w.next_pid && sw[j].timestamp_ns
            >= w.timestamp_ns)
            invariant
                from <= j <= sw@.len(),
                first_answer(sw@, w, from as int) == first_answer(sw@, w, j as int),
            decreases sw@.len() - j,
        {
            j = j + 1;
        }
        if j < sw.len() {
            count = count + 1;
            from = j + 1;
        }
    }
    count
}

// ---------------------------------------------------------------------------
// Order
// ---------------------------------------------------------------------------

/// On each CPU, time does not run backwards.
pub open spec fn monotonic_per_cpu(all: Seq<RawEvent>) -> bool {
    forall|i: int, j: int|
        0 <= i < j < all.len() && (#[trigger] all[i]).cpu == (#[trigger] all[j]).cpu
            ==> all[i].timestamp_ns <= all[j].timestamp_ns
}

/// Whether time does not run backwards on any CPU.
pub fn check_monotonic(all: &Vec<RawEvent>) -> (b: bool)
    ensures
        b == monotonic_per_cpu(all@),
{
    let mut last: BTreeMap<u32, u64> = BTreeMap::new();
    for i in 0..all.len()
        invariant
            monotonic_per_cpu(all@.take(i as int)),
            forall|k: int|
                0 <= k < i ==> last@.contains_key((#[trigger] all@[k]).cpu as u32)
                    && all@[k].timestamp_ns <= last@[all@[k].cpu as u32],
            forall|c: u32| #[trigger]
                last@.contains_key(c) ==> exists|k: int|
                    0 <= k < i && (#[trigger] all@[k]).cpu as u32 == c && all@[k].timestamp_ns
                        == last@[c],
    {
        let e = all[i];
        let cpu: u32 = e.cpu as u32;
        let ghost before = last@;
        match last.get(&cpu) {
            Some(prev) => {
                if e.timestamp_ns < *prev {
                    proof {
                        let k = choose|k: int|
                            0 <= k < i && (#[trigger] all@[k]).cpu as u32 == cpu
                                && all@[k].timestamp_ns == last@[cpu];
                        assert(all@[k].cpu == all@[i as int].cpu);
                    }
                    return false;
                }
            },
            None => {},
        }
        last.insert(cpu, e.timestamp_ns);
        proof {
            let more = all@.take(i + 1);
            assert forall|a: int, b: int|
                0 <= a < b < more.len() && (#[trigger] more[a]).cpu == (
                #[trigger] more[b]).cpu implies more[a].timestamp_ns <= more[b].timestamp_ns by {
                let less = all@.take(i as int);
                if b < i {
                    assert(less[a] == more[a] && less[b] == more[b]);
                } else {
                    assert(more[a] == all@[a]);
                    assert(before.contains_key(all@[a].cpu as u32));
                }
            }
            assert forall|c: u32| #[trigger] last@.contains_key(c) implies exists|k: int|
                0 <= k < i + 1 && (#[trigger] all@[k]).cpu as u32 == c && all@[k].timestamp_ns
                    == last@[c] by {
                if c == cpu {
                    assert(all@[i as int].cpu as u32 == c);
                } else {
                    assert(before.contains_key(c));
                    let k = choose|k: int|
                        0 <= k < i && (#[trigger] all@[k]).cpu as u32 == c
                            && all@[k].timestamp_ns == before[c];
                    assert(all@[k].timestamp_ns == last@[c]);
                }
            }
        }
    }
    assert(all@.take(all@.len() as int) =~= all@);
    true
}

// ---------------------------------------------------------------------------
// The verdict
// ---------------------------------------------------------------------------

/// What was found in a capture.
#[derive(Debug, Clone, Copy, PartialEq, Eq, Structural)]
pub struct CaptureSummary {
    pub switches: usize,
    pub wakeups: usize,
    /// Wakeups that a switch answers.
    pub matched: usize,
    /// Wakeups that none answers.
    pub orphans: usize,
    pub per_cpu_monotonic: bool,
    /// The process of the workload; zero if no switch leads to it.
    pub tgid: u32,
    /// The capture holds what it must.
    pub pass: bool,
}

/// The process of the first switch to one of the two threads, zero without one.
pub open spec fn workload_tgid(sw: Seq<RawEvent>, a: u32, b: u32) -> u32
    decreases sw.len(),
{
    if sw.len() == 0 {
        0
    } else if sw[0].next_pid == a || sw[0].next_pid == b {
        sw[0].next_tgid
    } else {
        workload_tgid(sw.skip(1), a, b)
    }
}

/// Judges a capture by the two threads of the workload.
pub fn judge_capture(all: &Vec<RawEvent>, a: u32, b: u32) -> (s: CaptureSummary)
    ensures
        ({
            let sw = switches(all@, a, b);
            let wu = wakeups(all@, a, b);
            &&& s.switches == sw.len()
            &&& s.wakeups == wu.len()
            &&& s.matched == matched(sw, wu, wu.len() as int).0
            &&& s.orphans == wu.len() - s.matched
            &&& s.per_cpu_monotonic == monotonic_per_cpu(all@)
            &&& s.tgid == workload_tgid(sw, a, b)
            &&& s.pass == (s.switches > 10 && s.wakeups > 5 && s.matched > 0
                && s.per_cpu_monotonic && s.tgid > 0)
        }),
{
    let (sw, wu) = workload_events(all, a, b);
    let matched_count: usize = match_wakeups(&sw, &wu);
    let per_cpu_monotonic = check_monotonic(all);
    let mut tgid: u32 = 0;
    let mut i: usize = 0;
    assert(sw@.skip(0) =~= sw@);
    while i < sw.len()
        invariant_except_break
            workload_tgid(sw@, a, b) == workload_tgid(sw@.skip(i as int), a, b),
            tgid == 0,
        invariant
            i <= sw@.len(),
        ensures
            tgid == workload_tgid(sw@, a, b),
        decreases sw@.len() - i,
    {
        if sw[i].next_pid == a || sw[i].next_pid == b {
            tgid = sw[i].next_tgid;
            break;
        }
        assert(sw@.skip(i as int).skip(1) =~= sw@.skip(i + 1));
        i = i + 1;
    }
    CaptureSummary {
        switches: sw.len(),
        wakeups: wu.len(),
        matched: matched_count,
        orphans: wu.len() - matched_count,
        per_cpu_monotonic,
        tgid,
        pass: sw.len() > 10 && wu.len() > 5 && matched_count > 0 && per_cpu_monotonic && tgid > 0,
    }
}

// ---------------------------------------------------------------------------
// The machine
// ---------------------------------------------------------------------------

/// The count of dropped events in a kernel map's value: its first eight bytes.
pub fn drop_count_in(value: &[u8]) -> (r: Option<u64>)
    ensures
        r == (if value@.len() >= 8 {
            Some(from_le(value@.subrange(0, 8)) as u64)
        } else {
            None
        }),
{
    if value.len() < 8 {
        return None;
    }
    Some(get_le(value, 0, 8))
}

/// How often the word `processor` stands in a text, from its start to `n`.
pub open spec fn processors(text: Seq<char>, n: int) -> nat
    decreases n,
{
    if n < 9 {
        0
    } else {
        processors(text, n - 1) + (if text.subrange(n - 9, n) == "processor"@ {
            1nat
        } else {
            0
        })
    }
}

/// The number of CPUs that `/proc/cpuinfo` lists.
pub fn count_cpus(cpuinfo: &str) -> (n: usize)
    ensures
        n == processors(cpuinfo@, cpuinfo@.len() as int),
{
    let text = chars_of(cpuinfo);
    let word = chars_of("processor");
    proof {
        reveal_strlit("processor");
    }
    let len: usize = text.len();
    let mut count: usize = 0;
    if len < 9 {
        return 0;
    }
    let mut end: usize = 8;
    while end < len
        invariant
            8 <= end <= len,
            len == text@.len(),
            text@ == cpuinfo@,
            word@ == "processor"@,
            word@.len() == 9,
            count == processors(text@, end as int),
            count <= end,
        decreases len - end,
    {
        end = end + 1;
        let mut k: usize = 0;
        while k < 9 && text[end - 9 + k] == word[k]
            invariant
                9 <= end <= len,
                len == text@.len(),
                word@.len() == 9,
                k <= 9,
                forall|i: int| 0 <= i < k ==> text@[end - 9 + i] == #[trigger] word@[i],
            decreases 9 - k,
        {
            k = k + 1;
        }
        let ghost part = text@.subrange(end - 9, end as int);
        if k == 9 {
            assert(part =~= word@);
            count = count + 1;
        } else {
            assert(part[k as int] != word@[k as int]);
        }
    }
    count
}

// ---------------------------------------------------------------------------
// Laws
// ---------------------------------------------------------------------------

/// The layout of a raw event: 31 bytes, each field at its offset.
pub proof fn law_raw_event_layout(b: Seq<u8>)
    requires
        b.len() >= 31,
    ensures
        ({
            let e = raw_event_from(b);
            &&& e.kind == b[0]
            &&& e.cpu == from_le(b.subrange(1, 3))
            &&& e.prev_pid == from_le(b.subrange(3, 7))
            &&& e.prev_tgid == from_le(b.subrange(7, 11))
            &&& e.next_pid == from_le(b.subrange(11, 15))
            &&& e.next_tgid == from_le(b.subrange(15, 19))
            &&& e.timestamp_ns == from_le(b.subrange(19, 27))
            &&& e.prev_state == from_le(b.subrange(27, 31))
        }),
{
    lemma_capacities();
    lemma_from_le_round_trip(b.subrange(1, 3));
    lemma_from_le_round_trip(b.subrange(3, 7));
    lemma_from_le_round_trip(b.subrange(7, 11));
    lemma_from_le_round_trip(b.subrange(11, 15));
    lemma_from_le_round_trip(b.subrange(15, 19));
    lemma_from_le_round_trip(b.subrange(19, 27));
    lemma_from_le_round_trip(b.subrange(27, 31));
}

/// Which events are those of the workload: switches, of kind zero, that leave or
/// enter one of its threads, and wakeups, of kind one, of one of its threads.
pub proof fn law_workload_events(all: Seq<RawEvent>, a: u32, b: u32, e: RawEvent)
    ensures
        switches(all, a, b).contains(e) <==> all.contains(e) && e.kind == 0 && (e.prev_pid == a
            || e.prev_pid == b || e.next_pid == a || e.next_pid == b),
        wakeups(all, a, b).contains(e) <==> all.contains(e) && e.kind == 1 && (e.next_pid == a
            || e.next_pid == b),
{
    lemma_filter_keeps(all, |e: RawEvent| is_switch(e, a, b), e);
    lemma_filter_keeps(all, |e: RawEvent| is_wakeup(e, a, b), e);
}

proof fn lemma_filter_keeps(all: Seq<RawEvent>, keep: spec_fn(RawEvent) -> bool, e: RawEvent)
    ensures
        all.filter(keep).contains(e) <==> all.contains(e) && keep(e),
    decreases all.len(),
{
    reveal(Seq::filter);
    if all.len() > 0 {
        let front = all.drop_last();
        let kept = front.filter(keep);
        let last = all.last();
        lemma_filter_keeps(front, keep, e);
        assert(all =~= front.push(last));
        assert(all.contains(e) <==> front.contains(e) || e == last) by {
            if front.contains(e) {
                let i = choose|i: int| 0 <= i < front.len() && front[i] == e;
                assert(all[i] == e);
            }
            if all.contains(e) && e != last {
                let i = choose|i: int| 0 <= i < all.len() && all[i] == e;
                assert(front[i] == e);
            }
            assert(all[all.len() - 1] == last);
        }
        if keep(last) {
            let more = kept.push(last);
            assert(all.filter(keep) =~= more);
            assert(more.contains(e) <==> kept.contains(e) || e == last) by {
                if kept.contains(e) {
                    let i = choose|i: int| 0 <= i < kept.len() && kept[i] == e;
                    assert(more[i] == e);
                }
                if more.contains(e) && e != last {
                    let i = choose|i: int| 0 <= i < more.len() && more[i] == e;
                    assert(kept[i] == e);
                }
                assert(more[kept.len() as int] == last);
            }
        }
    }
}

/// A wakeup is answered by the first switch, not before `from`, that runs the woken
/// thread no earlier than the wakeup; and by none only if there is none.
pub proof fn law_first_answer_counts(sw: Seq<RawEvent>, wakeup: RawEvent, from: int)
    requires
        0 <= from,
    ensures
        first_answer(sw, wakeup, from) matches Some(j) ==> {
            &&& from <= j < sw.len()
            &&& sw[j].next_pid == wakeup.next_pid && sw[j].timestamp_ns >= wakeup.timestamp_ns
            &&& forall|i: int|
                from <= i < j ==> (#[trigger] sw[i]).next_pid != wakeup.next_pid
                    || sw[i].timestamp_ns < wakeup.timestamp_ns
        },
        first_answer(sw, wakeup, from) is None ==> forall|i: int|
            from <= i < sw.len() ==> (#[trigger] sw[i]).next_pid != wakeup.next_pid
                || sw[i].timestamp_ns < wakeup.timestamp_ns,
    decreases sw.len() - from,
{
    if from < sw.len() && !answers(sw[from], wakeup) {
        law_first_answer_counts(sw, wakeup, from + 1);
    }
}

/// One more wakeup: it is matched exactly if a switch that no earlier wakeup took,
/// nor passed over, answers it; and it then takes the first such switch.
pub proof fn law_switches_are_taken_in_turn(sw: Seq<RawEvent>, wu: Seq<RawEvent>, n: int)
    requires
        0 < n <= wu.len(),
    ensures
        ({
            let w = wu[n - 1];
            let (count, from) = matched(sw, wu, n - 1);
            let (more, to) = matched(sw, wu, n);
            &&& 0 <= from <= to <= sw.len()
            &&& more == count || more == count + 1
            &&& more == count + 1 <==> exists|i: int|
                from <= i < sw.len() && (#[trigger] sw[i]).next_pid == w.next_pid
                    && sw[i].timestamp_ns >= w.timestamp_ns
            &&& more == count ==> to == from
            &&& more == count + 1 ==> from < to && sw[to - 1].next_pid == w.next_pid
                && sw[to - 1].timestamp_ns >= w.timestamp_ns && forall|i: int|
                from <= i < to - 1 ==> (#[trigger] sw[i]).next_pid != w.next_pid
                    || sw[i].timestamp_ns < w.timestamp_ns
        }),
        matched(sw, wu, 0).0 == 0 && matched(sw, wu, 0).1 == 0,
{
    law_matches_are_paired(sw, wu, n - 1);
    law_first_answer_counts(sw, wu[n - 1], matched(sw, wu, n - 1).1);
}

/// The process of the workload is that of the first switch that leads to one of
/// its threads.
pub proof fn law_first_switch_tells_the_process(sw: Seq<RawEvent>, a: u32, b: u32)
    ensures
        (forall|i: int|
            0 <= i < sw.len() ==> (#[trigger] sw[i]).next_pid != a && sw[i].next_pid != b)
            ==> workload_tgid(sw, a, b) == 0,
        forall|i: int|
            0 <= i < sw.len() && ((#[trigger] sw[i]).next_pid == a || sw[i].next_pid == b) && (
            forall|j: int|
                0 <= j < i ==> (#[trigger] sw[j]).next_pid != a && sw[j].next_pid != b)
                ==> workload_tgid(sw, a, b) == sw[i].next_tgid,
    decreases sw.len(),
{
    if sw.len() > 0 {
        let rest = sw.skip(1);
        law_first_switch_tells_the_process(rest, a, b);
        if sw[0].next_pid != a && sw[0].next_pid != b {
            assert forall|i: int|
                0 <= i < sw.len() && ((#[trigger] sw[i]).next_pid == a || sw[i].next_pid == b) && (
                forall|j: int|
                    0 <= j < i ==> (#[trigger] sw[j]).next_pid != a && sw[j].next_pid
                        != b) implies workload_tgid(sw, a, b) == sw[i].next_tgid by {
                assert(rest[i - 1] == sw[i]);
                assert forall|j: int| 0 <= j < i - 1 implies (#[trigger] rest[j]).next_pid != a
                    && rest[j].next_pid != b by {
                    assert(rest[j] == sw[j + 1]);
                }
            }
        } else {
            assert forall|i: int|
                0 <= i < sw.len() && ((#[trigger] sw[i]).next_pid == a || sw[i].next_pid == b) && (
                forall|j: int|
                    0 <= j < i ==> (#[trigger] sw[j]).next_pid != a && sw[j].next_pid
                        != b) implies workload_tgid(sw, a, b) == sw[i].next_tgid by {
                if i > 0 {
                    assert(sw[0].next_pid != a && sw[0].next_pid != b);
                }
            }
        }
    }
}

/// A text lists one processor more than the text without its last character, if it
/// ends with the word `processor`, and as many otherwise.
pub proof fn law_processors_are_counted(text: Seq<char>, before: Seq<char>, c: char)
    ensures
        processors(Seq::empty(), 0) == 0,
        processors(before + "processor"@, (before + "processor"@).len() as int) == processors(
            before + "processor"@,
            (before + "processor"@).len() - 1,
        ) + 1,
        (forall|p: Seq<char>| text.push(c) != #[trigger] (p + "processor"@)) ==> processors(
            text.push(c),
            text.len() as int + 1,
        ) == processors(text.push(c), text.len() as int),
        processors(text.push(c), text.len() as int) == processors(text, text.len() as int),
{
    reveal_strlit("processor");
    let word = "processor"@;
    let one = before + word;
    assert(one.subrange(one.len() - 9, one.len() as int) =~= word);
    let more = text.push(c);
    let n = more.len() as int;
    if n >= 9 && more.subrange(n - 9, n) == word {
        assert(more =~= more.take(n - 9) + word);
    }
    lemma_processors_prefix(text, c, text.len() as int);
}

proof fn lemma_processors_prefix(text: Seq<char>, c: char, n: int)
    requires
        n <= text.len(),
    ensures
        processors(text.push(c), n) == processors(text, n),
    decreases n,
{
    if n >= 9 {
        lemma_processors_prefix(text, c, n - 1);
        assert(text.push(c).subrange(n - 9, n) =~= text.subrange(n - 9, n));
    }
}

} // verus!
