//! Reorder buffer for per-CPU event streams.
//!
//! Per-CPU buffers deliver events in the order of their own clock, with no
//! order between CPUs. The buffer holds events back until they are older than
//! the newest event seen by a window, and hands them out in order: events that
//! arrive late by no more than the window come out in their place.

use vstd::prelude::*;

use crate::correlate::time_ordered;
use crate::format::event::WperfEvent;
use crate::sorting::{lemma_place, lemma_sorted_same, place, sorted, Ranked};

verus! {

/// Default window: 50 milliseconds in nanoseconds.
pub const DEFAULT_WINDOW_NS: u64 = 50_000_000;

/// A buffer that restores the order of events.
#[derive(Debug)]
pub struct ReorderBuf {
    /// The events held back, the latest first.
    events: Vec<WperfEvent>,
    /// The largest timestamp seen so far.
    newest_ts: u64,
    window_ns: u64,
}

// ---------------------------------------------------------------------------
// The mathematical model
// ---------------------------------------------------------------------------

/// What a [`ReorderBuf`] stands for.
#[verifier::ext_equal]
pub struct ReorderView {
    /// The events held back, in ascending order.
    pub held: Seq<WperfEvent>,
    /// The largest timestamp seen since the start or the last drain.
    pub newest: u64,
    pub window: u64,
}

/// The later of two moments.
pub open spec fn later(a: u64, b: u64) -> u64 {
    if a > b {
        a
    } else {
        b
    }
}

/// The moment up to which events are let go: the newest one, less the window. It
/// lies before all events until a whole window has passed.
pub open spec fn cutoff(newest: u64, window: u64) -> int {
    newest - window
}

/// How many events at the front of `s` are no later than `limit`.
pub open spec fn due(s: Seq<WperfEvent>, limit: int) -> nat
    decreases s.len(),
{
    if s.len() == 0 || s[0].timestamp_ns > limit {
        0
    } else {
        1 + due(s.skip(1), limit)
    }
}

/// A buffer after an event has come in, and the events that it lets go.
pub open spec fn taken_in(v: ReorderView, event: WperfEvent) -> (ReorderView, Seq<WperfEvent>) {
    let newest = later(event.timestamp_ns, v.newest);
    let all = place(v.held, event);
    let n = due(all, cutoff(newest, v.window)) as int;
    (ReorderView { held: all.skip(n), newest, window: v.window }, all.take(n))
}

/// A buffer after events have come in one by one, and what it let go.
pub open spec fn flow(v: ReorderView, events: Seq<WperfEvent>) -> (ReorderView, Seq<WperfEvent>)
    decreases events.len(),
{
    if events.len() == 0 {
        (v, Seq::empty())
    } else {
        let (before, out) = flow(v, events.drop_last());
        let (after, more) = taken_in(before, events.last());
        (after, out + more)
    }
}

/// A buffer that has seen nothing.
pub open spec fn fresh_buffer(window: u64) -> ReorderView {
    ReorderView { held: Seq::empty(), newest: 0, window }
}

/// No event arrives later than the window after one with a larger timestamp.
pub open spec fn late_within(events: Seq<WperfEvent>, window: u64) -> bool {
    forall|i: int, j: int|
        0 <= i < j < events.len() ==> (#[trigger] events[i]).timestamp_ns <= (
        #[trigger] events[j]).timestamp_ns + window
}

/// The events at the front of a sorted sequence that are no later than `limit`
/// are all that are.
pub proof fn lemma_due(s: Seq<WperfEvent>, limit: int)
    requires
        sorted(s),
    ensures
        due(s, limit) <= s.len(),
        forall|i: int| 0 <= i < due(s, limit) ==> (#[trigger] s[i]).timestamp_ns <= limit,
        forall|i: int| due(s, limit) <= i < s.len() ==> (#[trigger] s[i]).timestamp_ns > limit,
    decreases s.len(),
{
    if s.len() == 0 {
    } else if s[0].timestamp_ns > limit {
        assert forall|i: int| 0 <= i < s.len() implies (#[trigger] s[i]).timestamp_ns > limit by {
            if i > 0 {
                assert(s[0].not_after(s[i]));
            }
        }
    } else {
        let rest = s.skip(1);
        lemma_due(rest, limit);
        assert forall|i: int| 0 <= i < due(s, limit) implies (#[trigger] s[i]).timestamp_ns
            <= limit by {
            if i > 0 {
                assert(rest[i - 1] == s[i]);
            }
        }
        assert forall|i: int| due(s, limit) <= i < s.len() implies (#[trigger] s[i]).timestamp_ns
            > limit by {
            assert(rest[i - 1] == s[i]);
        }
    }
}

impl View for ReorderBuf {
    type V = ReorderView;

    closed spec fn view(&self) -> ReorderView {
        ReorderView {
            held: self.events@.reverse(),
            newest: self.newest_ts,
            window: self.window_ns,
        }
    }
}

// ---------------------------------------------------------------------------
// The buffer
// ---------------------------------------------------------------------------

impl ReorderBuf {
    /// The events held back are in order.
    pub open spec fn wf(&self) -> bool {
        sorted(self@.held)
    }

    /// A buffer with the default window.
    pub fn new() -> (r: Self)
        ensures
            r.wf(),
            r@ == fresh_buffer(DEFAULT_WINDOW_NS),
            r@.window == 50_000_000,
    {
        ReorderBuf::with_window(DEFAULT_WINDOW_NS)
    }

    /// A buffer with a window in nanoseconds.
    pub fn with_window(window_ns: u64) -> (r: Self)
        ensures
            r.wf(),
            r@ == fresh_buffer(window_ns),
    {
        let r = ReorderBuf { events: Vec::new(), newest_ts: 0, window_ns };
        assert(r@.held =~= Seq::empty());
        r
    }

    /// Takes in an event, and appends to `out` those that have aged out of the
    /// window, in order. Returns how many these are.
    pub fn push(&mut self, event: WperfEvent, out: &mut Vec<WperfEvent>) -> (n: usize)
        requires
            old(self).wf(),
        ensures
            final(self).wf(),
            final(self)@ == taken_in(old(self)@, event).0,
            final(out)@ == old(out)@ + taken_in(old(self)@, event).1,
            n == taken_in(old(self)@, event).1.len(),
    {
        if event.timestamp_ns > self.newest_ts {
            self.newest_ts = event.timestamp_ns;
        }
        self.insert(event);
        proof {
            lemma_due(self@.held, cutoff(self@.newest, self@.window));
        }
        self.flush_expired(out)
    }

    /// Puts an event at its place.
    fn insert(&mut self, event: WperfEvent)
        requires
            old(self).wf(),
        ensures
            final(self).wf(),
            final(self)@.held == place(old(self)@.held, event),
            final(self)@.newest == old(self)@.newest,
            final(self)@.window == old(self)@.window,
    {
        let ghost stored = self.events@;
        let ghost held = stored.reverse();
        let mut i: usize = self.events.len();
        while i > 0 && !event.is_not_after(&self.events[i - 1])
            invariant
                i <= stored.len(),
                self.events@ == stored,
                sorted(stored.reverse()),
                forall|k: int| i <= k < stored.len() ==> (#[trigger] stored[k]).not_after(event),
            decreases i,
        {
            proof {
                WperfEvent::order_is_total();
            }
            i = i - 1;
        }
        self.events.insert(i, event);
        proof {
            WperfEvent::order_is_total();
            let now = self.events@;
            let r = now.reverse();
            let n = stored.len();
            assert forall|k: int| 0 <= k < i implies event.not_after(#[trigger] stored[k]) by {
                assert(held[n - i] == stored[i - 1]);
                assert(held[n - 1 - k] == stored[k]);
            }
            assert(r =~= held.take(n - i) + seq![event] + held.skip(n - i)) by {
                assert forall|k: int| 0 <= k < r.len() implies r[k] == (held.take(n - i) + seq![
                    event,
                ] + held.skip(n - i))[k] by {
                    if k < n - i {
                        assert(r[k] == now[n - k]);
                        assert(now[n - k] == stored[n - 1 - k]);
                    } else if k > n - i {
                        assert(r[k] == now[n - k]);
                        assert(now[n - k] == stored[n - k]);
                        assert(held[k - 1] == stored[n - k]);
                    }
                }
            }
            assert forall|a: int, b: int| 0 <= a < b < r.len() implies (#[trigger] r[a]).not_after(
                #[trigger] r[b],
            ) by {
                let m = n - i;
                if a < m {
                    assert(r[a] == held[a]);
                    assert(held[a] == stored[n - 1 - a]);
                } else if a > m {
                    assert(r[a] == held[a - 1]);
                }
                if b < m {
                    assert(r[b] == held[b]);
                } else if b > m {
                    assert(r[b] == held[b - 1]);
                    assert(held[b - 1] == stored[n - b]);
                }
            }
            assert(r.to_multiset() == held.to_multiset().insert(event)) by {
                let left = held.take(n - i);
                let right = held.skip(n - i);
                assert(held =~= left + right);
                vstd::seq_lib::lemma_multiset_commutative(left, right);
                vstd::seq_lib::lemma_multiset_commutative(left + seq![event], right);
                assert(left + seq![event] =~= left.push(event));
                vstd::seq_lib::to_multiset_build(left, event);
                assert(r.to_multiset() =~= held.to_multiset().insert(event));
            }
            lemma_place(held, event);
            lemma_sorted_same(r, place(held, event));
        }
    }

    /// Appends to `out` the events that are older than the newest by the
    /// window, in order.
    fn flush_expired(&mut self, out: &mut Vec<WperfEvent>) -> (n: usize)
        requires
            old(self).wf(),
        ensures
            final(self).wf(),
            n == due(old(self)@.held, cutoff(old(self)@.newest, old(self)@.window)),
            final(self)@.held == old(self)@.held.skip(n as int),
            final(self)@.newest == old(self)@.newest,
            final(self)@.window == old(self)@.window,
            final(out)@ == old(out)@ + old(self)@.held.take(n as int),
    {
        let ghost held = self@.held;
        if self.newest_ts < self.window_ns {
            assert(held.skip(0) =~= held);
            assert(out@ =~= old(out)@ + held.take(0));
            return 0;
        }
        let limit: u64 = self.newest_ts - self.window_ns;
        let total: usize = self.events.len();
        let mut flushed: usize = 0;
        proof {
            lemma_due(held, limit as int);
            assert(held.skip(0) =~= held);
        }
        while self.events.len() > 0 && self.events[self.events.len() - 1].timestamp_ns <= limit
            invariant
                sorted(held),
                held.len() == total,
                flushed <= held.len(),
                self.events@.reverse() == held.skip(flushed as int),
                self.newest_ts == old(self).newest_ts,
                self.window_ns == old(self).window_ns,
                out@ == old(out)@ + held.take(flushed as int),
                due(held, limit as int) <= held.len(),
                flushed <= due(held, limit as int),
                forall|i: int|
                    due(held, limit as int) <= i < held.len() ==> (#[trigger] held[i]).timestamp_ns
                        > limit,
                forall|i: int|
                    0 <= i < due(held, limit as int) ==> (#[trigger] held[i]).timestamp_ns
                        <= limit,
            decreases self.events.len(),
        {
            let ghost stored = self.events@;
            proof {
                assert(stored.len() == stored.reverse().len());
                assert(stored.len() == held.len() - flushed);
                assert(stored.reverse()[0] == stored.last());
                assert(held.skip(flushed as int)[0] == held[flushed as int]);
            }
            match self.events.pop() {
                Some(event) => {
                    out.push(event);
                    flushed = flushed + 1;
                    proof {
                        assert(self.events@.reverse() =~= stored.reverse().skip(1));
                        assert(stored.reverse().skip(1) =~= held.skip(flushed as int));
                        assert(out@ =~= old(out)@ + held.take(flushed as int));
                    }
                },
                None => {
                    proof {
                        assert(false);
                    }
                },
            }
        }
        proof {
            if self.events@.len() > 0 {
                assert(self.events@.len() == self.events@.reverse().len());
                assert(self.events@.reverse()[0] == self.events@.last());
                assert(held.skip(flushed as int)[0] == held[flushed as int]);
            } else {
                assert(held.skip(flushed as int).len() == 0);
            }
            assert(sorted(held.skip(flushed as int)));
        }
        flushed
    }

    /// Appends to `out` all events that are still held, in order, and starts
    /// anew. Returns how many they are.
    pub fn drain(&mut self, out: &mut Vec<WperfEvent>) -> (n: usize)
        requires
            old(self).wf(),
        ensures
            final(self).wf(),
            final(self)@ == fresh_buffer(old(self)@.window),
            final(out)@ == old(out)@ + old(self)@.held,
            n == old(self)@.held.len(),
    {
        let ghost held = self@.held;
        let n: usize = self.events.len();
        proof {
            assert(held.skip(0) =~= held);
            assert(held.take(0) =~= Seq::empty());
        }
        let mut drained: usize = 0;
        while drained < n
            invariant
                n == held.len(),
                drained <= n,
                self.events@.reverse() == held.skip(drained as int),
                self.window_ns == old(self).window_ns,
                out@ == old(out)@ + held.take(drained as int),
            decreases n - drained,
        {
            let ghost stored = self.events@;
            proof {
                assert(stored.len() == stored.reverse().len());
                assert(stored.reverse()[0] == stored.last());
                assert(held.skip(drained as int)[0] == held[drained as int]);
            }
            match self.events.pop() {
                Some(event) => {
                    out.push(event);
                    drained = drained + 1;
                    proof {
                        assert(self.events@.reverse() =~= stored.reverse().skip(1));
                        assert(stored.reverse().skip(1) =~= held.skip(drained as int));
                        assert(out@ =~= old(out)@ + held.take(drained as int));
                    }
                },
                None => {
                    proof {
                        assert(false);
                    }
                },
            }
        }
        self.newest_ts = 0;
        proof {
            assert(held.take(n as int) =~= held);
            assert(self@.held =~= Seq::empty());
        }
        drained
    }

    /// The window in nanoseconds.
    pub fn window_ns(&self) -> (w: u64)
        ensures
            w == self@.window,
    {
        self.window_ns
    }

    /// How many events are held back.
    pub fn len(&self) -> (n: usize)
        ensures
            n == self@.held.len(),
    {
        self.events.len()
    }

    /// Whether no event is held back.
    pub fn is_empty(&self) -> (b: bool)
        ensures
            b == (self@.held.len() == 0),
    {
        self.events.len() == 0
    }
}

impl Default for ReorderBuf {
    fn default() -> (r: Self)
        ensures
            r.wf(),
            r@ == fresh_buffer(DEFAULT_WINDOW_NS),
            r@.window == 50_000_000,
    {
        ReorderBuf::new()
    }
}

// ---------------------------------------------------------------------------
// Laws
// ---------------------------------------------------------------------------

/// No event is lost or made up: what was let go and what is still held are
/// together what was held before and what came in.
pub proof fn law_reorder_keeps_events(v: ReorderView, events: Seq<WperfEvent>)
    requires
        sorted(v.held),
    ensures
        sorted(flow(v, events).0.held),
        flow(v, events).1.to_multiset().add(flow(v, events).0.held.to_multiset())
            == v.held.to_multiset().add(events.to_multiset()),
    decreases events.len(),
{
    broadcast use vstd::seq_lib::group_to_multiset_ensures;

    if events.len() == 0 {
        assert(flow(v, events).1.to_multiset().add(v.held.to_multiset())
            =~= v.held.to_multiset().add(events.to_multiset()));
    } else {
        let front = events.drop_last();
        let e = events.last();
        law_reorder_keeps_events(v, front);
        let (before, out) = flow(v, front);
        let (after, more) = taken_in(before, e);
        let all = place(before.held, e);
        lemma_place(before.held, e);
        lemma_due(all, cutoff(after.newest, before.window));
        assert(all =~= more + after.held);
        vstd::seq_lib::lemma_multiset_commutative(more, after.held);
        vstd::seq_lib::lemma_multiset_commutative(out, more);
        assert(events =~= front.push(e));
        vstd::seq_lib::to_multiset_build(front, e);
        assert(out.to_multiset().add(before.held.to_multiset()).insert(e)
            =~= v.held.to_multiset().add(events.to_multiset()));
        assert(all.to_multiset() =~= more.to_multiset().add(after.held.to_multiset()));
        assert((out + more).to_multiset().add(after.held.to_multiset())
            =~= out.to_multiset().add(all.to_multiset()));
        assert(out.to_multiset().add(all.to_multiset()) =~= out.to_multiset().add(
            before.held.to_multiset(),
        ).insert(e));
        assert((out + more).to_multiset().add(after.held.to_multiset())
            =~= v.held.to_multiset().add(events.to_multiset()));
    }
}

/// Events that arrive late by no more than the window come out in the order of
/// their timestamps, those still held following those let go.
pub proof fn law_reorder_restores_order(window: u64, events: Seq<WperfEvent>)
    requires
        late_within(events, window),
    ensures
        time_ordered(
            flow(fresh_buffer(window), events).1 + flow(fresh_buffer(window), events).0.held,
        ),
{
    lemma_flow_in_order(window, events);
}

proof fn lemma_flow_in_order(window: u64, events: Seq<WperfEvent>)
    requires
        late_within(events, window),
    ensures
        ({
            let (after, out) = flow(fresh_buffer(window), events);
            &&& after.window == window
            &&& sorted(after.held)
            &&& forall|i: int|
                0 <= i < events.len() ==> (#[trigger] events[i]).timestamp_ns <= after.newest
            &&& after.newest == 0 || exists|i: int|
                0 <= i < events.len() && (#[trigger] events[i]).timestamp_ns == after.newest
            &&& forall|i: int|
                0 <= i < out.len() ==> (#[trigger] out[i]).timestamp_ns <= cutoff(
                    after.newest,
                    window,
                )
            &&& forall|i: int|
                0 <= i < after.held.len() ==> (#[trigger] after.held[i]).timestamp_ns > cutoff(
                    after.newest,
                    window,
                )
            &&& time_ordered(out + after.held)
        }),
    decreases events.len(),
{
    WperfEvent::order_is_total();
    if events.len() == 0 {
    } else {
        let front = events.drop_last();
        let e = events.last();
        assert(late_within(front, window)) by {
            assert forall|i: int, j: int| 0 <= i < j < front.len() implies (
            #[trigger] front[i]).timestamp_ns <= (#[trigger] front[j]).timestamp_ns + window by {
                assert(front[i] == events[i]);
                assert(front[j] == events[j]);
            }
        }
        lemma_flow_in_order(window, front);
        let (before, out) = flow(fresh_buffer(window), front);
        let (after, more) = taken_in(before, e);
        let all = place(before.held, e);
        let limit = cutoff(after.newest, window);
        let n = due(all, limit) as int;
        lemma_place(before.held, e);
        lemma_due(all, limit);
        assert(e == events[events.len() - 1]);
        // The newcomer is not older than what was let go before.
        assert(cutoff(before.newest, window) <= e.timestamp_ns) by {
            if before.newest > 0 {
                let i = choose|i: int|
                    0 <= i < front.len() && (#[trigger] front[i]).timestamp_ns == before.newest;
                assert(front[i] == events[i]);
            }
        }
        assert forall|k: int| 0 <= k < all.len() implies (#[trigger] all[k]).timestamp_ns
            >= cutoff(before.newest, window) by {
            broadcast use vstd::seq_lib::group_to_multiset_ensures;

            assert(all.contains(all[k]));
            assert(all.to_multiset().count(all[k]) > 0);
            if all[k] != e {
                assert(before.held.to_multiset().count(all[k]) > 0);
                assert(before.held.contains(all[k]));
                let l = choose|l: int| 0 <= l < before.held.len() && before.held[l] == all[k];
            }
        }
        let old_line = out + before.held;
        let line = (out + more) + after.held;
        assert(line =~= out + all);
        assert forall|i: int, j: int| 0 <= i < j < line.len() implies (
        #[trigger] line[i]).timestamp_ns <= (#[trigger] line[j]).timestamp_ns by {
            if j < out.len() {
                assert(old_line[i] == out[i] && old_line[j] == out[j]);
            } else if i < out.len() {
                assert(line[j] == all[j - out.len()]);
                assert(line[i] == out[i]);
            } else {
                assert(line[i] == all[i - out.len()]);
                assert(line[j] == all[j - out.len()]);
                assert(all[i - out.len()].not_after(all[j - out.len()]));
            }
        }
        assert forall|i: int| 0 <= i < events.len() implies (#[trigger] events[i]).timestamp_ns
            <= after.newest by {
            if i < front.len() {
                assert(front[i] == events[i]);
            }
        }
        if after.newest == e.timestamp_ns {
            assert(events[events.len() - 1].timestamp_ns == after.newest);
        } else if before.newest > 0 {
            let i = choose|i: int|
                0 <= i < front.len() && (#[trigger] front[i]).timestamp_ns == before.newest;
            assert(events[i].timestamp_ns == after.newest);
        }
        assert forall|i: int| 0 <= i < (out + more).len() implies (#[trigger] (out
            + more)[i]).timestamp_ns <= limit by {
            if i < out.len() {
                assert((out + more)[i] == out[i]);
            } else {
                assert((out + more)[i] == all[i - out.len()]);
            }
        }
        assert forall|i: int| 0 <= i < after.held.len() implies (
        #[trigger] after.held[i]).timestamp_ns > limit by {
            assert(after.held[i] == all[n + i]);
        }
        assert(sorted(after.held)) by {
            assert forall|i: int, j: int| 0 <= i < j < after.held.len() implies (
            #[trigger] after.held[i]).not_after(#[trigger] after.held[j]) by {
                assert(after.held[i] == all[n + i]);
                assert(after.held[j] == all[n + j]);
            }
        }
    }
}

/// What the window does: an event that comes in is held back exactly as long as it
/// is not older than the newest one by the window, and what is let go and what is
/// held are both in order.
pub proof fn law_window_holds_back(v: ReorderView, event: WperfEvent)
    requires
        sorted(v.held),
    ensures
        ({
            let (after, out) = taken_in(v, event);
            &&& after.window == v.window
            &&& after.newest >= event.timestamp_ns && after.newest >= v.newest
            &&& after.newest == event.timestamp_ns || after.newest == v.newest
            &&& forall|i: int|
                0 <= i < out.len() ==> (#[trigger] out[i]).timestamp_ns + v.window <= after.newest
            &&& forall|i: int|
                0 <= i < after.held.len() ==> (#[trigger] after.held[i]).timestamp_ns + v.window
                    > after.newest
            &&& forall|i: int, j: int|
                0 <= i < j < (out + after.held).len() ==> (#[trigger] (out
                    + after.held)[i]).not_after(#[trigger] (out + after.held)[j])
            &&& (out + after.held).to_multiset() == v.held.to_multiset().insert(event)
        }),
{
    let (after, out) = taken_in(v, event);
    let all = place(v.held, event);
    lemma_place(v.held, event);
    lemma_due(all, cutoff(after.newest, v.window));
    assert(out + after.held =~= all);
    let n = due(all, cutoff(after.newest, v.window)) as int;
    assert forall|i: int| 0 <= i < after.held.len() implies (
    #[trigger] after.held[i]).timestamp_ns + v.window > after.newest by {
        assert(after.held[i] == all[n + i]);
    }
}

/// A buffer that has seen nothing holds nothing back, and takes any event for the
/// newest.
pub proof fn law_fresh_buffer(window: u64, event: WperfEvent)
    ensures
        fresh_buffer(window).held.len() == 0,
        fresh_buffer(window).window == window,
        taken_in(fresh_buffer(window), event).0.newest == event.timestamp_ns,
{
}

} // verus!
