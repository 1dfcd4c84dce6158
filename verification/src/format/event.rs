//! Trace events and their 40-byte wire form.
//!
//! ```text
//!   timestamp_ns:  u64   offset  0
//!   pid:           u32   offset  8   thread group
//!   tid:           u32   offset 12   thread
//!   prev_tid:      u32   offset 16
//!   next_tid:      u32   offset 20
//!   prev_pid:      u32   offset 24
//!   next_pid:      u32   offset 28
//!   cpu:           u16   offset 32
//!   event_type:    u8    offset 34
//!   prev_state:    u8    offset 35
//!   flags:         u32   offset 36
//! ```
//!
//! All numbers are little-endian.

use vstd::prelude::*;

pub use super::futex_op;
use super::stream::{cut_short, failure_after, overwrite, ByteStream, StreamError};
use super::wire::{
    from_le, get_le, le_bytes, lemma_capacities, lemma_from_le_round_trip, lemma_le_len,
    lemma_le_round_trip, push_le,
};
use crate::sorting::Ranked;

verus! {

/// Size of an event on the wire, in bytes.
pub const EVENT_SIZE: usize = 40;

/// What an event reports.
#[derive(Debug, Clone, Copy, PartialEq, Eq, Structural)]
pub enum EventType {
    Switch,
    Wakeup,
    WakeupNew,
    Exit,
    FutexWait,
    IoIssue,
    IoComplete,
}

impl EventType {
    /// The number on the wire.
    pub open spec fn code(&self) -> u8 {
        match self {
            EventType::Switch => 1,
            EventType::Wakeup => 2,
            EventType::WakeupNew => 3,
            EventType::Exit => 4,
            EventType::FutexWait => 5,
            EventType::IoIssue => 6,
            EventType::IoComplete => 7,
        }
    }

    /// The type that a number on the wire stands for.
    pub open spec fn of_code(v: u8) -> Option<EventType> {
        if v == 1 {
            Some(EventType::Switch)
        } else if v == 2 {
            Some(EventType::Wakeup)
        } else if v == 3 {
            Some(EventType::WakeupNew)
        } else if v == 4 {
            Some(EventType::Exit)
        } else if v == 5 {
            Some(EventType::FutexWait)
        } else if v == 6 {
            Some(EventType::IoIssue)
        } else if v == 7 {
            Some(EventType::IoComplete)
        } else {
            None
        }
    }

    /// The type with a given number, if there is one.
    pub fn from_u8(v: u8) -> (r: Option<Self>)
        ensures
            r == EventType::of_code(v),
            r matches Some(t) ==> t.code() == v,
    {
        match v {
            1 => Some(EventType::Switch),
            2 => Some(EventType::Wakeup),
            3 => Some(EventType::WakeupNew),
            4 => Some(EventType::Exit),
            5 => Some(EventType::FutexWait),
            6 => Some(EventType::IoIssue),
            7 => Some(EventType::IoComplete),
            _ => None,
        }
    }

    /// The number on the wire.
    pub fn to_u8(&self) -> (v: u8)
        ensures
            v == self.code(),
            EventType::of_code(v) == Some(*self),
    {
        match self {
            EventType::Switch => 1,
            EventType::Wakeup => 2,
            EventType::WakeupNew => 3,
            EventType::Exit => 4,
            EventType::FutexWait => 5,
            EventType::IoIssue => 6,
            EventType::IoComplete => 7,
        }
    }
}

/// A trace event.
#[derive(Debug, Clone, Copy, PartialEq, Eq, PartialOrd, Ord, Structural)]
pub struct WperfEvent {
    pub timestamp_ns: u64,
    pub pid: u32,
    pub tid: u32,
    pub prev_tid: u32,
    pub next_tid: u32,
    pub prev_pid: u32,
    pub next_pid: u32,
    pub cpu: u16,
    pub event_type: u8,
    pub prev_state: u8,
    /// The futex operation of a futex wait, otherwise zero.
    pub flags: u32,
}

/// Lexicographic order on the fields: by time, ties broken by the rest.
impl Ranked for WperfEvent {
    open spec fn not_after(self, other: Self) -> bool {
        self.timestamp_ns < other.timestamp_ns || (self.timestamp_ns == other.timestamp_ns && (
        self.pid < other.pid || (self.pid == other.pid && (self.tid < other.tid || (self.tid
            == other.tid && (self.prev_tid < other.prev_tid || (self.prev_tid == other.prev_tid && (
        self.next_tid < other.next_tid || (self.next_tid == other.next_tid && (self.prev_pid
            < other.prev_pid || (self.prev_pid == other.prev_pid && (self.next_pid < other.next_pid
            || (self.next_pid == other.next_pid && (self.cpu < other.cpu || (self.cpu == other.cpu
            && (self.event_type < other.event_type || (self.event_type == other.event_type && (
        self.prev_state < other.prev_state || (self.prev_state == other.prev_state && self.flags
            <= other.flags)))))))))))))))))))
    }

    proof fn order_is_total() {
    }

    fn is_not_after(&self, other: &Self) -> (b: bool) {
        if self.timestamp_ns != other.timestamp_ns {
            return self.timestamp_ns < other.timestamp_ns;
        }
        if self.pid != other.pid {
            return self.pid < other.pid;
        }
        if self.tid != other.tid {
            return self.tid < other.tid;
        }
        if self.prev_tid != other.prev_tid {
            return self.prev_tid < other.prev_tid;
        }
        if self.next_tid != other.next_tid {
            return self.next_tid < other.next_tid;
        }
        if self.prev_pid != other.prev_pid {
            return self.prev_pid < other.prev_pid;
        }
        if self.next_pid != other.next_pid {
            return self.next_pid < other.next_pid;
        }
        if self.cpu != other.cpu {
            return self.cpu < other.cpu;
        }
        if self.event_type != other.event_type {
            return self.event_type < other.event_type;
        }
        if self.prev_state != other.prev_state {
            return self.prev_state < other.prev_state;
        }
        self.flags <= other.flags
    }
}

/// The wire form of an event.
pub open spec fn event_bytes(e: WperfEvent) -> Seq<u8> {
    le_bytes(e.timestamp_ns as nat, 8) + le_bytes(e.pid as nat, 4) + le_bytes(e.tid as nat, 4)
        + le_bytes(e.prev_tid as nat, 4) + le_bytes(e.next_tid as nat, 4) + le_bytes(
        e.prev_pid as nat,
        4,
    ) + le_bytes(e.next_pid as nat, 4) + le_bytes(e.cpu as nat, 2) + seq![
        e.event_type,
        e.prev_state,
    ] + le_bytes(e.flags as nat, 4)
}

/// The event that 40 bytes stand for.
pub open spec fn event_from(b: Seq<u8>) -> WperfEvent {
    WperfEvent {
        timestamp_ns: from_le(b.subrange(0, 8)) as u64,
        pid: from_le(b.subrange(8, 12)) as u32,
        tid: from_le(b.subrange(12, 16)) as u32,
        prev_tid: from_le(b.subrange(16, 20)) as u32,
        next_tid: from_le(b.subrange(20, 24)) as u32,
        prev_pid: from_le(b.subrange(24, 28)) as u32,
        next_pid: from_le(b.subrange(28, 32)) as u32,
        cpu: from_le(b.subrange(32, 34)) as u16,
        event_type: b[34],
        prev_state: b[35],
        flags: from_le(b.subrange(36, 40)) as u32,
    }
}

/// An event survives the way to the wire and back.
pub proof fn law_event_round_trip(e: WperfEvent)
    ensures
        event_bytes(e).len() == EVENT_SIZE,
        event_from(event_bytes(e)) == e,
{
    let b = event_bytes(e);
    lemma_capacities();
    lemma_le_len(e.timestamp_ns as nat, 8);
    lemma_le_len(e.pid as nat, 4);
    lemma_le_len(e.tid as nat, 4);
    lemma_le_len(e.prev_tid as nat, 4);
    lemma_le_len(e.next_tid as nat, 4);
    lemma_le_len(e.prev_pid as nat, 4);
    lemma_le_len(e.next_pid as nat, 4);
    lemma_le_len(e.cpu as nat, 2);
    lemma_le_len(e.flags as nat, 4);
    lemma_le_round_trip(e.timestamp_ns as nat, 8);
    lemma_le_round_trip(e.pid as nat, 4);
    lemma_le_round_trip(e.tid as nat, 4);
    lemma_le_round_trip(e.prev_tid as nat, 4);
    lemma_le_round_trip(e.next_tid as nat, 4);
    lemma_le_round_trip(e.prev_pid as nat, 4);
    lemma_le_round_trip(e.next_pid as nat, 4);
    lemma_le_round_trip(e.cpu as nat, 2);
    lemma_le_round_trip(e.flags as nat, 4);
    assert(b.subrange(0, 8) =~= le_bytes(e.timestamp_ns as nat, 8));
    assert(b.subrange(8, 12) =~= le_bytes(e.pid as nat, 4));
    assert(b.subrange(12, 16) =~= le_bytes(e.tid as nat, 4));
    assert(b.subrange(16, 20) =~= le_bytes(e.prev_tid as nat, 4));
    assert(b.subrange(20, 24) =~= le_bytes(e.next_tid as nat, 4));
    assert(b.subrange(24, 28) =~= le_bytes(e.prev_pid as nat, 4));
    assert(b.subrange(28, 32) =~= le_bytes(e.next_pid as nat, 4));
    assert(b.subrange(32, 34) =~= le_bytes(e.cpu as nat, 2));
    assert(b.subrange(36, 40) =~= le_bytes(e.flags as nat, 4));
}

/// The wire form is the only one that stands for its event.
pub proof fn law_bytes_round_trip(b: Seq<u8>)
    requires
        b.len() == EVENT_SIZE,
    ensures
        event_bytes(event_from(b)) == b,
{
    lemma_capacities();
    lemma_from_le_round_trip(b.subrange(0, 8));
    lemma_from_le_round_trip(b.subrange(8, 12));
    lemma_from_le_round_trip(b.subrange(12, 16));
    lemma_from_le_round_trip(b.subrange(16, 20));
    lemma_from_le_round_trip(b.subrange(20, 24));
    lemma_from_le_round_trip(b.subrange(24, 28));
    lemma_from_le_round_trip(b.subrange(28, 32));
    lemma_from_le_round_trip(b.subrange(32, 34));
    lemma_from_le_round_trip(b.subrange(36, 40));
    assert(event_bytes(event_from(b)) =~= b);
}

impl WperfEvent {
    /// The wire form.
    pub fn to_bytes(&self) -> (r: [u8; EVENT_SIZE])
        ensures
            r@ == event_bytes(*self),
    {
        let mut buf: Vec<u8> = Vec::new();
        push_le(&mut buf, self.timestamp_ns, 8);
        push_le(&mut buf, self.pid as u64, 4);
        push_le(&mut buf, self.tid as u64, 4);
        push_le(&mut buf, self.prev_tid as u64, 4);
        push_le(&mut buf, self.next_tid as u64, 4);
        push_le(&mut buf, self.prev_pid as u64, 4);
        push_le(&mut buf, self.next_pid as u64, 4);
        push_le(&mut buf, self.cpu as u64, 2);
        buf.push(self.event_type);
        buf.push(self.prev_state);
        push_le(&mut buf, self.flags as u64, 4);
        proof {
            law_event_round_trip(*self);
            assert(buf@ =~= event_bytes(*self));
        }
        let mut r: [u8; EVENT_SIZE] = [0u8; EVENT_SIZE];
        for i in 0..EVENT_SIZE
            invariant
                buf@.len() == EVENT_SIZE,
                forall|k: int| 0 <= k < i ==> #[trigger] r@[k] == buf@[k],
        {
            r[i] = buf[i];
        }
        assert(r@ =~= buf@);
        r
    }

    /// The event that a wire form stands for.
    pub fn from_bytes(buf: &[u8; EVENT_SIZE]) -> (e: Self)
        ensures
            e == event_from(buf@),
    {
        let b = buf.as_slice();
        proof {
            lemma_capacities();
            lemma_from_le_round_trip(b@.subrange(8, 12));
            lemma_from_le_round_trip(b@.subrange(12, 16));
            lemma_from_le_round_trip(b@.subrange(16, 20));
            lemma_from_le_round_trip(b@.subrange(20, 24));
            lemma_from_le_round_trip(b@.subrange(24, 28));
            lemma_from_le_round_trip(b@.subrange(28, 32));
            lemma_from_le_round_trip(b@.subrange(32, 34));
            lemma_from_le_round_trip(b@.subrange(36, 40));
        }
        WperfEvent {
            timestamp_ns: get_le(b, 0, 8),
            pid: get_le(b, 8, 4) as u32,
            tid: get_le(b, 12, 4) as u32,
            prev_tid: get_le(b, 16, 4) as u32,
            next_tid: get_le(b, 20, 4) as u32,
            prev_pid: get_le(b, 24, 4) as u32,
            next_pid: get_le(b, 28, 4) as u32,
            cpu: get_le(b, 32, 2) as u16,
            event_type: b[34],
            prev_state: b[35],
            flags: get_le(b, 36, 4) as u32,
        }
    }

    /// Writes the wire form at the position of a stream.
    pub fn write_to<W: ByteStream>(&self, w: &mut W) -> (r: Result<(), StreamError>)
        ensures
            r is Ok ==> {
                &&& final(w).bytes() == overwrite(old(w).bytes(), old(w).at(), event_bytes(*self))
                &&& final(w).at() == old(w).at() + EVENT_SIZE
            },
            r is Err ==> cut_short(
                old(w).bytes(),
                old(w).at(),
                event_bytes(*self),
                final(w).bytes(),
            ),
            final(w).failure() == failure_after(old(w).failure(), r),
            old(w).healthy() ==> final(w).healthy(),
            old(w).healthy() && old(w).at() + EVENT_SIZE <= isize::MAX ==> r is Ok,
    {
        proof {
            law_event_round_trip(*self);
        }
        let b = self.to_bytes();
        w.write_all(b.as_slice())
    }

    /// Reads the wire form at the position of a stream.
    pub fn read_from<R: ByteStream>(r: &mut R) -> (e: Result<Self, StreamError>)
        ensures
            final(r).bytes() == old(r).bytes(),
            old(r).healthy() ==> final(r).healthy(),
            e matches Ok(ev) ==> {
                &&& old(r).at() + EVENT_SIZE <= old(r).bytes().len()
                &&& ev == event_from(
                    old(r).bytes().subrange(old(r).at() as int, old(r).at() + EVENT_SIZE),
                )
                &&& final(r).at() == old(r).at() + EVENT_SIZE
            },
            old(r).healthy() ==> (e is Err <==> old(r).at() + EVENT_SIZE
                > old(r).bytes().len()),
            e matches Err(err) ==> (old(r).healthy() ==> err is UnexpectedEof),
            final(r).failure() == failure_after(old(r).failure(), e),
    {
        match r.read_exact(EVENT_SIZE) {
            Ok(buf) => {
                let mut b: [u8; EVENT_SIZE] = [0u8; EVENT_SIZE];
                for i in 0..EVENT_SIZE
                    invariant
                        buf@.len() == EVENT_SIZE,
                        forall|k: int| 0 <= k < i ==> #[trigger] b@[k] == buf@[k],
                {
                    b[i] = buf[i];
                }
                assert(b@ =~= buf@);
                Ok(WperfEvent::from_bytes(&b))
            },
            Err(e) => Err(e),
        }
    }

    /// What the event reports, if its type is known.
    pub fn event_type_enum(&self) -> (r: Option<EventType>)
        ensures
            r == EventType::of_code(self.event_type),
    {
        EventType::from_u8(self.event_type)
    }

    /// The user address of a futex wait.
    pub open spec fn wide_field(&self) -> nat {
        self.next_tid as nat * 0x1_0000_0000 + self.prev_tid as nat
    }

    /// The user address of a futex wait: `prev_tid` holds the low half,
    /// `next_tid` the high half.
    pub fn futex_uaddr(&self) -> (a: u64)
        ensures
            a == self.wide_field(),
    {
        self.next_tid as u64 * 0x1_0000_0000 + self.prev_tid as u64
    }

    /// The operation of a futex wait.
    pub fn futex_op(&self) -> (op: u32)
        ensures
            op == self.flags,
    {
        self.flags
    }

    /// The first sector of a block request: `prev_tid` holds the low half,
    /// `next_tid` the high half.
    pub fn io_sector(&self) -> (s: u64)
        ensures
            s == self.wide_field(),
    {
        self.next_tid as u64 * 0x1_0000_0000 + self.prev_tid as u64
    }

    /// The device of a block request.
    pub fn io_dev(&self) -> (d: u32)
        ensures
            d == self.prev_pid,
    {
        self.prev_pid
    }

    /// The number of sectors of a block request.
    pub fn io_nr_sector(&self) -> (n: u32)
        ensures
            n == self.next_pid,
    {
        self.next_pid
    }
}

/// The layout of an event on the wire: 40 bytes, each field at its offset, numbers
/// with the lowest byte first.
pub proof fn law_event_layout(e: WperfEvent)
    ensures
        ({
            let b = event_bytes(e);
            &&& b.len() == 40
            &&& from_le(b.subrange(0, 8)) == e.timestamp_ns
            &&& from_le(b.subrange(8, 12)) == e.pid
            &&& from_le(b.subrange(12, 16)) == e.tid
            &&& from_le(b.subrange(16, 20)) == e.prev_tid
            &&& from_le(b.subrange(20, 24)) == e.next_tid
            &&& from_le(b.subrange(24, 28)) == e.prev_pid
            &&& from_le(b.subrange(28, 32)) == e.next_pid
            &&& from_le(b.subrange(32, 34)) == e.cpu
            &&& b[34] == e.event_type
            &&& b[35] == e.prev_state
            &&& from_le(b.subrange(36, 40)) == e.flags
        }),
{
    let b = event_bytes(e);
    law_event_round_trip(e);
    lemma_capacities();
    lemma_from_le_round_trip(b.subrange(0, 8));
    lemma_from_le_round_trip(b.subrange(8, 12));
    lemma_from_le_round_trip(b.subrange(12, 16));
    lemma_from_le_round_trip(b.subrange(16, 20));
    lemma_from_le_round_trip(b.subrange(20, 24));
    lemma_from_le_round_trip(b.subrange(24, 28));
    lemma_from_le_round_trip(b.subrange(28, 32));
    lemma_from_le_round_trip(b.subrange(32, 34));
    lemma_from_le_round_trip(b.subrange(36, 40));
}

/// The numbers of the event types.
pub proof fn law_event_type_numbers(v: u8)
    ensures
        v == 1 <==> EventType::of_code(v) == Some(EventType::Switch),
        v == 2 <==> EventType::of_code(v) == Some(EventType::Wakeup),
        v == 3 <==> EventType::of_code(v) == Some(EventType::WakeupNew),
        v == 4 <==> EventType::of_code(v) == Some(EventType::Exit),
        v == 5 <==> EventType::of_code(v) == Some(EventType::FutexWait),
        v == 6 <==> EventType::of_code(v) == Some(EventType::IoIssue),
        v == 7 <==> EventType::of_code(v) == Some(EventType::IoComplete),
        EventType::of_code(v) matches Some(t) ==> t.code() == v,
{
}

/// Events are ordered by the first field in which they differ, fields taken in the
/// order in which they stand on the wire.
pub proof fn law_first_difference_decides(a: WperfEvent, b: WperfEvent)
    ensures
        a == b ==> a.not_after(b),
        a.timestamp_ns < b.timestamp_ns ==> a.not_after(b) && !b.not_after(a),
        a.timestamp_ns == b.timestamp_ns ==> {
            &&& a.pid < b.pid ==> a.not_after(b) && !b.not_after(a)
            &&& a.pid == b.pid ==> {
                &&& a.tid < b.tid ==> a.not_after(b) && !b.not_after(a)
                &&& a.tid == b.tid ==> {
                    &&& a.prev_tid < b.prev_tid ==> a.not_after(b) && !b.not_after(a)
                    &&& a.prev_tid == b.prev_tid ==> {
                        &&& a.next_tid < b.next_tid ==> a.not_after(b) && !b.not_after(a)
                        &&& a.next_tid == b.next_tid ==> {
                            &&& a.prev_pid < b.prev_pid ==> a.not_after(b) && !b.not_after(a)
                            &&& a.prev_pid == b.prev_pid ==> {
                                &&& a.next_pid < b.next_pid ==> a.not_after(b) && !b.not_after(a)
                                &&& a.next_pid == b.next_pid ==> {
                                    &&& a.cpu < b.cpu ==> a.not_after(b) && !b.not_after(a)
                                    &&& a.cpu == b.cpu ==> {
                                        &&& a.event_type < b.event_type ==> a.not_after(b)
                                            && !b.not_after(a)
                                        &&& a.event_type == b.event_type ==> {
                                            &&& a.prev_state < b.prev_state ==> a.not_after(b)
                                                && !b.not_after(a)
                                            &&& a.prev_state == b.prev_state && a.flags < b.flags
                                                ==> a.not_after(b) && !b.not_after(a)
                                        }
                                    }
                                }
                            }
                        }
                    }
                }
            }
        },
{
}

} // verus!
