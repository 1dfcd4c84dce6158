//! Events and their wire form.

use wperf::format::event::{futex_op, EventType, WperfEvent, EVENT_SIZE};
use wperf::format::stream::MemStream;

fn sample_switch_event() -> WperfEvent {
    WperfEvent {
        timestamp_ns: 1_000_000_000,
        pid: 100,
        tid: 101,
        prev_tid: 101,
        next_tid: 202,
        prev_pid: 100,
        next_pid: 200,
        cpu: 3,
        event_type: EventType::Switch.to_u8(),
        prev_state: 1, // TASK_INTERRUPTIBLE
        flags: 0,
    }
}

fn sample_wakeup_event() -> WperfEvent {
    WperfEvent {
        timestamp_ns: 1_000_050_000,
        pid: 200,
        tid: 201,
        prev_tid: 201, // waker tid
        next_tid: 101, // wakee tid
        prev_pid: 200, // waker tgid
        next_pid: 100, // wakee tgid
        cpu: 5,
        event_type: EventType::Wakeup.to_u8(),
        prev_state: 0,
        flags: 0,
    }
}

#[test]
fn event_size_is_40() {
    assert_eq!(EVENT_SIZE, 40);
    assert_eq!(std::mem::size_of::<WperfEvent>(), EVENT_SIZE);
}

#[test]
fn event_roundtrip() {
    let ev = sample_switch_event();
    let bytes = ev.to_bytes();
    assert_eq!(bytes.len(), EVENT_SIZE);
    let parsed = WperfEvent::from_bytes(&bytes);
    assert_eq!(ev, parsed);
}

#[test]
fn event_io_roundtrip() {
    let ev = sample_wakeup_event();
    let mut out = MemStream::new(Vec::new());
    ev.write_to(&mut out).unwrap();
    let buf = out.into_inner();
    assert_eq!(buf.len(), EVENT_SIZE);
    let parsed = WperfEvent::read_from(&mut MemStream::new(buf)).unwrap();
    assert_eq!(ev, parsed);
}

fn sample_futex_event() -> WperfEvent {
    WperfEvent {
        timestamp_ns: 1_000_100_000,
        pid: 100,
        tid: 101,
        prev_tid: 0xDEAD_BEEFu32, // uaddr lower 32
        next_tid: 0x0000_7FFEu32, // uaddr upper 32
        prev_pid: 0,
        next_pid: 0,
        cpu: 2,
        event_type: EventType::FutexWait.to_u8(),
        prev_state: 0,
        flags: futex_op::FUTEX_WAIT,
    }
}

#[test]
fn event_type_enum_known() {
    assert_eq!(EventType::from_u8(1), Some(EventType::Switch));
    assert_eq!(EventType::from_u8(2), Some(EventType::Wakeup));
    assert_eq!(EventType::from_u8(3), Some(EventType::WakeupNew));
    assert_eq!(EventType::from_u8(4), Some(EventType::Exit));
    assert_eq!(EventType::from_u8(5), Some(EventType::FutexWait));
}

#[test]
fn event_type_enum_unknown() {
    assert_eq!(EventType::from_u8(0), None);
    assert_eq!(EventType::from_u8(255), None);
}

#[test]
fn futex_event_roundtrip() {
    let ev = sample_futex_event();
    let bytes = ev.to_bytes();
    let parsed = WperfEvent::from_bytes(&bytes);
    assert_eq!(ev, parsed);
    assert_eq!(parsed.event_type_enum(), Some(EventType::FutexWait));
}

#[test]
fn futex_uaddr_accessor() {
    let ev = sample_futex_event();
    assert_eq!(ev.futex_uaddr(), 0x0000_7FFE_DEAD_BEEFu64);
}

#[test]
fn futex_op_accessor() {
    let ev = sample_futex_event();
    assert_eq!(ev.futex_op(), futex_op::FUTEX_WAIT);

    let mut ev2 = ev;
    ev2.flags = futex_op::FUTEX_LOCK_PI;
    assert_eq!(ev2.futex_op(), futex_op::FUTEX_LOCK_PI);
}

#[test]
fn event_ordering_by_timestamp() {
    let a = sample_switch_event();
    let b = sample_wakeup_event();
    assert!(a < b); // a.timestamp_ns < b.timestamp_ns
}

#[test]
fn event_type_enum_accessor() {
    let ev = sample_switch_event();
    assert_eq!(ev.event_type_enum(), Some(EventType::Switch));

    let ev2 = sample_wakeup_event();
    assert_eq!(ev2.event_type_enum(), Some(EventType::Wakeup));
}

#[test]
fn repr_c_layout() {
    assert_eq!(std::mem::align_of::<WperfEvent>(), 8);
    assert_eq!(std::mem::size_of::<WperfEvent>(), 40);
}

/// Where a field of the wire form begins: the first byte that changes with it.
fn offset_of(change: fn(&mut WperfEvent)) -> usize {
    let plain = zero_event();
    let mut changed = plain;
    change(&mut changed);
    let (a, b) = (plain.to_bytes(), changed.to_bytes());
    (0..EVENT_SIZE).find(|&i| a[i] != b[i]).unwrap()
}

fn zero_event() -> WperfEvent {
    WperfEvent {
        timestamp_ns: 0,
        pid: 0,
        tid: 0,
        prev_tid: 0,
        next_tid: 0,
        prev_pid: 0,
        next_pid: 0,
        cpu: 0,
        event_type: 0,
        prev_state: 0,
        flags: 0,
    }
}

#[test]
fn field_offsets_match_bpf_struct() {
    assert_eq!(offset_of(|e| e.timestamp_ns = 1), 0);
    assert_eq!(offset_of(|e| e.pid = 1), 8);
    assert_eq!(offset_of(|e| e.tid = 1), 12);
    assert_eq!(offset_of(|e| e.prev_tid = 1), 16);
    assert_eq!(offset_of(|e| e.next_tid = 1), 20);
    assert_eq!(offset_of(|e| e.prev_pid = 1), 24);
    assert_eq!(offset_of(|e| e.next_pid = 1), 28);
    assert_eq!(offset_of(|e| e.cpu = 1), 32);
    assert_eq!(offset_of(|e| e.event_type = 1), 34);
    assert_eq!(offset_of(|e| e.prev_state = 1), 35);
    assert_eq!(offset_of(|e| e.flags = 1), 36);
}
