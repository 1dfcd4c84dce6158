//! Judging raw captures.

use wperf::capture::{
    check_monotonic, count_cpus, decode_raw_event, drop_count_in, judge_capture, match_wakeups,
    RawEvent, EVENT_SWITCH, EVENT_WAKEUP,
};

fn raw(kind: u8, cpu: u16, prev: u32, next: u32, ts: u64) -> RawEvent {
    RawEvent {
        kind,
        cpu,
        prev_pid: prev,
        prev_tgid: 50,
        next_pid: next,
        next_tgid: 60,
        timestamp_ns: ts,
        prev_state: 1,
    }
}

#[test]
fn samples_are_decoded() {
    let mut data = vec![1u8];
    data.extend_from_slice(&2u16.to_le_bytes());
    for v in [3u32, 4, 5, 6] {
        data.extend_from_slice(&v.to_le_bytes());
    }
    data.extend_from_slice(&7u64.to_le_bytes());
    data.extend_from_slice(&8u32.to_le_bytes());
    assert_eq!(data.len(), 31);
    assert_eq!(decode_raw_event(&data[..30]), None);
    data.push(99);
    let e = decode_raw_event(&data).unwrap();
    assert_eq!((e.kind, e.cpu, e.prev_pid, e.prev_tgid), (1, 2, 3, 4));
    assert_eq!((e.next_pid, e.next_tgid, e.timestamp_ns, e.prev_state), (5, 6, 7, 8));
}

#[test]
fn a_switch_answers_one_wakeup() {
    let wakeups = vec![
        raw(EVENT_WAKEUP, 0, 9, 1, 10),
        raw(EVENT_WAKEUP, 0, 9, 1, 20),
        raw(EVENT_WAKEUP, 0, 9, 2, 30),
    ];
    let switches = vec![
        raw(EVENT_SWITCH, 0, 9, 1, 5),
        raw(EVENT_SWITCH, 0, 9, 1, 15),
        raw(EVENT_SWITCH, 0, 9, 2, 40),
    ];
    // The second wakeup finds no switch to its thread behind the first answer.
    assert_eq!(match_wakeups(&switches, &wakeups), 2);
    assert_eq!(match_wakeups(&vec![], &wakeups), 0);
}

#[test]
fn time_runs_forward_on_each_cpu() {
    let ok = vec![
        raw(EVENT_SWITCH, 0, 1, 2, 10),
        raw(EVENT_SWITCH, 1, 1, 2, 5),
        raw(EVENT_SWITCH, 0, 1, 2, 10),
        raw(EVENT_SWITCH, 1, 1, 2, 6),
    ];
    assert!(check_monotonic(&ok));
    let mut bad = ok.clone();
    bad.push(raw(EVENT_SWITCH, 1, 1, 2, 5));
    assert!(!check_monotonic(&bad));
}

#[test]
fn captures_are_judged() {
    let mut all = vec![raw(EVENT_SWITCH, 0, 77, 78, 0)];
    for i in 0..12u64 {
        all.push(raw(EVENT_WAKEUP, 0, 9, 1, 10 * i + 1));
        all.push(raw(EVENT_SWITCH, 0, 2, 1, 10 * i + 2));
    }
    let s = judge_capture(&all, 1, 2);
    assert_eq!((s.switches, s.wakeups, s.matched, s.orphans), (12, 12, 12, 0));
    assert_eq!(s.tgid, 60);
    assert!(s.per_cpu_monotonic && s.pass);

    let none = judge_capture(&all, 500, 501);
    assert_eq!((none.switches, none.wakeups, none.tgid), (0, 0, 0));
    assert!(!none.pass);
}

#[test]
fn the_machine_is_described() {
    assert_eq!(drop_count_in(&[1, 0, 0, 0, 0, 0, 0, 0, 255]), Some(1));
    assert_eq!(drop_count_in(&[1, 0, 0]), None);
    assert_eq!(count_cpus("processor\t: 0\nmodel\nprocessor\t: 1\n"), 2);
    assert_eq!(count_cpus("process"), 0);
}
