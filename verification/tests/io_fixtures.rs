//! Reports on traces with block requests.

use wperf::correlate::{correlate_events, DEFAULT_SPURIOUS_THRESHOLD_NS};
use wperf::format::event::{EventType, WperfEvent};
use wperf::format::header::ARCH_X86_64;
use wperf::format::reader::WperfReader;
use wperf::format::stream::MemStream;
use wperf::format::writer::WperfWriter;
use wperf::graph::types::{ThreadId, WaitType, DISK_TID};
use wperf::report::{build_report, ReportOutput};

const TASK_INTERRUPTIBLE: u8 = 1;


fn build_report_from(events: &[WperfEvent]) -> ReportOutput {
    let buf = MemStream::new(Vec::new());
    let mut w = WperfWriter::new(buf, ARCH_X86_64).expect("writer");
    for ev in events {
        w.write_event(ev).expect("write_event");
    }
    let data = w.finish(0).expect("finish").into_inner();
    let mut r = WperfReader::open(MemStream::new(data)).expect("reader");
    build_report(&mut r, DEFAULT_SPURIOUS_THRESHOLD_NS).expect("build_report")
}

fn switch(ts_ns: u64, prev_tid: u32, next_tid: u32, prev_state: u8) -> WperfEvent {
    WperfEvent {
        timestamp_ns: ts_ns,
        pid: 0,
        tid: 0,
        prev_tid,
        next_tid,
        prev_pid: 0,
        next_pid: 0,
        cpu: 0,
        event_type: EventType::Switch.to_u8(),
        prev_state,
        flags: 0,
    }
}

fn wakeup(ts_ns: u64, waker_tid: u32, wakee_tid: u32) -> WperfEvent {
    WperfEvent {
        timestamp_ns: ts_ns,
        pid: 0,
        tid: 0,
        prev_tid: waker_tid,
        next_tid: wakee_tid,
        prev_pid: 0,
        next_pid: 0,
        cpu: 0,
        event_type: EventType::Wakeup.to_u8(),
        prev_state: 0,
        flags: 0,
    }
}

fn io_event(
    ts_ns: u64,
    tgid: u32,
    tid: u32,
    dev: u32,
    sector: u64,
    nr_sector: u32,
    kind: EventType,
) -> WperfEvent {
    WperfEvent {
        timestamp_ns: ts_ns,
        pid: tgid,
        tid,
        prev_tid: u32::try_from(sector & 0xFFFF_FFFF).unwrap(),
        next_tid: u32::try_from(sector >> 32).unwrap(),
        prev_pid: dev,
        next_pid: nr_sector,
        cpu: 0,
        event_type: kind.to_u8(),
        prev_state: 0,
        flags: 0,
    }
}

/// The ratios by device.
fn ratios(report: &ReportOutput) -> Vec<(String, f64)> {
    let list = report.health.attributed_delay_ratio.as_ref().unwrap();
    list.iter()
        .map(|r| (r.device.clone(), r.attributed_ms as f64 / r.raw_ms as f64))
        .collect()
}

#[test]
fn cpu_only_baseline() {
    let events = vec![
        switch(1_000_000, 100, 200, TASK_INTERRUPTIBLE), // T100 off
        wakeup(2_000_000, 200, 100),                     // T200 wakes T100
        switch(3_000_000, 200, 100, 0),                  // T100 back on
    ];

    let report = build_report_from(&events);

    assert_eq!(report.cascade.edges.len(), 1, "one user-wait edge");
    assert!(report.health.invariants_ok);
    // No IO — all IO health fields must be the zero-default (tracing ran but
    // saw nothing), except the ratio which is None (undefined without edges).
    assert_eq!(report.health.io_orphan_complete_count, Some(0));
    assert_eq!(report.health.io_pending_at_end_count, Some(0));
    assert_eq!(report.health.io_userspace_pair_collision_count, Some(0));
    assert!(report.health.attributed_delay_ratio.is_none());
}

#[test]
fn fio_randread_direct() {
    // Single submitter T100 issues a burst of 8 paired I/Os to one device,
    // each with distinct sectors. Every issue gets its matching complete;
    // no orphans, no dangles, no collisions.
    let tgid = 500u32;
    let tid = 500u32;
    let dev = 0x800_0001;
    let mut events = Vec::new();
    for i in 0..8u64 {
        let sector = 0x1000 + i * 0x100;
        let issue_ts = 1_000_000 + i * 10_000_000; // 1ms apart
        let complete_ts = issue_ts + 5_000_000; // 5ms service time
        events.push(io_event(
            issue_ts,
            tgid,
            tid,
            dev,
            sector,
            8,
            EventType::IoIssue,
        ));
        events.push(io_event(
            complete_ts,
            tgid,
            tid,
            dev,
            sector,
            8,
            EventType::IoComplete,
        ));
    }

    let report = build_report_from(&events);

    // 8 I/Os × 2 edges = 16 IoBlock edges; nodes = 1 user + 1 DISK.
    let user = ThreadId(i64::from(tid));
    let disk = ThreadId(DISK_TID);
    let io_edges: Vec<_> = report
        .cascade
        .edges
        .iter()
        .filter(|e| (e.src == user && e.dst == disk) || (e.src == disk && e.dst == user))
        .collect();
    assert_eq!(io_edges.len(), 16, "8 pairs × 2 directions");

    assert!(report.health.invariants_ok);
    assert_eq!(report.health.io_orphan_complete_count, Some(0));
    assert_eq!(report.health.io_pending_at_end_count, Some(0));
    assert_eq!(report.health.io_userspace_pair_collision_count, Some(0));

    let ratio_map = ratios(&report);
    assert!(
        !ratio_map.is_empty(),
        "at least one device must have a ratio"
    );
    for (label, r) in &ratio_map {
        assert!(
            (0.70..=1.0).contains(r),
            "the ratio of {label} must be in [0.70, 1.0], got {r}"
        );
    }
}

#[test]
fn mixed_cpu_io_futex() {
    // Heterogeneous workload: two threads that both sched_switch + issue I/O
    // interleaved. Proves the correlate pipeline handles mixed event streams
    // without cross-contamination (futex event for T100 must not contaminate
    // T200's IO edge).
    let events = vec![
        // T100: goes off-CPU waiting on T200
        switch(1_000_000, 100, 200, TASK_INTERRUPTIBLE),
        // T200 issues + completes I/O while T100 is parked
        io_event(
            2_000_000,
            200,
            200,
            0x800_0001,
            0x2000,
            16,
            EventType::IoIssue,
        ),
        io_event(
            5_000_000,
            200,
            200,
            0x800_0001,
            0x2000,
            16,
            EventType::IoComplete,
        ),
        // T200 wakes T100
        wakeup(6_000_000, 200, 100),
        switch(7_000_000, 200, 100, 0),
    ];

    let report = build_report_from(&events);

    // Expect edges: User→Holder (T100→T200), plus User↔Disk (T200↔DISK).
    assert!(report.health.invariants_ok);
    assert_eq!(report.health.io_orphan_complete_count, Some(0));
    assert_eq!(report.health.io_pending_at_end_count, Some(0));
    assert_eq!(report.health.io_userspace_pair_collision_count, Some(0));

    let t200 = ThreadId(200);
    let t100 = ThreadId(100);
    let disk = ThreadId(DISK_TID);
    let io_edge_count = report
        .cascade
        .edges
        .iter()
        .filter(|e| (e.src == t200 && e.dst == disk) || (e.src == disk && e.dst == t200))
        .count();
    assert_eq!(io_edge_count, 2, "one User↔Disk pair");

    let user_wait_edge = report
        .cascade
        .edges
        .iter()
        .find(|e| e.src == t100 && e.dst == t200);
    assert!(user_wait_edge.is_some(), "T100→T200 wait edge preserved");
}

#[test]
fn concurrent_submitters_single_disk() {
    let dev = 0x800_0001;
    let mut events = Vec::new();
    for (i, tid) in [301u32, 302, 303].iter().enumerate() {
        let sector = 0x1000 + (i as u64) * 0x100;
        let issue_ts = 1_000_000 + (i as u64) * 100_000;
        let complete_ts = issue_ts + 3_000_000;
        events.push(io_event(
            issue_ts,
            *tid,
            *tid,
            dev,
            sector,
            8,
            EventType::IoIssue,
        ));
        events.push(io_event(
            complete_ts,
            *tid,
            *tid,
            dev,
            sector,
            8,
            EventType::IoComplete,
        ));
    }

    let report = build_report_from(&events);

    assert!(report.health.invariants_ok);
    assert_eq!(report.health.io_orphan_complete_count, Some(0));
    assert_eq!(report.health.io_pending_at_end_count, Some(0));
    assert_eq!(report.health.io_userspace_pair_collision_count, Some(0));

    // Each user tid contributes 2 IoBlock edges → 6 IO edges total.
    let user_tids = [ThreadId(301), ThreadId(302), ThreadId(303)];
    let disk = ThreadId(DISK_TID);
    let io_edges = report
        .cascade
        .edges
        .iter()
        .filter(|e| {
            user_tids.contains(&e.src) && e.dst == disk
                || e.src == disk && user_tids.contains(&e.dst)
        })
        .count();
    assert_eq!(io_edges, 6, "3 submitters × 2 directions");

    let ratio_map = ratios(&report);
    assert!(
        !ratio_map.is_empty(),
        "at least one device must have a ratio"
    );
    for (label, r) in &ratio_map {
        assert!(
            (0.70..=1.0).contains(r),
            "the ratio of {label} must be in [0.70, 1.0], got {r}"
        );
    }
}


#[test]
fn io_health_counters_surface_real_values() {
    // One orphan complete (no prior issue), one pair collision (two issues
    // on the same IoKey before any complete). Verifies the HealthMetrics
    // surface actually wires to the underlying counters — not just zeros.
    let dev = 0x800_0001;
    let sector = 0x4000;
    let events = vec![
        // Orphan: complete with no prior issue.
        io_event(1_000_000, 111, 111, dev, 0x1000, 8, EventType::IoComplete),
        // Collision: two issues with identical (dev, sector, nr_sector).
        io_event(2_000_000, 222, 222, dev, sector, 8, EventType::IoIssue),
        io_event(3_000_000, 333, 333, dev, sector, 8, EventType::IoIssue),
        // Drain the collided issue so only the pair-collision counter fires.
        io_event(4_000_000, 333, 333, dev, sector, 8, EventType::IoComplete),
    ];

    let report = build_report_from(&events);

    assert!(report.health.invariants_ok);
    assert_eq!(
        report.health.io_orphan_complete_count,
        Some(1),
        "one orphan"
    );
    assert_eq!(report.health.io_pending_at_end_count, Some(0));
    assert_eq!(
        report.health.io_userspace_pair_collision_count,
        Some(1),
        "second identical issue must register as collision"
    );

    let t333 = ThreadId(333);
    let disk = ThreadId(DISK_TID);
    let io_edges = report
        .cascade
        .edges
        .iter()
        .filter(|e| (e.src == t333 && e.dst == disk) || (e.src == disk && e.dst == t333))
        .count();
    assert_eq!(io_edges, 2);
}


#[test]
fn all_io_edges_annotated_with_ioblock_wait_type() {
    // Structural guard: the CascadeResult serialization doesn't expose
    // wait_type directly (edges only show src/dst/raw/attributed), so we go
    // through `correlate_events` directly to inspect the WaitForGraph.

    let events = vec![
        io_event(
            1_000_000,
            100,
            100,
            0x800_0001,
            0x1000,
            8,
            EventType::IoIssue,
        ),
        io_event(
            2_000_000,
            100,
            100,
            0x800_0001,
            0x1000,
            8,
            EventType::IoComplete,
        ),
    ];

    let (graph, _) = correlate_events(&events, 0);
    for (_, _, _, weight) in graph.all_edges() {
        assert_eq!(
            weight.wait_type,
            Some(WaitType::IoBlock),
            "every edge produced by IO dispatch must carry WaitType::IoBlock"
        );
    }
}

#[test]
fn commit9_magnitude_pinned_multi_io_ratio() {

    let tgid = 700u32;
    let tid = 700u32;
    let dev = 0x800_0007u32;
    let mut events: Vec<WperfEvent> = Vec::new();
    for i in 0..5u64 {
        let sector = 0x4000 + i * 0x100;
        let issue_ts = 1_000_000 + i * 10_000_000;
        let complete_ts = issue_ts + 4_000_000; // 4ms service time
        events.push(io_event(
            issue_ts,
            tgid,
            tid,
            dev,
            sector,
            8,
            EventType::IoIssue,
        ));
        events.push(io_event(
            complete_ts,
            tgid,
            tid,
            dev,
            sector,
            8,
            EventType::IoComplete,
        ));
    }

    let report = build_report_from(&events);

    assert!(report.health.invariants_ok);
    assert_eq!(report.health.io_orphan_complete_count, Some(0));
    assert_eq!(report.health.io_pending_at_end_count, Some(0));
    assert_eq!(report.health.io_userspace_pair_collision_count, Some(0));

    let ratio_map = ratios(&report);
    assert!(
        !ratio_map.is_empty(),
        "at least one device must have a ratio"
    );
    for (label, r) in &ratio_map {
        assert!(
            (0.70..=1.0).contains(r),
            "the ratio of {label} must be in [0.70, 1.0], got {r}"
        );
    }

    let disk = ratio_map.iter().find(|(label, _)| label == "disk").unwrap().1;
    assert!(
        (disk - 1.0).abs() < 1e-9,
        "all waits must be attributed to the disk, got {disk}"
    );
}
