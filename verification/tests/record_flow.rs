//! Recording from kernel events to a file.

use wperf::format::event::WperfEvent;
use wperf::format::header::ARCH_X86_64;
use wperf::format::reader::WperfReader;
use wperf::format::stream::MemStream;
use wperf::format::writer::WperfWriter;
use wperf::probe::features::{TracepointMode, TransportMode};
use wperf::record::{
    choose_transport, decode_sample, disabled_programs, global_tgid, keep_polling, next_step,
    poll_timeout_ms, RecordError, Recorder, Step,
};
use wperf::transport::config::{next_power_of_two, ringbuf_size_fits};
use wperf::transport::{EventTransport, ReorderBuf, TransportError};

fn event(ts: u64) -> WperfEvent {
    WperfEvent {
        timestamp_ns: ts,
        pid: 0,
        tid: 0,
        prev_tid: 0,
        next_tid: 0,
        prev_pid: 0,
        next_pid: 0,
        cpu: 0,
        event_type: 1,
        prev_state: 0,
        flags: 0,
    }
}

fn recorder() -> Recorder<MemStream> {
    Recorder::new(WperfWriter::new(MemStream::new(Vec::new()), ARCH_X86_64).unwrap())
}

fn read_back(file: MemStream) -> (Vec<u64>, Option<u64>) {
    let mut r = WperfReader::open(MemStream::new(file.into_inner())).unwrap();
    let times = r.read_all_events().unwrap().iter().map(|e| e.timestamp_ns).collect();
    (times, r.read_metadata().unwrap().drop_count)
}

#[test]
fn late_events_reach_the_file_in_order() {
    let mut rec = recorder();
    let ms = 1_000_000;
    rec.accept_batch(&vec![event(100 * ms), event(70 * ms), event(90 * ms)]).unwrap();
    // Nothing is older than the newest by the window of 50 ms yet.
    assert_eq!(rec.event_count(), 0);
    rec.accept_batch(&vec![event(145 * ms)]).unwrap();
    assert_eq!(rec.event_count(), 2);
    rec.accept_batch(&vec![event(120 * ms)]).unwrap();
    rec.drain().unwrap();
    assert_eq!(rec.event_count(), 5);
    let (times, drops) = read_back(rec.finish(3, 4).unwrap());
    assert_eq!(times, vec![70 * ms, 90 * ms, 100 * ms, 120 * ms, 145 * ms]);
    assert_eq!(drops, Some(7));
}

#[test]
fn ring_buffer_samples_go_straight_to_the_file() {
    let mut rec = recorder();
    let mut sample = event(5).to_bytes().to_vec();
    rec.accept_raw(&sample[..39]).unwrap();
    assert_eq!(rec.event_count(), 0);
    sample.extend_from_slice(&[1, 2, 3]);
    rec.accept_raw(&sample).unwrap();
    rec.accept_raw(&event(4).to_bytes()).unwrap();
    let (times, drops) = read_back(rec.finish(0, 0).unwrap());
    assert_eq!(times, vec![5, 4]);
    assert_eq!(drops, Some(0));
}

#[test]
fn samples_that_are_too_short_hold_no_event() {
    let sample = event(77).to_bytes();
    assert_eq!(decode_sample(&sample[..39]), None);
    assert_eq!(decode_sample(&sample).unwrap().timestamp_ns, 77);
}

#[test]
fn polling_goes_on_until_told_to_stop() {
    assert!(keep_polling(false, 10, None));
    assert!(keep_polling(false, 10, Some(11)));
    assert!(!keep_polling(false, 11, Some(11)));
    assert!(!keep_polling(true, 10, None));
}

#[test]
fn a_stop_leads_over_the_drain_to_the_end() {
    let (ring, perf) = (TransportMode::RingBuf, TransportMode::PerfArray);
    assert_eq!(next_step(ring, None, false, false, 0, None), Step::Poll);
    assert_eq!(next_step(ring, None, false, true, 0, None), Step::Drain);
    assert_eq!(next_step(ring, Some(Step::Poll), false, false, 0, None), Step::Poll);
    assert_eq!(next_step(ring, Some(Step::Poll), true, true, 0, None), Step::Pause);
    assert_eq!(next_step(ring, Some(Step::Pause), true, false, 0, None), Step::Poll);
    assert_eq!(next_step(ring, Some(Step::Pause), true, true, 0, None), Step::Drain);
    assert_eq!(next_step(perf, Some(Step::Poll), true, false, 4, Some(5)), Step::Poll);
    assert_eq!(next_step(perf, Some(Step::Poll), true, false, 5, Some(5)), Step::Drain);
    assert_eq!(next_step(perf, Some(Step::Drain), false, false, 0, None), Step::Finish);
    assert_eq!(next_step(perf, Some(Step::Finish), false, false, 0, None), Step::Finish);
    assert_eq!((poll_timeout_ms(ring), poll_timeout_ms(perf)), (0, 500));
}

#[test]
fn transports_are_chosen_by_mode_and_size() {
    let ring = choose_transport(TransportMode::RingBuf, Some(8192), 4096).unwrap();
    assert_eq!((ring.mode, ring.ringbuf_size, ring.perf_pages), (TransportMode::RingBuf, 8192, 0));

    let perf = choose_transport(TransportMode::PerfArray, Some(20_000), 4096).unwrap();
    assert_eq!(perf.perf_pages, 8); // 4.9 pages, rounded up to a power of two
    let zero = choose_transport(TransportMode::PerfArray, Some(0), 4096).unwrap();
    assert_eq!(zero.perf_pages, 1);

    let default = choose_transport(TransportMode::PerfArray, None, -1).unwrap();
    assert_eq!(default.perf_pages, 256);

    let err = choose_transport(TransportMode::PerfArray, Some(1), 0).unwrap_err();
    assert_eq!(
        err.message(),
        "record I/O error: failed to retrieve system page size via sysconf"
    );
}

#[test]
fn ring_buffers_have_sizes_of_powers_of_two() {
    assert!(ringbuf_size_fits(4096));
    assert!(ringbuf_size_fits(0x8000_0000));
    assert!(!ringbuf_size_fits(2048));
    assert!(!ringbuf_size_fits(4097));
    assert!(!ringbuf_size_fits(0xC000_0000));
    assert_eq!(next_power_of_two(0), 1);
    assert_eq!(next_power_of_two(5), 8);
    assert_eq!(next_power_of_two(0x8000_0000), 0x8000_0000);
}

#[test]
fn programs_of_the_other_mode_are_disabled() {
    assert_eq!(
        disabled_programs(TracepointMode::TpBtf),
        vec![
            "handle_sched_switch_raw",
            "handle_sched_wakeup_raw",
            "handle_block_rq_issue_raw",
            "handle_block_rq_complete_raw",
        ]
    );
    assert!(disabled_programs(TracepointMode::RawTp).iter().all(|p| p.ends_with("_btf")));
}

#[test]
fn the_outermost_process_id_is_found() {
    let status = "Name:\twperf\nNSpid:\t4242\t17\nNSpgid:\t1\n";
    assert_eq!(global_tgid(Some(status), 1), 4242);
    assert_eq!(global_tgid(Some("Name:\twperf\n"), 5), 5);
    assert_eq!(global_tgid(Some("NSpid:\n"), 5), 5);
    assert_eq!(global_tgid(Some("NSpid:\tx\nNSpid: +7\n"), 5), 7);
    assert_eq!(global_tgid(Some("NSpid:\t4294967296\n"), 5), 5);
    assert_eq!(global_tgid(None, 6), 6);
}

#[test]
fn record_errors_in_words() {
    assert_eq!(
        RecordError::NoBpfSupport.message(),
        "this build of wperf was compiled without BPF support; rebuild with `--features bpf`"
    );
    assert_eq!(RecordError::Bpf("x".to_string()).message(), "BPF error: x");
}

/// A transport that has events to hand out.
struct Canned {
    batches: Vec<Vec<WperfEvent>>,
    reorder: ReorderBuf,
}

impl EventTransport for Canned {
    fn poll(&mut self, _timeout_ms: i32, out: &mut Vec<WperfEvent>) -> Result<usize, TransportError> {
        match self.batches.pop() {
            None => Err(TransportError::Poll("nothing left".to_string())),
            Some(batch) => Ok(batch.into_iter().map(|e| self.reorder.push(e, out)).sum()),
        }
    }

    fn drain(&mut self, out: &mut Vec<WperfEvent>) -> usize {
        self.reorder.drain(out)
    }

    fn drop_count(&self) -> u64 {
        0
    }
}

#[test]
fn transports_hand_out_events() {
    let mut t = Canned {
        batches: vec![vec![event(500)], vec![event(20), event(10)]],
        reorder: ReorderBuf::with_window(100),
    };
    let mut out = Vec::new();
    assert_eq!(t.poll(1, &mut out).unwrap(), 0);
    assert_eq!(t.poll(1, &mut out).unwrap(), 2);
    let err = t.poll(1, &mut out).unwrap_err();
    assert_eq!(err.message(), "transport poll error: nothing left");
    assert!(err.source().is_none());
    assert_eq!(t.drain(&mut out), 1);
    assert_eq!(t.drop_count(), 0);
    let times: Vec<u64> = out.iter().map(|e| e.timestamp_ns).collect();
    assert_eq!(times, vec![10, 20, 500]);
}

#[test]
fn transport_io_errors_have_a_source() {
    let err = TransportError::Io(wperf::format::stream::StreamError::other("gone"));
    assert_eq!(err.message(), "transport I/O error: gone");
    assert_eq!(err.source().unwrap().message(), "gone");
}

#[test]
fn batches_make_no_difference() {
    let ms = 1_000_000;
    let times = [100 * ms, 70 * ms, 90 * ms, 145 * ms, 120 * ms, 300 * ms];
    let events: Vec<WperfEvent> = times.iter().map(|&t| event(t)).collect();
    for mode in [TransportMode::RingBuf, TransportMode::PerfArray] {
        let mut files = Vec::new();
        for size in [1, 2, 6] {
            let mut rec = recorder();
            for batch in events.chunks(size) {
                rec.accept(mode, &batch.to_vec()).unwrap();
            }
            rec.drain().unwrap();
            assert_eq!(rec.event_count(), 6);
            files.push(rec.finish(0, 0).unwrap().into_inner());
        }
        assert_eq!(files[0], files[1]);
        assert_eq!(files[0], files[2]);
        let (read, _) = read_back(MemStream::new(files.remove(0)));
        let mut expected = times.to_vec();
        if mode == TransportMode::PerfArray {
            expected.sort();
        }
        assert_eq!(read, expected);
    }
}
