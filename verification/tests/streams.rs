//! Streams that are shared, fail or end early, and files on them.

use std::cell::RefCell;
use std::rc::Rc;

use wperf::correlate::DEFAULT_SPURIOUS_THRESHOLD_NS;
use wperf::format::compact::{
    read_wperf, read_wperf_recovered, write_wperf, BaseEvent, CompactError,
};
use wperf::format::event::{EventType, WperfEvent, EVENT_SIZE};
use wperf::format::header::{
    detect_arch, HeaderError, WprfHeader, ARCH_AARCH64, ARCH_UNKNOWN, ARCH_X86_64, HEADER_SIZE,
};
use wperf::format::reader::{ReaderError, WperfReader};
use wperf::format::stream::{ByteStream, MemStream, StreamError};
use wperf::format::writer::{WperfWriter, BOOKMARK_INTERVAL, RECORD_SIZE};
use wperf::pipeline::PipelineError;
use wperf::probe::features::TransportMode;
use wperf::record::{RecordError, Recorder};
use wperf::report::{build_any_report, build_report, ReportError};
use wperf::transport::reorder::DEFAULT_WINDOW_NS;

/// A stream whose bytes can be looked at while it is in use, and which fails
/// after a number of operations.
#[derive(Debug, Clone)]
struct Shared {
    inner: Rc<RefCell<MemStream>>,
    left: Rc<RefCell<u32>>,
}

impl Shared {
    fn new(data: Vec<u8>) -> Self {
        Shared {
            inner: Rc::new(RefCell::new(MemStream::new(data))),
            left: Rc::new(RefCell::new(u32::MAX)),
        }
    }

    fn failing_after(self, operations: u32) -> Self {
        *self.left.borrow_mut() = operations;
        self
    }

    fn bytes_now(&self) -> Vec<u8> {
        self.inner.borrow().clone().into_inner()
    }

    fn spend(&self) -> Result<(), StreamError> {
        let mut left = self.left.borrow_mut();
        if *left == 0 {
            return Err(StreamError::other("device gone"));
        }
        *left -= 1;
        Ok(())
    }
}

impl ByteStream for Shared {
    fn position(&mut self) -> Result<u64, StreamError> {
        self.spend()?;
        self.inner.borrow_mut().position()
    }

    fn seek_to(&mut self, pos: u64) -> Result<(), StreamError> {
        self.spend()?;
        self.inner.borrow_mut().seek_to(pos)
    }

    fn seek_to_end(&mut self) -> Result<u64, StreamError> {
        self.spend()?;
        self.inner.borrow_mut().seek_to_end()
    }

    fn read_exact(&mut self, n: usize) -> Result<Vec<u8>, StreamError> {
        self.spend()?;
        self.inner.borrow_mut().read_exact(n)
    }

    fn write_all(&mut self, data: &[u8]) -> Result<(), StreamError> {
        self.spend()?;
        self.inner.borrow_mut().write_all(data)
    }
}

fn event(ts: u64) -> WperfEvent {
    WperfEvent {
        timestamp_ns: ts,
        pid: 1,
        tid: 2,
        prev_tid: 3,
        next_tid: 4,
        prev_pid: 5,
        next_pid: 6,
        cpu: 7,
        event_type: EventType::Switch.to_u8(),
        prev_state: 1,
        flags: 9,
    }
}

fn finished(events: &[WperfEvent], drops: u64) -> Vec<u8> {
    let mut w = WperfWriter::new(MemStream::new(Vec::new()), ARCH_X86_64).unwrap();
    for e in events {
        w.write_event(e).unwrap();
    }
    w.finish(drops).unwrap().into_inner()
}

#[test]
fn finished_trace_gives_back_everything() {
    let n = BOOKMARK_INTERVAL + 3;
    let events: Vec<WperfEvent> = (0..n).map(event).collect();
    let data = finished(&events, 11);
    assert_eq!(data.len(), HEADER_SIZE + n as usize * RECORD_SIZE + 65);

    let mut r = WperfReader::open(MemStream::new(data)).unwrap();
    assert_eq!(r.read_all_events().unwrap(), events);
    let meta = r.read_metadata().unwrap();
    assert_eq!(meta.event_count, Some(n));
    assert_eq!(meta.drop_count, Some(11));
}

#[test]
fn unfinished_trace_gives_back_up_to_the_bookmark() {
    let shared = Shared::new(Vec::new());
    let mut w = WperfWriter::new(shared.clone(), ARCH_X86_64).unwrap();
    let events: Vec<WperfEvent> = (0..BOOKMARK_INTERVAL + 5).map(event).collect();
    for e in &events {
        w.write_event(e).unwrap();
    }
    // The writer is dropped without finishing the file.
    drop(w);

    let mut r = WperfReader::open(MemStream::new(shared.bytes_now())).unwrap();
    let got = r.read_all_events().unwrap();
    assert_eq!(got, events[..BOOKMARK_INTERVAL as usize]);
    let meta = r.read_metadata().unwrap();
    assert_eq!(meta.event_count, None);
    assert_eq!(meta.drop_count, None);
}

#[test]
fn writers_pass_on_failures() {
    let err = WperfWriter::new(Shared::new(Vec::new()).failing_after(0), ARCH_X86_64).unwrap_err();
    assert_eq!(err.message(), "device gone");

    let mut w = WperfWriter::new(Shared::new(Vec::new()).failing_after(2), ARCH_X86_64).unwrap();
    w.write_event(&event(1)).unwrap();
    assert!(w.write_event(&event(2)).is_err());
    assert_eq!(w.event_count(), 1);
}

#[test]
fn failed_writes_leave_the_records_before() {
    // The header and two records are written, the third write fails.
    let shared = Shared::new(Vec::new()).failing_after(3);
    let mut recorder =
        Recorder::new(WperfWriter::new(shared.clone(), ARCH_X86_64).unwrap());
    let late = DEFAULT_WINDOW_NS + 100;
    let batch = vec![event(1), event(2), event(3), event(4), event(late)];
    match recorder.accept_batch(&batch) {
        Err(RecordError::Io(e)) => assert_eq!(e.message(), "device gone"),
        other => panic!("unexpected outcome: {other:?}"),
    }
    assert_eq!(recorder.event_count(), 2);
    let bytes = shared.bytes_now();
    assert_eq!(bytes.len(), HEADER_SIZE + 2 * RECORD_SIZE);
    assert_eq!(bytes[HEADER_SIZE + RECORD_SIZE + 5..][..EVENT_SIZE], event(2).to_bytes());
}

#[test]
fn a_failed_bookmark_counts_its_event() {
    // The header, the records of one interval, and one operation of the bookmark.
    let n = BOOKMARK_INTERVAL as u32;
    for spare in 0..4 {
        let shared = Shared::new(Vec::new()).failing_after(1 + n + spare);
        let mut w = WperfWriter::new(shared.clone(), ARCH_X86_64).unwrap();
        for i in 0..BOOKMARK_INTERVAL - 1 {
            w.write_event(&event(i)).unwrap();
        }
        assert!(w.write_event(&event(0)).is_err());
        assert_eq!(w.event_count(), BOOKMARK_INTERVAL);
        assert_eq!(shared.bytes_now().len(), HEADER_SIZE + n as usize * RECORD_SIZE);
    }
}

#[test]
fn raw_and_decoded_events_fail_alike() {
    for spare in 0..4 {
        let (a, b) = (Shared::new(Vec::new()), Shared::new(Vec::new()));
        let mut x = WperfWriter::new(a.clone().failing_after(1 + spare), ARCH_X86_64).unwrap();
        let mut y = WperfWriter::new(b.clone().failing_after(1 + spare), ARCH_X86_64).unwrap();
        for i in 0..3 {
            let raw = event(i).to_bytes();
            let r = x.write_event(&WperfEvent::from_bytes(&raw)).is_ok();
            assert_eq!(r, y.write_event_raw(&raw).is_ok());
        }
        assert_eq!(x.event_count(), y.event_count());
        assert_eq!(a.bytes_now(), b.bytes_now());
    }
}

#[test]
fn oversized_metadata_is_rejected_wherever_it_lies() {
    let mut data = finished(&[event(1)], 0);
    let entry = data.len() - 20;
    data[entry + 4..entry + 12].copy_from_slice(&u64::MAX.to_le_bytes());
    data[entry + 12..].copy_from_slice(&16_777_217u64.to_le_bytes());
    let mut r = WperfReader::open(MemStream::new(data)).unwrap();
    assert!(matches!(
        r.read_metadata().unwrap_err(),
        ReaderError::PayloadTooLarge { rec_type: 3, length: 16_777_217 }
    ));
}

#[test]
fn readers_pass_on_failures() {
    let data = finished(&[event(1)], 0);
    let err = WperfReader::open(Shared::new(data.clone()).failing_after(0)).unwrap_err();
    assert_eq!(err.message(), "I/O error: device gone");

    // Every operation that a reader makes can be the one that fails.
    for spare in 0..40 {
        let shared = Shared::new(data.clone());
        let mut r = WperfReader::open(shared.clone()).unwrap();
        let shared = shared.failing_after(spare);
        let outcome = build_any_report(&mut r, DEFAULT_SPURIOUS_THRESHOLD_NS).unwrap();
        match outcome {
            Ok(report) => {
                assert!(*shared.left.borrow() < u32::MAX);
                assert_eq!(report.stats.events_read, 1);
            }
            Err(ReportError::Pipeline(PipelineError::Reader(ReaderError::Io(e)))) => {
                assert_eq!(e.message(), "device gone");
            }
            Err(other) => panic!("unexpected error: {}", other.message()),
        }
    }
}

#[test]
fn short_files_are_rejected() {
    let err = WperfReader::open(MemStream::new(vec![0u8; 10])).unwrap_err();
    assert!(matches!(
        err,
        ReaderError::Header(HeaderError::Io(StreamError::UnexpectedEof))
    ));
    assert_eq!(
        err.message(),
        "header error: I/O error reading header: failed to fill whole buffer"
    );
}

#[test]
fn oversized_metadata_is_rejected() {
    let mut data = finished(&[], 0);
    // The size of the metadata section stands at the end of its table entry.
    let at = data.len() - 8;
    data[at..].copy_from_slice(&u64::MAX.to_le_bytes());
    let mut r = WperfReader::open(MemStream::new(data)).unwrap();
    assert!(matches!(
        r.read_metadata().unwrap_err(),
        ReaderError::PayloadTooLarge { rec_type: 3, length: u32::MAX }
    ));
}

#[test]
fn reports_do_not_depend_on_the_checked_entry() {
    let events = [event(3_000_000), event(1_000_000), event(2_000_000)];
    let data = finished(&events, 4);
    let mut a = WperfReader::open(MemStream::new(data.clone())).unwrap();
    let mut b = WperfReader::open(MemStream::new(data)).unwrap();
    let one = build_report(&mut a, 0).unwrap();
    let two = build_any_report(&mut b, 0).unwrap().unwrap();
    assert_eq!(one.stats, two.stats);
    assert_eq!(one.cascade.edges, two.cascade.edges);
    assert_eq!(one.health.drop_count, two.health.drop_count);
}

#[test]
fn mem_streams_grow_and_seek() {
    let mut s = MemStream::new(vec![1, 2, 3]);
    s.seek_to(5).unwrap();
    s.write_all(&[9, 9]).unwrap();
    assert_eq!(s.position().unwrap(), 7);
    s.seek_to(2).unwrap();
    assert_eq!(s.read_exact(4).unwrap(), vec![3, 0, 0, 9]);
    assert!(s.read_exact(2).is_err());
    assert_eq!(s.seek_to_end().unwrap(), 7);
    assert_eq!(s.into_inner(), vec![1, 2, 3, 0, 0, 9, 9]);
}

#[test]
fn architectures_by_name() {
    assert_eq!(detect_arch("x86_64"), ARCH_X86_64);
    assert_eq!(detect_arch("aarch64"), ARCH_AARCH64);
    assert_eq!(detect_arch("riscv64"), ARCH_UNKNOWN);
    let h = WprfHeader::new(detect_arch("aarch64"));
    assert_eq!(h.to_bytes()[6], 1);
}

#[test]
fn wire_form_is_little_endian() {
    let mut e = event(0x0102_0304_0506_0708);
    e.cpu = 0x0a0b;
    let b = e.to_bytes();
    assert_eq!(b[..8], [8, 7, 6, 5, 4, 3, 2, 1]);
    assert_eq!(b[32..34], [0x0b, 0x0a]);
    assert_eq!(b.len(), EVENT_SIZE);
}

#[test]
fn failed_finishes_keep_the_records() {
    for spare in 0..9 {
        // The header and two records are written; the footer takes eight operations.
        let shared = Shared::new(Vec::new()).failing_after(3 + spare);
        let mut w = WperfWriter::new(shared.clone(), ARCH_X86_64).unwrap();
        w.write_event(&event(1)).unwrap();
        w.write_event(&event(2)).unwrap();
        let before = shared.bytes_now();
        match w.finish(5) {
            Ok(_) => assert_eq!(spare, 8),
            Err(e) => {
                assert!(spare < 8);
                assert_eq!(e.message(), "device gone");
            }
        }
        let after = shared.bytes_now();
        assert_eq!(after[HEADER_SIZE..before.len()], before[HEADER_SIZE..]);
        let written = [0, 0, 45, 45, 65, 65, 65, 65, 65][spare as usize];
        assert_eq!(after.len(), before.len() + written);
        // The header is written anew only at last.
        assert_eq!(after[..HEADER_SIZE] == before[..HEADER_SIZE], spare < 7);
    }
}

#[test]
fn recordings_pass_on_failures_at_their_end() {
    let shared = Shared::new(Vec::new()).failing_after(2);
    let recorder = Recorder::new(WperfWriter::new(shared, ARCH_X86_64).unwrap());
    match recorder.finish(1, 2) {
        Err(RecordError::Io(e)) => assert_eq!(e.message(), "device gone"),
        other => panic!("unexpected outcome: {other:?}"),
    }
}

#[test]
fn recordings_count_what_was_written_without_error() {
    // The last record is complete, but the bookmark after it fails.
    let n = BOOKMARK_INTERVAL as u32;
    let shared = Shared::new(Vec::new()).failing_after(1 + n);
    let mut recorder =
        Recorder::new(WperfWriter::new(shared.clone(), ARCH_X86_64).unwrap());
    let batch: Vec<WperfEvent> = (0..BOOKMARK_INTERVAL + 2).map(event).collect();
    assert!(recorder.accept(TransportMode::RingBuf, &batch).is_err());
    assert_eq!(recorder.event_count(), BOOKMARK_INTERVAL - 1);
    assert_eq!(shared.bytes_now().len(), HEADER_SIZE + n as usize * RECORD_SIZE);
}

#[test]
fn opening_passes_on_failures() {
    let data = finished(&[event(1)], 0);
    for spare in 0..5 {
        let opened = WperfReader::open(Shared::new(data.clone()).failing_after(spare));
        match opened {
            Ok(_) => assert_eq!(spare, 4),
            Err(ReaderError::Header(HeaderError::Io(e))) => {
                assert_eq!(spare, 1);
                assert_eq!(e.message(), "device gone");
            }
            Err(e) => {
                assert!(spare < 4 && spare != 1);
                assert_eq!(e.message(), "I/O error: device gone");
            }
        }
    }
}

#[test]
fn truncated_files_give_back_whole_records() {
    let events: Vec<WperfEvent> = (0..4).map(event).collect();
    let data = finished(&events, 9);
    for size in HEADER_SIZE..=data.len() {
        let mut r = WperfReader::open(MemStream::new(data[..size].to_vec())).unwrap();
        let whole = ((size - HEADER_SIZE) / RECORD_SIZE).min(events.len());
        assert_eq!(r.read_all_events().unwrap(), events[..whole]);
        let counts = r.read_metadata().unwrap();
        let complete = size == data.len();
        assert_eq!(counts.event_count, if complete { Some(4) } else { None });
        assert_eq!(counts.drop_count, if complete { Some(9) } else { None });
    }
}

#[test]
fn footers_are_read_wherever_the_reader_stands() {
    let events: Vec<WperfEvent> = (0..3).map(event).collect();
    for n in 0..5 {
        let mut r = WperfReader::open(MemStream::new(finished(&events, 2))).unwrap();
        for _ in 0..n {
            r.next_event().unwrap();
        }
        let counts = r.read_metadata().unwrap();
        assert_eq!((counts.event_count, counts.drop_count), (Some(3), Some(2)));
    }
}

#[test]
fn compact_files_pass_on_failures() {
    let events = vec![
        BaseEvent { event_id: 1, cpu: 2, pid: 3, tid: 4, timestamp_ns: 5, flags: 6 };
        2
    ];
    let whole = Shared::new(Vec::new());
    write_wperf(&mut whole.clone(), &events).unwrap();
    // Header, two records, position, table, text, seek and header again.
    for spare in 0..9 {
        let shared = Shared::new(Vec::new()).failing_after(spare);
        match write_wperf(&mut shared.clone(), &events) {
            Ok(()) => assert_eq!(spare, 8),
            Err(e) => assert_eq!(e.message(), "device gone"),
        }
        let length = [0, 64, 92, 120, 120, 140, 152, 152, 152][spare as usize];
        assert_eq!(shared.bytes_now().len(), length);
        if length > 64 {
            assert_eq!(shared.bytes_now()[64..], whole.bytes_now()[64..length]);
        }
    }
    // Header, seek, a position and two reads for each record, a position.
    for spare in 0..10 {
        let mut shared = Shared::new(whole.bytes_now()).failing_after(spare);
        match read_wperf(&mut shared) {
            Ok((_, got)) => {
                assert_eq!(spare, 9);
                assert_eq!(got, events);
            }
            Err(CompactError::Io(e)) => assert_eq!(e.message(), "device gone"),
            Err(other) => panic!("unexpected error: {}", other.message()),
        }
        let mut shared = Shared::new(whole.bytes_now()).failing_after(spare);
        match read_wperf_recovered(&mut shared) {
            Ok((_, got)) => assert_eq!(got[..], events[..got.len()]),
            Err(e) => assert_eq!(e.message(), "device gone"),
        }
    }
}
