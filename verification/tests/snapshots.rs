//! Traces read back, and the texts of errors.

use wperf::format::event::{EventType, WperfEvent};
use wperf::format::header::{ARCH_X86_64, HEADER_SIZE};
use wperf::format::reader::{Metadata, ReaderError, WperfReader};
use wperf::format::stream::MemStream;
use wperf::format::writer::WperfWriter;

/// Write events into an in-memory `.wperf` file, return raw bytes.
fn write_trace(events: &[WperfEvent], drop_count: u64) -> Vec<u8> {
    let buf = MemStream::new(Vec::new());
    let mut w = WperfWriter::new(buf, ARCH_X86_64).unwrap();
    for ev in events {
        w.write_event(ev).unwrap();
    }
    let buf = w.finish(drop_count).unwrap();
    buf.into_inner()
}

/// Write events, then open a reader on the result.
fn write_and_open(events: &[WperfEvent], drop_count: u64) -> WperfReader<MemStream> {
    let data = write_trace(events, drop_count);
    WperfReader::open(MemStream::new(data)).unwrap()
}

fn switch_event(ts: u64, prev_tid: u32, next_tid: u32) -> WperfEvent {
    WperfEvent {
        timestamp_ns: ts,
        pid: 100,
        tid: 101,
        prev_tid,
        next_tid,
        prev_pid: 100,
        next_pid: 200,
        cpu: 0,
        event_type: EventType::Switch.to_u8(),
        prev_state: 1,
        flags: 0,
    }
}

fn wakeup_event(ts: u64, source: u32, target: u32) -> WperfEvent {
    WperfEvent {
        timestamp_ns: ts,
        pid: 200,
        tid: 201,
        prev_tid: source,
        next_tid: target,
        prev_pid: 200,
        next_pid: 100,
        cpu: 2,
        event_type: EventType::Wakeup.to_u8(),
        prev_state: 0,
        flags: 0,
    }
}

fn exit_event(ts: u64, tid: u32) -> WperfEvent {
    WperfEvent {
        timestamp_ns: ts,
        pid: 100,
        tid,
        prev_tid: tid,
        next_tid: 0,
        prev_pid: 100,
        next_pid: 0,
        cpu: 0,
        event_type: EventType::Exit.to_u8(),
        prev_state: 0,
        flags: 0,
    }
}


#[test]
fn snapshot_single_switch_event() {
    let events = vec![switch_event(1_000_000, 101, 202)];
    let mut reader = write_and_open(&events, 0);
    let parsed = reader.read_all_events().unwrap();
    assert_eq!(parsed, events);
}

#[test]
fn snapshot_single_wakeup_event() {
    let events = vec![wakeup_event(2_000_000, 201, 101)];
    let mut reader = write_and_open(&events, 0);
    let parsed = reader.read_all_events().unwrap();
    assert_eq!(parsed, events);
}

#[test]
fn snapshot_mixed_event_trace() {
    let events = vec![
        switch_event(1_000_000, 101, 202),
        wakeup_event(2_000_000, 201, 101),
        switch_event(3_000_000, 202, 101),
        exit_event(4_000_000, 202),
    ];
    let mut reader = write_and_open(&events, 0);
    let parsed = reader.read_all_events().unwrap();
    assert_eq!(parsed, events);
}


#[test]
fn snapshot_metadata_with_counts() {
    let events = vec![
        switch_event(1_000_000, 101, 202),
        wakeup_event(2_000_000, 201, 101),
        switch_event(3_000_000, 202, 101),
    ];
    let mut reader = write_and_open(&events, 42);
    // Consume events first so reader position is past data section
    let _ = reader.read_all_events().unwrap();
    let metadata = reader.read_metadata().unwrap();
    assert_eq!(
        metadata,
        Metadata {
            event_count: Some(3),
            drop_count: Some(42),
        }
    );
}


#[test]
fn snapshot_empty_finished_trace() {
    // Normal empty trace: writer.finish(0) produces a valid file with footer
    let mut reader = write_and_open(&[], 0);
    let events = reader.read_all_events().unwrap();
    let metadata = reader.read_metadata().unwrap();
    assert!(events.is_empty());
    assert_eq!(
        metadata,
        Metadata {
            event_count: Some(0),
            drop_count: Some(0),
        }
    );
}

#[test]
fn snapshot_crash_recovery_no_footer() {
    // Crash recovery: section_table_offset == 0, no footer written.
    // Simulate by writing a valid header + some event data, but with
    // section_table_offset left at 0 (as if the writer crashed before finish).
    let events = vec![switch_event(1_000_000, 101, 202)];
    let data = write_trace(&events, 0);

    // Corrupt: zero out section_table_offset (bytes 16..24 in header)
    let mut corrupted = data;
    corrupted[16..24].copy_from_slice(&0u64.to_le_bytes());

    let mut reader = WperfReader::open(MemStream::new(corrupted)).unwrap();
    let parsed_events = reader.read_all_events().unwrap();
    let metadata = reader.read_metadata().unwrap();
    assert_eq!(parsed_events, events);
    assert_eq!(
        metadata,
        Metadata {
            event_count: None,
            drop_count: None,
        }
    );
}


#[test]
fn snapshot_error_bad_magic() {
    let mut data = vec![0u8; HEADER_SIZE];
    data[0..4].copy_from_slice(b"NOPE");
    let err = WperfReader::open(MemStream::new(data)).unwrap_err();
    assert_eq!(err.message(), "header error: invalid wPRF magic bytes");
}

#[test]
fn snapshot_error_unsupported_version() {
    // Write a valid header, then corrupt the version byte
    let data = write_trace(&[], 0);
    let mut corrupted = data;
    corrupted[4] = 99; // version byte at offset 4
    let err = WperfReader::open(MemStream::new(corrupted)).unwrap_err();
    assert_eq!(err.message(), "header error: unsupported wPRF version: 99");
}

#[test]
fn snapshot_error_payload_too_large() {
    let err = ReaderError::PayloadTooLarge {
        rec_type: 1,
        length: 20_000_000,
    };
    assert_eq!(err.message(), "TLV payload too large: type=1, length=20000000");
}

#[test]
fn snapshot_error_unexpected_payload_size() {
    let err = ReaderError::UnexpectedPayloadSize {
        rec_type: 1,
        expected: 40,
        actual: 30,
    };
    assert_eq!(err.message(), "unexpected payload size for type 1: expected 40, got 30");
}

#[test]
fn snapshot_error_unknown_record_type() {
    let err = ReaderError::UnknownRecordType(255);
    assert_eq!(err.message(), "unknown TLV record type: 255");
}
