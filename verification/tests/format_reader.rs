//! Reading trace files.

use wperf::format::event::{EventType, WperfEvent, EVENT_SIZE};
use wperf::format::header::{HeaderError, WprfHeader, ARCH_X86_64};
use wperf::format::reader::{ReaderError, WperfReader};
use wperf::format::stream::{MemStream, StreamError};
use wperf::format::writer::{WperfWriter, MAX_PAYLOAD_SIZE};

fn make_event(ts: u64, etype: EventType) -> WperfEvent {
    WperfEvent {
        timestamp_ns: ts,
        pid: 100,
        tid: 101,
        prev_tid: 101,
        next_tid: 202,
        prev_pid: 100,
        next_pid: 200,
        cpu: 0,
        event_type: etype.to_u8(),
        prev_state: 1,
        flags: 0,
    }
}

/// Helper: write events with `WperfWriter`, return the raw bytes.
fn write_trace(events: &[WperfEvent], drop_count: u64) -> Vec<u8> {
    let buf = MemStream::new(Vec::new());
    let mut w = WperfWriter::new(buf, ARCH_X86_64).unwrap();
    for ev in events {
        w.write_event(ev).unwrap();
    }
    let buf = w.finish(drop_count).unwrap();
    buf.into_inner()
}

#[test]
fn read_single_event() {
    let ev = make_event(1_000_000, EventType::Switch);
    let data = write_trace(&[ev], 0);
    let mut r = WperfReader::open(MemStream::new(data)).unwrap();

    let got = r.next_event().unwrap().unwrap();
    assert_eq!(got, ev);
    assert!(r.next_event().unwrap().is_none());
}

#[test]
fn read_multiple_events() {
    let events: Vec<_> = (0..10)
        .map(|i| make_event(i * 1000, EventType::Switch))
        .collect();
    let data = write_trace(&events, 5);
    let mut r = WperfReader::open(MemStream::new(data)).unwrap();

    let got = r.read_all_events().unwrap();
    assert_eq!(got, events);
}

#[test]
fn read_metadata_after_events() {
    let events: Vec<_> = (0..10)
        .map(|i| make_event(i * 1000, EventType::Wakeup))
        .collect();
    let data = write_trace(&events, 42);
    let mut r = WperfReader::open(MemStream::new(data)).unwrap();

    let meta = r.read_metadata().unwrap();
    assert_eq!(meta.event_count, Some(10));
    assert_eq!(meta.drop_count, Some(42));
}

#[test]
fn read_empty_trace() {
    let data = write_trace(&[], 0);
    let mut r = WperfReader::open(MemStream::new(data)).unwrap();

    assert!(r.next_event().unwrap().is_none());

    let meta = r.read_metadata().unwrap();
    assert_eq!(meta.event_count, Some(0));
    assert_eq!(meta.drop_count, Some(0));
}

#[test]
fn header_accessible() {
    let data = write_trace(&[], 0);
    let r = WperfReader::open(MemStream::new(data)).unwrap();
    assert_eq!(r.header().version, 1);
}

#[test]
fn rewind_allows_reiteration() {
    let events: Vec<_> = (0..3)
        .map(|i| make_event(i * 100, EventType::Switch))
        .collect();
    let data = write_trace(&events, 0);
    let mut r = WperfReader::open(MemStream::new(data)).unwrap();

    let first_pass = r.read_all_events().unwrap();
    r.rewind().unwrap();
    let second_pass = r.read_all_events().unwrap();
    assert_eq!(first_pass, second_pass);
}

#[test]
fn crash_recovery_truncated_file() {
    // Simulate a crash: write events but don't call finish().
    // Manually build a file with header + 2 full events + partial 3rd.
    let ev = make_event(1000, EventType::Switch);
    let data = write_trace(&[ev, ev, ev], 0);

    // Truncate: keep header + 2 complete TLV records + 3 bytes of 3rd
    let record_size = 5 + EVENT_SIZE; // TLV header + payload
    let truncated_len = 64 + 2 * record_size + 3;
    let mut truncated = data[..truncated_len].to_vec();

    // Fix the header: set data_section_end_offset to cover only 2 events,
    // section_table_offset to 0 (no footer).
    let two_events_end = (64 + 2 * record_size) as u64;
    truncated[8..16].copy_from_slice(&two_events_end.to_le_bytes());
    truncated[16..24].copy_from_slice(&0u64.to_le_bytes());

    let mut r = WperfReader::open(MemStream::new(truncated)).unwrap();
    let got = r.read_all_events().unwrap();
    assert_eq!(got.len(), 2);

    // No footer → metadata is None
    let meta = r.read_metadata().unwrap();
    assert_eq!(meta.event_count, None);
    assert_eq!(meta.drop_count, None);
}

#[test]
fn bad_magic_rejected() {
    let mut data = write_trace(&[], 0);
    data[0..4].copy_from_slice(b"NOPE");
    let err = WperfReader::open(MemStream::new(data)).unwrap_err();
    assert!(matches!(err, ReaderError::Header(HeaderError::BadMagic)));
}

#[test]
fn payload_too_large_rejected() {
    // Craft a TLV record with length > MAX_PAYLOAD_SIZE
    let mut data = write_trace(&[], 0);
    // Overwrite data_section_end_offset to allow reading past header
    let fake_end = 1_000_000u64;
    data[8..16].copy_from_slice(&fake_end.to_le_bytes());
    data[16..24].copy_from_slice(&0u64.to_le_bytes()); // no footer

    // Append a TLV header with absurd length
    let bad_length = MAX_PAYLOAD_SIZE + 1;
    data.push(1); // rec_type
    data.extend_from_slice(&bad_length.to_le_bytes());

    let mut r = WperfReader::open(MemStream::new(data)).unwrap();
    let err = r.next_event().unwrap_err();
    assert!(matches!(err, ReaderError::PayloadTooLarge { .. }));
}

#[test]
fn wrong_payload_size_rejected() {
    // Start from just a valid header (no footer noise)
    let mut data = vec![0u8; 64];
    let header = WprfHeader::new(ARCH_X86_64);
    data.copy_from_slice(&header.to_bytes());

    // TLV: type=1, length=20 (wrong, should be 40)
    data.push(1);
    data.extend_from_slice(&20u32.to_le_bytes());
    data.extend_from_slice(&[0u8; 20]);

    // Set data_section_end_offset to cover the whole crafted region
    let fake_end = data.len() as u64;
    data[8..16].copy_from_slice(&fake_end.to_le_bytes());
    data[16..24].copy_from_slice(&0u64.to_le_bytes()); // no footer

    let mut r = WperfReader::open(MemStream::new(data)).unwrap();
    let err = r.next_event().unwrap_err();
    assert!(matches!(
        err,
        ReaderError::UnexpectedPayloadSize {
            rec_type: 1,
            expected: 40,
            actual: 20,
        }
    ));
}

#[test]
fn unknown_record_type_skipped() {
    // Write a normal trace, then inject an unknown record type before events
    let ev = make_event(5000, EventType::Switch);

    // Build manually: header + unknown TLV + real event TLV + footer
    let mut w = WperfWriter::new(MemStream::new(Vec::new()), ARCH_X86_64).unwrap();
    w.write_event(&ev).unwrap();
    let written = w.finish(0).unwrap().into_inner();

    // Parse header to get offsets
    let header = WprfHeader::from_bytes(written[..64].try_into().unwrap()).unwrap();
    let original_data_end = header.data_section_end_offset;

    // Reconstruct: header + unknown(type=99, 8 bytes payload) + real event TLV + footer
    let unknown_payload = [0xAA; 8];
    let unknown_record_len = 5 + unknown_payload.len(); // TLV header + payload

    let mut crafted = Vec::new();
    // We'll build the header manually with updated offsets
    let new_data_end = original_data_end + unknown_record_len as u64;
    let mut new_header = header.clone();
    new_header.data_section_end_offset = new_data_end;
    new_header.section_table_offset = header.section_table_offset + unknown_record_len as u64;
    crafted.extend_from_slice(&new_header.to_bytes());

    // Unknown TLV record
    crafted.push(99); // unknown type
    crafted.extend_from_slice(&(unknown_payload.len() as u32).to_le_bytes());
    crafted.extend_from_slice(&unknown_payload);

    // Real event TLV (copy from original)
    crafted.extend_from_slice(&written[64..original_data_end as usize]);

    // Footer (copy from original, offsets are now wrong for metadata but we
    // only test event reading here)
    crafted.extend_from_slice(&written[original_data_end as usize..]);

    let mut r = WperfReader::open(MemStream::new(crafted)).unwrap();
    let got = r.next_event().unwrap().unwrap();
    assert_eq!(got, ev);
    assert!(r.next_event().unwrap().is_none());
}

#[test]
fn large_trace_roundtrip() {
    // 2048 events to exercise the crash-recovery bookmark path in the writer
    let events: Vec<_> = (0..2048)
        .map(|i| make_event(i * 500, EventType::Switch))
        .collect();
    let data = write_trace(&events, 100);
    let mut r = WperfReader::open(MemStream::new(data)).unwrap();

    let got = r.read_all_events().unwrap();
    assert_eq!(got.len(), 2048);
    assert_eq!(got, events);

    let meta = r.read_metadata().unwrap();
    assert_eq!(meta.event_count, Some(2048));
    assert_eq!(meta.drop_count, Some(100));
}

#[test]
fn header_accessor_returns_actual_header() {
    let data = write_trace(&[], 0);
    let r = WperfReader::open(MemStream::new(data)).unwrap();
    assert!(r.header().section_table_offset > 0);
}

#[test]
fn reader_error_display() {
    let err = ReaderError::PayloadTooLarge {
        rec_type: 1,
        length: 999,
    };
    let msg = err.message();
    assert!(!msg.is_empty());
    assert!(msg.contains("999"));

    let err = ReaderError::UnexpectedPayloadSize {
        rec_type: 1,
        expected: 40,
        actual: 20,
    };
    assert!(err.message().contains("20"));

    let err = ReaderError::UnknownRecordType(99);
    assert!(err.message().contains("99"));
}

#[test]
fn reader_error_source() {
    let io_err = StreamError::other("test");
    let err = ReaderError::Io(io_err);
    assert!(err.source_message().is_some());

    let header_err = ReaderError::Header(HeaderError::BadMagic);
    assert!(header_err.source_message().is_some());

    // Non-io/header variants should have no source
    let err = ReaderError::UnknownRecordType(5);
    assert!(err.source_message().is_none());
}

#[test]
fn trailing_partial_tlv_header_ignored() {
    let ev = make_event(1000, EventType::Switch);
    let mut data = vec![0u8; 64];
    let header = WprfHeader::new(ARCH_X86_64);
    data.copy_from_slice(&header.to_bytes());

    // Write one TLV event
    data.push(1); // rec_type
    data.extend_from_slice(&(EVENT_SIZE as u32).to_le_bytes());
    data.extend_from_slice(&ev.to_bytes());

    // 3 trailing junk bytes (less than TLV header size of 5)
    data.extend_from_slice(&[0xAA, 0xBB, 0xCC]);

    // Set data_section_end_offset to include the trailing junk
    let data_end = data.len() as u64;
    data[8..16].copy_from_slice(&data_end.to_le_bytes());
    data[16..24].copy_from_slice(&0u64.to_le_bytes()); // no footer

    let mut r = WperfReader::open(MemStream::new(data)).unwrap();
    let got = r.read_all_events().unwrap();
    assert_eq!(got.len(), 1);
    assert_eq!(got[0], ev);
}

#[test]
fn read_metadata_io_error_not_swallowed() {
    let events: Vec<_> = (0..3)
        .map(|i| make_event(i * 100, EventType::Switch))
        .collect();
    let data = write_trace(&events, 7);
    let mut r = WperfReader::open(MemStream::new(data)).unwrap();
    let meta = r.read_metadata().unwrap();
    assert_eq!(meta.event_count, Some(3));
    assert_eq!(meta.drop_count, Some(7));
}

#[test]
fn stale_data_end_offset_past_eof_graceful() {
    let ev = make_event(1000, EventType::Switch);
    let data = write_trace(&[ev, ev], 0);

    let record_size = 5 + EVENT_SIZE;
    // Keep header + 1 complete TLV record only
    let truncated_len = 64 + record_size;
    let truncated = data[..truncated_len].to_vec();
    // Header still claims data_section_end_offset covers 2 events — stale.

    let mut r = WperfReader::open(MemStream::new(truncated)).unwrap();
    let got = r.read_all_events().unwrap();
    assert_eq!(got.len(), 1);
    assert_eq!(got[0], ev);
}
