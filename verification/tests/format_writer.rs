//! Writing trace files.

use wperf::format::event::{EventType, WperfEvent, EVENT_SIZE};
use wperf::format::header::{WprfHeader, ARCH_X86_64, HEADER_SIZE};
use wperf::format::stream::{ByteStream, MemStream};
use wperf::format::writer::{
    build_metadata, parse_metadata, read_section_entry, read_tlv_header, write_meta_entry,
    WperfWriter, REC_TYPE_SCHED_EVENT, SECTION_ID_METADATA, TLV_HEADER_SIZE,
};

fn make_event(ts: u64, etype: EventType) -> WperfEvent {
    WperfEvent {
        timestamp_ns: ts,
        pid: 100,
        tid: 101,
        prev_tid: 101,
        next_tid: 202,
        prev_pid: 100,
        next_pid: 200,
        cpu: 0,
        event_type: etype.to_u8(),
        prev_state: 1,
        flags: 0,
    }
}

#[test]
fn write_and_read_back_single_event() {
    let buf = MemStream::new(Vec::new());
    let mut w = WperfWriter::new(buf, ARCH_X86_64).unwrap();

    let ev = make_event(1_000_000, EventType::Switch);
    w.write_event(&ev).unwrap();
    assert_eq!(w.event_count(), 1);

    let mut buf = w.finish(0).unwrap();

    // Read back header
    buf.seek_to(0).unwrap();
    let header = WprfHeader::read_from(&mut buf).unwrap();

    let data_end = (HEADER_SIZE + TLV_HEADER_SIZE + EVENT_SIZE) as u64;
    assert_eq!(header.data_section_end_offset, data_end);
    assert!(header.section_table_offset > 0);

    // Read back TLV record
    buf.seek_to(HEADER_SIZE as u64).unwrap();
    let (rec_type, length) = read_tlv_header(&mut buf).unwrap();
    assert_eq!(rec_type, REC_TYPE_SCHED_EVENT);
    assert_eq!(length, EVENT_SIZE as u32);

    let parsed = WperfEvent::read_from(&mut buf).unwrap();
    assert_eq!(parsed, ev);

    // Read footer metadata
    buf.seek_to(header.section_table_offset).unwrap();
    let (sec_id, meta_offset, meta_size) = read_section_entry(&mut buf).unwrap();
    assert_eq!(sec_id, SECTION_ID_METADATA);
    assert_eq!(meta_offset, data_end);

    buf.seek_to(meta_offset).unwrap();
    let meta_buf = buf.read_exact(meta_size as usize).unwrap();
    let (ec, dc) = parse_metadata(&meta_buf);
    assert_eq!(ec, Some(1));
    assert_eq!(dc, Some(0));
}

#[test]
fn write_multiple_events() {
    let buf = MemStream::new(Vec::new());
    let mut w = WperfWriter::new(buf, ARCH_X86_64).unwrap();

    for i in 0..10 {
        let ev = make_event(i * 1000, EventType::Switch);
        w.write_event(&ev).unwrap();
    }
    assert_eq!(w.event_count(), 10);

    let mut buf = w.finish(5).unwrap();

    // Read metadata from footer
    buf.seek_to(0).unwrap();
    let header = WprfHeader::read_from(&mut buf).unwrap();
    buf.seek_to(header.section_table_offset).unwrap();
    let (_, meta_offset, meta_size) = read_section_entry(&mut buf).unwrap();
    buf.seek_to(meta_offset).unwrap();
    let meta_buf = buf.read_exact(meta_size as usize).unwrap();
    let (ec, dc) = parse_metadata(&meta_buf);
    assert_eq!(ec, Some(10));
    assert_eq!(dc, Some(5));

    let expected_data_end = HEADER_SIZE + 10 * (TLV_HEADER_SIZE + EVENT_SIZE);
    assert_eq!(header.data_section_end_offset, expected_data_end as u64);
}

#[test]
fn empty_file_no_events() {
    let buf = MemStream::new(Vec::new());
    let w = WperfWriter::new(buf, ARCH_X86_64).unwrap();
    let mut buf = w.finish(0).unwrap();

    buf.seek_to(0).unwrap();
    let header = WprfHeader::read_from(&mut buf).unwrap();
    assert_eq!(header.data_section_end_offset, HEADER_SIZE as u64);
    assert!(header.section_table_offset > 0);

    // Metadata should still have event_count=0
    buf.seek_to(header.section_table_offset).unwrap();
    let (_, meta_offset, meta_size) = read_section_entry(&mut buf).unwrap();
    buf.seek_to(meta_offset).unwrap();
    let meta_buf = buf.read_exact(meta_size as usize).unwrap();
    let (ec, dc) = parse_metadata(&meta_buf);
    assert_eq!(ec, Some(0));
    assert_eq!(dc, Some(0));
}

#[test]
fn crash_recovery_offset_updated_periodically() {
    let buf = MemStream::new(Vec::new());
    let mut w = WperfWriter::new(buf, ARCH_X86_64).unwrap();

    // Write 8192 events to trigger one crash-recovery update
    for i in 0..8192 {
        let ev = make_event(i * 1000, EventType::Switch);
        w.write_event(&ev).unwrap();
    }

    // After 8192 events, data_section_end_offset should be updated
    let expected_offset = HEADER_SIZE as u64 + 8192 * (TLV_HEADER_SIZE + EVENT_SIZE) as u64;
    assert_eq!(w.header().data_section_end_offset, expected_offset);
}

#[test]
fn file_layout_order() {
    // Verify: header < data_end <= metadata < section_table < EOF
    let n = 5u64;
    let buf = MemStream::new(Vec::new());
    let mut w = WperfWriter::new(buf, ARCH_X86_64).unwrap();
    for i in 0..n {
        w.write_event(&make_event(i, EventType::Wakeup)).unwrap();
    }
    let mut buf = w.finish(0).unwrap();

    buf.seek_to(0).unwrap();
    let header = WprfHeader::read_from(&mut buf).unwrap();
    let total = buf.into_inner().len() as u64;

    assert!(HEADER_SIZE as u64 <= header.data_section_end_offset);
    assert!(header.data_section_end_offset <= header.section_table_offset);
    assert!(header.section_table_offset < total);
}

#[test]
fn drop_count_preserved() {
    let buf = MemStream::new(Vec::new());
    let mut w = WperfWriter::new(buf, ARCH_X86_64).unwrap();
    w.write_event(&make_event(1000, EventType::Switch)).unwrap();
    let mut buf = w.finish(42).unwrap();

    buf.seek_to(0).unwrap();
    let header = WprfHeader::read_from(&mut buf).unwrap();
    buf.seek_to(header.section_table_offset).unwrap();
    let (_, meta_offset, meta_size) = read_section_entry(&mut buf).unwrap();
    buf.seek_to(meta_offset).unwrap();
    let meta_buf = buf.read_exact(meta_size as usize).unwrap();
    let (_, dc) = parse_metadata(&meta_buf);
    assert_eq!(dc, Some(42));
}

#[test]
fn feature_bitmap_not_abused() {
    // Verify that feature_bitmap only has capability flags, no counters
    let buf = MemStream::new(Vec::new());
    let mut w = WperfWriter::new(buf, ARCH_X86_64).unwrap();
    w.write_event(&make_event(1000, EventType::Switch)).unwrap();
    let mut buf = w.finish(99).unwrap();

    buf.seek_to(0).unwrap();
    let header = WprfHeader::read_from(&mut buf).unwrap();

    // Only bit 0 of byte 0 should be set (has timestamps)
    assert_eq!(header.feature_bitmap[0], 0x01);
    // Bytes 8..24 must be zero (not used for counters anymore)
    assert_eq!(&header.feature_bitmap[8..24], &[0u8; 16]);
}

#[test]
fn metadata_roundtrip() {
    let meta = build_metadata(12345, 67);
    let (ec, dc) = parse_metadata(&meta);
    assert_eq!(ec, Some(12345));
    assert_eq!(dc, Some(67));
}

#[test]
fn parse_metadata_unknown_key_not_misread() {
    let mut buf = Vec::new();
    write_meta_entry(&mut buf, b"EVENT_COUNT", &42u64.to_le_bytes());
    write_meta_entry(&mut buf, b"UNKNOWN_KEY", &99u64.to_le_bytes()); // 8-byte value, unknown key
    let (ec, dc) = parse_metadata(&buf);
    assert_eq!(ec, Some(42));
    assert_eq!(dc, None); // must NOT pick up UNKNOWN_KEY as drop_count
}

#[test]
fn parse_metadata_truncated_before_value() {
    let full = build_metadata(100, 200);
    // Truncate to cut the second entry's value short
    let truncated = &full[..full.len() - 3];
    let (ec, _dc) = parse_metadata(truncated);
    // First entry should still parse
    assert_eq!(ec, Some(100));
}

#[test]
fn parse_metadata_truncated_before_key() {
    let mut buf = Vec::new();
    write_meta_entry(&mut buf, b"EVENT_COUNT", &7u64.to_le_bytes());
    // Append a key_len that claims 20 bytes but don't provide them
    buf.extend_from_slice(&20u16.to_le_bytes());
    let (ec, dc) = parse_metadata(&buf);
    assert_eq!(ec, Some(7));
    assert_eq!(dc, None);
}

#[test]
fn write_event_raw_matches_write_event() {
    let ev = make_event(42_000, EventType::Switch);

    let mut w1 = WperfWriter::new(MemStream::new(Vec::new()), ARCH_X86_64).unwrap();
    w1.write_event(&ev).unwrap();
    let buf1 = w1.finish(0).unwrap().into_inner();

    let mut w2 = WperfWriter::new(MemStream::new(Vec::new()), ARCH_X86_64).unwrap();
    w2.write_event_raw(&ev.to_bytes()).unwrap();
    let buf2 = w2.finish(0).unwrap().into_inner();

    assert_eq!(buf1, buf2);
}

#[test]
fn write_event_raw_tracks_timestamps() {
    let buf = MemStream::new(Vec::new());
    let mut w = WperfWriter::new(buf, ARCH_X86_64).unwrap();

    w.write_event_raw(&make_event(100, EventType::Switch).to_bytes())
        .unwrap();
    w.write_event_raw(&make_event(300, EventType::Wakeup).to_bytes())
        .unwrap();
    w.write_event_raw(&make_event(200, EventType::Switch).to_bytes())
        .unwrap();

    assert_eq!(w.start_timestamp_ns(), Some(100));
    assert_eq!(w.end_timestamp_ns(), 300);
    assert_eq!(w.event_count(), 3);
}

#[test]
fn write_event_raw_crash_recovery() {
    let buf = MemStream::new(Vec::new());
    let mut w = WperfWriter::new(buf, ARCH_X86_64).unwrap();

    for i in 0..8192 {
        let ev = make_event(i * 1000, EventType::Switch);
        w.write_event_raw(&ev.to_bytes()).unwrap();
    }

    let expected_offset = HEADER_SIZE as u64 + 8192 * (TLV_HEADER_SIZE + EVENT_SIZE) as u64;
    assert_eq!(w.header().data_section_end_offset, expected_offset);
}
