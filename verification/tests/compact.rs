//! Compact files.

use wperf::format::compact::{
    read_wperf, read_wperf_recovered, write_wperf, BaseEvent, CompactError, CompactHeader,
    BASE_RECORD_SIZE,
};
use wperf::format::header::HEADER_SIZE;
use wperf::format::stream::{ByteStream, MemStream};

fn make_test_events(n: usize) -> Vec<BaseEvent> {
    (0..n)
        .map(|i| BaseEvent {
            event_id: 1,
            cpu: (i % 4) as u16,
            pid: 1000,
            tid: 1000 + i as u32,
            timestamp_ns: 1_000_000_000 + (i as u64 * 100_000),
            flags: 0,
        })
        .collect()
}

fn file_of(events: &[BaseEvent]) -> Vec<u8> {
    let mut f = MemStream::new(Vec::new());
    write_wperf(&mut f, events).unwrap();
    f.into_inner()
}

#[test]
fn compact_header_layout() {
    let header = CompactHeader::new();
    let mut out = MemStream::new(Vec::new());
    header.write_to(&mut out).unwrap();
    let buf = out.into_inner();

    assert_eq!(buf.len(), 64, "Header must be exactly 64 bytes");
    assert_eq!(&buf[0..4], b"wPRF", "Magic must be wPRF");
    assert_eq!(buf[4], 1, "Version must be 1");
    assert_eq!(buf[7], 0, "_reserved must be 0");

    let parsed = CompactHeader::read_from(&mut MemStream::new(buf)).unwrap();
    assert_eq!(header, parsed);
}

#[test]
fn compact_roundtrip() {
    let events = make_test_events(10);
    let data = file_of(&events);
    assert_eq!(data.len(), HEADER_SIZE + 10 * BASE_RECORD_SIZE + 32);
    assert_eq!(&data[data.len() - 12..], b"DROP_COUNT=0");

    let (header, read) = read_wperf(&mut MemStream::new(data.clone())).unwrap();
    assert_eq!(header.version, 1);
    assert_eq!(header.data_section_end_offset, 64 + 280);
    assert_eq!(read, events);

    let (_, recovered) = read_wperf_recovered(&mut MemStream::new(data)).unwrap();
    assert_eq!(recovered, events);
}

#[test]
fn compact_truncation_recovery() {
    let events = make_test_events(10);
    let data = file_of(&events);
    let truncate_at = HEADER_SIZE + 6 * BASE_RECORD_SIZE + 10;
    let (_, recovered) =
        read_wperf_recovered(&mut MemStream::new(data[..truncate_at].to_vec())).unwrap();
    assert_eq!(recovered.len(), 6);
    assert_eq!(recovered, events[..6]);
}

#[test]
fn compact_empty_file() {
    let data = file_of(&[]);
    assert!(read_wperf(&mut MemStream::new(data.clone())).unwrap().1.is_empty());
    assert!(read_wperf_recovered(&mut MemStream::new(data)).unwrap().1.is_empty());
}

#[test]
fn compact_header_without_end_reads_all() {
    let events = make_test_events(3);
    let mut data = file_of(&events);
    data[8..16].copy_from_slice(&0u64.to_le_bytes());
    data.truncate(HEADER_SIZE + 3 * BASE_RECORD_SIZE);
    assert_eq!(read_wperf(&mut MemStream::new(data)).unwrap().1, events);
}

#[test]
fn compact_faults() {
    let events = make_test_events(3);
    let good = file_of(&events);

    let mut bad = good.clone();
    bad[0] = b'X';
    let err = read_wperf(&mut MemStream::new(bad)).unwrap_err();
    assert!(matches!(err, CompactError::BadMagic));
    assert_eq!(err.message(), "bad magic");

    // A record of another type: an error, or the end for recovery.
    let mut other = good.clone();
    other[HEADER_SIZE + BASE_RECORD_SIZE] = 7;
    let err = read_wperf(&mut MemStream::new(other.clone())).unwrap_err();
    assert!(matches!(err, CompactError::UnknownRecord));
    assert_eq!(err.message(), "unknown rec_type");
    let (_, kept) = read_wperf_recovered(&mut MemStream::new(other)).unwrap();
    assert_eq!(kept, events[..1]);

    let mut size = good.clone();
    size[HEADER_SIZE + 1] = 22;
    let err = read_wperf(&mut MemStream::new(size)).unwrap_err();
    assert!(matches!(err, CompactError::BadEventSize));
    assert_eq!(err.message(), "bad event size");

    let err = read_wperf(&mut MemStream::new(good[..20].to_vec())).unwrap_err();
    assert_eq!(err.message(), "failed to fill whole buffer");

    // Cut within a record, with a header that still tells the old end.
    let cut = good[..HEADER_SIZE + BASE_RECORD_SIZE + 5].to_vec();
    let (_, kept) = read_wperf(&mut MemStream::new(cut)).unwrap();
    assert_eq!(kept, events[..1]);
}

#[test]
fn unknown_records_are_passed_over() {
    let events = make_test_events(2);
    let mut data = file_of(&events);
    data[HEADER_SIZE] = 7;
    let mut f = MemStream::new(data);
    f.seek_to(HEADER_SIZE as u64).unwrap();
    assert!(matches!(
        BaseEvent::read_tlv(&mut f).unwrap_err(),
        CompactError::UnknownRecord
    ));
    assert_eq!(f.position().unwrap(), (HEADER_SIZE + BASE_RECORD_SIZE) as u64);
    assert_eq!(BaseEvent::read_tlv(&mut f).unwrap(), events[1]);
}
