//! File headers.

use wperf::format::header::{HeaderError, WprfHeader, ARCH_X86_64, HEADER_SIZE};
use wperf::format::stream::{MemStream, StreamError};

#[test]
fn header_roundtrip() {
    let mut h = WprfHeader::new(ARCH_X86_64);
    h.data_section_end_offset = 12345;
    h.section_table_offset = 67890;
    h.feature_bitmap[0] = 0xFF;
    h.feature_bitmap[31] = 0x42;

    let bytes = h.to_bytes();
    assert_eq!(bytes.len(), HEADER_SIZE);

    let parsed = WprfHeader::from_bytes(&bytes).unwrap();
    assert_eq!(h, parsed);
}

#[test]
fn header_magic_check() {
    let mut buf = [0u8; HEADER_SIZE];
    buf[0..4].copy_from_slice(b"NOPE");
    assert!(matches!(
        WprfHeader::from_bytes(&buf),
        Err(HeaderError::BadMagic)
    ));
}

#[test]
fn header_version_check() {
    let mut h = WprfHeader::new(ARCH_X86_64);
    h.version = 99;
    let bytes = h.to_bytes();
    // Manually fix the magic but keep version=99
    assert!(matches!(
        WprfHeader::from_bytes(&bytes),
        Err(HeaderError::UnsupportedVersion(99))
    ));
}

#[test]
fn header_size_is_64() {
    assert_eq!(HEADER_SIZE, 64);
    assert_eq!(WprfHeader::new(ARCH_X86_64).to_bytes().len(), 64);
}

#[test]
fn header_error_display() {
    let err = HeaderError::BadMagic;
    let msg = err.message();
    assert!(!msg.is_empty());
    assert!(msg.contains("magic"));

    let err = HeaderError::UnsupportedVersion(99);
    assert!(err.message().contains("99"));

    let err = HeaderError::Io(StreamError::other("test"));
    assert!(err.message().contains("test"));
}

#[test]
fn header_error_source() {
    let io_err = HeaderError::Io(StreamError::other("x"));
    assert!(io_err.source().is_some());

    let bad_magic = HeaderError::BadMagic;
    assert!(bad_magic.source().is_none());
}

#[test]
fn header_io_roundtrip() {
    let h = WprfHeader::new(ARCH_X86_64);
    let mut out = MemStream::new(Vec::new());
    h.write_to(&mut out).unwrap();
    let buf = out.into_inner();
    assert_eq!(buf.len(), 64);

    let parsed = WprfHeader::read_from(&mut MemStream::new(buf)).unwrap();
    assert_eq!(h, parsed);
}
