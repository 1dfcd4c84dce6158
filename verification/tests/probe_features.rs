//! Kernel features.

use wperf::format::stream::StreamError;
use wperf::probe::features::{
    file_contains_line, probe_all, probe_bpf_loop, probe_btf, probe_fentry, probe_kprobe,
    probe_ringbuf, probe_tp_btf, FileLines, ProbeError, TracepointMode, TransportMode,
};

fn lines(text: &str) -> FileLines {
    FileLines::Lines(text.lines().map(|l| Ok(l.to_string())).collect())
}

#[test]
fn btf_present() {
    assert!(probe_btf(true).is_ok());
}

#[test]
fn btf_missing_returns_error() {
    let err = probe_btf(false).unwrap_err();
    assert!(matches!(err, ProbeError::BtfRequired));
}

#[test]
fn kprobe_available() {
    let available = lines("do_sys_open\nvfs_read\nvfs_write\n");
    assert!(probe_kprobe(&FileLines::Missing, &available, "vfs_read").unwrap());
}

#[test]
fn kprobe_blacklisted() {
    let available = lines("vfs_read\n");
    let blacklist = lines("0xffffffff81234567\tvfs_read\n");
    assert!(!probe_kprobe(&blacklist, &available, "vfs_read").unwrap());
}

#[test]
fn kprobe_not_in_available() {
    let available = lines("do_sys_open\nvfs_write\n");
    assert!(!probe_kprobe(&FileLines::Missing, &available, "vfs_read").unwrap());
}

#[test]
fn kprobe_no_files_returns_false() {
    // Both files missing: false, not an error.
    assert!(!probe_kprobe(&FileLines::Missing, &FileLines::Missing, "vfs_read").unwrap());
}

#[test]
fn ringbuf_stub_returns_perfarray() {
    let result = probe_ringbuf().unwrap();
    assert_eq!(result, TransportMode::PerfArray);
}

#[test]
fn bpf_loop_stub_returns_false() {
    assert!(!probe_bpf_loop().unwrap());
}

#[test]
fn tp_btf_stub_returns_raw_tp() {
    let result = probe_tp_btf().unwrap();
    assert_eq!(result, TracepointMode::RawTp);
}

#[test]
fn fentry_stub_returns_false() {
    assert!(!probe_fentry().unwrap());
}

#[test]
fn probe_all_with_btf_succeeds() {
    let matrix = probe_all(true, true).unwrap();
    assert!(matrix.has_btf);
    assert!(matrix.has_cgroupv2);
    assert_eq!(matrix.transport, TransportMode::PerfArray);
    assert_eq!(matrix.tracepoint, TracepointMode::RawTp);
    assert!(!matrix.has_bpf_loop);
    assert!(!matrix.has_fentry);
}

#[test]
fn probe_all_without_btf_fails() {
    let err = probe_all(false, false).unwrap_err();
    assert!(matches!(err, ProbeError::BtfRequired));
}

#[test]
fn features_error_display() {
    let err = ProbeError::BtfRequired;
    let msg = err.message();
    assert!(msg.contains("BTF not available"));
    assert!(msg.contains("RHEL 8.2+"));
}

#[test]
fn error_display_io() {
    let err = ProbeError::Io(StreamError::other("no access"));
    let msg = err.message();
    assert!(msg.contains("I/O error"));
}

#[test]
fn error_display_syscall() {
    let err = ProbeError::Syscall("test failure".to_string());
    let msg = err.message();
    assert!(msg.contains("syscall probe failed"));
}

#[test]
fn error_source_io_returns_some() {
    let err = ProbeError::Io(StreamError::other("no access"));
    assert!(err.source().is_some());
}

#[test]
fn error_source_btf_required_returns_none() {
    let err = ProbeError::BtfRequired;
    assert!(err.source().is_none());
}

#[test]
fn file_contains_line_permission_denied_propagates() {
    let file = FileLines::Unreadable(StreamError::other("permission denied"));
    let result = file_contains_line(&file, "anything");
    assert!(result.is_err());
}

#[test]
fn ringbuf_stub_not_ringbuf() {
    let result = probe_ringbuf().unwrap();
    assert_ne!(result, TransportMode::RingBuf);
}

#[test]
fn bpf_loop_stub_specifically_false() {
    let result = probe_bpf_loop().unwrap();
    assert!(!result);
}

#[test]
fn probe_all_without_cgroupv2() {
    let matrix = probe_all(true, false).unwrap();
    assert!(!matrix.has_cgroupv2);
}
