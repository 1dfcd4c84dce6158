//! Recording.

use wperf::format::stream::StreamError;
use wperf::record::RecordError;

#[test]
fn record_error_display_no_bpf() {
    let err = RecordError::NoBpfSupport;
    let msg = err.message();
    assert!(msg.contains("without BPF support"));
    assert!(msg.contains("--features bpf"));
}

#[test]
fn record_error_display_probe() {
    let err = RecordError::Probe("BTF not available".to_string());
    let msg = err.message();
    assert!(msg.contains("feature probing failed"));
    assert!(msg.contains("BTF"));
}

#[test]
fn record_error_display_bpf() {
    let err = RecordError::Bpf("load failed".to_string());
    let msg = err.message();
    assert!(msg.contains("BPF error"));
}

#[test]
fn record_error_display_signal() {
    let err = RecordError::SignalSetup(StreamError::other("test"));
    let msg = err.message();
    assert!(msg.contains("signal handler"));
    assert!(msg.contains("test"));
}

#[test]
fn record_error_display_io() {
    let err = RecordError::Io(StreamError::other("disk full"));
    let msg = err.message();
    assert!(msg.contains("I/O error"));
    assert!(msg.contains("disk full"));
}

#[test]
fn record_error_source() {
    let err = RecordError::NoBpfSupport;
    assert!(err.source().is_none());

    let err = RecordError::Probe("x".to_string());
    assert!(err.source().is_none());

    let err = RecordError::Bpf("x".to_string());
    assert!(err.source().is_none());

    let err = RecordError::SignalSetup(StreamError::other("x"));
    assert!(err.source().is_some());

    let err = RecordError::Io(StreamError::other("y"));
    assert!(err.source().is_some());
}
