//! Buffer sizes.

use wperf::probe::features::TransportMode;
use wperf::transport::TransportConfig;

#[test]
fn ringbuf_config_defaults() {
    let cfg = TransportConfig::from_mode(TransportMode::RingBuf);
    assert_eq!(cfg.mode, TransportMode::RingBuf);
    assert_eq!(cfg.ringbuf_size, 16 * 1024 * 1024);
    assert_eq!(cfg.perf_pages, 0);
}

#[test]
fn perfarray_config_defaults() {
    let cfg = TransportConfig::from_mode(TransportMode::PerfArray);
    assert_eq!(cfg.mode, TransportMode::PerfArray);
    assert_eq!(cfg.perf_pages, 256);
    assert_eq!(cfg.ringbuf_size, 0);
}

#[test]
fn ringbuf_custom_size() {
    let cfg = TransportConfig::ringbuf(8 * 1024 * 1024);
    assert_eq!(cfg.ringbuf_size, 8 * 1024 * 1024);
}

#[test]
fn perfarray_custom_pages() {
    let cfg = TransportConfig::perfarray(512);
    assert_eq!(cfg.perf_pages, 512);
}

#[test]
fn from_mode_ringbuf_is_power_of_two() {
    let cfg = TransportConfig::from_mode(TransportMode::RingBuf);
    assert!(cfg.ringbuf_size.is_power_of_two());
}
