//! Sizes of the buffers that events come through.

use vstd::arithmetic::power2::{lemma_pow2_strictly_increases, lemma_pow2_unfold, pow2};
use vstd::prelude::*;

use crate::probe::features::TransportMode;

verus! {

/// Default size of the ring buffer: 16 MiB.
pub const DEFAULT_RINGBUF_SIZE: u32 = 16_777_216;

/// Default number of pages per CPU: 1 MiB at 4 KiB a page.
pub const DEFAULT_PERF_PAGES: u32 = 256;

/// The least size of a ring buffer: one page.
pub const MIN_RINGBUF_SIZE: u32 = 4096;

/// Configuration of the event transport.
#[derive(Debug, Clone, Copy, PartialEq, Eq, Structural)]
pub struct TransportConfig {
    pub mode: TransportMode,
    /// Size of the ring buffer in bytes; zero unless that is the mode.
    pub ringbuf_size: u32,
    /// Pages per CPU; zero unless per-CPU buffers are the mode.
    pub perf_pages: u32,
}

/// `n` is a power of two.
pub open spec fn is_power_of_two(n: int) -> bool {
    exists|k: nat| n == #[trigger] pow2(k)
}

/// A ring buffer can have this size: a power of two, and a page at least.
pub open spec fn is_ringbuf_size(size: u32) -> bool {
    size >= MIN_RINGBUF_SIZE && is_power_of_two(size as int)
}

/// `p` is the least power of two that is not less than `n`.
pub open spec fn is_next_power(n: int, p: int) -> bool {
    &&& is_power_of_two(p)
    &&& p >= n
    &&& forall|k: nat| #[trigger] pow2(k) >= n ==> pow2(k) >= p
}

/// The least power of two that is not less than `n`.
pub fn next_power_of_two(n: u32) -> (p: u32)
    requires
        n <= 0x8000_0000,
    ensures
        is_next_power(n as int, p as int),
{
    let mut p: u32 = 1;
    let ghost mut k: nat = 0;
    proof {
        vstd::arithmetic::power2::lemma2_to64();
    }
    while p < n
        invariant
            n <= 0x8000_0000,
            p == pow2(k),
            k <= 31,
            k > 0 ==> pow2((k - 1) as nat) < n,
        decreases 0x8000_0000 - p,
    {
        proof {
            vstd::arithmetic::power2::lemma2_to64();
            lemma_pow2_unfold(k + 1);
            if k == 31 {
                assert(pow2(31) == 0x8000_0000);
            } else {
                k = k + 1;
            }
        }
        p = p * 2;
    }
    proof {
        assert(pow2(k) == p);
        assert forall|j: nat| #[trigger] pow2(j) >= n implies pow2(j) >= p by {
            if j < k {
                if j < k - 1 {
                    lemma_pow2_strictly_increases(j, (k - 1) as nat);
                }
            } else if j > k {
                lemma_pow2_strictly_increases(k, j);
            }
        }
    }
    p
}

/// Whether a ring buffer can have this size.
pub fn ringbuf_size_fits(size: u32) -> (b: bool)
    ensures
        b == is_ringbuf_size(size),
{
    if size < MIN_RINGBUF_SIZE {
        return false;
    }
    if size > 0x8000_0000 {
        proof {
            if is_power_of_two(size as int) {
                let k = choose|k: nat| size == #[trigger] pow2(k);
                vstd::arithmetic::power2::lemma2_to64();
                if k < 31 {
                    lemma_pow2_strictly_increases(k, 31);
                } else if k > 31 {
                    if k > 32 {
                        lemma_pow2_strictly_increases(32, k);
                    }
                }
            }
        }
        return false;
    }
    let p: u32 = next_power_of_two(size);
    proof {
        if is_power_of_two(size as int) {
            let k = choose|k: nat| size == #[trigger] pow2(k);
            assert(pow2(k) >= p);
        }
    }
    p == size
}

impl TransportConfig {
    /// A ring buffer of the given size, which must be a power of two and a page
    /// at least.
    pub fn ringbuf(size: u32) -> (c: Self)
        requires
            is_ringbuf_size(size),
        ensures
            c == (TransportConfig {
                mode: TransportMode::RingBuf,
                ringbuf_size: size,
                perf_pages: 0,
            }),
    {
        TransportConfig { mode: TransportMode::RingBuf, ringbuf_size: size, perf_pages: 0 }
    }

    /// Per-CPU buffers of the given number of pages.
    pub fn perfarray(pages_per_cpu: u32) -> (c: Self)
        ensures
            c == (TransportConfig {
                mode: TransportMode::PerfArray,
                ringbuf_size: 0,
                perf_pages: pages_per_cpu,
            }),
    {
        TransportConfig { mode: TransportMode::PerfArray, ringbuf_size: 0, perf_pages: pages_per_cpu }
    }

    /// The default sizes for a mode.
    pub fn from_mode(mode: TransportMode) -> (c: Self)
        ensures
            c == default_config(mode),
    {
        match mode {
            TransportMode::RingBuf => {
                proof {
                    vstd::arithmetic::power2::lemma2_to64();
                    assert(pow2(24) == DEFAULT_RINGBUF_SIZE);
                }
                TransportConfig::ringbuf(DEFAULT_RINGBUF_SIZE)
            },
            TransportMode::PerfArray => TransportConfig::perfarray(DEFAULT_PERF_PAGES),
        }
    }
}

/// The default sizes for a mode.
pub open spec fn default_config(mode: TransportMode) -> TransportConfig {
    match mode {
        TransportMode::RingBuf => TransportConfig {
            mode,
            ringbuf_size: DEFAULT_RINGBUF_SIZE,
            perf_pages: 0,
        },
        TransportMode::PerfArray => TransportConfig {
            mode,
            ringbuf_size: 0,
            perf_pages: DEFAULT_PERF_PAGES,
        },
    }
}

/// The sizes that are used unless others are asked for: 16 MiB for a ring buffer,
/// 256 pages for each CPU. The size for the other mode is zero.
pub proof fn law_default_sizes(mode: TransportMode)
    ensures
        default_config(mode).mode == mode,
        mode is RingBuf ==> default_config(mode).ringbuf_size == 16_777_216 && default_config(
            mode,
        ).perf_pages == 0,
        mode is PerfArray ==> default_config(mode).perf_pages == 256 && default_config(
            mode,
        ).ringbuf_size == 0,
{
}

/// Rounding up to a power of two less than doubles, and leaves powers of two alone.
pub proof fn law_next_power_is_near(n: int, p: int)
    requires
        n >= 1,
        is_next_power(n, p),
    ensures
        n <= p < 2 * n,
        is_power_of_two(n) ==> p == n,
{
    let k = choose|k: nat| p == #[trigger] pow2(k);
    if p >= 2 * n {
        if k == 0 {
            vstd::arithmetic::power2::lemma2_to64();
        } else {
            lemma_pow2_unfold(k);
            assert(pow2((k - 1) as nat) >= n);
        }
    }
    if is_power_of_two(n) {
        let j = choose|j: nat| n == #[trigger] pow2(j);
        assert(pow2(j) >= p);
    }
}

/// A ring buffer is a page at least, and a power of two in size.
pub proof fn law_ringbuf_sizes(size: u32)
    ensures
        is_ringbuf_size(size) ==> size >= 4096,
        is_ringbuf_size(size) <==> exists|k: nat| 12 <= k && size == #[trigger] pow2(k),
{
    vstd::arithmetic::power2::lemma2_to64();
    if is_ringbuf_size(size) {
        let k = choose|k: nat| size == #[trigger] pow2(k);
        if k < 12 {
            lemma_pow2_strictly_increases(k, 12);
        }
    }
    if exists|k: nat| 12 <= k && size == #[trigger] pow2(k) {
        let k = choose|k: nat| 12 <= k && size == #[trigger] pow2(k);
        if k > 12 {
            lemma_pow2_strictly_increases(12, k);
        }
    }
}

} // verus!
