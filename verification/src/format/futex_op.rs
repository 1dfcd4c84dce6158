//! Futex operations, as in `linux/futex.h`.

use vstd::prelude::*;

verus! {

pub const FUTEX_WAIT: u32 = 0;

pub const FUTEX_LOCK_PI: u32 = 6;

pub const FUTEX_WAIT_BITSET: u32 = 9;

pub const FUTEX_WAIT_REQUEUE_PI: u32 = 11;

} // verus!
