//! What the running kernel offers.

pub mod features;
