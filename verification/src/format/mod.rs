//! The `.wperf` file format.

pub mod compact;
pub mod event;
pub mod futex_op;
pub mod header;
pub mod laws;
pub mod reader;
pub mod stream;
pub mod wire;
pub mod writer;
