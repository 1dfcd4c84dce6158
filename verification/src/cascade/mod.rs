//! Redistribution of waits to the threads that caused them.

pub mod engine;
pub mod invariants;
pub mod laws;
