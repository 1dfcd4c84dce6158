//! The wait-for graph and its sweep-line partition.

pub mod sweep;
pub mod topology;
pub mod types;
pub mod wfg;
