//! Thread-level wait-for-graph profiling.

pub mod capture;
pub mod cascade;
pub mod correlate;
pub mod critical_path;
pub mod dot;
pub mod format;
pub mod graph;
pub mod output;
pub mod pipeline;
pub mod probe;
pub mod record;
pub mod report;
pub mod scc;
pub mod sorting;
pub mod text;
pub mod transport;
