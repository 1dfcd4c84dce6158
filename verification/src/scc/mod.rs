//! Strongly connected components, their condensation, and knots.

pub mod heuristic;
pub mod knot;
pub mod tarjan;
