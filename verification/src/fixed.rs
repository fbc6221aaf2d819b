//! Metrics over unsigned fixed-point coordinates.

pub mod distance;
