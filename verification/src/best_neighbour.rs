//! A result item returned by a "best n within" query.

pub use crate::neighbour::BestNeighbour;
