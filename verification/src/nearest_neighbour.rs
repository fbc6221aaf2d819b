//! A result item returned by a nearest neighbour query.

pub use crate::neighbour::{NearestNeighbour, Neighbour};
