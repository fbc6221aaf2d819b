//! Neighbour records, distance metrics, result collections and leaf scans
//! for k-d tree queries over fixed-point coordinates, with their contracts
//! proved by Verus.
//!
//! - `neighbour`: the `Neighbour` record and its two orderings,
//!   `NearestNeighbour` (by distance) and `BestNeighbour` (by item).
//! - `distance` and `fixed::distance`: the Manhattan, squared Euclidean and
//!   rectangular metrics, scaled per axis or not.
//! - `result_collection`, `binary_heap`, `sorted_collection`: the collections
//!   that a query fills (`Vec`, `Option`, a bounded heap, a bounded sorted vector).
//! - `leaf_slice`: the scans over the points of a leaf that feed them.
//! - `laws`: what a scan leaves in each kind of collection.

pub mod best_neighbour;
pub mod binary_heap;
pub mod distance;
pub mod fixed;
pub mod laws;
pub mod leaf_slice;
pub mod nearest_neighbour;
pub mod neighbour;
pub mod result_collection;
pub mod saturating;
pub mod sorted_collection;
