# kiddo (verified leaf scans and result collections)

The building blocks of k-d tree queries, written in Verus with their
contracts proved:

- `src/neighbour.rs`: neighbour records and their orderings
  (`NearestNeighbour` by distance, `BestNeighbour` by item).
- `src/distance.rs`, `src/fixed/distance.rs`: Manhattan, squared Euclidean
  and rectangular metrics over saturating fixed-point coordinates.
- `src/result_collection.rs`, `src/binary_heap.rs`,
  `src/sorted_collection.rs`: the collections a query fills (`Vec`,
  `Option`, a bounded max-heap, and a bounded sorted collection built on the
  `sorted-vec` crate).
- `src/leaf_slice.rs`: scans over the points of a leaf, chunk by chunk,
  calling an inclusion function for each point and adding the point's entry
  to a collection when it says so.
- `src/laws.rs`: what a scan leaves in each kind of collection, what
  repeated adds leave in the bounded collections, and how the chunks split
  a leaf.

`tests/` runs the library on concrete values; `app/` holds the iterator over
a `generator` coroutine, which stays outside the verified crate.
