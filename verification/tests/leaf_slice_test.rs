use kiddo::binary_heap::BinaryHeap;
use kiddo::distance::{Manhattan, SquaredEuclidean};
use kiddo::leaf_slice::{LeafSlice, LeafSliceFloatChunk};
use kiddo::neighbour::{BestNeighbour, NearestNeighbour};
use kiddo::result_collection::ResultCollection;
use kiddo::sorted_collection::SortedResults;

#[test]
fn leaf_fixed_slice_nearest_one_works() {
    let content_points = [
        [0i64, 3, 5, 0],
        [0i64, 4, 12, 0],
        [-1i64, 4, 12, 0],
        [0i64, -3, 5, 1],
    ];

    let dim0: [i64; 4] = [content_points[0][0], content_points[1][0], content_points[2][0], content_points[3][0]];
    let dim1: [i64; 4] = [content_points[0][1], content_points[1][1], content_points[2][1], content_points[3][1]];
    let dim2: [i64; 4] = [content_points[0][2], content_points[1][2], content_points[2][2], content_points[3][2]];
    let dim3: [i64; 4] = [content_points[0][3], content_points[1][3], content_points[2][3], content_points[3][3]];

    let content_items = [1u32, 2u32, 3u32, 4u32];

    let slice = LeafSlice {
        content_points: [&dim0, &dim1, &dim2, &dim3],
        content_items: &content_items,
    };

    let mut best_dist = i64::MAX;
    let mut best_item = u32::MAX;

    // Create a dummy point to satisfy the API
    let mut best_point = [0i64; 4];
    slice.nearest_one::<SquaredEuclidean>(&[0, 0, 0, 0], None, &mut best_dist, &mut best_item, &mut best_point);

    assert_eq!((best_dist, best_item, best_point), (34, 1u32, content_points[0]));
}

/// Points `i` at `(i, 0)` for `i` in `0..n`, stored axis by axis.
fn line(n: usize) -> (Vec<i64>, Vec<i64>, Vec<u32>) {
    let xs: Vec<i64> = (0..n as i64).collect();
    let ys: Vec<i64> = vec![0; n];
    let items: Vec<u32> = (0..n as u32).map(|i| 1000 - i).collect();
    (xs, ys, items)
}

#[test]
fn nearest_one_picks_the_first_of_equal_distances_across_chunks() {
    let (xs, ys, items) = line(70);
    let slice = LeafSlice::new([&xs[..], &ys[..]], &items[..]);
    assert_eq!(slice.len(), 70);
    let mut d = i64::MAX;
    let mut it = 0u32;
    let mut p = [0i64; 2];
    // 40 and 42 are both at distance 1 from 41.
    slice.nearest_one::<Manhattan>(&[41, 1], None, &mut d, &mut it, &mut p);
    assert_eq!((d, it, p), (1, 1000 - 41, [41, 0]));
    slice.nearest_one::<Manhattan>(&[41, 0], Some(&[1, 1]), &mut d, &mut it, &mut p);
    assert_eq!((d, it, p), (0, 1000 - 41, [41, 0]));
    // Equal distances: the first point wins.
    slice.nearest_one::<Manhattan>(&[-5, 0], Some(&[0, 1]), &mut d, &mut it, &mut p);
    assert_eq!((d, it, p), (0, 1000, [0, 0]));
}

#[test]
fn nearest_one_on_an_empty_slice_changes_nothing() {
    let xs: Vec<i64> = Vec::new();
    let ys: Vec<i64> = Vec::new();
    let items: Vec<u32> = Vec::new();
    let slice = LeafSlice::new([&xs[..], &ys[..]], &items[..]);
    let mut d = 77i64;
    let mut it = 5u32;
    let mut p = [9i64, 9];
    slice.nearest_one::<SquaredEuclidean>(&[0, 0], None, &mut d, &mut it, &mut p);
    assert_eq!((d, it, p), (77, 5, [9, 9]));
}

#[test]
fn nearest_n_within_into_vec_keeps_every_point_in_radius_in_order() {
    let (xs, ys, items) = line(70);
    let slice = LeafSlice::new([&xs[..], &ys[..]], &items[..]);
    let mut results: Vec<NearestNeighbour<i64, u32, 2>> = Vec::new();
    slice.nearest_n_within::<Manhattan, _>(&[35, 0], 3, None, &mut results);
    let got: Vec<(i64, u32)> = results.iter().map(|n| (n.0.distance, n.0.item)).collect();
    let want: Vec<(i64, u32)> = (32..=38).map(|x: i64| ((x - 35).abs(), 1000 - x as u32)).collect();
    assert_eq!(got, want);
}

#[test]
fn nearest_n_within_into_bounded_collections_keeps_the_nearest() {
    let (xs, ys, items) = line(70);
    let slice = LeafSlice::new([&xs[..], &ys[..]], &items[..]);
    let mut heap: BinaryHeap<NearestNeighbour<i64, u32, 2>> =
        ResultCollection::<NearestNeighbour<i64, u32, 2>, u32, 2>::new_with_capacity(2);
    slice.nearest_n_within::<SquaredEuclidean, _>(&[60, 1], 100, None, &mut heap);
    let sorted = ResultCollection::<NearestNeighbour<i64, u32, 2>, u32, 2>::into_sorted_vec(heap);
    let got: Vec<[i64; 2]> = sorted.iter().map(|n| n.0.point).collect();
    assert_eq!(got, vec![[60, 0], [59, 0]]);

    let mut sv: SortedResults<NearestNeighbour<i64, u32, 2>> =
        ResultCollection::<NearestNeighbour<i64, u32, 2>, u32, 2>::new_with_capacity(3);
    slice.nearest_n_within::<SquaredEuclidean, _>(&[10, 2], 20, None, &mut sv);
    let v = ResultCollection::<NearestNeighbour<i64, u32, 2>, u32, 2>::into_vec(sv);
    let dists: Vec<i64> = v.iter().map(|n| n.0.distance).collect();
    assert_eq!(dists, vec![4, 5, 5]);
}

fn sixteen() -> (Vec<i64>, Vec<i64>, Vec<u32>) {
    let content_to_add: [([i64; 2], u32); 16] = [
        ([9, 0], 9),
        ([4, 500], 4),
        ([12, -300], 12),
        ([7, 200], 7),
        ([13, -400], 13),
        ([6, 300], 6),
        ([2, 700], 2),
        ([14, -500], 14),
        ([3, 600], 3),
        ([10, -100], 10),
        ([16, -700], 16),
        ([1, 800], 1),
        ([15, -600], 15),
        ([5, 400], 5),
        ([8, 100], 8),
        ([11, -200], 11),
    ];
    let xs = content_to_add.iter().map(|(p, _)| p[0]).collect();
    let ys = content_to_add.iter().map(|(p, _)| p[1]).collect();
    let items = content_to_add.iter().map(|(_, i)| *i).collect();
    (xs, ys, items)
}

#[test]
fn leaf_best_n_items_within_radius() {
    let (xs, ys, items) = sixteen();
    let slice = LeafSlice::new([&xs[..], &ys[..]], &items[..]);
    type B = BestNeighbour<i64, u32, 2>;

    let mut heap: BinaryHeap<B> = ResultCollection::<B, u32, 2>::new_with_capacity(3);
    slice.best_n_within::<SquaredEuclidean, _>(&[9, 0], 20000, 3, None, &mut heap);
    let mut result: Vec<(i64, u32, [i64; 2])> = ResultCollection::<B, u32, 2>::into_vec(heap)
        .iter()
        .map(|n| (n.0.distance, n.0.item, n.0.point))
        .collect();
    result.sort_by(|a, b| b.1.cmp(&a.1));
    assert_eq!(result, vec![(10001, 10, [10, -100]), (0, 9, [9, 0]), (10001, 8, [8, 100])]);

    // A wider radius and room for two: the two lowest items within it.
    let mut heap: BinaryHeap<B> = ResultCollection::<B, u32, 2>::new_with_capacity(2);
    slice.best_n_within::<SquaredEuclidean, _>(&[9, 0], 100000, 2, None, &mut heap);
    let sorted = ResultCollection::<B, u32, 2>::into_sorted_vec(heap);
    let items: Vec<u32> = sorted.iter().map(|n| n.0.item).collect();
    assert_eq!(items, vec![6, 7]);

    let mut sv: SortedResults<B> = ResultCollection::<B, u32, 2>::new_with_capacity(4);
    slice.best_n_within::<SquaredEuclidean, _>(&[9, 0], 250000, 4, None, &mut sv);
    let items: Vec<u32> = ResultCollection::<B, u32, 2>::into_vec(sv).iter().map(|n| n.0.item).collect();
    assert_eq!(items, vec![5, 6, 7, 8]);
}

#[test]
fn leaf_best_n_within_ranks_signed_items() {
    let xs: Vec<i64> = vec![0, 1, 2, 3, 4, 50];
    let ys: Vec<i64> = vec![0, 0, 0, 0, 0, 0];
    let items: Vec<i32> = vec![3, -7, 12, -2, 0, -100];
    let slice = LeafSlice::new([&xs[..], &ys[..]], &items[..]);
    type B = BestNeighbour<i64, i32, 2>;
    let mut sv: SortedResults<B> = ResultCollection::<B, i32, 2>::new_with_capacity(3);
    // The point of item -100 lies outside the radius.
    slice.best_n_within::<Manhattan, _>(&[0, 0], 10, 3, None, &mut sv);
    let got: Vec<(i32, i64)> = ResultCollection::<B, i32, 2>::into_vec(sv)
        .iter()
        .map(|n| (n.0.item, n.0.distance))
        .collect();
    assert_eq!(got, vec![(-7, 1), (-2, 3), (0, 4)]);
}

type NN2 = NearestNeighbour<i64, u32, 2>;

#[test]
fn chunk_scan_calls_the_inclusion_function_in_order() {
    let xs: [i64; 4] = [0, 1, 2, 3];
    let ys: [i64; 4] = [0, 0, 0, 0];
    let items: [u32; 4] = [10, 11, 12, 13];
    let mut results: Vec<NN2> = Vec::new();
    // Keep only even items, and only while fewer than two are held.
    let keep = |_d: i64, item: u32, r: &mut Vec<NN2>| item % 2 == 0 && r.len() < 2;
    <i64 as LeafSliceFloatChunk<u32, 2>>::results_for_chunk::<Manhattan, _, Vec<NN2>, NN2, 4>(
        [&xs, &ys],
        &items,
        &[3, 0],
        None,
        keep,
        &mut results,
    );
    let got: Vec<(i64, u32)> = results.iter().map(|n| (n.0.distance, n.0.item)).collect();
    assert_eq!(got, vec![(3, 10), (1, 12)]);
}

#[test]
fn remainder_scan_takes_the_first_axis_length() {
    let xs: Vec<i64> = vec![5, 6];
    let ys: Vec<i64> = vec![0, 0, 7];
    let items: Vec<u32> = vec![1, 2, 3, 4];
    let mut results: Vec<NN2> = Vec::new();
    let keep = |_d: i64, _item: u32, _r: &mut Vec<NN2>| true;
    <i64 as LeafSliceFloatChunk<u32, 2>>::results_for_remainder::<SquaredEuclidean, _, Vec<NN2>, NN2, 32>(
        [&xs[..], &ys[..]],
        &items[..],
        &[0, 0],
        None,
        keep,
        &mut results,
    );
    let got: Vec<(i64, u32, [i64; 2])> = results.iter().map(|n| (n.0.distance, n.0.item, n.0.point)).collect();
    assert_eq!(got, vec![(25, 1, [5, 0]), (36, 2, [6, 0])]);

    // An empty first axis: nothing is called or added.
    let empty: Vec<i64> = Vec::new();
    let keep_never = |_d: i64, _item: u32, _r: &mut Vec<NN2>| -> bool { panic!("not called") };
    <i64 as LeafSliceFloatChunk<u32, 2>>::results_for_remainder::<SquaredEuclidean, _, Vec<NN2>, NN2, 32>(
        [&empty[..], &ys[..]],
        &items[..],
        &[0, 0],
        None,
        keep_never,
        &mut results,
    );
    assert_eq!(results.len(), 2);
}

#[test]
fn zero_capacity_collections_are_left_alone_when_nothing_is_added() {
    let (xs, ys, items) = sixteen();
    let slice = LeafSlice::new([&xs[..], &ys[..]], &items[..]);
    type B = BestNeighbour<i64, u32, 2>;
    let mut heap: BinaryHeap<B> = ResultCollection::<B, u32, 2>::new_with_capacity(0);
    slice.best_n_within::<SquaredEuclidean, _>(&[9, 0], 20000, 0, None, &mut heap);
    assert_eq!(ResultCollection::<B, u32, 2>::result_len(&heap), 0);

    let mut sv: SortedResults<NearestNeighbour<i64, u32, 2>> =
        ResultCollection::<NearestNeighbour<i64, u32, 2>, u32, 2>::new_with_capacity(0);
    // No point lies within distance 0 of this query.
    slice.nearest_n_within::<SquaredEuclidean, _>(&[100, 100], 0, None, &mut sv);
    assert_eq!(ResultCollection::<NearestNeighbour<i64, u32, 2>, u32, 2>::result_len(&sv), 0);
}

#[test]
fn best_n_within_ranks_wide_item_types() {
    let xs: Vec<i64> = vec![0, 1, 2, 3];
    let ys: Vec<i64> = vec![0, 0, 0, 0];
    let items: Vec<u64> = vec![u64::MAX, 7, u64::MAX - 1, 9];
    let slice = LeafSlice::new([&xs[..], &ys[..]], &items[..]);
    type B = BestNeighbour<i64, u64, 2>;
    let mut heap: BinaryHeap<B> = ResultCollection::<B, u64, 2>::new_with_capacity(3);
    slice.best_n_within::<Manhattan, _>(&[0, 0], 10, 3, None, &mut heap);
    let sorted = ResultCollection::<B, u64, 2>::into_sorted_vec(heap);
    let got: Vec<u64> = sorted.iter().map(|n| n.0.item).collect();
    assert_eq!(got, vec![7, 9, u64::MAX - 1]);

    let uitems: Vec<usize> = vec![4, 3, 2, 1];
    let slice = LeafSlice::new([&xs[..], &ys[..]], &uitems[..]);
    type U = BestNeighbour<i64, usize, 2>;
    let mut sv: SortedResults<U> = ResultCollection::<U, usize, 2>::new_with_capacity(2);
    slice.best_n_within::<Manhattan, _>(&[0, 0], 2, 2, None, &mut sv);
    let got: Vec<usize> = ResultCollection::<U, usize, 2>::into_vec(sv).iter().map(|n| n.0.item).collect();
    assert_eq!(got, vec![2, 3]);
}

#[test]
fn nearest_n_within_smaller_radius_keeps_a_subsequence() {
    let (xs, ys, items) = line(70);
    let slice = LeafSlice::new([&xs[..], &ys[..]], &items[..]);
    let mut wide: Vec<NN2> = Vec::new();
    slice.nearest_n_within::<Manhattan, _>(&[35, 0], 5, None, &mut wide);
    let mut narrow: Vec<NN2> = Vec::new();
    slice.nearest_n_within::<Manhattan, _>(&[35, 0], 2, None, &mut narrow);
    let filtered: Vec<NN2> = wide.iter().copied().filter(|n| n.0.distance <= 2).collect();
    assert_eq!(narrow, filtered);
    assert_eq!(narrow.len(), 5);
}
