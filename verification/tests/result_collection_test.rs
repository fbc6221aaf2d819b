use kiddo::binary_heap::BinaryHeap;
use kiddo::neighbour::{BestNeighbour, NearestNeighbour, NeighbourEntry};
use kiddo::result_collection::{ResultCollection, INFINITY};
use kiddo::sorted_collection::SortedResults;

type NN = NearestNeighbour<i64, u32, 2>;
type BN = BestNeighbour<i64, u32, 2>;

fn nn(distance: i64, item: u32) -> NN {
    NearestNeighbour::new(distance, item, [0, 0])
}

fn dists(v: &[NN]) -> Vec<i64> {
    v.iter().map(|n| n.0.distance).collect()
}

#[test]
fn heap_keeps_the_nearest_up_to_capacity() {
    let mut heap: BinaryHeap<NN> = ResultCollection::<NN, u32, 2>::new_with_capacity(3);
    for (d, i) in [(50, 1), (10, 2), (40, 3), (30, 4), (60, 5), (20, 6)] {
        heap.add(nn(d, i));
    }
    assert_eq!(ResultCollection::<NN, u32, 2>::result_len(&heap), 3);
    assert_eq!(ResultCollection::<NN, u32, 2>::max_dist(&heap), 30);
    assert_eq!(ResultCollection::<NN, u32, 2>::result_peek(&heap).map(|n| n.0.distance), Some(30));
    let sorted = ResultCollection::<NN, u32, 2>::into_sorted_vec(heap);
    assert_eq!(dists(&sorted), vec![10, 20, 30]);
}

#[test]
fn heap_max_dist_is_infinite_until_full() {
    let mut heap: BinaryHeap<NN> = ResultCollection::<NN, u32, 2>::new_with_capacity(2);
    assert_eq!(ResultCollection::<NN, u32, 2>::max_dist(&heap), INFINITY);
    heap.add(nn(5, 1));
    assert_eq!(ResultCollection::<NN, u32, 2>::max_dist(&heap), INFINITY);
    heap.add(nn(7, 2));
    assert_eq!(ResultCollection::<NN, u32, 2>::max_dist(&heap), 7);
}

#[test]
fn heap_pops_in_descending_order() {
    let mut heap: BinaryHeap<NN> = ResultCollection::<NN, u32, 2>::new_with_capacity(5);
    for d in [3, 9, 1, 7, 5] {
        heap.add(nn(d, d as u32));
    }
    let mut out = Vec::new();
    while let Some(n) = ResultCollection::<NN, u32, 2>::result_pop(&mut heap) {
        out.push(n.0.distance);
    }
    assert_eq!(out, vec![9, 7, 5, 3, 1]);
    assert_eq!(ResultCollection::<NN, u32, 2>::result_pop(&mut heap), None);
    let v = ResultCollection::<NN, u32, 2>::into_vec(heap);
    assert!(v.is_empty());
}

#[test]
fn heap_of_best_neighbours_orders_by_item() {
    let mut heap: BinaryHeap<BN> = ResultCollection::<BN, u32, 2>::new_with_capacity(2);
    for (d, i) in [(1, 40), (2, 10), (3, 30), (4, 20)] {
        heap.add(BestNeighbour::new(d, i, [0, 0]));
    }
    let sorted = ResultCollection::<BN, u32, 2>::into_sorted_vec(heap);
    let items: Vec<u32> = sorted.iter().map(|n| n.item()).collect();
    assert_eq!(items, vec![10, 20]);
}

#[test]
fn sorted_results_keep_the_nearest_in_order() {
    let mut sv: SortedResults<NN> = ResultCollection::<NN, u32, 2>::new_with_capacity(3);
    for (d, i) in [(50, 1), (10, 2), (40, 3), (30, 4), (60, 5), (20, 6)] {
        sv.add(nn(d, i));
    }
    assert_eq!(ResultCollection::<NN, u32, 2>::result_len(&sv), 3);
    assert_eq!(ResultCollection::<NN, u32, 2>::max_dist(&sv), 30);
    assert_eq!(ResultCollection::<NN, u32, 2>::result_peek(&sv).map(|n| n.0.item), Some(4));
    let v = ResultCollection::<NN, u32, 2>::into_vec(sv);
    assert_eq!(dists(&v), vec![10, 20, 30]);
    let items: Vec<u32> = v.iter().map(|n| n.0.item).collect();
    assert_eq!(items, vec![2, 6, 4]);
}

#[test]
fn sorted_results_pop_and_refill() {
    let mut sv: SortedResults<NN> = ResultCollection::<NN, u32, 2>::new_with_capacity(4);
    for d in [8, 2, 6, 4] {
        sv.add(nn(d, d as u32));
    }
    assert_eq!(ResultCollection::<NN, u32, 2>::result_pop(&mut sv).map(|n| n.0.distance), Some(8));
    assert_eq!(ResultCollection::<NN, u32, 2>::result_pop(&mut sv).map(|n| n.0.distance), Some(6));
    sv.add(nn(3, 3));
    sv.add(nn(1, 1));
    sv.add(nn(9, 9));
    let v = ResultCollection::<NN, u32, 2>::into_sorted_vec(sv);
    assert_eq!(dists(&v), vec![1, 2, 3, 4]);
}

#[test]
fn vec_keeps_everything_and_sorts_stably() {
    let mut v: Vec<NN> = ResultCollection::<NN, u32, 2>::new_with_capacity(0);
    for (d, i) in [(5, 1), (3, 2), (5, 3), (1, 4), (3, 5)] {
        v.add(nn(d, i));
    }
    assert_eq!(ResultCollection::<NN, u32, 2>::max_dist(&v), INFINITY);
    assert_eq!(ResultCollection::<NN, u32, 2>::result_peek(&v).map(|n| n.0.item), Some(5));
    let sorted = ResultCollection::<NN, u32, 2>::into_sorted_vec(v);
    let items: Vec<u32> = sorted.iter().map(|n| n.0.item).collect();
    assert_eq!(items, vec![4, 2, 5, 1, 3]);
}

#[test]
fn option_holds_the_latest_entry() {
    let mut o: Option<NN> = ResultCollection::<NN, u32, 2>::new_with_capacity(1);
    assert_eq!(ResultCollection::<NN, u32, 2>::max_dist(&o), INFINITY);
    assert_eq!(ResultCollection::<NN, u32, 2>::result_len(&o), 0);
    o.add(nn(4, 1));
    o.add(nn(9, 2));
    assert_eq!(ResultCollection::<NN, u32, 2>::max_dist(&o), 9);
    assert_eq!(ResultCollection::<NN, u32, 2>::result_pop(&mut o).map(|n| n.0.item), Some(2));
    assert_eq!(ResultCollection::<NN, u32, 2>::result_len(&o), 0);
    o.add(nn(1, 3));
    assert_eq!(ResultCollection::<NN, u32, 2>::into_vec(o), vec![nn(1, 3)]);
}
