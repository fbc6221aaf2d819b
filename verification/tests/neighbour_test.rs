use kiddo::neighbour::{BestNeighbour, NearestNeighbour, Neighbour, NeighbourEntry};
use std::cmp::Ordering;

// Neighbour records as the library's users see them.

#[test]
fn neighbour_test_test_smoke() {
    let bn = BestNeighbour(Neighbour { distance: 1_f64, item: 2_usize, point: [1_f64; 3] });
    assert_eq!(bn.0.distance, 1.0f64);
    assert_eq!(bn.0.item, 2usize);
    assert_eq!(bn.0.point, [1_f64; 3]);
}

#[test]
fn neighbour_test_test_from_tuple() {
    let b = BestNeighbour::new(1.0f32, 1usize, [0_f32; 5]);
    let nn: (f32, usize) = b.into();

    assert_eq!(nn.0, 1.0f32);
    assert_eq!(nn.1, 1usize);
}

#[test]
fn neighbour_test_test_best_neighbour_comparison() {
    let a = BestNeighbour::new(1.0, 10, [0.0; 2]);
    let b = BestNeighbour::new(2.0, 5, [0.0; 2]);

    // BestNeighbour compares by item (ascending)
    assert_eq!(a.partial_cmp(&b), Some(std::cmp::Ordering::Greater));
}

#[test]
fn neighbour_test_test_best_neighbour_point_construction() {
    let point = [1.0, 2.0, 3.0];
    let bp = BestNeighbour::new(0.5, 42, point);

    assert_eq!(bp.0.point, point);
    assert_eq!(bp.0.distance, 0.5);
    assert_eq!(bp.0.item, 42);
}

#[test]
fn best_neighbour_test_smoke() {
    let point = [1.0f64, 2.0, 3.0];
    let bn: BestNeighbour<f64, usize, 3> = BestNeighbour::new(1.0, 2, point);
    assert_eq!(bn.distance(), 1.0);
    assert_eq!(bn.item(), 2);
}

#[test]
fn best_neighbour_test_from_tuple() {
    let point = [1.0f32, 2.0, 3.0];
    let b: BestNeighbour<f32, usize, 3> = BestNeighbour::new(1.0f32, 1usize, point);
    let nn: (f32, usize) = b.into();

    assert_eq!(nn.0, 1.0f32);
    assert_eq!(nn.1, 1usize);
}

#[test]
fn best_neighbour_test_best_neighbour_comparison() {
    let point_a = [1.0f64, 2.0, 3.0];
    let point_b = [4.0f64, 5.0, 6.0];
    let a: BestNeighbour<f64, usize, 3> = BestNeighbour::new(1.0, 10, point_a);
    let b: BestNeighbour<f64, usize, 3> = BestNeighbour::new(2.0, 5, point_b);

    // BestNeighbour compares by item (ascending)
    assert_eq!(a.partial_cmp(&b), Some(Ordering::Greater));
}

#[test]
fn best_neighbour_test_best_neighbour_point_construction() {
    let point = [1.0, 2.0, 3.0];
    let bp = BestNeighbour::new(0.5, 42, point);

    assert_eq!(bp.0.point, point);
    assert_eq!(bp.0.distance, 0.5);
    assert_eq!(bp.0.item, 42);
}

#[test]
fn nearest_neighbour_test_smoke() {
    let point = [1.0f64, 2.0, 3.0];
    let nn: NearestNeighbour<f64, usize, 3> = NearestNeighbour::new(1.0, 2, point);
    assert_eq!(nn.0.distance, 1.0);
    assert_eq!(nn.0.item, 2);
    assert_eq!(nn.0.point, point);
}

#[test]
fn nearest_neighbour_test_from_tuple() {
    let point = [0f32, 1f32];
    let n = NearestNeighbour::new(1.0f32, 1usize, point);
    let nn0: (f32, usize) = (n.0.distance, n.0.item);
    let nn: (f32, usize) = n.into();
    let nnp: (f32, usize, [f32; 2_usize]) = n.into();

    assert_eq!(nn0.0, nn.0);
    assert_eq!(nn.0, 1.0f32);
    assert_eq!(nn.1, 1usize);
    assert_eq!(nnp.2, point);
}

#[test]
fn test_nearest_neighbour_comparison() {
    let a = NearestNeighbour::new(1.0, 10, [0.0]);
    let b = NearestNeighbour::new(2.0, 5, [1.0]);

    // NearestNeighbour compares by distance (ascending)
    assert_eq!(a.partial_cmp(&b), Some(Ordering::Less));
}

#[test]
fn nearest_neighbour_ties_and_getters() {
    let a = NearestNeighbour::new(3i64, 7u32, [1i64, 2]);
    let b = NearestNeighbour::new(3i64, 1u32, [5i64, 6]);
    assert_eq!(a.partial_cmp(&b), Some(Ordering::Equal));
    assert_eq!(a.distance(), 3);
    assert_eq!(a.item(), 7);
    assert_eq!(*a.point(), [1, 2]);
    let n = Neighbour::new(4i64, 9u32, [0i64; 2]);
    assert_eq!(n.distance(), 4);
    assert_eq!(n.item(), 9);
    let entry: NearestNeighbour<i64, u32, 2> = NeighbourEntry::new(8, 2, [3, 4]);
    assert_eq!(entry, NearestNeighbour(Neighbour { distance: 8, item: 2, point: [3, 4] }));
}

#[test]
fn best_neighbour_orders_by_item_not_distance() {
    let near = BestNeighbour::new(1i64, 20u32, [0i64]);
    let far = BestNeighbour::new(100i64, 3u32, [9i64]);
    assert_eq!(far.partial_cmp(&near), Some(Ordering::Less));
    let (d, i, p): (i64, u32, [i64; 1]) = far.into();
    assert_eq!((d, i, p), (100, 3, [9]));
}
