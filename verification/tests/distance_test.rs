use kiddo::distance::{DistanceMetric, Manhattan, Rectangular, SquaredEuclidean};
use kiddo::fixed;
use kiddo::fixed::distance::DistanceMetric as FixedMetric;

#[test]
fn manhattan_doc_examples() {
    assert_eq!(0, Manhattan::dist(&[0, 0], &[0, 0], &[1, 1]));
    assert_eq!(1, Manhattan::dist(&[0, 0], &[1, 0], &[1, 1]));
    assert_eq!(2, Manhattan::dist(&[0, 0], &[1, 1], &[1, 1]));
}

#[test]
fn squared_euclidean_doc_examples() {
    assert_eq!(0, SquaredEuclidean::dist(&[0, 0], &[0, 0], &[1, 1]));
    assert_eq!(1, SquaredEuclidean::dist(&[0, 0], &[1, 0], &[1, 1]));
    assert_eq!(2, SquaredEuclidean::dist(&[0, 0], &[1, 1], &[1, 1]));
}

#[test]
fn rectangular_doc_examples() {
    assert_eq!(0, Rectangular::dist(&[0, 0], &[0, 0], &[1, 1]));
    assert_eq!(1, Rectangular::dist(&[0, 0], &[1, 0], &[1, 1]));
    assert_eq!(1, Rectangular::dist(&[0, 0], &[1, 1], &[1, 1]));
}

#[test]
fn scaled_axes_and_negative_coordinates() {
    // |(-3) - 2| * 2 = 10, |4 - 1| * 3 = 9
    assert_eq!(19, Manhattan::dist(&[-3, 4], &[2, 1], &[2, 3]));
    assert_eq!(181, SquaredEuclidean::dist(&[-3, 4], &[2, 1], &[2, 3]));
    assert_eq!(10, Rectangular::dist(&[-3, 4], &[2, 1], &[2, 3]));
    // symmetric
    assert_eq!(Manhattan::dist(&[2, 1], &[-3, 4], &[2, 3]), 19);
}

#[test]
fn saturating_arithmetic() {
    assert_eq!(i64::MAX, Manhattan::dist1(i64::MIN, i64::MAX, 1));
    assert_eq!(i64::MAX, SquaredEuclidean::accumulate(0, i64::MAX));
    assert_eq!(i64::MAX, Manhattan::accumulate(i64::MAX, 1));
    assert_eq!(i64::MIN, Manhattan::dist1(0, 10, i64::MIN));
    assert_eq!(7, Rectangular::accumulate(7, 3));
    assert_eq!(9, Rectangular::accumulate(7, 9));
}

#[test]
fn fixed_doc_examples() {
    assert_eq!(0, fixed::distance::Manhattan::dist(&[0, 0], &[0, 0]));
    assert_eq!(1, fixed::distance::Manhattan::dist(&[0, 0], &[1, 0]));
    assert_eq!(2, fixed::distance::Manhattan::dist(&[0, 0], &[1, 1]));
    assert_eq!(0, fixed::distance::SquaredEuclidean::dist(&[0, 0], &[0, 0]));
    assert_eq!(1, fixed::distance::SquaredEuclidean::dist(&[0, 0], &[1, 0]));
    assert_eq!(8, fixed::distance::SquaredEuclidean::dist(&[0, 0], &[2, 2]));
    assert_eq!(0, fixed::distance::Rectangular::dist(&[0, 0], &[0, 0]));
    assert_eq!(1, fixed::distance::Rectangular::dist(&[0, 0], &[1, 0]));
    assert_eq!(2, fixed::distance::Rectangular::dist(&[0, 0], &[2, 2]));
}

#[test]
fn fixed_saturates() {
    assert_eq!(u64::MAX, fixed::distance::SquaredEuclidean::dist(&[0], &[u64::MAX]));
    assert_eq!(u64::MAX, <fixed::distance::Manhattan as FixedMetric>::accumulate(u64::MAX, 5));
    assert_eq!(5, fixed::distance::dist1(10, 5));
}

#[test]
fn distances_are_symmetric_and_zero_to_self() {
    let a = [3i64, -8, 40];
    let b = [-5i64, 2, 41];
    let s = [2i64, 1, 7];
    assert_eq!(Manhattan::dist(&a, &b, &s), Manhattan::dist(&b, &a, &s));
    assert_eq!(Manhattan::dist(&a, &b, &s), 16 + 10 + 7);
    assert_eq!(SquaredEuclidean::dist(&a, &b, &s), SquaredEuclidean::dist(&b, &a, &s));
    assert_eq!(SquaredEuclidean::dist(&a, &b, &s), 256 + 100 + 49);
    assert_eq!(Rectangular::dist(&a, &b, &s), Rectangular::dist(&b, &a, &s));
    assert_eq!(Rectangular::dist(&a, &b, &s), 16);
    assert_eq!(Manhattan::dist(&a, &a, &s), 0);
    assert_eq!(SquaredEuclidean::dist(&a, &a, &s), 0);
    assert_eq!(Rectangular::dist(&a, &a, &s), 0);
}

#[test]
fn rectangular_is_the_largest_scaled_axis_distance() {
    assert_eq!(Rectangular::dist(&[0, 0, 0], &[3, -9, 4], &[2, 1, 1]), 9);
    assert_eq!(Rectangular::dist(&[0, 0], &[3, 4], &[-1, -1]), 0);
}
