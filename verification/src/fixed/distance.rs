//! Distance metrics between points with unsigned fixed-point (`u64`)
//! coordinates. Fixed-point values have no infinities and saturate at the
//! largest value.
//!
//! The distance on one axis is the absolute difference of the coordinates;
//! a metric combines the axis distances with `accumulate`, starting from zero.

use vstd::prelude::*;
use crate::saturating::{abs_int, clamp_u64, dist_u64, sat_add_u64, sat_mul_u64};

verus! {

/// A distance metric on unsigned fixed-point points.
pub trait DistanceMetric {
    /// The value of `accumulate(acc, dist)`.
    spec fn spec_accumulate(acc: u64, dist: u64) -> u64;

    /// Combines the distance accumulated so far with one more axis distance.
    fn accumulate(acc: u64, dist: u64) -> (r: u64)
        ensures
            r == Self::spec_accumulate(acc, dist),
    ;
}

/// The distance between two coordinates on one axis.
pub fn dist1(a: u64, b: u64) -> (r: u64)
    ensures
        r == abs_int(a - b),
{
    dist_u64(a, b)
}

/// The distance over the first `n` axes: `accumulate` folded over the
/// per-axis distances `|a[i] - b[i]|`, starting from zero.
pub open spec fn dist_fold<D: DistanceMetric>(a: Seq<u64>, b: Seq<u64>, n: nat) -> u64
    decreases n,
{
    if n == 0 {
        0
    } else {
        D::spec_accumulate(dist_fold::<D>(a, b, (n - 1) as nat), abs_int(a[n - 1] - b[n - 1]) as u64)
    }
}

/// Computes `dist_fold` over all `K` axes.
fn fold_axes<D: DistanceMetric, const K: usize>(a: &[u64; K], b: &[u64; K]) -> (r: u64)
    ensures
        r == dist_fold::<D>(a@, b@, K as nat),
{
    let mut acc: u64 = 0;
    let mut i: usize = 0;
    while i < K
        invariant
            i <= K,
            a@.len() == K,
            b@.len() == K,
            acc == dist_fold::<D>(a@, b@, i as nat),
        decreases K - i,
    {
        let d = dist1(a[i], b[i]);
        acc = D::accumulate(acc, d);
        i = i + 1;
    }
    acc
}

/// The Manhattan ("taxi cab") distance: the sum of the axis distances.
pub struct Manhattan {}

impl Manhattan {
    /// The Manhattan distance between two points.
    pub fn dist<const K: usize>(a: &[u64; K], b: &[u64; K]) -> (r: u64)
        ensures
            r == dist_fold::<Manhattan>(a@, b@, K as nat),
    {
        fold_axes::<Manhattan, K>(a, b)
    }
}

impl DistanceMetric for Manhattan {
    open spec fn spec_accumulate(acc: u64, dist: u64) -> u64 {
        clamp_u64(acc + dist)
    }

    fn accumulate(acc: u64, dist: u64) -> (r: u64) {
        sat_add_u64(acc, dist)
    }
}

/// The squared Euclidean distance: the sum of the squared axis distances.
/// It orders points as the Euclidean distance does, without the square root.
pub struct SquaredEuclidean {}

impl SquaredEuclidean {
    /// The squared Euclidean distance between two points.
    pub fn dist<const K: usize>(a: &[u64; K], b: &[u64; K]) -> (r: u64)
        ensures
            r == dist_fold::<SquaredEuclidean>(a@, b@, K as nat),
    {
        fold_axes::<SquaredEuclidean, K>(a, b)
    }
}

impl DistanceMetric for SquaredEuclidean {
    open spec fn spec_accumulate(acc: u64, dist: u64) -> u64 {
        clamp_u64(acc + clamp_u64(dist * dist))
    }

    fn accumulate(acc: u64, dist: u64) -> (r: u64) {
        sat_add_u64(acc, sat_mul_u64(dist, dist))
    }
}

/// The rectangular (Chebyshev) distance: the largest axis distance.
pub struct Rectangular {}

impl Rectangular {
    /// The rectangular distance between two points.
    pub fn dist<const K: usize>(a: &[u64; K], b: &[u64; K]) -> (r: u64)
        ensures
            r == dist_fold::<Rectangular>(a@, b@, K as nat),
    {
        fold_axes::<Rectangular, K>(a, b)
    }
}

impl DistanceMetric for Rectangular {
    open spec fn spec_accumulate(acc: u64, dist: u64) -> u64 {
        if dist > acc {
            dist
        } else {
            acc
        }
    }

    fn accumulate(acc: u64, dist: u64) -> (r: u64) {
        if dist > acc {
            dist
        } else {
            acc
        }
    }
}

/// `accumulate(acc, d)` is zero exactly when both `acc` and `d` are.
pub open spec fn accumulate_zero_law<D: DistanceMetric>() -> bool {
    forall|acc: u64, d: u64| #[trigger] D::spec_accumulate(acc, d) == 0 <==> (acc == 0 && d == 0)
}

proof fn lemma_accumulate_zero_laws()
    ensures
        accumulate_zero_law::<Manhattan>(),
        accumulate_zero_law::<SquaredEuclidean>(),
        accumulate_zero_law::<Rectangular>(),
{
    assert forall|acc: u64, d: u64| #[trigger] SquaredEuclidean::spec_accumulate(acc, d) == 0 <==> (acc == 0 && d == 0) by {
        if d != 0 {
            assert(d * d >= d) by (nonlinear_arith)
                requires
                    d >= 1,
            ;
        }
    }
}

proof fn lemma_fold_symmetric<D: DistanceMetric>(a: Seq<u64>, b: Seq<u64>, n: nat)
    ensures
        dist_fold::<D>(a, b, n) == dist_fold::<D>(b, a, n),
    decreases n,
{
    if n > 0 {
        lemma_fold_symmetric::<D>(a, b, (n - 1) as nat);
        assert(abs_int(a[n - 1] - b[n - 1]) == abs_int(b[n - 1] - a[n - 1]));
    }
}

proof fn lemma_fold_zero<D: DistanceMetric>(a: Seq<u64>, b: Seq<u64>, n: nat)
    requires
        accumulate_zero_law::<D>(),
        n <= a.len(),
        n <= b.len(),
    ensures
        dist_fold::<D>(a, b, n) == 0 <==> a.take(n as int) == b.take(n as int),
    decreases n,
{
    if n > 0 {
        lemma_fold_zero::<D>(a, b, (n - 1) as nat);
        let d = abs_int(a[n - 1] - b[n - 1]) as u64;
        assert(D::spec_accumulate(dist_fold::<D>(a, b, (n - 1) as nat), d) == 0 <==> (dist_fold::<D>(a, b, (n - 1) as nat) == 0 && d == 0));
        assert(a.take(n as int) == a.take((n - 1) as int).push(a[n - 1]));
        assert(b.take(n as int) == b.take((n - 1) as int).push(b[n - 1]));
        if a.take(n as int) == b.take(n as int) {
            assert(a.take(n as int)[n - 1] == b.take(n as int)[n - 1]);
            assert(a.take((n - 1) as int) == a.take(n as int).drop_last());
            assert(b.take((n - 1) as int) == b.take(n as int).drop_last());
        }
    } else {
        assert(a.take(0) == b.take(0));
    }
}

/// Each metric is symmetric: the distance from `a` to `b` equals the distance
/// from `b` to `a`.
pub proof fn law_dist_symmetric<const K: usize>(a: [u64; K], b: [u64; K])
    ensures
        dist_fold::<Manhattan>(a@, b@, K as nat) == dist_fold::<Manhattan>(b@, a@, K as nat),
        dist_fold::<SquaredEuclidean>(a@, b@, K as nat) == dist_fold::<SquaredEuclidean>(b@, a@, K as nat),
        dist_fold::<Rectangular>(a@, b@, K as nat) == dist_fold::<Rectangular>(b@, a@, K as nat),
{
    lemma_fold_symmetric::<Manhattan>(a@, b@, K as nat);
    lemma_fold_symmetric::<SquaredEuclidean>(a@, b@, K as nat);
    lemma_fold_symmetric::<Rectangular>(a@, b@, K as nat);
}

/// Under each metric, the distance between two points is zero exactly when
/// the points are equal.
pub proof fn law_dist_zero_iff_equal<const K: usize>(a: [u64; K], b: [u64; K])
    ensures
        dist_fold::<Manhattan>(a@, b@, K as nat) == 0 <==> a == b,
        dist_fold::<SquaredEuclidean>(a@, b@, K as nat) == 0 <==> a == b,
        dist_fold::<Rectangular>(a@, b@, K as nat) == 0 <==> a == b,
{
    lemma_accumulate_zero_laws();
    lemma_fold_zero::<Manhattan>(a@, b@, K as nat);
    lemma_fold_zero::<SquaredEuclidean>(a@, b@, K as nat);
    lemma_fold_zero::<Rectangular>(a@, b@, K as nat);
    assert(a@.take(K as int) == a@);
    assert(b@.take(K as int) == b@);
    if a@ == b@ {
        vstd::array::axiom_array_ext_equal(a, b);
    }
}

/// The sum of the axis distances `|a[i] - b[i]|` over the first `n` axes.
pub open spec fn axis_sum(a: Seq<u64>, b: Seq<u64>, n: nat) -> int
    decreases n,
{
    if n == 0 {
        0
    } else {
        axis_sum(a, b, (n - 1) as nat) + abs_int(a[n - 1] - b[n - 1])
    }
}

/// The sum of the squared axis distances over the first `n` axes.
pub open spec fn axis_square_sum(a: Seq<u64>, b: Seq<u64>, n: nat) -> int
    decreases n,
{
    if n == 0 {
        0
    } else {
        axis_square_sum(a, b, (n - 1) as nat) + abs_int(a[n - 1] - b[n - 1]) * abs_int(a[n - 1] - b[n - 1])
    }
}

/// The rectangular distance is the largest axis distance: it is at least
/// `|a[i] - b[i]|` on every axis, and it is 0 or one of them.
pub proof fn law_rectangular_is_max_axis_distance(a: Seq<u64>, b: Seq<u64>, n: nat)
    ensures
        forall|i: int| 0 <= i < n ==> abs_int(#[trigger] a[i] - b[i]) <= dist_fold::<Rectangular>(a, b, n),
        dist_fold::<Rectangular>(a, b, n) == 0 || exists|i: int|
            0 <= i < n && dist_fold::<Rectangular>(a, b, n) == abs_int(#[trigger] a[i] - b[i]),
    decreases n,
{
    if n > 0 {
        let m = (n - 1) as nat;
        law_rectangular_is_max_axis_distance(a, b, m);
        let prev = dist_fold::<Rectangular>(a, b, m);
        let last = abs_int(a[m as int] - b[m as int]);
        assert(last <= u64::MAX);
        if prev != 0 && last <= prev {
            let i = choose|i: int| 0 <= i < m && prev == abs_int(#[trigger] a[i] - b[i]);
            assert(0 <= i < n);
        }
    }
}

/// The Manhattan distance is at least every axis distance, and it is the sum
/// of the axis distances whenever that sum fits in a `u64` (it saturates
/// otherwise).
pub proof fn law_manhattan_is_sum_of_axis_distances(a: Seq<u64>, b: Seq<u64>, n: nat)
    ensures
        forall|i: int| 0 <= i < n ==> abs_int(#[trigger] a[i] - b[i]) <= dist_fold::<Manhattan>(a, b, n),
        axis_sum(a, b, n) <= u64::MAX ==> dist_fold::<Manhattan>(a, b, n) == axis_sum(a, b, n),
        axis_sum(a, b, n) > u64::MAX ==> dist_fold::<Manhattan>(a, b, n) == u64::MAX,
    decreases n,
{
    if n > 0 {
        let m = (n - 1) as nat;
        law_manhattan_is_sum_of_axis_distances(a, b, m);
        assert(axis_sum(a, b, m) >= 0) by {
            lemma_sums_nonneg(a, b, m);
        }
    }
}

/// The squared Euclidean distance is at least the square of every axis
/// distance (capped at `u64::MAX`), and it is the sum of the squares whenever
/// that sum fits in a `u64` (it saturates otherwise).
pub proof fn law_squared_euclidean_is_sum_of_squares(a: Seq<u64>, b: Seq<u64>, n: nat)
    ensures
        forall|i: int|
            0 <= i < n ==> clamp_u64(abs_int(#[trigger] a[i] - b[i]) * abs_int(a[i] - b[i])) <= dist_fold::<
                SquaredEuclidean,
            >(a, b, n),
        axis_square_sum(a, b, n) <= u64::MAX ==> dist_fold::<SquaredEuclidean>(a, b, n) == axis_square_sum(a, b, n),
        axis_square_sum(a, b, n) > u64::MAX ==> dist_fold::<SquaredEuclidean>(a, b, n) == u64::MAX,
    decreases n,
{
    if n > 0 {
        let m = (n - 1) as nat;
        law_squared_euclidean_is_sum_of_squares(a, b, m);
        lemma_sums_nonneg(a, b, m);
        let d = abs_int(a[m as int] - b[m as int]);
        assert(d * d >= 0) by (nonlinear_arith);
        assert(d * d >= d || d == 0) by (nonlinear_arith)
            requires
                d >= 0,
        ;
    }
}

proof fn lemma_sums_nonneg(a: Seq<u64>, b: Seq<u64>, n: nat)
    ensures
        axis_sum(a, b, n) >= 0,
        axis_square_sum(a, b, n) >= 0,
    decreases n,
{
    if n > 0 {
        lemma_sums_nonneg(a, b, (n - 1) as nat);
        let d = abs_int(a[n - 1] - b[n - 1]);
        assert(d * d >= 0) by (nonlinear_arith);
    }
}

} // verus!
