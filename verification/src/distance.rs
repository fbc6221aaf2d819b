//! Distance metrics between points with fixed-point `i64` coordinates, each
//! axis weighted by a scale factor.
//!
//! A metric measures the distance along one axis with `dist1` (the absolute
//! difference, multiplied by the axis's scale) and combines the per-axis
//! distances with `accumulate`, starting from zero. All arithmetic saturates.

use vstd::prelude::*;
use crate::saturating::{abs_int, clamp_i64, sat_add_i64, sat_dist_i64, sat_mul_i64};

verus! {

/// A distance metric: how one axis is measured and how axes are combined.
pub trait DistanceMetric {
    /// The value of `accumulate(acc, dist)`.
    spec fn spec_accumulate(acc: i64, dist: i64) -> i64;

    /// The value of `dist1(a, b, scale)`.
    spec fn spec_dist1(a: i64, b: i64, scale: i64) -> i64;

    /// Combines the distance accumulated so far with one more axis distance.
    fn accumulate(acc: i64, dist: i64) -> (r: i64)
        ensures
            r == Self::spec_accumulate(acc, dist),
    ;

    /// The distance between two coordinates on one axis, scaled.
    fn dist1(a: i64, b: i64, scale: i64) -> (r: i64)
        ensures
            r == Self::spec_dist1(a, b, scale),
    ;
}

/// The distance over the first `n` axes: `accumulate` folded over the
/// per-axis distances `dist1(a[i], b[i], scale[i])`, starting from zero.
pub open spec fn dist_fold<D: DistanceMetric + ?Sized>(
    a: Seq<i64>,
    b: Seq<i64>,
    scale: Seq<i64>,
    n: nat,
) -> i64
    decreases n,
{
    if n == 0 {
        0
    } else {
        D::spec_accumulate(
            dist_fold::<D>(a, b, scale, (n - 1) as nat),
            D::spec_dist1(a[n - 1], b[n - 1], scale[n - 1]),
        )
    }
}

/// The scaled distance on one axis shared by all three metrics:
/// `|a - b| * scale`, each step saturating.
pub open spec fn scaled_axis_dist(a: i64, b: i64, scale: i64) -> i64 {
    clamp_i64(clamp_i64(abs_int(a - b)) * scale)
}

/// Computes `dist_fold` over all `K` axes.
fn fold_axes<D: DistanceMetric, const K: usize>(a: &[i64; K], b: &[i64; K], scale: &[i64; K]) -> (r: i64)
    ensures
        r == dist_fold::<D>(a@, b@, scale@, K as nat),
{
    let mut acc: i64 = 0;
    let mut i: usize = 0;
    while i < K
        invariant
            i <= K,
            a@.len() == K,
            b@.len() == K,
            scale@.len() == K,
            acc == dist_fold::<D>(a@, b@, scale@, i as nat),
        decreases K - i,
    {
        let d = D::dist1(a[i], b[i], scale[i]);
        acc = D::accumulate(acc, d);
        i = i + 1;
    }
    acc
}

/// The Manhattan ("taxi cab") distance: the sum of the scaled axis distances.
pub struct Manhattan {}

impl Manhattan {
    /// The distance between two points, each axis scaled by `scale`.
    pub fn dist<const K: usize>(a: &[i64; K], b: &[i64; K], scale: &[i64; K]) -> (r: i64)
        ensures
            r == dist_fold::<Manhattan>(a@, b@, scale@, K as nat),
    {
        fold_axes::<Manhattan, K>(a, b, scale)
    }
}

impl DistanceMetric for Manhattan {
    open spec fn spec_accumulate(acc: i64, dist: i64) -> i64 {
        clamp_i64(acc + dist)
    }

    open spec fn spec_dist1(a: i64, b: i64, scale: i64) -> i64 {
        scaled_axis_dist(a, b, scale)
    }

    fn accumulate(acc: i64, dist: i64) -> (r: i64) {
        sat_add_i64(acc, dist)
    }

    fn dist1(a: i64, b: i64, scale: i64) -> (r: i64) {
        sat_mul_i64(sat_dist_i64(a, b), scale)
    }
}

/// The squared Euclidean distance: the sum of the squared scaled axis
/// distances. It orders points as the Euclidean distance does, without the
/// square root.
pub struct SquaredEuclidean {}

impl SquaredEuclidean {
    /// The distance between two points, each axis scaled by `scale`.
    pub fn dist<const K: usize>(a: &[i64; K], b: &[i64; K], scale: &[i64; K]) -> (r: i64)
        ensures
            r == dist_fold::<SquaredEuclidean>(a@, b@, scale@, K as nat),
    {
        fold_axes::<SquaredEuclidean, K>(a, b, scale)
    }
}

impl DistanceMetric for SquaredEuclidean {
    open spec fn spec_accumulate(acc: i64, dist: i64) -> i64 {
        clamp_i64(acc + clamp_i64(dist * dist))
    }

    open spec fn spec_dist1(a: i64, b: i64, scale: i64) -> i64 {
        scaled_axis_dist(a, b, scale)
    }

    fn accumulate(acc: i64, dist: i64) -> (r: i64) {
        sat_add_i64(acc, sat_mul_i64(dist, dist))
    }

    fn dist1(a: i64, b: i64, scale: i64) -> (r: i64) {
        sat_mul_i64(sat_dist_i64(a, b), scale)
    }
}

/// The rectangular (Chebyshev) distance: the largest scaled axis distance.
pub struct Rectangular {}

impl Rectangular {
    /// The distance between two points, each axis scaled by `scale`.
    pub fn dist<const K: usize>(a: &[i64; K], b: &[i64; K], scale: &[i64; K]) -> (r: i64)
        ensures
            r == dist_fold::<Rectangular>(a@, b@, scale@, K as nat),
    {
        fold_axes::<Rectangular, K>(a, b, scale)
    }
}

impl DistanceMetric for Rectangular {
    open spec fn spec_accumulate(acc: i64, dist: i64) -> i64 {
        if dist > acc {
            dist
        } else {
            acc
        }
    }

    open spec fn spec_dist1(a: i64, b: i64, scale: i64) -> i64 {
        scaled_axis_dist(a, b, scale)
    }

    fn accumulate(acc: i64, dist: i64) -> (r: i64) {
        if dist > acc {
            dist
        } else {
            acc
        }
    }

    fn dist1(a: i64, b: i64, scale: i64) -> (r: i64) {
        sat_mul_i64(sat_dist_i64(a, b), scale)
    }
}

/// Every per-axis distance `dist1(x, y, s)` is symmetric in `x` and `y`
/// and zero when `x == y`, and `accumulate(0, 0) == 0`.
pub open spec fn axis_laws<D: DistanceMetric>() -> bool {
    &&& forall|x: i64, y: i64, s: i64| #[trigger] D::spec_dist1(x, y, s) == D::spec_dist1(y, x, s)
    &&& forall|x: i64, s: i64| #[trigger] D::spec_dist1(x, x, s) == 0
    &&& D::spec_accumulate(0, 0) == 0
}

proof fn lemma_fold_symmetric<D: DistanceMetric>(a: Seq<i64>, b: Seq<i64>, scale: Seq<i64>, n: nat)
    requires
        axis_laws::<D>(),
    ensures
        dist_fold::<D>(a, b, scale, n) == dist_fold::<D>(b, a, scale, n),
    decreases n,
{
    if n > 0 {
        lemma_fold_symmetric::<D>(a, b, scale, (n - 1) as nat);
        assert(D::spec_dist1(a[n - 1], b[n - 1], scale[n - 1]) == D::spec_dist1(b[n - 1], a[n - 1], scale[n - 1]));
    }
}

proof fn lemma_fold_self_zero<D: DistanceMetric>(a: Seq<i64>, scale: Seq<i64>, n: nat)
    requires
        axis_laws::<D>(),
    ensures
        dist_fold::<D>(a, a, scale, n) == 0,
    decreases n,
{
    if n > 0 {
        lemma_fold_self_zero::<D>(a, scale, (n - 1) as nat);
        assert(D::spec_dist1(a[n - 1], a[n - 1], scale[n - 1]) == 0);
    }
}

proof fn lemma_axis_laws()
    ensures
        axis_laws::<Manhattan>(),
        axis_laws::<SquaredEuclidean>(),
        axis_laws::<Rectangular>(),
{
    assert forall|x: i64, y: i64, s: i64| scaled_axis_dist(x, y, s) == scaled_axis_dist(y, x, s) by {
        assert(abs_int(x - y) == abs_int(y - x));
    }
    assert forall|x: i64, s: i64| scaled_axis_dist(x, x, s) == 0 by {
        assert(abs_int(x - x) == 0);
        assert(0 * s == 0);
    }
    assert(clamp_i64(0int * 0int) == 0);
}

/// Each metric is symmetric: the distance from `a` to `b` equals the distance
/// from `b` to `a`, under the same scale.
pub proof fn law_dist_symmetric<const K: usize>(a: [i64; K], b: [i64; K], scale: [i64; K])
    ensures
        dist_fold::<Manhattan>(a@, b@, scale@, K as nat) == dist_fold::<Manhattan>(b@, a@, scale@, K as nat),
        dist_fold::<SquaredEuclidean>(a@, b@, scale@, K as nat) == dist_fold::<SquaredEuclidean>(b@, a@, scale@, K as nat),
        dist_fold::<Rectangular>(a@, b@, scale@, K as nat) == dist_fold::<Rectangular>(b@, a@, scale@, K as nat),
{
    lemma_axis_laws();
    lemma_fold_symmetric::<Manhattan>(a@, b@, scale@, K as nat);
    lemma_fold_symmetric::<SquaredEuclidean>(a@, b@, scale@, K as nat);
    lemma_fold_symmetric::<Rectangular>(a@, b@, scale@, K as nat);
}

/// Under each metric, a point is at distance zero from itself, whatever the scale.
pub proof fn law_dist_to_self_is_zero<const K: usize>(a: [i64; K], scale: [i64; K])
    ensures
        dist_fold::<Manhattan>(a@, a@, scale@, K as nat) == 0,
        dist_fold::<SquaredEuclidean>(a@, a@, scale@, K as nat) == 0,
        dist_fold::<Rectangular>(a@, a@, scale@, K as nat) == 0,
{
    lemma_axis_laws();
    lemma_fold_self_zero::<Manhattan>(a@, scale@, K as nat);
    lemma_fold_self_zero::<SquaredEuclidean>(a@, scale@, K as nat);
    lemma_fold_self_zero::<Rectangular>(a@, scale@, K as nat);
}

/// The rectangular distance over `n` axes is the largest of 0 and the scaled
/// axis distances: it is at least 0 and at least every axis distance, and it
/// is 0 or one of them.
pub proof fn law_rectangular_is_max_axis_distance(a: Seq<i64>, b: Seq<i64>, scale: Seq<i64>, n: nat)
    ensures
        dist_fold::<Rectangular>(a, b, scale, n) >= 0,
        forall|i: int| 0 <= i < n ==> #[trigger] scaled_axis_dist(a[i], b[i], scale[i]) <= dist_fold::<Rectangular>(a, b, scale, n),
        dist_fold::<Rectangular>(a, b, scale, n) == 0 || exists|i: int|
            0 <= i < n && dist_fold::<Rectangular>(a, b, scale, n) == #[trigger] scaled_axis_dist(a[i], b[i], scale[i]),
    decreases n,
{
    if n > 0 {
        let m = (n - 1) as nat;
        law_rectangular_is_max_axis_distance(a, b, scale, m);
        let last = scaled_axis_dist(a[m as int], b[m as int], scale[m as int]);
        let prev = dist_fold::<Rectangular>(a, b, scale, m);
        if prev != 0 && last <= prev {
            let i = choose|i: int| 0 <= i < m && prev == #[trigger] scaled_axis_dist(a[i], b[i], scale[i]);
            assert(0 <= i < n);
        }
    }
}

/// On one axis, each metric measures the absolute difference of the
/// coordinates (saturated at `i64::MAX`) when the scale is 1, multiplies it
/// by the scale (saturating) otherwise, and gives no negative distance under
/// a scale of at least 0.
pub proof fn law_axis_distance_is_scaled_difference(x: i64, y: i64, s: i64)
    ensures
        Manhattan::spec_dist1(x, y, 1) == clamp_i64(abs_int(x - y)),
        SquaredEuclidean::spec_dist1(x, y, 1) == clamp_i64(abs_int(x - y)),
        Rectangular::spec_dist1(x, y, 1) == clamp_i64(abs_int(x - y)),
        Manhattan::spec_dist1(x, y, s) == clamp_i64(Manhattan::spec_dist1(x, y, 1) * s),
        SquaredEuclidean::spec_dist1(x, y, s) == clamp_i64(SquaredEuclidean::spec_dist1(x, y, 1) * s),
        Rectangular::spec_dist1(x, y, s) == clamp_i64(Rectangular::spec_dist1(x, y, 1) * s),
        s >= 0 ==> Manhattan::spec_dist1(x, y, s) >= 0,
        s >= 0 ==> SquaredEuclidean::spec_dist1(x, y, s) >= 0,
        s >= 0 ==> Rectangular::spec_dist1(x, y, s) >= 0,
{
    let d = clamp_i64(abs_int(x - y));
    assert(d >= 0);
    assert(d * 1 == d);
    if s >= 0 {
        assert(d * s >= 0) by (nonlinear_arith)
            requires
                d >= 0,
                s >= 0,
        ;
    }
}

/// The exact sum of the scaled axis distances over the first `n` axes.
pub open spec fn scaled_sum(a: Seq<i64>, b: Seq<i64>, scale: Seq<i64>, n: nat) -> int
    decreases n,
{
    if n == 0 {
        0
    } else {
        scaled_sum(a, b, scale, (n - 1) as nat) + scaled_axis_dist(a[n - 1], b[n - 1], scale[n - 1])
    }
}

/// The exact sum of the squared scaled axis distances over the first `n` axes.
pub open spec fn scaled_square_sum(a: Seq<i64>, b: Seq<i64>, scale: Seq<i64>, n: nat) -> int
    decreases n,
{
    if n == 0 {
        0
    } else {
        scaled_square_sum(a, b, scale, (n - 1) as nat) + scaled_axis_dist(a[n - 1], b[n - 1], scale[n - 1])
            * scaled_axis_dist(a[n - 1], b[n - 1], scale[n - 1])
    }
}

proof fn lemma_scaled_sums_nonneg(a: Seq<i64>, b: Seq<i64>, scale: Seq<i64>, n: nat)
    requires
        forall|i: int| 0 <= i < n ==> #[trigger] scale[i] >= 0,
    ensures
        scaled_sum(a, b, scale, n) >= 0,
        scaled_square_sum(a, b, scale, n) >= 0,
        forall|i: int| 0 <= i < n ==> scaled_axis_dist(#[trigger] a[i], b[i], scale[i]) >= 0,
    decreases n,
{
    if n > 0 {
        lemma_scaled_sums_nonneg(a, b, scale, (n - 1) as nat);
        let m = n - 1;
        law_axis_distance_is_scaled_difference(a[m], b[m], scale[m]);
        let d = scaled_axis_dist(a[m], b[m], scale[m]);
        assert(d * d >= 0) by (nonlinear_arith);
    }
}

/// Under scales of at least 0, the Manhattan distance is at least every
/// scaled axis distance, and it is their sum whenever that sum fits in an
/// `i64` (it saturates at `i64::MAX` otherwise).
pub proof fn law_manhattan_is_sum_of_axis_distances(a: Seq<i64>, b: Seq<i64>, scale: Seq<i64>, n: nat)
    requires
        forall|i: int| 0 <= i < n ==> #[trigger] scale[i] >= 0,
    ensures
        forall|i: int|
            0 <= i < n ==> scaled_axis_dist(#[trigger] a[i], b[i], scale[i]) <= dist_fold::<Manhattan>(a, b, scale, n),
        scaled_sum(a, b, scale, n) <= i64::MAX ==> dist_fold::<Manhattan>(a, b, scale, n) == scaled_sum(a, b, scale, n),
        scaled_sum(a, b, scale, n) > i64::MAX ==> dist_fold::<Manhattan>(a, b, scale, n) == i64::MAX,
    decreases n,
{
    lemma_scaled_sums_nonneg(a, b, scale, n);
    if n > 0 {
        let m = (n - 1) as nat;
        law_manhattan_is_sum_of_axis_distances(a, b, scale, m);
        lemma_scaled_sums_nonneg(a, b, scale, m);
        assert(scaled_axis_dist(a[m as int], b[m as int], scale[m as int]) >= 0);
    }
}

/// Under scales of at least 0, the squared Euclidean distance is at least the
/// square of every scaled axis distance (capped at `i64::MAX`), and it is the
/// sum of the squares whenever that sum fits in an `i64` (it saturates at
/// `i64::MAX` otherwise).
pub proof fn law_squared_euclidean_is_sum_of_squares(a: Seq<i64>, b: Seq<i64>, scale: Seq<i64>, n: nat)
    requires
        forall|i: int| 0 <= i < n ==> #[trigger] scale[i] >= 0,
    ensures
        forall|i: int|
            0 <= i < n ==> clamp_i64(scaled_axis_dist(#[trigger] a[i], b[i], scale[i]) * scaled_axis_dist(
                a[i],
                b[i],
                scale[i],
            )) <= dist_fold::<SquaredEuclidean>(a, b, scale, n),
        scaled_square_sum(a, b, scale, n) <= i64::MAX ==> dist_fold::<SquaredEuclidean>(a, b, scale, n)
            == scaled_square_sum(a, b, scale, n),
        scaled_square_sum(a, b, scale, n) > i64::MAX ==> dist_fold::<SquaredEuclidean>(a, b, scale, n) == i64::MAX,
    decreases n,
{
    lemma_scaled_sums_nonneg(a, b, scale, n);
    if n > 0 {
        let m = (n - 1) as nat;
        law_squared_euclidean_is_sum_of_squares(a, b, scale, m);
        lemma_scaled_sums_nonneg(a, b, scale, m);
        let d = scaled_axis_dist(a[m as int], b[m as int], scale[m as int]);
        assert(d >= 0);
        assert(d * d >= 0) by (nonlinear_arith);
    }
}

} // verus!
