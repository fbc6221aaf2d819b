//! Scans over the points of a k-d tree leaf, stored axis by axis, that feed
//! a result collection.
//!
//! The points are processed in chunks of a fixed length, then the points that
//! do not fill a chunk. For each point the scan computes its distance from the
//! query and calls an inclusion function with the distance, the point's item
//! and the collection; when it returns true, the point's entry is added.
//!
//! The queries of `LeafSlice` pass inclusion functions that decide as one of
//! the `Admission` rules does, and state their results over those rules.

use vstd::prelude::*;
use crate::distance::{dist_fold, DistanceMetric};
use crate::neighbour::{BestNeighbour, ItemKey, NearestNeighbour, NeighbourEntry, Ranked};
use crate::result_collection::ResultCollection;

verus! {

/// The number of points scanned together as one chunk.
pub const CHUNK_SIZE: usize = 32;

/// A rule that decides whether a candidate entry goes into the collection.
#[derive(Clone, Copy)]
pub enum Admission {
    /// Taken when the collection is empty or the candidate is strictly nearer
    /// than the collection's next entry.
    Nearer,
    /// Taken when the candidate's distance is at most `radius`.
    Within { radius: i64 },
    /// Taken when the candidate's distance is at most `radius` and either the
    /// collection holds fewer than `max_qty` entries, or the candidate ranks
    /// strictly below the collection's next entry, which is then taken out.
    BestWithin { radius: i64, max_qty: usize },
}

/// One decision of the inclusion rule on a candidate of distance `distance`
/// and rank `rank`: from collection `pre` it leads to collection `mid` and to
/// `taken`, whether the candidate goes in.
pub open spec fn admit_step<N: NeighbourEntry<i64, T, K> + Ranked, T: Copy, const K: usize, R: ResultCollection<N, T, K>>(
    rule: Admission,
    pre: R,
    mid: R,
    distance: i64,
    rank: i128,
    taken: bool,
) -> bool {
    match rule {
        Admission::Nearer => mid == pre && taken == (pre.entries().len() == 0 || distance
            < pre.next_out().entry().distance),
        Admission::Within { radius } => mid == pre && taken == (distance <= radius),
        Admission::BestWithin { radius, max_qty } => {
            if distance > radius {
                mid == pre && !taken
            } else if pre.entries().len() < max_qty {
                mid == pre && taken
            } else if pre.entries().len() > 0 && rank < pre.next_out().rank() {
                R::removed(pre, mid) && taken
            } else {
                mid == pre && !taken
            }
        },
    }
}

/// Scanning one candidate under `rule` leads from collection `pre` to
/// collection `post`.
pub open spec fn scan_step<N: NeighbourEntry<i64, T, K> + Ranked, T: Copy, const K: usize, R: ResultCollection<N, T, K>>(
    rule: Admission,
    pre: R,
    post: R,
    cand: N,
) -> bool {
    exists|mid: R, taken: bool|
        #[trigger] admit_step::<N, T, K, R>(rule, pre, mid, cand.entry().distance, cand.rank(), taken) && (if taken {
            R::added(mid, post, cand)
        } else {
            post == mid
        })
}

/// `states` is a run of the scan under `rule` over `cands`: every state is a
/// valid collection, and scanning `cands[i]` leads from `states[i]` to
/// `states[i + 1]`.
pub open spec fn is_trace<N: NeighbourEntry<i64, T, K> + Ranked, T: Copy, const K: usize, R: ResultCollection<N, T, K>>(
    rule: Admission,
    states: Seq<R>,
    cands: Seq<N>,
) -> bool {
    &&& states.len() == cands.len() + 1
    &&& forall|i: int| 0 <= i < states.len() ==> (#[trigger] states[i]).inv()
    &&& forall|i: int|
        0 <= i < cands.len() ==> scan_step::<N, T, K, R>(rule, states[i], states[i + 1], #[trigger] cands[i])
}

/// Scanning the candidates `cands` under `rule`, in order, leads from
/// collection `pre` to collection `post`.
pub open spec fn scans<N: NeighbourEntry<i64, T, K> + Ranked, T: Copy, const K: usize, R: ResultCollection<N, T, K>>(
    rule: Admission,
    pre: R,
    post: R,
    cands: Seq<N>,
) -> bool {
    exists|states: Seq<R>|
        #[trigger] is_trace::<N, T, K, R>(rule, states, cands) && states[0] == pre && states.last() == post
}

/// `rel` holds of a call with `distance` and `item` that found the
/// collection holding `pre`, left it holding `post` and returned `taken`.
pub open spec fn rel_holds<T, R>(
    rel: spec_fn(i64, T, R, R, bool) -> bool,
    distance: i64,
    item: T,
    pre: R,
    post: R,
    taken: bool,
) -> bool {
    rel(distance, item, pre, post, taken)
}

/// `keep` may be called with any distance and item and any valid collection.
pub open spec fn keep_callable<N: NeighbourEntry<i64, T, K> + Ranked, T: Copy, const K: usize, R: ResultCollection<N, T, K>, F: Fn(i64, T, &mut R) -> bool>(keep: F) -> bool {
    forall|d: i64, t: T, w: &mut R| (*w).inv() ==> #[trigger] call_requires(keep, (d, t, w))
}

/// When `room` is false, `keep` takes none of the candidates `cands` into a
/// valid collection that cannot take an add.
pub open spec fn keep_adds_with_room<N: NeighbourEntry<i64, T, K> + Ranked, T: Copy, const K: usize, R: ResultCollection<N, T, K>, F: Fn(i64, T, &mut R) -> bool>(
    keep: F,
    cands: Seq<N>,
    room: bool,
) -> bool {
    !room ==> forall|j: int, w: &mut R, b: bool|
        0 <= j < cands.len() && (*w).inv() && !(*w).may_add() && #[trigger] call_ensures(
            keep,
            (cands[j].entry().distance, cands[j].entry().item, w),
            b,
        ) ==> !b
}

/// Scanning one candidate leads from collection `pre` to collection `post`,
/// where `rel(distance, item, pre, mid, taken)` relates a call of the
/// inclusion function with the candidate's distance and item to its outcome:
/// the collection it leaves (`mid`) and whether the candidate is then added.
pub open spec fn rel_step<N: NeighbourEntry<i64, T, K> + Ranked, T: Copy, const K: usize, R: ResultCollection<N, T, K>>(
    rel: spec_fn(i64, T, R, R, bool) -> bool,
    pre: R,
    post: R,
    cand: N,
) -> bool {
    exists|mid: R, taken: bool|
        #[trigger] rel(cand.entry().distance, cand.entry().item, pre, mid, taken) && (if taken {
            R::added(mid, post, cand)
        } else {
            post == mid
        })
}

/// `states` is a run of the scan over `cands` whose inclusion calls obey `rel`.
pub open spec fn is_rel_trace<N: NeighbourEntry<i64, T, K> + Ranked, T: Copy, const K: usize, R: ResultCollection<N, T, K>>(
    rel: spec_fn(i64, T, R, R, bool) -> bool,
    states: Seq<R>,
    cands: Seq<N>,
) -> bool {
    &&& states.len() == cands.len() + 1
    &&& forall|i: int| 0 <= i < states.len() ==> (#[trigger] states[i]).inv()
    &&& forall|i: int| 0 <= i < cands.len() ==> rel_step::<N, T, K, R>(rel, states[i], states[i + 1], #[trigger] cands[i])
}

/// Scanning the candidates `cands`, in order, with inclusion calls that obey
/// `rel`, leads from collection `pre` to collection `post`.
pub open spec fn rel_scans<N: NeighbourEntry<i64, T, K> + Ranked, T: Copy, const K: usize, R: ResultCollection<N, T, K>>(
    rel: spec_fn(i64, T, R, R, bool) -> bool,
    pre: R,
    post: R,
    cands: Seq<N>,
) -> bool {
    exists|states: Seq<R>|
        #[trigger] is_rel_trace::<N, T, K, R>(rel, states, cands) && states[0] == pre && states.last() == post
}

/// The coordinates of point `i`, given the coordinates axis by axis.
pub open spec fn point_at(axes: Seq<Seq<i64>>, i: int) -> Seq<i64> {
    Seq::new(axes.len(), |d: int| axes[d][i])
}

/// The array whose elements are `p`.
pub open spec fn point_array<const K: usize>(p: Seq<i64>) -> [i64; K] {
    choose|a: [i64; K]| a@ == p
}

/// An array whose first `n` elements are those of `p`, and 0 after.
spec fn array_prefix<const K: usize>(p: Seq<i64>, n: nat) -> [i64; K]
    decreases n,
{
    if n == 0 {
        vstd::array::spec_array_fill_for_copy_type::<i64, K>(0)
    } else {
        vstd::array::spec_array_update(array_prefix::<K>(p, (n - 1) as nat), n - 1, p[n - 1])
    }
}

proof fn lemma_array_prefix<const K: usize>(p: Seq<i64>, n: nat)
    requires
        n <= K,
        p.len() == K,
    ensures
        forall|i: int| 0 <= i < n ==> #[trigger] array_prefix::<K>(p, n)@[i] == p[i],
    decreases n,
{
    broadcast use vstd::array::group_array_axioms;

    if n > 0 {
        lemma_array_prefix::<K>(p, (n - 1) as nat);
        let prev = array_prefix::<K>(p, (n - 1) as nat);
        vstd::array::axiom_spec_array_update(prev, n - 1, p[n - 1]);
        let cur = array_prefix::<K>(p, n);
        assert(cur == vstd::array::spec_array_update(prev, n - 1, p[n - 1]));
        assert(cur@ == prev@.update(n - 1, p[n - 1]));
        assert forall|i: int| 0 <= i < n implies #[trigger] cur@[i] == p[i] by {
            if i < n - 1 {
                assert(prev@[i] == p[i]);
            }
        }
    }
}

/// The array `point_array(p)` holds the elements of `p`.
pub proof fn lemma_point_array<const K: usize>(p: Seq<i64>)
    requires
        p.len() == K,
    ensures
        point_array::<K>(p)@ == p,
{
    broadcast use vstd::array::group_array_axioms;

    lemma_array_prefix::<K>(p, K as nat);
    let a = array_prefix::<K>(p, K as nat);
    assert(a@ =~= p);
}

/// The scale of each axis: the given one, or 1 on every axis.
pub open spec fn scale_seq<const K: usize>(scale: Option<&[i64; K]>) -> Seq<i64> {
    match scale {
        Some(s) => s@,
        None => Seq::new(K as nat, |d: int| 1i64),
    }
}

/// The distance of point `i` from the query, accumulated over the `K` axes.
pub open spec fn point_distance<D: DistanceMetric, const K: usize>(
    axes: Seq<Seq<i64>>,
    query: Seq<i64>,
    scale: Seq<i64>,
    i: int,
) -> i64 {
    dist_fold::<D>(point_at(axes, i), query, scale, K as nat)
}

/// The candidate entry that the scan builds for point `i`.
pub open spec fn candidate<D: DistanceMetric, N: NeighbourEntry<i64, T, K>, T: Copy, const K: usize>(
    axes: Seq<Seq<i64>>,
    items: Seq<T>,
    query: Seq<i64>,
    scale: Seq<i64>,
    i: int,
) -> N {
    N::spec_new(point_distance::<D, K>(axes, query, scale, i), items[i], point_array::<K>(point_at(axes, i)))
}

/// The candidate entries for all points, in index order.
pub open spec fn candidates<D: DistanceMetric, N: NeighbourEntry<i64, T, K>, T: Copy, const K: usize>(
    axes: Seq<Seq<i64>>,
    items: Seq<T>,
    query: Seq<i64>,
    scale: Seq<i64>,
) -> Seq<N> {
    Seq::new(items.len(), |i: int| candidate::<D, N, T, K>(axes, items, query, scale, i))
}

/// The coordinates of a chunk, axis by axis.
pub open spec fn chunk_axes<const K: usize, const C: usize>(points: [&[i64; C]; K]) -> Seq<Seq<i64>> {
    Seq::new(K as nat, |d: int| points[d]@)
}

/// The coordinates of a slice of points, axis by axis.
pub open spec fn slice_axes<const K: usize>(points: [&[i64]; K]) -> Seq<Seq<i64>> {
    Seq::new(K as nat, |d: int| points[d]@)
}

/// Every axis holds `n` coordinates.
pub open spec fn axes_have_len(axes: Seq<Seq<i64>>, n: nat) -> bool {
    forall|d: int| 0 <= d < axes.len() ==> #[trigger] axes[d].len() == n
}

/// Scanning `s1` then `s2` is scanning `s1 + s2`.
pub proof fn lemma_rel_scans_concat<N: NeighbourEntry<i64, T, K> + Ranked, T: Copy, const K: usize, R: ResultCollection<N, T, K>>(
    rel: spec_fn(i64, T, R, R, bool) -> bool,
    a: R,
    b: R,
    c: R,
    s1: Seq<N>,
    s2: Seq<N>,
)
    requires
        rel_scans::<N, T, K, R>(rel, a, b, s1),
        rel_scans::<N, T, K, R>(rel, b, c, s2),
    ensures
        rel_scans::<N, T, K, R>(rel, a, c, s1 + s2),
{
    let t1 = choose|t: Seq<R>| #[trigger] is_rel_trace::<N, T, K, R>(rel, t, s1) && t[0] == a && t.last() == b;
    let t2 = choose|t: Seq<R>| #[trigger] is_rel_trace::<N, T, K, R>(rel, t, s2) && t[0] == b && t.last() == c;
    let t = t1 + t2.drop_first();
    assert forall|i: int| 0 <= i < (s1 + s2).len() implies rel_step::<N, T, K, R>(
        rel,
        t[i],
        t[i + 1],
        #[trigger] (s1 + s2)[i],
    ) by {
        if i < s1.len() {
            assert(rel_step::<N, T, K, R>(rel, t1[i], t1[i + 1], s1[i]));
            if i + 1 == s1.len() {
                assert(t[i + 1] == t2[0]);
            }
        } else {
            let k = i - s1.len();
            assert(rel_step::<N, T, K, R>(rel, t2[k], t2[k + 1], s2[k]));
            if k == 0 {
                assert(t[i] == t1.last());
            }
        }
    }
    assert forall|i: int| 0 <= i < t.len() implies (#[trigger] t[i]).inv() by {
        if i < t1.len() {
            assert(t1[i].inv());
        } else {
            assert(t2[i - t1.len() + 1].inv());
        }
    }
    assert(is_rel_trace::<N, T, K, R>(rel, t, s1 + s2));
}

/// A scan over nothing leaves the collection as it is.
pub proof fn lemma_rel_scans_empty<N: NeighbourEntry<i64, T, K> + Ranked, T: Copy, const K: usize, R: ResultCollection<N, T, K>>(
    rel: spec_fn(i64, T, R, R, bool) -> bool,
    a: R,
)
    requires
        a.inv(),
    ensures
        rel_scans::<N, T, K, R>(rel, a, a, Seq::empty()),
{
    assert(is_rel_trace::<N, T, K, R>(rel, seq![a], Seq::empty()));
}

/// Extends a scan by one step.
pub proof fn lemma_rel_scans_push<N: NeighbourEntry<i64, T, K> + Ranked, T: Copy, const K: usize, R: ResultCollection<N, T, K>>(
    rel: spec_fn(i64, T, R, R, bool) -> bool,
    a: R,
    b: R,
    c: R,
    cands: Seq<N>,
    cand: N,
)
    requires
        rel_scans::<N, T, K, R>(rel, a, b, cands),
        rel_step::<N, T, K, R>(rel, b, c, cand),
        c.inv(),
    ensures
        rel_scans::<N, T, K, R>(rel, a, c, cands.push(cand)),
{
    let t1 = choose|t: Seq<R>| #[trigger] is_rel_trace::<N, T, K, R>(rel, t, cands) && t[0] == a && t.last() == b;
    let t = t1.push(c);
    assert forall|i: int| 0 <= i < cands.push(cand).len() implies rel_step::<N, T, K, R>(
        rel,
        t[i],
        t[i + 1],
        #[trigger] cands.push(cand)[i],
    ) by {
        if i < cands.len() {
            assert(rel_step::<N, T, K, R>(rel, t1[i], t1[i + 1], cands[i]));
        }
    }
    assert forall|i: int| 0 <= i < t.len() implies (#[trigger] t[i]).inv() by {
        if i < t1.len() {
            assert(t1[i].inv());
        }
    }
    assert(is_rel_trace::<N, T, K, R>(rel, t, cands.push(cand)));
}

/// A scan whose inclusion calls obey a relation that, on each candidate,
/// decides as `rule` does, is a scan under `rule`.
pub proof fn lemma_rel_scans_rule<N: NeighbourEntry<i64, T, K> + Ranked, T: Copy, const K: usize, R: ResultCollection<N, T, K>>(
    rel: spec_fn(i64, T, R, R, bool) -> bool,
    rule: Admission,
    pre: R,
    post: R,
    cands: Seq<N>,
)
    requires
        rel_scans::<N, T, K, R>(rel, pre, post, cands),
        forall|j: int, a: R, m: R, b: bool|
            0 <= j < cands.len() && #[trigger] rel(cands[j].entry().distance, cands[j].entry().item, a, m, b)
                ==> admit_step::<N, T, K, R>(rule, a, m, cands[j].entry().distance, cands[j].rank(), b),
    ensures
        scans::<N, T, K, R>(rule, pre, post, cands),
{
    let t = choose|t: Seq<R>| #[trigger] is_rel_trace::<N, T, K, R>(rel, t, cands) && t[0] == pre && t.last() == post;
    assert forall|i: int| 0 <= i < cands.len() implies scan_step::<N, T, K, R>(rule, t[i], t[i + 1], #[trigger] cands[i]) by {
        assert(rel_step::<N, T, K, R>(rel, t[i], t[i + 1], cands[i]));
        let c = cands[i];
        let (mid, taken) = choose|mid: R, taken: bool|
            #[trigger] rel(c.entry().distance, c.entry().item, t[i], mid, taken) && (if taken {
                R::added(mid, t[i + 1], c)
            } else {
                t[i + 1] == mid
            });
        assert(admit_step::<N, T, K, R>(rule, t[i], mid, c.entry().distance, c.rank(), taken));
    }
    assert(is_trace::<N, T, K, R>(rule, t, cands));
}

/// What `keep_adds_with_room` says of all candidates it says of a range of them.
pub proof fn lemma_adds_with_room_subrange<N: NeighbourEntry<i64, T, K> + Ranked, T: Copy, const K: usize, R: ResultCollection<N, T, K>, F: Fn(i64, T, &mut R) -> bool>(
    keep: F,
    cands: Seq<N>,
    room: bool,
    lo: int,
    hi: int,
)
    requires
        keep_adds_with_room::<N, T, K, R, F>(keep, cands, room),
        0 <= lo <= hi <= cands.len(),
    ensures
        keep_adds_with_room::<N, T, K, R, F>(keep, cands.subrange(lo, hi), room),
{
    if !room {
        let sub = cands.subrange(lo, hi);
        assert forall|j: int, w: &mut R, b: bool|
            0 <= j < sub.len() && (*w).inv() && !(*w).may_add() && #[trigger] call_ensures(
                keep,
                (sub[j].entry().distance, sub[j].entry().item, w),
                b,
            ) implies !b by {
            assert(sub[j] == cands[lo + j]);
        }
    }
}

/// The candidates of points `lo .. hi` are those of the axes cut to that range.
pub proof fn lemma_candidates_subrange<D: DistanceMetric, N: NeighbourEntry<i64, T, K>, T: Copy, const K: usize>(
    axes: Seq<Seq<i64>>,
    sub: Seq<Seq<i64>>,
    items: Seq<T>,
    query: Seq<i64>,
    scale: Seq<i64>,
    lo: int,
    hi: int,
)
    requires
        0 <= lo <= hi <= items.len(),
        axes.len() == K,
        sub.len() == K,
        axes_have_len(axes, items.len()),
        forall|d: int| 0 <= d < K ==> #[trigger] sub[d] == axes[d].subrange(lo, hi),
    ensures
        candidates::<D, N, T, K>(sub, items.subrange(lo, hi), query, scale) == candidates::<D, N, T, K>(
            axes,
            items,
            query,
            scale,
        ).subrange(lo, hi),
{
    let whole = candidates::<D, N, T, K>(axes, items, query, scale);
    let part = candidates::<D, N, T, K>(sub, items.subrange(lo, hi), query, scale);
    assert forall|j: int| 0 <= j < hi - lo implies #[trigger] part[j] == whole[lo + j] by {
        assert(point_at(sub, j) =~= point_at(axes, lo + j));
    }
    assert(part =~= whole.subrange(lo, hi));
}

/// `TryFrom<&[T]> for &[T; N]`: succeeds, giving an array reference with the
/// same elements, when the slice's length is `N`.
#[verifier::external_body]
fn slice_as_array<'a, X, const N: usize>(s: &'a [X]) -> (r: &'a [X; N])
    requires
        s@.len() == N,
    ensures
        r@ == s@,
{
    s.try_into().unwrap()
}

/// `array_init::array_init`: builds the array `[f(0), f(1), ..., f(N - 1)]`,
/// calling `f` once for each index, in order.
#[verifier::external_body]
fn array_init<X, F: Fn(usize) -> X, const N: usize>(f: F) -> (r: [X; N])
    requires
        forall|i: usize| i < N ==> #[trigger] call_requires(f, (i,)),
    ensures
        forall|i: int| 0 <= i < N ==> #[trigger] call_ensures(f, (i as usize,), r[i]),
{
    array_init::array_init(f)
}

/// The `C` coordinates of one axis starting at `start`.
fn axis_chunk<'a, const C: usize>(axis: &'a [i64], start: usize) -> (r: &'a [i64; C])
    requires
        start + C <= axis@.len(),
    ensures
        r@ == axis@.subrange(start as int, start + C),
{
    let tail = &axis[start..axis.len()];
    slice_as_array(&tail[0..C])
}

/// The coordinates of one axis from `start` to its end.
fn axis_tail<'a>(axis: &'a [i64], start: usize) -> (r: &'a [i64])
    requires
        start <= axis@.len(),
    ensures
        r@ == axis@.subrange(start as int, axis@.len() as int),
{
    &axis[start..axis.len()]
}

/// Walks over the full chunks of `C` points of a leaf slice.
pub struct LeafFixedSliceIterator<'a, T, const K: usize, const C: usize> {
    pub points: [&'a [i64]; K],
    pub items: &'a [T],
    /// Index of the first point of the next chunk.
    pub next_start: usize,
    /// Index just past the last full chunk.
    pub full_end: usize,
}

impl<'a, T, const K: usize, const C: usize> LeafFixedSliceIterator<'a, T, K, C> {
    /// The iterator walks full chunks of its points.
    pub open spec fn wf(&self) -> bool {
        &&& C > 0
        &&& axes_have_len(slice_axes(self.points), self.items@.len())
        &&& self.full_end == self.items@.len() - (self.items@.len() as int) % (C as int)
        &&& self.next_start <= self.full_end
        &&& (self.next_start as int) % (C as int) == 0
    }

    /// The next full chunk: its coordinates, axis by axis, and its items.
    pub fn next(&mut self) -> (r: Option<([&'a [i64; C]; K], &'a [T; C])>)
        requires
            old(self).wf(),
        ensures
            final(self).wf(),
            final(self).points == old(self).points,
            final(self).items == old(self).items,
            final(self).full_end == old(self).full_end,
            old(self).next_start == old(self).full_end ==> r is None && final(self).next_start
                == old(self).next_start,
            old(self).next_start < old(self).full_end ==> r is Some && final(self).next_start
                == old(self).next_start + C,
            r matches Some((p, it)) ==> {
                &&& it@ == old(self).items@.subrange(
                    old(self).next_start as int,
                    old(self).next_start + C,
                )
                &&& forall|d: int|
                    0 <= d < K ==> #[trigger] p[d]@ == old(self).points[d]@.subrange(
                        old(self).next_start as int,
                        old(self).next_start + C,
                    )
            },
    {
        if self.next_start == self.full_end {
            None
        } else {
            let start = self.next_start;
            proof {
                let n = self.items@.len() as int;
                let c = C as int;
                assert(self.full_end - start >= c) by (nonlinear_arith)
                    requires
                        self.full_end == n - n % c,
                        (start as int) % c == 0,
                        start < self.full_end,
                        c > 0,
                        n >= 0,
                ;
                assert((start + c) % c == 0) by (nonlinear_arith)
                    requires
                        (start as int) % c == 0,
                        c > 0,
                        start >= 0,
                ;
            }
            let points = self.points;
            let chunk = |d: usize| -> (r: &'a [i64; C])
                requires
                    K > d,
                    start + C <= points[d as int]@.len(),
                ensures
                    r@ == points[d as int]@.subrange(start as int, start + C),
                {
                    axis_chunk(points[d], start)
                };
            assert forall|d: usize| d < K implies start + C <= points[d as int]@.len() by {
                assert(slice_axes(points)[d as int] == points[d as int]@);
            }
            let chunk_points: [&'a [i64; C]; K] = array_init(chunk);
            let chunk_items: &'a [T; C] = slice_as_array(&self.items[start..start + C]);
            self.next_start = start + C;
            assert forall|d: int| 0 <= d < K implies #[trigger] chunk_points[d]@ == points[d]@.subrange(
                start as int,
                start + C,
            ) by {
                assert(call_ensures(chunk, (d as usize,), chunk_points[d]));
            }
            Some((chunk_points, chunk_items))
        }
    }
}

impl<'a, T, const K: usize, const C: usize> LeafFixedSliceIterator<'a, T, K, C> {
    /// The points after the last full chunk: their coordinates, axis by axis,
    /// and their items.
    pub fn remainder(&self) -> (r: ([&'a [i64]; K], &'a [T]))
        requires
            self.wf(),
        ensures
            r.1@ == self.items@.subrange(self.full_end as int, self.items@.len() as int),
            forall|d: int|
                0 <= d < K ==> #[trigger] r.0[d]@ == self.points[d]@.subrange(
                    self.full_end as int,
                    self.items@.len() as int,
                ),
    {
        let points = self.points;
        let start = self.full_end;
        let tail = |d: usize| -> (r: &'a [i64])
            requires
                K > d,
                start <= points[d as int]@.len(),
            ensures
                r@ == points[d as int]@.subrange(start as int, points[d as int]@.len() as int),
            {
                axis_tail(points[d], start)
            };
        assert forall|d: usize| d < K implies start <= points[d as int]@.len() by {
            assert(slice_axes(points)[d as int] == points[d as int]@);
        }
        let tail_points: [&'a [i64]; K] = array_init(tail);
        let n = self.items.len();
        let tail_items = &self.items[start..n];
        assert forall|d: int| 0 <= d < K implies #[trigger] tail_points[d]@ == points[d]@.subrange(
            start as int,
            n as int,
        ) by {
            assert(call_ensures(tail, (d as usize,), tail_points[d]));
            assert(slice_axes(points)[d] == points[d]@);
        }
        (tail_points, tail_items)
    }
}

/// The scale of axis `d`: the given one, or 1.
fn scale_at<const K: usize>(scale: Option<&[i64; K]>, d: usize) -> (r: i64)
    requires
        d < K,
    ensures
        r == scale_seq(scale)[d as int],
{
    match scale {
        Some(s) => s[d],
        None => 1,
    }
}

/// Applies the inclusion rule to a candidate of distance `distance` and rank
/// `rank`: returns whether it goes into the collection, after taking out the
/// next entry where the rule says so.
pub fn decide<N: NeighbourEntry<i64, T, K> + Ranked, T: Copy, const K: usize, R: ResultCollection<N, T, K>>(
    rule: Admission,
    distance: i64,
    rank: i128,
    results: &mut R,
) -> (taken: bool)
    requires
        old(results).inv(),
    ensures
        final(results).inv(),
        final(results).may_add() == old(results).may_add(),
        admit_step::<N, T, K, R>(rule, *old(results), *final(results), distance, rank, taken),
{
    match rule {
        Admission::Nearer => match results.result_peek() {
            Some(n) => distance < n.distance(),
            None => true,
        },
        Admission::Within { radius } => distance <= radius,
        Admission::BestWithin { radius, max_qty } => {
            if distance <= radius {
                if results.result_len() < max_qty {
                    return true;
                }
                let worst: Option<i128> = match results.result_peek() {
                    Some(w) => Some(w.key()),
                    None => None,
                };
                if let Some(worst_key) = worst {
                    if rank < worst_key {
                        // Remove the worst entry, as the candidate is better.
                        let _ = results.result_pop();
                        return true;
                    }
                }
            }
            false
        },
    }
}

/// Calls `keep` with a candidate's distance and item and the collection.
fn call_keep<N: NeighbourEntry<i64, T, K> + Ranked, T: Copy, const K: usize, R: ResultCollection<N, T, K>, F: Fn(i64, T, &mut R) -> bool>(
    keep: &F,
    distance: i64,
    item: T,
    results: &mut R,
) -> (taken: bool)
    requires
        old(results).inv(),
        keep_callable::<N, T, K, R, F>(*keep),
        forall|d: i64, t: T, w: &mut R, b: bool|
            (*w).inv() && #[trigger] call_ensures(*keep, (d, t, w), b) ==> (*final(w)).inv() && (*final(w)).may_add()
                == (*w).may_add(),
    ensures
        final(results).inv(),
        final(results).may_add() == old(results).may_add(),
        forall|rel: spec_fn(i64, T, R, R, bool) -> bool|
            (forall|d: i64, t: T, w: &mut R, b: bool| #[trigger] call_ensures(*keep, (d, t, w), b) ==> rel(d, t, *w, *final(w), b)) ==> #[trigger] rel_holds(
                rel,
                distance,
                item,
                *old(results),
                *final(results),
                taken,
            ),
{
    keep(distance, item, results)
}

/// The candidate entries of the points that `results_for_remainder` scans:
/// one for each coordinate of the first axis.
pub open spec fn remainder_candidates<D: DistanceMetric, N: NeighbourEntry<i64, T, K>, T: Copy, const K: usize>(
    points: [&[i64]; K],
    items: &[T],
    query: &[i64; K],
    scale: Option<&[i64; K]>,
) -> Seq<N> {
    candidates::<D, N, T, K>(slice_axes(points), items@.take(points[0]@.len() as int), query@, scale_seq(scale))
}

/// Processes points in chunks or as a remainder.
///
/// `keep` is the inclusion function: called with a point's distance, its item
/// and the collection, it says whether the point's entry is added (it may
/// change the collection first). The scans state what the collection
/// becomes through `rel_scans`, for every relation `rel` that the calls of
/// `keep` obey.
pub trait LeafSliceFloatChunk<T: Copy, const K: usize>: Sized {
    /// Scans a chunk of `C` points: for each point, in index order, calls
    /// `keep` with the point's distance, its item and the collection, and
    /// adds the point's entry to the collection when `keep` returns true.
    fn results_for_chunk<
        D: DistanceMetric,
        F: Fn(i64, T, &mut R) -> bool,
        R: ResultCollection<N, T, K>,
        N: NeighbourEntry<i64, T, K> + Ranked,
        const C: usize,
    >(
        points: [&[i64; C]; K],
        items: &[T; C],
        query: &[i64; K],
        scale: Option<&[i64; K]>,
        keep: F,
        results: &mut R,
    )
        requires
            old(results).inv(),
            keep_callable::<N, T, K, R, F>(keep),
            forall|d: i64, t: T, w: &mut R, b: bool|
            (*w).inv() && #[trigger] call_ensures(keep, (d, t, w), b) ==> (*final(w)).inv() && (*final(w)).may_add()
                == (*w).may_add(),
            keep_adds_with_room::<N, T, K, R, F>(
                keep,
                candidates::<D, N, T, K>(chunk_axes(points), items@, query@, scale_seq(scale)),
                old(results).may_add(),
            ),
        ensures
            final(results).inv(),
            final(results).may_add() == old(results).may_add(),
            forall|rel: spec_fn(i64, T, R, R, bool) -> bool|
                (forall|d: i64, t: T, w: &mut R, b: bool| #[trigger] call_ensures(keep, (d, t, w), b) ==> rel(d, t, *w, *final(w), b)) ==> #[trigger] rel_scans::<N, T, K, R>(
                    rel,
                    *old(results),
                    *final(results),
                    candidates::<D, N, T, K>(chunk_axes(points), items@, query@, scale_seq(scale)),
                ),
    ;

    /// Scans the points of the first axis (any number of them): for each, in
    /// index order, calls `keep` with the point's distance, its item and the
    /// collection, and adds the point's entry when `keep` returns true. With
    /// no point on the first axis it does nothing.
    fn results_for_remainder<
        D: DistanceMetric,
        F: Fn(i64, T, &mut R) -> bool,
        R: ResultCollection<N, T, K>,
        N: NeighbourEntry<i64, T, K> + Ranked,
        const C: usize,
    >(
        points: [&[i64]; K],
        items: &[T],
        query: &[i64; K],
        scale: Option<&[i64; K]>,
        keep: F,
        results: &mut R,
    )
        requires
            K > 0,
            old(results).inv(),
            points[0]@.len() > 0 ==> {
                &&& forall|d: int| 0 <= d < K ==> #[trigger] points[d]@.len() >= points[0]@.len()
                &&& items@.len() >= points[0]@.len()
                &&& keep_callable::<N, T, K, R, F>(keep)
                &&& forall|d: i64, t: T, w: &mut R, b: bool|
                (*w).inv() && #[trigger] call_ensures(keep, (d, t, w), b) ==> (*final(w)).inv() && (*final(w)).may_add()
                    == (*w).may_add()
                &&& keep_adds_with_room::<N, T, K, R, F>(
                    keep,
                    remainder_candidates::<D, N, T, K>(points, items, query, scale),
                    old(results).may_add(),
                )
            },
        ensures
            final(results).inv(),
            final(results).may_add() == old(results).may_add(),
            forall|rel: spec_fn(i64, T, R, R, bool) -> bool|
                (forall|d: i64, t: T, w: &mut R, b: bool| #[trigger] call_ensures(keep, (d, t, w), b) ==> rel(d, t, *w, *final(w), b)) ==> #[trigger] rel_scans::<N, T, K, R>(
                    rel,
                    *old(results),
                    *final(results),
                    remainder_candidates::<D, N, T, K>(points, items, query, scale),
                ),
    ;
}

impl<T: Copy, const K: usize> LeafSliceFloatChunk<T, K> for i64 {
    fn results_for_chunk<
        D: DistanceMetric,
        F: Fn(i64, T, &mut R) -> bool,
        R: ResultCollection<N, T, K>,
        N: NeighbourEntry<i64, T, K> + Ranked,
        const C: usize,
    >(
        points: [&[i64; C]; K],
        items: &[T; C],
        query: &[i64; K],
        scale: Option<&[i64; K]>,
        keep: F,
        results: &mut R,
    ) {
        let ghost axes = chunk_axes(points);
        let ghost sc = scale_seq(scale);
        let ghost cands = candidates::<D, N, T, K>(axes, items@, query@, sc);
        // Accumulate the distance of each point of the chunk, axis by axis.
        let mut acc: [i64; C] = [0i64; C];
        let mut dim: usize = 0;
        while dim < K
            invariant
                dim <= K,
                axes == chunk_axes(points),
                sc == scale_seq(scale),
                forall|j: int| 0 <= j < C ==> #[trigger] acc[j] == dist_fold::<D>(point_at(axes, j), query@, sc, dim as nat),
            decreases K - dim,
        {
            let s = scale_at(scale, dim);
            let mut idx: usize = 0;
            while idx < C
                invariant
                    dim < K,
                    idx <= C,
                    axes == chunk_axes(points),
                    sc == scale_seq(scale),
                    s == sc[dim as int],
                    forall|j: int| 0 <= j < idx ==> #[trigger] acc[j] == dist_fold::<D>(point_at(axes, j), query@, sc, (dim + 1) as nat),
                    forall|j: int| idx <= j < C ==> #[trigger] acc[j] == dist_fold::<D>(point_at(axes, j), query@, sc, dim as nat),
                decreases C - idx,
            {
                let v = D::accumulate(acc[idx], D::dist1(points[dim][idx], query[dim], s));
                proof {
                    assert(point_at(axes, idx as int)[dim as int] == points[dim as int]@[idx as int]);
                }
                acc[idx] = v;
                idx = idx + 1;
            }
            dim = dim + 1;
        }
        // Offer each point to `keep`, in index order.
        let ghost pre = *results;
        proof {
            assert forall|rel: spec_fn(i64, T, R, R, bool) -> bool| (forall|d: i64, t: T, w: &mut R, b: bool| #[trigger] call_ensures(keep, (d, t, w), b) ==> rel(d, t, *w, *final(w), b)) implies #[trigger] rel_scans::<N, T, K, R>(
                rel,
                pre,
                pre,
                cands.take(0),
            ) by {
                lemma_rel_scans_empty::<N, T, K, R>(rel, pre);
                assert(cands.take(0) == Seq::<N>::empty());
            }
        }
        let mut idx: usize = 0;
        while idx < C
            invariant
                idx <= C,
                axes == chunk_axes(points),
                sc == scale_seq(scale),
                cands == candidates::<D, N, T, K>(axes, items@, query@, sc),
                forall|j: int| 0 <= j < C ==> #[trigger] acc[j] == dist_fold::<D>(point_at(axes, j), query@, sc, K as nat),
                keep_callable::<N, T, K, R, F>(keep),
                forall|d: i64, t: T, w: &mut R, b: bool|
                    (*w).inv() && #[trigger] call_ensures(keep, (d, t, w), b) ==> (*final(w)).inv() && (*final(w)).may_add()
                        == (*w).may_add(),
                keep_adds_with_room::<N, T, K, R, F>(keep, cands, pre.may_add()),
                results.inv(),
                results.may_add() == pre.may_add(),
                forall|rel: spec_fn(i64, T, R, R, bool) -> bool|
                    (forall|d: i64, t: T, w: &mut R, b: bool| #[trigger] call_ensures(keep, (d, t, w), b) ==> rel(d, t, *w, *final(w), b)) ==> #[trigger] rel_scans::<N, T, K, R>(rel, pre, *results, cands.take(idx as int)),
            decreases C - idx,
        {
            let ghost cur = *results;
            let ghost cand = cands[idx as int];
            proof {
                N::lemma_entry_of_new(acc[idx as int], items@[idx as int], point_array::<K>(point_at(axes, idx as int)));
                assert(cand.entry().distance == acc[idx as int]);
                assert(cand.entry().item == items@[idx as int]);
            }
            let taken = call_keep::<N, T, K, R, F>(&keep, acc[idx], items[idx], results);
            let ghost mid = *results;
            proof {
                if !pre.may_add() {
                    let rel0 = |d: i64, t: T, a: R, m: R, b: bool|
                        (a.inv() && !a.may_add() && d == cand.entry().distance && t == cand.entry().item) ==> !b;
                    assert forall|d: i64, t: T, w: &mut R, b: bool| #[trigger] call_ensures(keep, (d, t, w), b) implies rel0(
                        d,
                        t,
                        *w,
                        *final(w),
                        b,
                    ) by {
                        if (*w).inv() && !(*w).may_add() && d == cand.entry().distance && t == cand.entry().item {
                            assert(call_ensures(
                                keep,
                                (cands[idx as int].entry().distance, cands[idx as int].entry().item, w),
                                b,
                            ));
                        }
                    }
                    assert(rel_holds(rel0, cand.entry().distance, cand.entry().item, cur, mid, taken));
                }
            }
            if taken {
                let mut point: [i64; K] = [0i64; K];
                let mut dim: usize = 0;
                while dim < K
                    invariant
                        dim <= K,
                        idx < C,
                        axes == chunk_axes(points),
                        forall|d: int| 0 <= d < dim ==> #[trigger] point[d] == point_at(axes, idx as int)[d],
                    decreases K - dim,
                {
                    point[dim] = points[dim][idx];
                    dim = dim + 1;
                }
                proof {
                    assert(point@ =~= point_at(axes, idx as int));
                    let chosen = point_array::<K>(point_at(axes, idx as int));
                    assert(chosen@ == point_at(axes, idx as int));
                    assert(chosen =~= point);
                }
                let neighbour = N::new(acc[idx], items[idx], point);
                results.add(neighbour);
                proof {
                    assert(neighbour == cand);
                }
            }
            proof {
                assert(cands.take(idx + 1) == cands.take(idx as int).push(cand));
                assert forall|rel: spec_fn(i64, T, R, R, bool) -> bool| (forall|d: i64, t: T, w: &mut R, b: bool| #[trigger] call_ensures(keep, (d, t, w), b) ==> rel(d, t, *w, *final(w), b)) implies #[trigger] rel_scans::<N, T, K, R>(
                    rel,
                    pre,
                    *results,
                    cands.take(idx + 1),
                ) by {
                    assert(rel_holds(rel, cand.entry().distance, cand.entry().item, cur, mid, taken));
                    assert(rel_step::<N, T, K, R>(rel, cur, *results, cand));
                    assert(rel_scans::<N, T, K, R>(rel, pre, cur, cands.take(idx as int)));
                    lemma_rel_scans_push::<N, T, K, R>(rel, pre, cur, *results, cands.take(idx as int), cand);
                }
            }
            idx = idx + 1;
        }
        assert(cands.take(C as int) == cands);
    }

    fn results_for_remainder<
        D: DistanceMetric,
        F: Fn(i64, T, &mut R) -> bool,
        R: ResultCollection<N, T, K>,
        N: NeighbourEntry<i64, T, K> + Ranked,
        const C: usize,
    >(
        points: [&[i64]; K],
        items: &[T],
        query: &[i64; K],
        scale: Option<&[i64; K]>,
        keep: F,
        results: &mut R,
    ) {
        let ghost axes = slice_axes(points);
        let ghost sc = scale_seq(scale);
        let ghost cands = remainder_candidates::<D, N, T, K>(points, items, query, scale);
        proof {
            assert(axes[0] == points[0]@);
        }
        if points[0].is_empty() {
            // Nothing to process
            proof {
                assert(cands =~= Seq::<N>::empty());
                assert forall|rel: spec_fn(i64, T, R, R, bool) -> bool| (forall|d: i64, t: T, w: &mut R, b: bool| #[trigger] call_ensures(keep, (d, t, w), b) ==> rel(d, t, *w, *final(w), b)) implies #[trigger] rel_scans::<N, T, K, R>(
                    rel,
                    *results,
                    *results,
                    cands,
                ) by {
                    lemma_rel_scans_empty::<N, T, K, R>(rel, *results);
                }
            }
            return;
        }
        let len = points[0].len();
        let ghost its = items@.take(len as int);
        proof {
            assert forall|d: int| 0 <= d < K implies #[trigger] axes[d].len() >= len by {
                assert(axes[d] == points[d]@);
                assert(points[d]@.len() >= points[0]@.len());
            }
        }
        // Accumulate the distance of each point, axis by axis.
        let mut acc: Vec<i64> = vec![0i64; len];
        let mut dim: usize = 0;
        while dim < K
            invariant
                dim <= K,
                len == points[0]@.len(),
                items@.len() >= len,
                acc@.len() == len,
                axes == slice_axes(points),
                forall|d: int| 0 <= d < K ==> #[trigger] axes[d].len() >= len,
                sc == scale_seq(scale),
                forall|j: int| 0 <= j < len ==> #[trigger] acc@[j] == dist_fold::<D>(point_at(axes, j), query@, sc, dim as nat),
            decreases K - dim,
        {
            let s = scale_at(scale, dim);
            proof {
                assert(axes[dim as int] == points[dim as int]@);
            }
            let mut idx: usize = 0;
            while idx < len
                invariant
                    dim < K,
                    idx <= len,
                    acc@.len() == len,
                    axes == slice_axes(points),
                    axes[dim as int] == points[dim as int]@,
                    axes[dim as int].len() >= len,
                    sc == scale_seq(scale),
                    s == sc[dim as int],
                    forall|j: int| 0 <= j < idx ==> #[trigger] acc@[j] == dist_fold::<D>(point_at(axes, j), query@, sc, (dim + 1) as nat),
                    forall|j: int| idx <= j < len ==> #[trigger] acc@[j] == dist_fold::<D>(point_at(axes, j), query@, sc, dim as nat),
                decreases len - idx,
            {
                let v = D::accumulate(acc[idx], D::dist1(points[dim][idx], query[dim], s));
                proof {
                    assert(point_at(axes, idx as int)[dim as int] == points[dim as int]@[idx as int]);
                }
                acc[idx] = v;
                idx = idx + 1;
            }
            dim = dim + 1;
        }
        // Offer each point to `keep`, in index order.
        let ghost pre = *results;
        proof {
            assert forall|rel: spec_fn(i64, T, R, R, bool) -> bool| (forall|d: i64, t: T, w: &mut R, b: bool| #[trigger] call_ensures(keep, (d, t, w), b) ==> rel(d, t, *w, *final(w), b)) implies #[trigger] rel_scans::<N, T, K, R>(
                rel,
                pre,
                pre,
                cands.take(0),
            ) by {
                lemma_rel_scans_empty::<N, T, K, R>(rel, pre);
                assert(cands.take(0) == Seq::<N>::empty());
            }
        }
        let mut idx: usize = 0;
        while idx < len
            invariant
                idx <= len,
                len == points[0]@.len(),
                items@.len() >= len,
                its == items@.take(len as int),
                acc@.len() == len,
                axes == slice_axes(points),
                forall|d: int| 0 <= d < K ==> #[trigger] axes[d].len() >= len,
                sc == scale_seq(scale),
                cands == candidates::<D, N, T, K>(axes, its, query@, sc),
                forall|j: int| 0 <= j < len ==> #[trigger] acc@[j] == dist_fold::<D>(point_at(axes, j), query@, sc, K as nat),
                keep_callable::<N, T, K, R, F>(keep),
                forall|d: i64, t: T, w: &mut R, b: bool|
                    (*w).inv() && #[trigger] call_ensures(keep, (d, t, w), b) ==> (*final(w)).inv() && (*final(w)).may_add()
                        == (*w).may_add(),
                keep_adds_with_room::<N, T, K, R, F>(keep, cands, pre.may_add()),
                results.inv(),
                results.may_add() == pre.may_add(),
                forall|rel: spec_fn(i64, T, R, R, bool) -> bool|
                    (forall|d: i64, t: T, w: &mut R, b: bool| #[trigger] call_ensures(keep, (d, t, w), b) ==> rel(d, t, *w, *final(w), b)) ==> #[trigger] rel_scans::<N, T, K, R>(rel, pre, *results, cands.take(idx as int)),
            decreases len - idx,
        {
            let ghost cur = *results;
            let ghost cand = cands[idx as int];
            proof {
                N::lemma_entry_of_new(acc@[idx as int], its[idx as int], point_array::<K>(point_at(axes, idx as int)));
                assert(its[idx as int] == items@[idx as int]);
                assert(cand.entry().distance == acc@[idx as int]);
                assert(cand.entry().item == items@[idx as int]);
            }
            let taken = call_keep::<N, T, K, R, F>(&keep, acc[idx], items[idx], results);
            let ghost mid = *results;
            proof {
                if !pre.may_add() {
                    let rel0 = |d: i64, t: T, a: R, m: R, b: bool|
                        (a.inv() && !a.may_add() && d == cand.entry().distance && t == cand.entry().item) ==> !b;
                    assert forall|d: i64, t: T, w: &mut R, b: bool| #[trigger] call_ensures(keep, (d, t, w), b) implies rel0(
                        d,
                        t,
                        *w,
                        *final(w),
                        b,
                    ) by {
                        if (*w).inv() && !(*w).may_add() && d == cand.entry().distance && t == cand.entry().item {
                            assert(call_ensures(
                                keep,
                                (cands[idx as int].entry().distance, cands[idx as int].entry().item, w),
                                b,
                            ));
                        }
                    }
                    assert(rel_holds(rel0, cand.entry().distance, cand.entry().item, cur, mid, taken));
                }
            }
            if taken {
                let mut point: [i64; K] = [0i64; K];
                let mut dim: usize = 0;
                while dim < K
                    invariant
                        dim <= K,
                        idx < len,
                        axes == slice_axes(points),
                        forall|d: int| 0 <= d < K ==> #[trigger] axes[d].len() >= len,
                        forall|d: int| 0 <= d < dim ==> #[trigger] point[d] == point_at(axes, idx as int)[d],
                    decreases K - dim,
                {
                    proof {
                        assert(axes[dim as int] == points[dim as int]@);
                    }
                    point[dim] = points[dim][idx];
                    dim = dim + 1;
                }
                proof {
                    assert(point@ =~= point_at(axes, idx as int));
                    let chosen = point_array::<K>(point_at(axes, idx as int));
                    assert(chosen@ == point_at(axes, idx as int));
                    assert(chosen =~= point);
                }
                let neighbour = N::new(acc[idx], items[idx], point);
                results.add(neighbour);
                proof {
                    assert(neighbour == cand);
                }
            }
            proof {
                assert(cands.take(idx + 1) == cands.take(idx as int).push(cand));
                assert forall|rel: spec_fn(i64, T, R, R, bool) -> bool| (forall|d: i64, t: T, w: &mut R, b: bool| #[trigger] call_ensures(keep, (d, t, w), b) ==> rel(d, t, *w, *final(w), b)) implies #[trigger] rel_scans::<N, T, K, R>(
                    rel,
                    pre,
                    *results,
                    cands.take(idx + 1),
                ) by {
                    assert(rel_holds(rel, cand.entry().distance, cand.entry().item, cur, mid, taken));
                    assert(rel_step::<N, T, K, R>(rel, cur, *results, cand));
                    assert(rel_scans::<N, T, K, R>(rel, pre, cur, cands.take(idx as int)));
                    lemma_rel_scans_push::<N, T, K, R>(rel, pre, cur, *results, cands.take(idx as int), cand);
                }
            }
            idx = idx + 1;
        }
        assert(cands.take(len as int) == cands);
    }
}

/// The points of a k-d tree leaf, stored axis by axis, and their items.
pub struct LeafSlice<'a, T, const K: usize> {
    /// The coordinates of the points, one slice per axis.
    pub content_points: [&'a [i64]; K],
    /// The item of each point.
    pub content_items: &'a [T],
}

/// The index of the first point of least distance (0 when there is none).
pub open spec fn first_min_index(dists: Seq<i64>) -> int
    decreases dists.len(),
{
    if dists.len() <= 1 {
        0
    } else {
        let j = first_min_index(dists.drop_last());
        if dists.last() < dists[j] {
            dists.len() - 1
        } else {
            j
        }
    }
}

/// The distances of candidate entries, in order.
pub open spec fn entry_distances<N: NeighbourEntry<i64, T, K>, T: Copy, const K: usize>(cands: Seq<N>) -> Seq<i64> {
    cands.map_values(|c: N| c.entry().distance)
}

/// `first_min_index` picks an index of the sequence when it is not empty.
pub proof fn lemma_first_min_index_bounds(dists: Seq<i64>)
    requires
        dists.len() > 0,
    ensures
        0 <= first_min_index(dists) < dists.len(),
    decreases dists.len(),
{
    if dists.len() > 1 {
        lemma_first_min_index_bounds(dists.drop_last());
    }
}

proof fn lemma_nearer_prefix<T: Copy, const K: usize>(
    t: Seq<Option<NearestNeighbour<i64, T, K>>>,
    cands: Seq<NearestNeighbour<i64, T, K>>,
    k: nat,
)
    requires
        is_trace::<NearestNeighbour<i64, T, K>, T, K, Option<NearestNeighbour<i64, T, K>>>(
            Admission::Nearer,
            t,
            cands,
        ),
        t[0] is None,
        k <= cands.len(),
    ensures
        t[k as int] == (if k == 0 {
            None
        } else {
            Some(cands[first_min_index(entry_distances(cands).take(k as int))])
        }),
    decreases k,
{
    if k > 0 {
        let i = (k - 1) as int;
        lemma_nearer_prefix::<T, K>(t, cands, (k - 1) as nat);
        let c = cands[i];
        assert(scan_step::<NearestNeighbour<i64, T, K>, T, K, Option<NearestNeighbour<i64, T, K>>>(
            Admission::Nearer,
            t[i],
            t[i + 1],
            c,
        ));
        let (mid, taken) = choose|mid: Option<NearestNeighbour<i64, T, K>>, taken: bool|
            #[trigger] admit_step::<NearestNeighbour<i64, T, K>, T, K, Option<NearestNeighbour<i64, T, K>>>(
                Admission::Nearer,
                t[i],
                mid,
                c.entry().distance,
                c.rank(),
                taken,
            ) && (if taken {
                <Option<NearestNeighbour<i64, T, K>> as ResultCollection<NearestNeighbour<i64, T, K>, T, K>>::added(
                    mid,
                    t[i + 1],
                    c,
                )
            } else {
                t[i + 1] == mid
            });
        let d = entry_distances(cands);
        assert(d.take(k as int).drop_last() == d.take(i));
        if k > 1 {
            let j = first_min_index(d.take(i));
            lemma_first_min_index_bounds(d.take(i));
            assert(d.take(i)[j] == d[j]);
            assert(cands[j].0.distance == d[j]);
        }
    }
}

/// Scanning with the `Nearer` rule into an empty `Option` ends with the
/// first candidate of least distance, or with nothing when there is no
/// candidate.
pub proof fn lemma_nearer_scan<T: Copy, const K: usize>(
    post: Option<NearestNeighbour<i64, T, K>>,
    cands: Seq<NearestNeighbour<i64, T, K>>,
)
    requires
        scans::<NearestNeighbour<i64, T, K>, T, K, Option<NearestNeighbour<i64, T, K>>>(
            Admission::Nearer,
            None,
            post,
            cands,
        ),
    ensures
        post == (if cands.len() == 0 {
            None
        } else {
            Some(cands[first_min_index(entry_distances(cands))])
        }),
{
    let t = choose|t: Seq<Option<NearestNeighbour<i64, T, K>>>|
        #[trigger] is_trace::<NearestNeighbour<i64, T, K>, T, K, Option<NearestNeighbour<i64, T, K>>>(
            Admission::Nearer,
            t,
            cands,
        ) && t[0] == None::<NearestNeighbour<i64, T, K>> && t.last() == post;
    lemma_nearer_prefix::<T, K>(t, cands, cands.len());
    assert(entry_distances(cands).take(cands.len() as int) == entry_distances(cands));
}

impl<'a, T: Copy, const K: usize> LeafSlice<'a, T, K> {
    /// Every axis holds one coordinate per item.
    pub open spec fn wf(&self) -> bool {
        axes_have_len(slice_axes(self.content_points), self.content_items@.len())
    }

    /// The candidate entries of the points for a query, in index order.
    pub open spec fn spec_candidates<D: DistanceMetric, N: NeighbourEntry<i64, T, K>>(
        &self,
        query: &[i64; K],
        scale: Option<&[i64; K]>,
    ) -> Seq<N> {
        candidates::<D, N, T, K>(slice_axes(self.content_points), self.content_items@, query@, scale_seq(scale))
    }

    /// The distances of the points from the query, in index order.
    pub open spec fn distances<D: DistanceMetric>(&self, query: &[i64; K], scale: Option<&[i64; K]>) -> Seq<i64> {
        Seq::new(
            self.content_items@.len(),
            |i: int| point_distance::<D, K>(slice_axes(self.content_points), query@, scale_seq(scale), i),
        )
    }

    /// The coordinates of point `i`.
    pub open spec fn point_seq(&self, i: int) -> Seq<i64> {
        point_at(slice_axes(self.content_points), i)
    }

    /// The number of points.
    pub fn len(&self) -> (r: usize)
        ensures
            r == self.content_items@.len(),
    {
        self.content_items.len()
    }

    /// Makes a leaf slice; every axis must hold one coordinate per item.
    pub fn new(content_points: [&'a [i64]; K], content_items: &'a [T]) -> (r: LeafSlice<'a, T, K>)
        requires
            axes_have_len(slice_axes(content_points), content_items@.len()),
        ensures
            r.content_points == content_points,
            r.content_items == content_items,
            r.wf(),
    {
        LeafSlice { content_items, content_points }
    }

    /// Walks the points in full chunks of `C`.
    pub fn as_full_chunks<const C: usize>(&self) -> (r: LeafFixedSliceIterator<'a, T, K, C>)
        requires
            self.wf(),
            C > 0,
        ensures
            r.wf(),
            r.points == self.content_points,
            r.items == self.content_items,
            r.next_start == 0,
    {
        let n = self.content_items.len();
        proof {
            assert(n % C <= n) by (nonlinear_arith)
                requires
                    C > 0,
            ;
        }
        let full_end = n - n % C;
        proof {
            assert((0int) % (C as int) == 0);
        }
        LeafFixedSliceIterator { points: self.content_points, items: self.content_items, next_start: 0, full_end }
    }

    /// Offers every point, in index order, to `keep`, adding the point's
    /// entry when it returns true: the full chunks first, then the remainder.
    fn scan<
        D: DistanceMetric,
        F: Fn(i64, T, &mut R) -> bool + Copy,
        R: ResultCollection<N, T, K>,
        N: NeighbourEntry<i64, T, K> + Ranked,
    >(
        &self,
        query: &[i64; K],
        scale: Option<&[i64; K]>,
        keep: F,
        results: &mut R,
    )
        requires
            self.wf(),
            K > 0,
            old(results).inv(),
            keep_callable::<N, T, K, R, F>(keep),
            forall|d: i64, t: T, w: &mut R, b: bool|
            (*w).inv() && #[trigger] call_ensures(keep, (d, t, w), b) ==> (*final(w)).inv() && (*final(w)).may_add()
                == (*w).may_add(),
            keep_adds_with_room::<N, T, K, R, F>(
                keep,
                self.spec_candidates::<D, N>(query, scale),
                old(results).may_add(),
            ),
        ensures
            final(results).inv(),
            final(results).may_add() == old(results).may_add(),
            forall|rel: spec_fn(i64, T, R, R, bool) -> bool|
                (forall|d: i64, t: T, w: &mut R, b: bool| #[trigger] call_ensures(keep, (d, t, w), b) ==> rel(d, t, *w, *final(w), b)) ==> #[trigger] rel_scans::<N, T, K, R>(
                    rel,
                    *old(results),
                    *final(results),
                    self.spec_candidates::<D, N>(query, scale),
                ),
    {
        let ghost axes = slice_axes(self.content_points);
        let ghost items = self.content_items@;
        let ghost cands = self.spec_candidates::<D, N>(query, scale);
        let ghost pre = *results;
        let mut chunks_iter = self.as_full_chunks::<CHUNK_SIZE>();
        let (remain_points, remain_items) = chunks_iter.remainder();
        proof {
            assert forall|rel: spec_fn(i64, T, R, R, bool) -> bool| (forall|d: i64, t: T, w: &mut R, b: bool| #[trigger] call_ensures(keep, (d, t, w), b) ==> rel(d, t, *w, *final(w), b)) implies #[trigger] rel_scans::<N, T, K, R>(
                rel,
                pre,
                pre,
                cands.take(0),
            ) by {
                lemma_rel_scans_empty::<N, T, K, R>(rel, pre);
                assert(cands.take(0) == Seq::<N>::empty());
            }
        }
        loop
            invariant
                chunks_iter.wf(),
                chunks_iter.points == self.content_points,
                chunks_iter.items == self.content_items,
                axes == slice_axes(self.content_points),
                items == self.content_items@,
                axes_have_len(axes, items.len()),
                cands == self.spec_candidates::<D, N>(query, scale),
                keep_callable::<N, T, K, R, F>(keep),
                forall|d: i64, t: T, w: &mut R, b: bool|
                    (*w).inv() && #[trigger] call_ensures(keep, (d, t, w), b) ==> (*final(w)).inv() && (*final(w)).may_add()
                        == (*w).may_add(),
                keep_adds_with_room::<N, T, K, R, F>(keep, cands, pre.may_add()),
                results.inv(),
                results.may_add() == pre.may_add(),
                forall|rel: spec_fn(i64, T, R, R, bool) -> bool|
                    (forall|d: i64, t: T, w: &mut R, b: bool| #[trigger] call_ensures(keep, (d, t, w), b) ==> rel(d, t, *w, *final(w), b)) ==> #[trigger] rel_scans::<N, T, K, R>(
                        rel,
                        pre,
                        *results,
                        cands.take(chunks_iter.next_start as int),
                    ),
            ensures
                chunks_iter.next_start == chunks_iter.full_end,
                results.inv(),
                results.may_add() == pre.may_add(),
                forall|rel: spec_fn(i64, T, R, R, bool) -> bool|
                    (forall|d: i64, t: T, w: &mut R, b: bool| #[trigger] call_ensures(keep, (d, t, w), b) ==> rel(d, t, *w, *final(w), b)) ==> #[trigger] rel_scans::<N, T, K, R>(
                        rel,
                        pre,
                        *results,
                        cands.take(chunks_iter.next_start as int),
                    ),
            decreases chunks_iter.full_end - chunks_iter.next_start,
        {
            let ghost start = chunks_iter.next_start;
            match chunks_iter.next() {
                Some((chunk_points, chunk_items)) => {
                    let ghost cur = *results;
                    proof {
                        let sub = chunk_axes(chunk_points);
                        assert forall|d: int| 0 <= d < K implies #[trigger] sub[d] == axes[d].subrange(
                            start as int,
                            start + CHUNK_SIZE,
                        ) by {
                            assert(axes[d] == self.content_points[d]@);
                        }
                        lemma_candidates_subrange::<D, N, T, K>(
                            axes,
                            sub,
                            items,
                            query@,
                            scale_seq(scale),
                            start as int,
                            start + CHUNK_SIZE,
                        );
                        assert(chunk_items@ == items.subrange(start as int, start + CHUNK_SIZE));
                        lemma_adds_with_room_subrange::<N, T, K, R, F>(
                            keep,
                            cands,
                            pre.may_add(),
                            start as int,
                            start + CHUNK_SIZE,
                        );
                    }
                    <i64 as LeafSliceFloatChunk<T, K>>::results_for_chunk::<D, F, R, N, CHUNK_SIZE>(
                        chunk_points,
                        chunk_items,
                        query,
                        scale,
                        keep,
                        results,
                    );
                    proof {
                        assert(cands.take(start as int) + cands.subrange(start as int, start + CHUNK_SIZE)
                            == cands.take(start + CHUNK_SIZE));
                        assert forall|rel: spec_fn(i64, T, R, R, bool) -> bool| (forall|d: i64, t: T, w: &mut R, b: bool| #[trigger] call_ensures(keep, (d, t, w), b) ==> rel(d, t, *w, *final(w), b)) implies #[trigger] rel_scans::<N, T, K, R>(
                            rel,
                            pre,
                            *results,
                            cands.take(start + CHUNK_SIZE),
                        ) by {
                            assert(rel_scans::<N, T, K, R>(rel, pre, cur, cands.take(start as int)));
                            assert(rel_scans::<N, T, K, R>(rel, cur, *results, cands.subrange(start as int, start + CHUNK_SIZE)));
                            lemma_rel_scans_concat::<N, T, K, R>(
                                rel,
                                pre,
                                cur,
                                *results,
                                cands.take(start as int),
                                cands.subrange(start as int, start + CHUNK_SIZE),
                            );
                        }
                    }
                },
                None => {
                    break ;
                },
            }
        }
        let ghost cur = *results;
        let ghost full_end = chunks_iter.full_end;
        proof {
            let sub = slice_axes(remain_points);
            assert forall|d: int| 0 <= d < K implies #[trigger] sub[d] == axes[d].subrange(
                full_end as int,
                items.len() as int,
            ) by {
                assert(axes[d] == self.content_points[d]@);
            }
            assert(remain_points[0]@.len() == remain_items@.len()) by {
                assert(sub[0] == remain_points[0]@);
            }
            assert forall|d: int| 0 <= d < K implies #[trigger] remain_points[d]@.len() >= remain_points[0]@.len() by {
                assert(sub[d] == remain_points[d]@);
                assert(sub[0] == remain_points[0]@);
            }
            assert(remain_items@.take(remain_points[0]@.len() as int) == remain_items@);
            lemma_candidates_subrange::<D, N, T, K>(
                axes,
                sub,
                items,
                query@,
                scale_seq(scale),
                full_end as int,
                items.len() as int,
            );
            lemma_adds_with_room_subrange::<N, T, K, R, F>(
                keep,
                cands,
                pre.may_add(),
                full_end as int,
                items.len() as int,
            );
            assert(remainder_candidates::<D, N, T, K>(remain_points, remain_items, query, scale) == cands.subrange(
                full_end as int,
                items.len() as int,
            ));
        }
        <i64 as LeafSliceFloatChunk<T, K>>::results_for_remainder::<D, F, R, N, CHUNK_SIZE>(
            remain_points,
            remain_items,
            query,
            scale,
            keep,
            results,
        );
        proof {
            assert(cands.take(full_end as int) + cands.subrange(full_end as int, items.len() as int) == cands);
            assert forall|rel: spec_fn(i64, T, R, R, bool) -> bool| (forall|d: i64, t: T, w: &mut R, b: bool| #[trigger] call_ensures(keep, (d, t, w), b) ==> rel(d, t, *w, *final(w), b)) implies #[trigger] rel_scans::<N, T, K, R>(
                rel,
                pre,
                *results,
                cands,
            ) by {
                assert(rel_scans::<N, T, K, R>(rel, pre, cur, cands.take(full_end as int)));
                assert(rel_scans::<N, T, K, R>(rel, cur, *results, cands.subrange(full_end as int, items.len() as int)));
                lemma_rel_scans_concat::<N, T, K, R>(
                    rel,
                    pre,
                    cur,
                    *results,
                    cands.take(full_end as int),
                    cands.subrange(full_end as int, items.len() as int),
                );
            }
        }
    }
}

impl<'a, T: Copy, const K: usize> LeafSlice<'a, T, K> {
    /// Finds the nearest point to the query: the first point of least
    /// distance, whose distance, item and coordinates replace the given ones.
    /// With no points, the given ones stay as they are.
    pub fn nearest_one<D: DistanceMetric>(
        &self,
        query: &[i64; K],
        scale: Option<&[i64; K]>,
        best_dist: &mut i64,
        best_item: &mut T,
        best_point: &mut [i64; K],
    )
        requires
            self.wf(),
            K > 0,
        ensures
            self.content_items@.len() == 0 ==> *final(best_dist) == *old(best_dist) && *final(best_item)
                == *old(best_item) && *final(best_point) == *old(best_point),
            self.content_items@.len() > 0 ==> {
                let j = first_min_index(self.distances::<D>(query, scale));
                &&& 0 <= j < self.content_items@.len()
                &&& *final(best_dist) == self.distances::<D>(query, scale)[j]
                &&& *final(best_item) == self.content_items@[j]
                &&& final(best_point)@ == self.point_seq(j)
            },
    {
        let mut nearest: Option<NearestNeighbour<i64, T, K>> = None;
        let is_nearer = |distance: i64, _item: T, results: &mut Option<NearestNeighbour<i64, T, K>>| -> (r: bool)
            ensures
                *final(results) == *old(results),
                r == (match *old(results) {
                    Some(n) => distance < n.0.distance,
                    None => true,
                }),
            {
                match *results {
                    Some(n) => distance < n.0.distance,
                    None => true,
                }
            };
        let ghost cands = self.spec_candidates::<D, NearestNeighbour<i64, T, K>>(query, scale);
        self.scan::<D, _, Option<NearestNeighbour<i64, T, K>>, NearestNeighbour<i64, T, K>>(
            query,
            scale,
            is_nearer,
            &mut nearest,
        );
        proof {
            let rel = |d: i64, t: T, a: Option<NearestNeighbour<i64, T, K>>, m: Option<NearestNeighbour<i64, T, K>>, b: bool|
                admit_step::<NearestNeighbour<i64, T, K>, T, K, Option<NearestNeighbour<i64, T, K>>>(Admission::Nearer, a, m, d, d as i128, b);
            assert forall|d: i64, t: T, w: &mut Option<NearestNeighbour<i64, T, K>>, b: bool| #[trigger] call_ensures(is_nearer, (d, t, w), b) implies rel(
                d,
                t,
                *w,
                *final(w),
                b,
            ) by {}
            assert(rel_scans::<NearestNeighbour<i64, T, K>, T, K, Option<NearestNeighbour<i64, T, K>>>(rel, None, nearest, cands));
            lemma_rel_scans_rule::<NearestNeighbour<i64, T, K>, T, K, Option<NearestNeighbour<i64, T, K>>>(rel, Admission::Nearer, None, nearest, cands);
            lemma_nearer_scan::<T, K>(nearest, cands);
            assert(entry_distances(cands) =~= self.distances::<D>(query, scale));
            if cands.len() > 0 {
                let j = first_min_index(self.distances::<D>(query, scale));
                lemma_first_min_index_bounds(self.distances::<D>(query, scale));
                lemma_point_array::<K>(self.point_seq(j));
            }
        }
        match nearest {
            Some(nnp) => {
                let (dist, item, point) = <(i64, T, [i64; K]) as From<NearestNeighbour<i64, T, K>>>::from(nnp);
                *best_dist = dist;
                *best_item = item;
                *best_point = point;
            },
            None => {},
        }
    }

    /// Finds the points within `radius` of the query: scans every point's
    /// candidate, in index order, with the `Within` rule into `results`. The
    /// collection must be able to take an add unless no point lies within
    /// the radius.
    pub fn nearest_n_within<D: DistanceMetric, R: ResultCollection<NearestNeighbour<i64, T, K>, T, K>>(
        &self,
        query: &[i64; K],
        radius: i64,
        scale: Option<&[i64; K]>,
        results: &mut R,
    )
        requires
            self.wf(),
            K > 0,
            old(results).inv(),
            old(results).may_add() || forall|i: int|
                0 <= i < self.content_items@.len() ==> #[trigger] self.distances::<D>(query, scale)[i] > radius,
        ensures
            final(results).inv(),
            final(results).may_add() == old(results).may_add(),
            scans::<NearestNeighbour<i64, T, K>, T, K, R>(
                Admission::Within { radius },
                *old(results),
                *final(results),
                self.spec_candidates::<D, NearestNeighbour<i64, T, K>>(query, scale),
            ),
    {
        let within = |distance: i64, _item: T, _results: &mut R| -> (r: bool)
            ensures
                *final(_results) == *old(_results),
                r == (distance <= radius),
            {
                distance <= radius
            };
        let ghost cands = self.spec_candidates::<D, NearestNeighbour<i64, T, K>>(query, scale);
        let ghost pre = *results;
        proof {
            assert forall|j: int| 0 <= j < cands.len() implies #[trigger] cands[j].entry().distance
                == self.distances::<D>(query, scale)[j] by {}
        }
        self.scan::<D, _, R, NearestNeighbour<i64, T, K>>(query, scale, within, results);
        proof {
            let rel = |d: i64, t: T, a: R, m: R, b: bool|
                admit_step::<NearestNeighbour<i64, T, K>, T, K, R>(Admission::Within { radius }, a, m, d, d as i128, b);
            assert forall|d: i64, t: T, w: &mut R, b: bool| #[trigger] call_ensures(within, (d, t, w), b) implies rel(
                d,
                t,
                *w,
                *final(w),
                b,
            ) by {}
            assert(rel_scans::<NearestNeighbour<i64, T, K>, T, K, R>(rel, pre, *results, cands));
            lemma_rel_scans_rule::<NearestNeighbour<i64, T, K>, T, K, R>(rel, Admission::Within { radius }, pre, *results, cands);
        }
    }
}

impl<'a, T: ItemKey, const K: usize> LeafSlice<'a, T, K> {
    /// Finds the best `max_qty` items within `radius` of the query: scans
    /// every point's candidate, in index order, with the `BestWithin` rule
    /// into `results`. The collection must be able to take an add unless
    /// `max_qty` is 0 or no point lies within the radius.
    pub fn best_n_within<D: DistanceMetric, R: ResultCollection<BestNeighbour<i64, T, K>, T, K>>(
        &self,
        query: &[i64; K],
        radius: i64,
        max_qty: usize,
        scale: Option<&[i64; K]>,
        results: &mut R,
    )
        requires
            self.wf(),
            K > 0,
            old(results).inv(),
            old(results).may_add() || max_qty == 0 || forall|i: int|
                0 <= i < self.content_items@.len() ==> #[trigger] self.distances::<D>(query, scale)[i] > radius,
        ensures
            final(results).inv(),
            final(results).may_add() == old(results).may_add(),
            scans::<BestNeighbour<i64, T, K>, T, K, R>(
                Admission::BestWithin { radius, max_qty },
                *old(results),
                *final(results),
                self.spec_candidates::<D, BestNeighbour<i64, T, K>>(query, scale),
            ),
    {
        let n_within = |distance: i64, item: T, results: &mut R| -> (r: bool)
            requires
                old(results).inv(),
            ensures
                final(results).inv(),
                final(results).may_add() == old(results).may_add(),
                admit_step::<BestNeighbour<i64, T, K>, T, K, R>(
                    Admission::BestWithin { radius, max_qty },
                    *old(results),
                    *final(results),
                    distance,
                    item.item_rank(),
                    r,
                ),
            {
                decide::<BestNeighbour<i64, T, K>, T, K, R>(
                    Admission::BestWithin { radius, max_qty },
                    distance,
                    item.item_key(),
                    results,
                )
            };
        let ghost cands = self.spec_candidates::<D, BestNeighbour<i64, T, K>>(query, scale);
        let ghost pre = *results;
        proof {
            assert forall|j: int| 0 <= j < cands.len() implies #[trigger] cands[j].entry().distance
                == self.distances::<D>(query, scale)[j] by {}
            if !pre.may_add() {
                assert forall|j: int, w: &mut R, b: bool|
                    0 <= j < cands.len() && (*w).inv() && !(*w).may_add() && #[trigger] call_ensures(
                        n_within,
                        (cands[j].entry().distance, cands[j].entry().item, w),
                        b,
                    ) implies !b by {
                    (*w).lemma_no_room_is_empty();
                    assert(cands[j].entry().distance == self.distances::<D>(query, scale)[j]);
                }
            }
        }
        self.scan::<D, _, R, BestNeighbour<i64, T, K>>(query, scale, n_within, results);
        proof {
            let rel = |d: i64, t: T, a: R, m: R, b: bool|
                admit_step::<BestNeighbour<i64, T, K>, T, K, R>(Admission::BestWithin { radius, max_qty }, a, m, d, t.item_rank(), b);
            assert forall|d: i64, t: T, w: &mut R, b: bool| #[trigger] call_ensures(n_within, (d, t, w), b) implies rel(
                d,
                t,
                *w,
                *final(w),
                b,
            ) by {}
            assert(rel_scans::<BestNeighbour<i64, T, K>, T, K, R>(rel, pre, *results, cands));
            lemma_rel_scans_rule::<BestNeighbour<i64, T, K>, T, K, R>(rel, Admission::BestWithin { radius, max_qty }, pre, *results, cands);
        }
    }
}

} // verus!
