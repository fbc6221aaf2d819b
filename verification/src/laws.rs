//! Laws of the leaf scans over the result collections: what a query leaves
//! in a collection, stated over the candidates it scanned.

use vstd::prelude::*;
use vstd::multiset::Multiset;
use crate::binary_heap::{bounded_absorb, heap_ordered, lemma_heap_top, BinaryHeap};
use crate::leaf_slice::{
    admit_step, candidates, chunk_axes, first_min_index, is_trace, remainder_candidates, scale_seq, scan_step,
    scans, slice_axes, Admission, LeafFixedSliceIterator,
};
use crate::distance::DistanceMetric;
use crate::neighbour::{NeighbourEntry, Ranked};
use crate::result_collection::ResultCollection;
use crate::sorted_collection::SortedResults;

verus! {

broadcast use vstd::seq_lib::group_to_multiset_ensures, vstd::multiset::group_multiset_axioms;

/// The candidates whose distance is at most `radius`, in order.
pub open spec fn within_radius<N: NeighbourEntry<i64, T, K>, T: Copy, const K: usize>(
    cands: Seq<N>,
    radius: i64,
) -> Seq<N> {
    cands.filter(within_pred::<N, T, K>(radius))
}

/// Whether a candidate's distance is at most `radius`.
pub open spec fn within_pred<N: NeighbourEntry<i64, T, K>, T: Copy, const K: usize>(radius: i64) -> spec_fn(N) -> bool {
    |c: N| c.entry().distance <= radius
}

/// `chosen` holds the `k` entries of lowest rank among `all` (all of them,
/// when there are fewer than `k`): every entry left out ranks at least as
/// high as every entry chosen.
pub open spec fn keeps_lowest<N: Ranked>(chosen: Multiset<N>, all: Multiset<N>, k: nat) -> bool {
    &&& chosen.subset_of(all)
    &&& chosen.len() == (if all.len() < k {
        all.len()
    } else {
        k
    })
    &&& forall|x: N, y: N|
        #[trigger] chosen.contains(x) && #[trigger] all.sub(chosen).contains(y) ==> x.rank() <= y.rank()
}

/// `m` is a selection of at most `k` entries, full unless nothing is left
/// in `rest`, and no entry of `rest` ranks below an entry of `m`.
spec fn split_lowest<N: Ranked>(m: Multiset<N>, rest: Multiset<N>, k: nat) -> bool {
    &&& m.len() <= k
    &&& (m.len() == k || rest.len() == 0)
    &&& forall|x: N, y: N| #[trigger] m.contains(x) && #[trigger] rest.contains(y) ==> x.rank() <= y.rank()
}

proof fn lemma_split_keeps<N: Ranked>(m: Multiset<N>, rest: Multiset<N>, k: nat)
    requires
        split_lowest(m, rest, k),
    ensures
        keeps_lowest(m, m.add(rest), k),
{
    let all = m.add(rest);
    assert(all.sub(m) =~= rest);
    assert(m.subset_of(all));
}

/// One offer to a bounded selection keeps it a selection of the lowest.
proof fn lemma_split_step<N: Ranked>(m: Multiset<N>, rest: Multiset<N>, k: nat, top: N, e: N) -> (r: (
    Multiset<N>,
    Multiset<N>,
))
    requires
        split_lowest(m, rest, k),
        m.len() > 0 ==> m.contains(top) && forall|x: N| #[trigger] m.contains(x) ==> x.rank() <= top.rank(),
    ensures
        r.0 == (if m.len() < k {
            m.insert(e)
        } else if m.len() > 0 && e.rank() < top.rank() {
            m.remove(top).insert(e)
        } else {
            m
        }),
        split_lowest(r.0, r.1, k),
        r.0.add(r.1) == m.add(rest).insert(e),
{
    if m.len() < k {
        assert(rest =~= Multiset::empty());
        assert(m.insert(e).add(rest) =~= m.add(rest).insert(e));
        (m.insert(e), rest)
    } else if m.len() > 0 && e.rank() < top.rank() {
        let m2 = m.remove(top).insert(e);
        let r2 = rest.insert(top);
        assert(m2.add(r2) =~= m.add(rest).insert(e));
        assert forall|x: N, y: N| #[trigger] m2.contains(x) && #[trigger] r2.contains(y) implies x.rank()
            <= y.rank() by {
            if x != e {
                assert(m.contains(x));
            }
            if y != top {
                assert(rest.contains(y));
            }
        }
        (m2, r2)
    } else {
        let r2 = rest.insert(e);
        assert(m.add(r2) =~= m.add(rest).insert(e));
        assert forall|x: N, y: N| #[trigger] m.contains(x) && #[trigger] r2.contains(y) implies x.rank()
            <= y.rank() by {
            if y != e {
                assert(rest.contains(y));
            }
        }
        (m, r2)
    }
}

/// What a bounded collection needs for the laws: `added` and `removed` act on
/// its multiset of entries as a bounded selection with capacity `limit_of`,
/// and a valid collection's next entry is one of its entries of highest rank.
pub open spec fn bounded_collection<N: NeighbourEntry<i64, T, K> + Ranked, T: Copy, const K: usize, R: ResultCollection<N, T, K>>(
    limit_of: spec_fn(R) -> nat,
) -> bool {
    &&& forall|pre: R, post: R, e: N|
        #[trigger] R::added(pre, post, e) ==> limit_of(post) == limit_of(pre) && bounded_absorb(
            pre.entries().to_multiset(),
            limit_of(pre),
            pre.next_out(),
            e,
            post.entries().to_multiset(),
        )
    &&& forall|pre: R, post: R|
        #[trigger] R::removed(pre, post) ==> limit_of(post) == limit_of(pre) && post.entries().to_multiset()
            == pre.entries().to_multiset().remove(pre.next_out())
    &&& forall|s: R|
        #[trigger] s.inv() && s.entries().len() > 0 ==> s.entries().contains(s.next_out()) && forall|i: int|
            0 <= i < s.entries().len() ==> #[trigger] s.entries()[i].rank() <= s.next_out().rank()
}

proof fn lemma_top_is_max<N: NeighbourEntry<i64, T, K> + Ranked, T: Copy, const K: usize, R: ResultCollection<N, T, K>>(
    limit_of: spec_fn(R) -> nat,
    s: R,
)
    requires
        bounded_collection::<N, T, K, R>(limit_of),
        s.inv(),
    ensures
        s.entries().len() > 0 ==> s.entries().to_multiset().contains(s.next_out()) && forall|x: N|
            #[trigger] s.entries().to_multiset().contains(x) ==> x.rank() <= s.next_out().rank(),
{
    if s.entries().len() > 0 {
        assert(s.entries().contains(s.next_out()));
        assert forall|x: N| #[trigger] s.entries().to_multiset().contains(x) implies x.rank() <= s.next_out().rank() by {
            assert(s.entries().contains(x));
            let i = choose|i: int| 0 <= i < s.entries().len() && s.entries()[i] == x;
        }
    }
}

/// Along a trace of the `Within` rule into a bounded collection of capacity
/// `k > 0` that starts empty, the collection holds the `k` candidates of
/// lowest rank among those within the radius.
proof fn lemma_within_bounded_trace<N: NeighbourEntry<i64, T, K> + Ranked, T: Copy, const K: usize, R: ResultCollection<N, T, K>>(
    radius: i64,
    limit_of: spec_fn(R) -> nat,
    t: Seq<R>,
    cands: Seq<N>,
    j: nat,
) -> (rest: Multiset<N>)
    requires
        bounded_collection::<N, T, K, R>(limit_of),
        is_trace::<N, T, K, R>(Admission::Within { radius }, t, cands),
        t[0].entries().len() == 0,
        limit_of(t[0]) > 0,
        j <= cands.len(),
    ensures
        limit_of(t[j as int]) == limit_of(t[0]),
        split_lowest(t[j as int].entries().to_multiset(), rest, limit_of(t[0])),
        t[j as int].entries().to_multiset().add(rest) == within_radius(cands.take(j as int), radius).to_multiset(),
    decreases j,
{
    let k = limit_of(t[0]);
    if j == 0 {
        assert(cands.take(0) =~= Seq::<N>::empty());
        reveal(Seq::filter);
        assert(t[0].entries().to_multiset() =~= Multiset::empty());
        assert(Multiset::<N>::empty().add(Multiset::empty()) =~= Multiset::empty());
        Multiset::empty()
    } else {
        let i = (j - 1) as int;
        let rest0 = lemma_within_bounded_trace::<N, T, K, R>(radius, limit_of, t, cands, (j - 1) as nat);
        let c = cands[i];
        let pre = t[i];
        let post = t[i + 1];
        let m = pre.entries().to_multiset();
        assert(scan_step::<N, T, K, R>(Admission::Within { radius }, pre, post, c));
        let (mid, taken) = choose|mid: R, taken: bool|
            #[trigger] admit_step::<N, T, K, R>(Admission::Within { radius }, pre, mid, c.entry().distance, c.rank(), taken) && (if taken {
                R::added(mid, post, c)
            } else {
                post == mid
            });
        assert(pre.inv());
        lemma_top_is_max::<N, T, K, R>(limit_of, pre);
        assert(cands.take(j as int) == cands.take(i).push(c));
        cands.take(i).lemma_filter_push(c, within_pred::<N, T, K>(radius));
        let w0 = within_radius(cands.take(i), radius);
        if taken {
            assert(R::added(pre, post, c));
            let (m2, r2) = lemma_split_step(m, rest0, k, pre.next_out(), c);
            assert(within_radius(cands.take(j as int), radius) == w0.push(c));
            r2
        } else {
            assert(within_radius(cands.take(j as int), radius) == w0);
            rest0
        }
    }
}

/// Along a trace of the `BestWithin` rule into a bounded collection whose
/// capacity is at least `max_qty` and that starts empty, the collection holds
/// the `max_qty` candidates of lowest rank among those within the radius.
proof fn lemma_best_within_bounded_trace<N: NeighbourEntry<i64, T, K> + Ranked, T: Copy, const K: usize, R: ResultCollection<N, T, K>>(
    radius: i64,
    max_qty: usize,
    limit_of: spec_fn(R) -> nat,
    t: Seq<R>,
    cands: Seq<N>,
    j: nat,
) -> (rest: Multiset<N>)
    requires
        bounded_collection::<N, T, K, R>(limit_of),
        is_trace::<N, T, K, R>(Admission::BestWithin { radius, max_qty }, t, cands),
        t[0].entries().len() == 0,
        limit_of(t[0]) >= max_qty,
        j <= cands.len(),
    ensures
        limit_of(t[j as int]) == limit_of(t[0]),
        split_lowest(t[j as int].entries().to_multiset(), rest, max_qty as nat),
        t[j as int].entries().to_multiset().add(rest) == within_radius(cands.take(j as int), radius).to_multiset(),
    decreases j,
{
    let k = max_qty as nat;
    let rule = Admission::BestWithin { radius, max_qty };
    if j == 0 {
        assert(cands.take(0) =~= Seq::<N>::empty());
        reveal(Seq::filter);
        assert(t[0].entries().to_multiset() =~= Multiset::empty());
        assert(Multiset::<N>::empty().add(Multiset::empty()) =~= Multiset::empty());
        Multiset::empty()
    } else {
        let i = (j - 1) as int;
        let rest0 = lemma_best_within_bounded_trace::<N, T, K, R>(radius, max_qty, limit_of, t, cands, (j - 1) as nat);
        let c = cands[i];
        let pre = t[i];
        let post = t[i + 1];
        let m = pre.entries().to_multiset();
        assert(scan_step::<N, T, K, R>(rule, pre, post, c));
        let (mid, taken) = choose|mid: R, taken: bool|
            #[trigger] admit_step::<N, T, K, R>(rule, pre, mid, c.entry().distance, c.rank(), taken) && (if taken {
                R::added(mid, post, c)
            } else {
                post == mid
            });
        assert(pre.inv());
        lemma_top_is_max::<N, T, K, R>(limit_of, pre);
        assert(cands.take(j as int) == cands.take(i).push(c));
        cands.take(i).lemma_filter_push(c, within_pred::<N, T, K>(radius));
        let w0 = within_radius(cands.take(i), radius);
        assert(m.len() == pre.entries().len());
        if c.entry().distance > radius {
            assert(within_radius(cands.take(j as int), radius) == w0);
            rest0
        } else {
            assert(within_radius(cands.take(j as int), radius) == w0.push(c));
            if pre.entries().len() < max_qty {
                assert(R::added(pre, post, c));
                let (m2, r2) = lemma_split_step(m, rest0, k, pre.next_out(), c);
                r2
            } else if pre.entries().len() > 0 && c.rank() < pre.next_out().rank() {
                assert(R::removed(pre, mid));
                assert(R::added(mid, post, c));
                assert(mid.entries().to_multiset() == m.remove(pre.next_out()));
                assert(mid.entries().to_multiset().len() == m.len() - 1);
                let (m2, r2) = lemma_split_step(m, rest0, k, pre.next_out(), c);
                r2
            } else {
                let (m2, r2) = lemma_split_step(m, rest0, k, pre.next_out(), c);
                r2
            }
        }
    }
}

/// A binary heap is a bounded collection, of capacity `spec_limit`.
proof fn lemma_heap_bounded<N: NeighbourEntry<i64, T, K> + Ranked, T: Copy, const K: usize>()
    ensures
        bounded_collection::<N, T, K, BinaryHeap<N>>(|h: BinaryHeap<N>| h.spec_limit()),
{
    assert forall|s: BinaryHeap<N>|
        #[trigger] <BinaryHeap<N> as ResultCollection<N, T, K>>::inv(&s) && s.spec_data().len() > 0 implies s.spec_data().contains(
        s.spec_data()[0],
    ) && forall|i: int| 0 <= i < s.spec_data().len() ==> #[trigger] s.spec_data()[i].rank() <= s.spec_data()[0].rank() by {
        assert(heap_ordered(s.spec_data()));
        assert forall|i: int| 0 <= i < s.spec_data().len() implies #[trigger] s.spec_data()[i].rank() <= s.spec_data()[0].rank() by {
            lemma_heap_top(s.spec_data(), i);
        }
    }
}

/// A sorted collection is a bounded collection, of capacity `spec_limit`.
proof fn lemma_sorted_bounded<N: NeighbourEntry<i64, T, K> + Ranked, T: Copy, const K: usize>()
    ensures
        bounded_collection::<N, T, K, SortedResults<N>>(|v: SortedResults<N>| v.spec_limit()),
{
    assert forall|s: SortedResults<N>|
        #[trigger] <SortedResults<N> as ResultCollection<N, T, K>>::inv(&s) && s.spec_view().len() > 0 implies s.spec_view().contains(
        s.spec_view().last(),
    ) && forall|i: int| 0 <= i < s.spec_view().len() ==> #[trigger] s.spec_view()[i].rank() <= s.spec_view().last().rank() by {
        s.lemma_sorted();
        assert(s.spec_view()[s.spec_view().len() - 1] == s.spec_view().last());
    }
}

/// `first_min_index` picks the first point of least distance: no point is
/// nearer, and every point before it is strictly farther.
pub proof fn law_first_min_index_is_first_nearest(dists: Seq<i64>)
    requires
        dists.len() > 0,
    ensures
        0 <= first_min_index(dists) < dists.len(),
        forall|i: int| 0 <= i < dists.len() ==> dists[first_min_index(dists)] <= #[trigger] dists[i],
        forall|i: int| 0 <= i < first_min_index(dists) ==> dists[first_min_index(dists)] < #[trigger] dists[i],
    decreases dists.len(),
{
    if dists.len() > 1 {
        let prefix = dists.drop_last();
        law_first_min_index_is_first_nearest(prefix);
        let j = first_min_index(prefix);
        assert(prefix[j] == dists[j]);
        assert forall|i: int| 0 <= i < dists.len() - 1 implies prefix[i] == #[trigger] dists[i] by {}
    }
}

/// Scanning with the `Within` rule into a `Vec` appends every candidate
/// within the radius, in order, and nothing else.
pub proof fn law_within_vec_keeps_all_within<N: NeighbourEntry<i64, T, K> + Ranked, T: Copy, const K: usize>(
    radius: i64,
    pre: Vec<N>,
    post: Vec<N>,
    cands: Seq<N>,
)
    requires
        scans::<N, T, K, Vec<N>>(Admission::Within { radius }, pre, post, cands),
    ensures
        post@ == pre@ + within_radius(cands, radius),
{
    let t = choose|t: Seq<Vec<N>>|
        #[trigger] is_trace::<N, T, K, Vec<N>>(Admission::Within { radius }, t, cands) && t[0] == pre && t.last()
            == post;
    lemma_within_vec_trace::<N, T, K>(radius, t, cands, cands.len());
    assert(cands.take(cands.len() as int) == cands);
}

proof fn lemma_within_vec_trace<N: NeighbourEntry<i64, T, K> + Ranked, T: Copy, const K: usize>(
    radius: i64,
    t: Seq<Vec<N>>,
    cands: Seq<N>,
    j: nat,
)
    requires
        is_trace::<N, T, K, Vec<N>>(Admission::Within { radius }, t, cands),
        j <= cands.len(),
    ensures
        t[j as int]@ == t[0]@ + within_radius(cands.take(j as int), radius),
    decreases j,
{
    if j == 0 {
        assert(cands.take(0) =~= Seq::<N>::empty());
        reveal(Seq::filter);
        assert(t[0]@ + Seq::<N>::empty() =~= t[0]@);
    } else {
        let i = (j - 1) as int;
        lemma_within_vec_trace::<N, T, K>(radius, t, cands, (j - 1) as nat);
        let c = cands[i];
        assert(scan_step::<N, T, K, Vec<N>>(Admission::Within { radius }, t[i], t[i + 1], c));
        let (mid, taken) = choose|mid: Vec<N>, taken: bool|
            #[trigger] admit_step::<N, T, K, Vec<N>>(Admission::Within { radius }, t[i], mid, c.entry().distance, c.rank(), taken) && (if taken {
                <Vec<N> as ResultCollection<N, T, K>>::added(mid, t[i + 1], c)
            } else {
                t[i + 1] == mid
            });
        assert(cands.take(j as int) == cands.take(i).push(c));
        cands.take(i).lemma_filter_push(c, within_pred::<N, T, K>(radius));
        let w0 = within_radius(cands.take(i), radius);
        if taken {
            assert(t[0]@ + w0.push(c) =~= (t[0]@ + w0).push(c));
        }
    }
}

/// Scanning with the `Within` rule into an empty binary heap of capacity
/// `k > 0` leaves the `k` candidates of lowest rank among those within the
/// radius (all of them, when fewer).
pub proof fn law_within_heap_keeps_lowest<N: NeighbourEntry<i64, T, K> + Ranked, T: Copy, const K: usize>(
    radius: i64,
    pre: BinaryHeap<N>,
    post: BinaryHeap<N>,
    cands: Seq<N>,
)
    requires
        scans::<N, T, K, BinaryHeap<N>>(Admission::Within { radius }, pre, post, cands),
        pre.spec_data().len() == 0,
        pre.spec_limit() > 0,
    ensures
        post.spec_limit() == pre.spec_limit(),
        keeps_lowest(
            post.spec_data().to_multiset(),
            within_radius(cands, radius).to_multiset(),
            pre.spec_limit(),
        ),
{
    let limit_of = |h: BinaryHeap<N>| h.spec_limit();
    lemma_heap_bounded::<N, T, K>();
    let t = choose|t: Seq<BinaryHeap<N>>|
        #[trigger] is_trace::<N, T, K, BinaryHeap<N>>(Admission::Within { radius }, t, cands) && t[0] == pre
            && t.last() == post;
    let rest = lemma_within_bounded_trace::<N, T, K, BinaryHeap<N>>(radius, limit_of, t, cands, cands.len());
    assert(cands.take(cands.len() as int) == cands);
    lemma_split_keeps(post.spec_data().to_multiset(), rest, pre.spec_limit());
}

/// Scanning with the `Within` rule into an empty sorted collection of
/// capacity `k > 0` leaves the `k` candidates of lowest rank among those
/// within the radius (all of them, when fewer).
pub proof fn law_within_sorted_keeps_lowest<N: NeighbourEntry<i64, T, K> + Ranked, T: Copy, const K: usize>(
    radius: i64,
    pre: SortedResults<N>,
    post: SortedResults<N>,
    cands: Seq<N>,
)
    requires
        scans::<N, T, K, SortedResults<N>>(Admission::Within { radius }, pre, post, cands),
        pre.spec_view().len() == 0,
        pre.spec_limit() > 0,
    ensures
        post.spec_limit() == pre.spec_limit(),
        keeps_lowest(
            post.spec_view().to_multiset(),
            within_radius(cands, radius).to_multiset(),
            pre.spec_limit(),
        ),
{
    let limit_of = |v: SortedResults<N>| v.spec_limit();
    lemma_sorted_bounded::<N, T, K>();
    let t = choose|t: Seq<SortedResults<N>>|
        #[trigger] is_trace::<N, T, K, SortedResults<N>>(Admission::Within { radius }, t, cands) && t[0] == pre
            && t.last() == post;
    let rest = lemma_within_bounded_trace::<N, T, K, SortedResults<N>>(radius, limit_of, t, cands, cands.len());
    assert(cands.take(cands.len() as int) == cands);
    lemma_split_keeps(post.spec_view().to_multiset(), rest, pre.spec_limit());
}

/// Scanning with the `BestWithin` rule into an empty binary heap whose
/// capacity is at least `max_qty` leaves the `max_qty` candidates of lowest
/// rank among those within the radius (all of them, when fewer).
pub proof fn law_best_within_heap_keeps_lowest<N: NeighbourEntry<i64, T, K> + Ranked, T: Copy, const K: usize>(
    radius: i64,
    max_qty: usize,
    pre: BinaryHeap<N>,
    post: BinaryHeap<N>,
    cands: Seq<N>,
)
    requires
        scans::<N, T, K, BinaryHeap<N>>(Admission::BestWithin { radius, max_qty }, pre, post, cands),
        pre.spec_data().len() == 0,
        pre.spec_limit() >= max_qty,
    ensures
        keeps_lowest(post.spec_data().to_multiset(), within_radius(cands, radius).to_multiset(), max_qty as nat),
{
    let limit_of = |h: BinaryHeap<N>| h.spec_limit();
    lemma_heap_bounded::<N, T, K>();
    let t = choose|t: Seq<BinaryHeap<N>>|
        #[trigger] is_trace::<N, T, K, BinaryHeap<N>>(Admission::BestWithin { radius, max_qty }, t, cands)
            && t[0] == pre && t.last() == post;
    let rest = lemma_best_within_bounded_trace::<N, T, K, BinaryHeap<N>>(
        radius,
        max_qty,
        limit_of,
        t,
        cands,
        cands.len(),
    );
    assert(cands.take(cands.len() as int) == cands);
    lemma_split_keeps(post.spec_data().to_multiset(), rest, max_qty as nat);
}

/// Scanning with the `BestWithin` rule into an empty sorted collection whose
/// capacity is at least `max_qty` leaves the `max_qty` candidates of lowest
/// rank among those within the radius (all of them, when fewer).
pub proof fn law_best_within_sorted_keeps_lowest<N: NeighbourEntry<i64, T, K> + Ranked, T: Copy, const K: usize>(
    radius: i64,
    max_qty: usize,
    pre: SortedResults<N>,
    post: SortedResults<N>,
    cands: Seq<N>,
)
    requires
        scans::<N, T, K, SortedResults<N>>(Admission::BestWithin { radius, max_qty }, pre, post, cands),
        pre.spec_view().len() == 0,
        pre.spec_limit() >= max_qty,
    ensures
        keeps_lowest(post.spec_view().to_multiset(), within_radius(cands, radius).to_multiset(), max_qty as nat),
{
    let limit_of = |v: SortedResults<N>| v.spec_limit();
    lemma_sorted_bounded::<N, T, K>();
    let t = choose|t: Seq<SortedResults<N>>|
        #[trigger] is_trace::<N, T, K, SortedResults<N>>(Admission::BestWithin { radius, max_qty }, t, cands)
            && t[0] == pre && t.last() == post;
    let rest = lemma_best_within_bounded_trace::<N, T, K, SortedResults<N>>(
        radius,
        max_qty,
        limit_of,
        t,
        cands,
        cands.len(),
    );
    assert(cands.take(cands.len() as int) == cands);
    lemma_split_keeps(post.spec_view().to_multiset(), rest, max_qty as nat);
}

/// `states` is a run of adds: every state is valid, and `states[i + 1]` is
/// `states[i]` after `add(entries[i])`.
pub open spec fn is_add_run<N: NeighbourEntry<i64, T, K> + Ranked, T: Copy, const K: usize, R: ResultCollection<N, T, K>>(
    states: Seq<R>,
    entries: Seq<N>,
) -> bool {
    &&& states.len() == entries.len() + 1
    &&& forall|i: int| 0 <= i < states.len() ==> (#[trigger] states[i]).inv()
    &&& forall|i: int| 0 <= i < entries.len() ==> R::added(states[i], states[i + 1], #[trigger] entries[i])
}

/// A sequence all of whose elements satisfy `p` is its own filter.
proof fn lemma_filter_keeps_all<A>(s: Seq<A>, p: spec_fn(A) -> bool)
    requires
        forall|i: int| 0 <= i < s.len() ==> p(#[trigger] s[i]),
    ensures
        s.filter(p) == s,
    decreases s.len(),
{
    reveal(Seq::filter);
    if s.len() > 0 {
        lemma_filter_keeps_all(s.drop_last(), p);
        assert(s.drop_last().push(s.last()) == s);
    } else {
        assert(s =~= Seq::<A>::empty());
    }
}

/// A run of adds is a scan with the `Within` rule for the largest radius,
/// which takes every entry.
proof fn lemma_add_run_is_scan<N: NeighbourEntry<i64, T, K> + Ranked, T: Copy, const K: usize, R: ResultCollection<N, T, K>>(
    states: Seq<R>,
    entries: Seq<N>,
)
    requires
        is_add_run::<N, T, K, R>(states, entries),
    ensures
        is_trace::<N, T, K, R>(Admission::Within { radius: i64::MAX }, states, entries),
        within_radius(entries, i64::MAX) == entries,
{
    assert forall|i: int| 0 <= i < entries.len() implies scan_step::<N, T, K, R>(
        Admission::Within { radius: i64::MAX },
        states[i],
        states[i + 1],
        #[trigger] entries[i],
    ) by {
        let c = entries[i];
        assert(admit_step::<N, T, K, R>(
            Admission::Within { radius: i64::MAX },
            states[i],
            states[i],
            c.entry().distance,
            c.rank(),
            true,
        ));
        assert(R::added(states[i], states[i + 1], c));
    }
    lemma_filter_keeps_all(entries, within_pred::<N, T, K>(i64::MAX));
}

/// A binary heap of capacity `k > 0`, filled from empty by adding
/// `entries` one after another, holds the `min(k, m)` entries of lowest rank
/// among the `m` added.
pub proof fn law_heap_adds_keep_lowest<N: NeighbourEntry<i64, T, K> + Ranked, T: Copy, const K: usize>(
    states: Seq<BinaryHeap<N>>,
    entries: Seq<N>,
)
    requires
        is_add_run::<N, T, K, BinaryHeap<N>>(states, entries),
        states[0].spec_data().len() == 0,
        states[0].spec_limit() > 0,
    ensures
        keeps_lowest(states.last().spec_data().to_multiset(), entries.to_multiset(), states[0].spec_limit()),
{
    lemma_add_run_is_scan::<N, T, K, BinaryHeap<N>>(states, entries);
    assert(scans::<N, T, K, BinaryHeap<N>>(Admission::Within { radius: i64::MAX }, states[0], states.last(), entries));
    law_within_heap_keeps_lowest::<N, T, K>(i64::MAX, states[0], states.last(), entries);
}

/// A sorted collection of capacity `k > 0`, filled from empty by adding
/// `entries` one after another, holds the `min(k, m)` entries of lowest rank
/// among the `m` added.
pub proof fn law_sorted_adds_keep_lowest<N: NeighbourEntry<i64, T, K> + Ranked, T: Copy, const K: usize>(
    states: Seq<SortedResults<N>>,
    entries: Seq<N>,
)
    requires
        is_add_run::<N, T, K, SortedResults<N>>(states, entries),
        states[0].spec_view().len() == 0,
        states[0].spec_limit() > 0,
    ensures
        keeps_lowest(states.last().spec_view().to_multiset(), entries.to_multiset(), states[0].spec_limit()),
{
    lemma_add_run_is_scan::<N, T, K, SortedResults<N>>(states, entries);
    assert(scans::<N, T, K, SortedResults<N>>(
        Admission::Within { radius: i64::MAX },
        states[0],
        states.last(),
        entries,
    ));
    law_within_sorted_keeps_lowest::<N, T, K>(i64::MAX, states[0], states.last(), entries);
}

/// The candidates within a radius are those within a larger radius that are
/// also within the smaller one: what a `Within` scan keeps for a radius is a
/// subsequence of what it keeps for any larger radius.
pub proof fn law_within_radius_monotone<N: NeighbourEntry<i64, T, K>, T: Copy, const K: usize>(
    cands: Seq<N>,
    r1: i64,
    r2: i64,
)
    requires
        r1 <= r2,
    ensures
        within_radius(cands, r1) == within_radius(cands, r2).filter(within_pred::<N, T, K>(r1)),
    decreases cands.len(),
{
    let p1 = within_pred::<N, T, K>(r1);
    let p2 = within_pred::<N, T, K>(r2);
    if cands.len() == 0 {
        reveal(Seq::filter);
        assert(cands.filter(p1) =~= Seq::<N>::empty());
        assert(cands.filter(p2) =~= Seq::<N>::empty());
        assert(Seq::<N>::empty().filter(p1) =~= Seq::<N>::empty());
    } else {
        let s = cands.drop_last();
        let c = cands.last();
        law_within_radius_monotone::<N, T, K>(s, r1, r2);
        assert(s.push(c) == cands);
        s.lemma_filter_push(c, p1);
        s.lemma_filter_push(c, p2);
        s.filter(p2).lemma_filter_push(c, p1);
    }
}

/// A full chunk and the same points given as slices yield the same
/// candidates: the chunk scan and the remainder scan, given the same data,
/// the same inclusion function and the same collection, are stated to
/// reach the same collections.
pub proof fn law_chunk_and_remainder_agree<D: DistanceMetric, N: NeighbourEntry<i64, T, K>, T: Copy, const K: usize, const C: usize>(
    points: [&[i64; C]; K],
    items: &[T; C],
    slices: [&[i64]; K],
    slice_items: &[T],
    query: &[i64; K],
    scale: Option<&[i64; K]>,
)
    requires
        K > 0,
        forall|d: int| 0 <= d < K ==> #[trigger] slices[d]@ == points[d]@,
        slice_items@ == items@,
    ensures
        candidates::<D, N, T, K>(chunk_axes(points), items@, query@, scale_seq(scale)) == remainder_candidates::<
            D,
            N,
            T,
            K,
        >(slices, slice_items, query, scale),
{
    assert(chunk_axes(points) =~= slice_axes(slices));
    assert(slices[0]@ == points[0]@);
    assert(slice_items@.take(slices[0]@.len() as int) =~= items@);
}

/// Where the `j`-th full chunk of `c` points starts.
pub open spec fn chunk_start(j: int, c: int) -> int {
    j * c
}

/// A chunk iterator walks `n / C` full chunks, the `j`-th covering points
/// `j * C .. (j + 1) * C`, all before `full_end`, and leaves fewer than `C`
/// points as remainder.
pub proof fn law_chunks_split<'a, T, const K: usize, const C: usize>(it: LeafFixedSliceIterator<'a, T, K, C>)
    requires
        it.wf(),
    ensures
        it.full_end == chunk_start((it.items@.len() as int) / (C as int), C as int),
        0 <= it.items@.len() - it.full_end < C,
        forall|j: int|
            0 <= j < (it.items@.len() as int) / (C as int) ==> #[trigger] chunk_start(j, C as int) + C
                <= it.full_end,
{
    let n = it.items@.len() as int;
    let c = C as int;
    vstd::arithmetic::div_mod::lemma_fundamental_div_mod(n, c);
    assert(0 <= n % c < c) by (nonlinear_arith)
        requires
            c > 0,
            n >= 0,
    ;
    assert((n / c) * c == c * (n / c)) by (nonlinear_arith);
    assert forall|j: int| 0 <= j < n / c implies #[trigger] chunk_start(j, c) + C <= it.full_end by {
        assert(j * c + c <= (n / c) * c) by (nonlinear_arith)
            requires
                0 <= j < n / c,
                c > 0,
        ;
    }
}

} // verus!
