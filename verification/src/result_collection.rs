//! A common interface for storing zero, one or more neighbour entries while
//! a query runs: a plain `Vec` keeps every entry, `Option` keeps the latest,
//! and the bounded collections (`BinaryHeap`, `SortedResults`) keep the entries
//! of lowest rank up to the capacity they were made with.

use vstd::prelude::*;
use crate::neighbour::{NeighbourEntry, Ranked};

verus! {

broadcast use vstd::seq_lib::group_to_multiset_ensures;

/// The value that stands for an unbounded distance.
pub const INFINITY: i64 = i64::MAX;

/// `s` is in ascending order of rank.
pub open spec fn sorted_by_rank<N: Ranked>(s: Seq<N>) -> bool {
    forall|i: int, j: int| 0 <= i < j < s.len() ==> #[trigger] s[i].rank() <= #[trigger] s[j].rank()
}

/// No entry of `s` ranks above `top`.
pub open spec fn ranks_at_most<N: Ranked>(s: Seq<N>, top: i128) -> bool {
    forall|i: int| 0 <= i < s.len() ==> #[trigger] s[i].rank() <= top
}

/// Whether an entry has rank `k`.
pub open spec fn rank_is<N: Ranked>(k: i128) -> spec_fn(N) -> bool {
    |x: N| x.rank() == k
}

/// `a` and `b` list the entries of each rank in the same order.
pub open spec fn same_order_per_rank<N: Ranked>(a: Seq<N>, b: Seq<N>) -> bool {
    forall|k: i128| #[trigger] a.filter(rank_is::<N>(k)) == b.filter(rank_is::<N>(k))
}

/// Inserting `e` before entries that all rank above it appends `e` to the
/// entries of its rank and leaves the entries of other ranks as they were.
proof fn lemma_insert_filter<N: Ranked>(s: Seq<N>, pos: int, e: N, k: i128)
    requires
        0 <= pos <= s.len(),
        forall|j: int| pos <= j < s.len() ==> #[trigger] s[j].rank() > e.rank(),
    ensures
        s.insert(pos, e).filter(rank_is::<N>(k)) == (if e.rank() == k {
            s.filter(rank_is::<N>(k)).push(e)
        } else {
            s.filter(rank_is::<N>(k))
        }),
{
    let p = rank_is::<N>(k);
    let a = s.take(pos);
    let b = s.skip(pos);
    assert(s == a + b);
    assert(s.insert(pos, e) == a + seq![e] + b);
    Seq::filter_distributes_over_add(a, b, p);
    Seq::filter_distributes_over_add(a + seq![e], b, p);
    Seq::filter_distributes_over_add(a, seq![e], p);
    Seq::<N>::empty().lemma_filter_push(e, p);
    assert(Seq::<N>::empty().push(e) == seq![e]);
    reveal(Seq::filter);
    assert(Seq::<N>::empty().filter(p) == Seq::<N>::empty());
    if e.rank() == k {
        b.lemma_filter_len(p);
        if b.filter(p).len() > 0 {
            let x = b.filter(p)[0];
            b.lemma_filter_pred(p, 0);
            assert(b.filter(p).contains(x));
            b.lemma_filter_contains_rev(p, x);
            assert(b.contains(x));
            let j = choose|j: int| 0 <= j < b.len() && b[j] == x;
            assert(b[j] == s[pos + j]);
        }
        assert(b.filter(p) =~= Seq::<N>::empty());
        assert(a.filter(p) + seq![e] == a.filter(p).push(e));
    }
}

/// A collection of neighbour entries filled while a query runs.
pub trait ResultCollection<N: NeighbourEntry<i64, T, K> + Ranked, T: Copy, const K: usize>: Sized {
    /// The entries held, in the collection's own order.
    spec fn entries(&self) -> Seq<N>;

    /// The collection's internal invariant.
    spec fn inv(&self) -> bool;

    /// The capacities with which a collection can be made.
    spec fn accepts_capacity(capacity: usize) -> bool;

    /// An entry can be added without a panic.
    spec fn may_add(&self) -> bool;

    /// The entry that `result_peek` shows and `result_pop` takes out, when
    /// the collection is not empty.
    spec fn next_out(&self) -> N;

    /// `post` is `pre` after `add(entry)`.
    spec fn added(pre: Self, post: Self, entry: N) -> bool;

    /// `post` is `pre` after `result_pop` took `pre.next_out()` out.
    spec fn removed(pre: Self, post: Self) -> bool;

    /// The value of `max_dist`.
    spec fn spec_max_dist(&self) -> i64;

    /// A valid collection that cannot take an add is empty.
    proof fn lemma_no_room_is_empty(&self)
        ensures
            self.inv() && !self.may_add() ==> self.entries().len() == 0,
    ;

    /// Makes an empty collection.
    fn new_with_capacity(capacity: usize) -> (r: Self)
        requires
            Self::accepts_capacity(capacity),
        ensures
            r.inv(),
            r.entries() == Seq::<N>::empty(),
    ;

    /// The number of entries held.
    fn result_len(&self) -> (r: usize)
        requires
            self.inv(),
        ensures
            r == self.entries().len(),
    ;

    /// Takes out the next entry, if there is one.
    fn result_pop(&mut self) -> (r: Option<N>)
        requires
            old(self).inv(),
        ensures
            final(self).inv(),
            final(self).may_add() == old(self).may_add(),
            old(self).entries().len() == 0 ==> r is None && final(self).entries() == old(self).entries(),
            old(self).entries().len() > 0 ==> r == Some(old(self).next_out()) && Self::removed(
                *old(self),
                *final(self),
            ),
    ;

    /// Shows the next entry, if there is one.
    fn result_peek(&self) -> (r: Option<&N>)
        requires
            self.inv(),
        ensures
            r is None <==> self.entries().len() == 0,
            r matches Some(n) ==> *n == self.next_out(),
    ;

    /// Offers an entry to the collection.
    fn add(&mut self, entry: N)
        requires
            old(self).inv(),
            old(self).may_add(),
        ensures
            final(self).inv(),
            final(self).may_add(),
            Self::added(*old(self), *final(self), entry),
    ;

    /// The distance beyond which no entry would be kept.
    fn max_dist(&self) -> (r: i64)
        requires
            self.inv(),
        ensures
            r == self.spec_max_dist(),
    ;

    /// The entries held, in the collection's own order.
    fn into_vec(self) -> (r: Vec<N>)
        requires
            self.inv(),
        ensures
            r@.to_multiset() == self.entries().to_multiset(),
    ;

    /// The entries held, in ascending order of rank.
    fn into_sorted_vec(self) -> (r: Vec<N>)
        requires
            self.inv(),
        ensures
            r@.to_multiset() == self.entries().to_multiset(),
            sorted_by_rank(r@),
    ;
}

/// Sorts entries by rank, keeping the order of entries of equal rank
/// (insertion sort).
pub fn sort_by_rank<N: Ranked + Copy>(v: Vec<N>) -> (r: Vec<N>)
    ensures
        r@.to_multiset() == v@.to_multiset(),
        sorted_by_rank(r@),
        same_order_per_rank(r@, v@),
{
    let mut out: Vec<N> = Vec::with_capacity(v.len());
    let mut i: usize = 0;
    assert(out@ =~= v@.take(0));
    while i < v.len()
        invariant
            i <= v.len(),
            out@.to_multiset() == v@.take(i as int).to_multiset(),
            sorted_by_rank(out@),
            same_order_per_rank(out@, v@.take(i as int)),
        decreases v.len() - i,
    {
        let e = v[i];
        let k = e.key();
        let mut pos: usize = out.len();
        while pos > 0 && out[pos - 1].key() > k
            invariant
                pos <= out.len(),
                sorted_by_rank(out@),
                forall|j: int| pos <= j < out.len() ==> #[trigger] out@[j].rank() > k,
            decreases pos,
        {
            pos = pos - 1;
        }
        let ghost before = out@;
        out.insert(pos, e);
        proof {
            assert(v@.take(i + 1) == v@.take(i as int).push(e));
            assert(out@ == before.insert(pos as int, e));
            assert forall|q: i128| #[trigger] out@.filter(rank_is::<N>(q)) == v@.take(i + 1).filter(rank_is::<N>(q)) by {
                lemma_insert_filter(before, pos as int, e, q);
                v@.take(i as int).lemma_filter_push(e, rank_is::<N>(q));
            }
            assert forall|a: int, b: int| 0 <= a < b < out@.len() implies #[trigger] out@[a].rank() <= #[trigger] out@[b].rank() by {
                if a < pos && b == pos {
                    assert(out@[a] == before[a]);
                    assert(before[a].rank() <= before[pos - 1].rank());
                } else if a < pos && b > pos {
                    assert(out@[a] == before[a]);
                    assert(out@[b] == before[b - 1]);
                } else if a == pos && b > pos {
                    assert(out@[b] == before[b - 1]);
                } else if b < pos {
                    assert(out@[a] == before[a]);
                    assert(out@[b] == before[b]);
                } else {
                    assert(out@[a] == before[a - 1]);
                    assert(out@[b] == before[b - 1]);
                }
            }
        }
        i = i + 1;
    }
    assert(v@.take(v.len() as int) == v@);
    out
}

impl<N: NeighbourEntry<i64, T, K> + Ranked, T: Copy, const K: usize> ResultCollection<N, T, K> for Vec<N> {
    open spec fn entries(&self) -> Seq<N> {
        self@
    }

    open spec fn inv(&self) -> bool {
        true
    }

    open spec fn accepts_capacity(capacity: usize) -> bool {
        true
    }

    open spec fn may_add(&self) -> bool {
        true
    }

    open spec fn next_out(&self) -> N {
        self@.last()
    }

    open spec fn added(pre: Self, post: Self, entry: N) -> bool {
        post@ == pre@.push(entry)
    }

    open spec fn removed(pre: Self, post: Self) -> bool {
        post@ == pre@.drop_last()
    }

    open spec fn spec_max_dist(&self) -> i64 {
        INFINITY
    }

    proof fn lemma_no_room_is_empty(&self) {
    }

    fn new_with_capacity(capacity: usize) -> (r: Self) {
        Vec::with_capacity(capacity)
    }

    fn result_len(&self) -> (r: usize) {
        self.len()
    }

    fn result_pop(&mut self) -> (r: Option<N>) {
        self.pop()
    }

    fn result_peek(&self) -> (r: Option<&N>) {
        self.last()
    }

    fn add(&mut self, entry: N) {
        self.push(entry)
    }

    fn max_dist(&self) -> (r: i64) {
        INFINITY
    }

    fn into_vec(self) -> (r: Vec<N>)
        ensures
            r@ == self@,
    {
        self
    }

    fn into_sorted_vec(self) -> (r: Vec<N>)
        ensures
            same_order_per_rank(r@, self@),
    {
        sort_by_rank(self)
    }
}

impl<N: NeighbourEntry<i64, T, K> + Ranked, T: Copy, const K: usize> ResultCollection<N, T, K> for Option<N> {
    open spec fn entries(&self) -> Seq<N> {
        match self {
            Some(n) => seq![*n],
            None => Seq::empty(),
        }
    }

    open spec fn inv(&self) -> bool {
        true
    }

    open spec fn accepts_capacity(capacity: usize) -> bool {
        capacity == 1
    }

    open spec fn may_add(&self) -> bool {
        true
    }

    open spec fn next_out(&self) -> N {
        self->0
    }

    open spec fn added(pre: Self, post: Self, entry: N) -> bool {
        post == Some(entry)
    }

    open spec fn removed(pre: Self, post: Self) -> bool {
        post is None
    }

    open spec fn spec_max_dist(&self) -> i64 {
        match self {
            Some(n) => n.entry().distance,
            None => INFINITY,
        }
    }

    proof fn lemma_no_room_is_empty(&self) {
    }

    fn new_with_capacity(capacity: usize) -> (r: Self) {
        None
    }

    fn result_len(&self) -> (r: usize) {
        match self {
            Some(_) => 1,
            None => 0,
        }
    }

    fn result_pop(&mut self) -> (r: Option<N>) {
        match self {
            Some(entry) => {
                let result = *entry;
                *self = None;
                Some(result)
            },
            None => None,
        }
    }

    fn result_peek(&self) -> (r: Option<&N>) {
        self.as_ref()
    }

    fn add(&mut self, entry: N) {
        *self = Some(entry);
    }

    fn max_dist(&self) -> (r: i64) {
        match self {
            Some(n) => n.distance(),
            None => INFINITY,
        }
    }

    fn into_vec(self) -> (r: Vec<N>)
        ensures
            r@ == self.entries(),
    {
        match self {
            Some(n) => {
                let v = vec![n];
                assert(v@ == seq![n]);
                v
            },
            None => Vec::new(),
        }
    }

    fn into_sorted_vec(self) -> (r: Vec<N>) {
        self.into_vec()
    }
}

} // verus!
