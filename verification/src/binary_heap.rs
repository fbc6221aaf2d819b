//! A bounded max-heap of neighbour entries, ordered by rank: the result
//! collection that keeps the entries of lowest rank up to its capacity.

use vstd::prelude::*;
use vstd::multiset::Multiset;
use crate::neighbour::{NeighbourEntry, Ranked};
use crate::result_collection::{sort_by_rank, sorted_by_rank, ResultCollection, INFINITY};

verus! {

broadcast use vstd::seq_lib::group_to_multiset_ensures, vstd::multiset::group_multiset_axioms;

/// Every entry ranks at most as high as its parent, the entry at `(i - 1) / 2`.
pub open spec fn heap_ordered<N: Ranked>(s: Seq<N>) -> bool {
    forall|c: int, p: int|
        #![trigger s[c], s[p]]
        0 < c < s.len() && p == (c - 1) / 2 ==> s[c].rank() <= s[p].rank()
}

/// Heap order holds except between `pos` and its parent, and the children of
/// `pos` rank at most as high as the parent of `pos`.
pub open spec fn heap_except_up<N: Ranked>(s: Seq<N>, pos: int) -> bool {
    &&& forall|c: int, p: int|
        #![trigger s[c], s[p]]
        0 < c < s.len() && p == (c - 1) / 2 && c != pos ==> s[c].rank() <= s[p].rank()
    &&& pos > 0 ==> forall|c: int|
        0 < c < s.len() && (c - 1) / 2 == pos ==> #[trigger] s[c].rank() <= s[(pos - 1) / 2].rank()
}

/// Heap order holds except between `pos` and its children, and the children
/// of `pos` rank at most as high as the parent of `pos`.
pub open spec fn heap_except_down<N: Ranked>(s: Seq<N>, pos: int) -> bool {
    &&& forall|c: int, p: int|
        #![trigger s[c], s[p]]
        0 < c < s.len() && p == (c - 1) / 2 && p != pos ==> s[c].rank() <= s[p].rank()
    &&& pos > 0 ==> forall|c: int|
        0 < c < s.len() && (c - 1) / 2 == pos ==> #[trigger] s[c].rank() <= s[(pos - 1) / 2].rank()
}

/// In a heap, no entry ranks above the first.
pub proof fn lemma_heap_top<N: Ranked>(s: Seq<N>, i: int)
    requires
        heap_ordered(s),
        0 <= i < s.len(),
    ensures
        s[i].rank() <= s[0].rank(),
    decreases i,
{
    if i > 0 {
        let p = (i - 1) / 2;
        lemma_heap_top(s, p);
        assert(s[i].rank() <= s[p].rank());
    }
}

/// Swapping two entries keeps the multiset of entries.
proof fn lemma_swap_multiset<N>(s: Seq<N>, i: int, j: int)
    requires
        0 <= i < s.len(),
        0 <= j < s.len(),
    ensures
        s.update(i, s[j]).update(j, s[i]).to_multiset() == s.to_multiset(),
{
    let t = s.update(i, s[j]);
    assert(t.to_multiset() == s.to_multiset().insert(s[j]).remove(s[i]));
    assert(t[j] == (if i == j { s[j] } else { s[j] }));
    assert(t.update(j, s[i]).to_multiset() == t.to_multiset().insert(s[i]).remove(t[j]));
    assert(t.update(j, s[i]).to_multiset() =~= s.to_multiset());
}

/// Swaps the entries at `i` and `j`.
fn swap_entries<N: Copy>(data: &mut Vec<N>, i: usize, j: usize)
    requires
        i < old(data).len(),
        j < old(data).len(),
    ensures
        final(data)@ == old(data)@.update(i as int, old(data)@[j as int]).update(j as int, old(data)@[i as int]),
{
    let a = data[i];
    let b = data[j];
    data.set(i, b);
    data.set(j, a);
}

/// Moves the entry at `pos` up until heap order holds.
fn sift_up<N: Ranked + Copy>(data: &mut Vec<N>, pos: usize)
    requires
        pos < old(data).len(),
        heap_except_up(old(data)@, pos as int),
    ensures
        heap_ordered(final(data)@),
        final(data)@.to_multiset() == old(data)@.to_multiset(),
        final(data)@.len() == old(data)@.len(),
{
    let mut pos = pos;
    while pos > 0
        invariant
            pos < data@.len(),
            data@.len() == old(data)@.len(),
            heap_except_up(data@, pos as int),
            data@.to_multiset() == old(data)@.to_multiset(),
        decreases pos,
    {
        let p = (pos - 1) / 2;
        if data[pos].key() > data[p].key() {
            let ghost s = data@;
            swap_entries(data, pos, p);
            proof {
                lemma_swap_multiset(s, pos as int, p as int);
                let t = data@;
                assert forall|c: int, q: int|
                    #![trigger t[c], t[q]]
                    0 < c < t.len() && q == (c - 1) / 2 && c != p ==> t[c].rank() <= t[q].rank() by {
                    if 0 < c < t.len() && q == (c - 1) / 2 && c != p {
                        if c == pos as int {
                        } else if q == pos as int {
                            assert(s[c].rank() <= s[p as int].rank());
                        } else if q == p as int {
                            assert(s[c].rank() <= s[p as int].rank());
                        } else if c == p as int {
                        } else {
                            assert(s[c].rank() <= s[q].rank());
                        }
                    }
                }
                if p > 0 {
                    let g = (p as int - 1) / 2;
                    assert(s[p as int].rank() <= s[g].rank());
                    assert forall|c: int| 0 < c < t.len() && (c - 1) / 2 == p implies #[trigger] t[c].rank() <= t[g].rank() by {
                        if c != pos as int {
                            assert(s[c].rank() <= s[p as int].rank());
                        }
                    }
                }
            }
            pos = p;
        } else {
            proof {
                let s = data@;
                assert forall|c: int, q: int|
                    #![trigger s[c], s[q]]
                    0 < c < s.len() && q == (c - 1) / 2 implies s[c].rank() <= s[q].rank() by {
                    if c == pos as int {
                    }
                }
            }
            return;
        }
    }
    proof {
        let s = data@;
        assert forall|c: int, q: int|
            #![trigger s[c], s[q]]
            0 < c < s.len() && q == (c - 1) / 2 implies s[c].rank() <= s[q].rank() by {
            assert(c != 0);
        }
    }
}

/// Moves the entry at `pos` down until heap order holds.
fn sift_down<N: Ranked + Copy>(data: &mut Vec<N>, pos: usize)
    requires
        pos < old(data).len(),
        heap_except_down(old(data)@, pos as int),
    ensures
        heap_ordered(final(data)@),
        final(data)@.to_multiset() == old(data)@.to_multiset(),
        final(data)@.len() == old(data)@.len(),
{
    let mut pos = pos;
    let len = data.len();
    loop
        invariant
            pos < len,
            len == data@.len(),
            data@.len() == old(data)@.len(),
            heap_except_down(data@, pos as int),
            data@.to_multiset() == old(data)@.to_multiset(),
        decreases len - pos,
    {
        if pos >= len / 2 {
            proof {
                let s = data@;
                assert forall|c: int, q: int|
                    #![trigger s[c], s[q]]
                    0 < c < s.len() && q == (c - 1) / 2 implies s[c].rank() <= s[q].rank() by {
                    assert(q != pos as int);
                }
            }
            return;
        }
        let l = 2 * pos + 1;
        let r = l + 1;
        let mut m = l;
        if r < len && data[r].key() > data[l].key() {
            m = r;
        }
        if data[m].key() > data[pos].key() {
            let ghost s = data@;
            swap_entries(data, pos, m);
            proof {
                lemma_swap_multiset(s, pos as int, m as int);
                let t = data@;
                assert forall|c: int, q: int|
                    #![trigger t[c], t[q]]
                    0 < c < t.len() && q == (c - 1) / 2 && q != m ==> t[c].rank() <= t[q].rank() by {
                    if 0 < c < t.len() && q == (c - 1) / 2 && q != m {
                        if c == m as int {
                        } else if q == pos as int {
                            assert(c == l || c == r);
                            assert(s[c].rank() <= s[m as int].rank());
                        } else if c == pos as int {
                            assert(s[m as int].rank() <= s[q].rank());
                        } else {
                            assert(s[c].rank() <= s[q].rank());
                        }
                    }
                }
                assert forall|c: int| 0 < c < t.len() && (c - 1) / 2 == m implies #[trigger] t[c].rank() <= t[(m - 1) / 2].rank() by {
                    assert(s[c].rank() <= s[m as int].rank());
                }
            }
            pos = m;
        } else {
            proof {
                let s = data@;
                assert forall|c: int, q: int|
                    #![trigger s[c], s[q]]
                    0 < c < s.len() && q == (c - 1) / 2 implies s[c].rank() <= s[q].rank() by {
                    if q == pos as int {
                        assert(c == l || c == r);
                    }
                }
            }
            return;
        }
    }
}

/// A max-heap of entries ordered by rank, holding at most `limit` entries.
pub struct BinaryHeap<N> {
    data: Vec<N>,
    limit: usize,
}

impl<N> BinaryHeap<N> {
    /// The capacity the heap was made with.
    pub closed spec fn spec_limit(&self) -> nat {
        self.limit as nat
    }

    /// The entries, in heap order.
    pub closed spec fn spec_data(&self) -> Seq<N> {
        self.data@
    }
}

/// `post` holds what a bounded collection of capacity `limit` holds after
/// being offered `entry`, when it held `pre` with `top` as its entry of
/// highest rank: with room, the entry goes in; when full, it replaces `top`
/// if it ranks strictly below it; otherwise nothing changes.
pub open spec fn bounded_absorb<N: Ranked>(pre: Multiset<N>, limit: nat, top: N, entry: N, post: Multiset<N>) -> bool {
    if pre.len() < limit {
        post == pre.insert(entry)
    } else if entry.rank() < top.rank() {
        post == pre.remove(top).insert(entry)
    } else {
        post == pre
    }
}

impl<N: NeighbourEntry<i64, T, K> + Ranked, T: Copy, const K: usize> ResultCollection<N, T, K> for BinaryHeap<N> {
    open spec fn entries(&self) -> Seq<N> {
        self.spec_data()
    }

    open spec fn inv(&self) -> bool {
        &&& heap_ordered(self.spec_data())
        &&& self.spec_data().len() <= self.spec_limit()
    }

    open spec fn accepts_capacity(capacity: usize) -> bool {
        true
    }

    open spec fn may_add(&self) -> bool {
        self.spec_limit() > 0
    }

    open spec fn next_out(&self) -> N {
        self.spec_data()[0]
    }

    open spec fn added(pre: Self, post: Self, entry: N) -> bool {
        &&& post.spec_limit() == pre.spec_limit()
        &&& bounded_absorb(
            pre.spec_data().to_multiset(),
            pre.spec_limit(),
            pre.spec_data()[0],
            entry,
            post.spec_data().to_multiset(),
        )
    }

    open spec fn removed(pre: Self, post: Self) -> bool {
        &&& post.spec_limit() == pre.spec_limit()
        &&& post.spec_data().to_multiset() == pre.spec_data().to_multiset().remove(pre.spec_data()[0])
    }

    open spec fn spec_max_dist(&self) -> i64 {
        if self.spec_data().len() < self.spec_limit() || self.spec_data().len() == 0 {
            INFINITY
        } else {
            self.spec_data()[0].entry().distance
        }
    }

    proof fn lemma_no_room_is_empty(&self) {
    }

    fn new_with_capacity(capacity: usize) -> (r: Self)
        ensures
            r.spec_limit() == capacity,
    {
        BinaryHeap { data: Vec::with_capacity(capacity), limit: capacity }
    }

    fn result_len(&self) -> (r: usize) {
        self.data.len()
    }

    fn result_pop(&mut self) -> (r: Option<N>) {
        match self.data.pop() {
            None => None,
            Some(last) => {
                if self.data.len() == 0 {
                    proof {
                        assert(old(self).data@ == seq![last]);
                        assert(old(self).data@.to_multiset() =~= Multiset::empty().insert(last));
                        assert(self.data@.to_multiset() =~= Multiset::empty());
                        assert(Multiset::<N>::empty().insert(last).remove(last) =~= Multiset::empty());
                    }
                    Some(last)
                } else {
                    let top = self.data[0];
                    let ghost s = self.data@;
                    self.data.set(0, last);
                    proof {
                        assert(old(self).data@ == s.push(last));
                        assert(self.data@ == s.update(0, last));
                        assert(s.to_multiset().insert(last).remove(top) =~= s.update(0, last).to_multiset());
                        assert(old(self).data@.to_multiset() == s.to_multiset().insert(last));
                        let t = self.data@;
                        assert forall|c: int, q: int|
                            #![trigger t[c], t[q]]
                            0 < c < t.len() && q == (c - 1) / 2 && q != 0 ==> t[c].rank() <= t[q].rank() by {
                            if 0 < c < t.len() && q == (c - 1) / 2 && q != 0 {
                                assert(old(self).data@[c] == t[c]);
                                assert(old(self).data@[q] == t[q]);
                            }
                        }
                    }
                    sift_down(&mut self.data, 0);
                    assert(old(self).data@[0] == top);
                    assert(self.data@.to_multiset() == old(self).data@.to_multiset().remove(top));
                    Some(top)
                }
            },
        }
    }

    fn result_peek(&self) -> (r: Option<&N>) {
        if self.data.len() == 0 {
            None
        } else {
            Some(&self.data[0])
        }
    }

    fn add(&mut self, entry: N) {
        let k = self.limit;
        if self.data.len() < k {
            self.data.push(entry);
            proof {
                let s = self.data@;
                let n = s.len() - 1;
                assert forall|c: int, q: int|
                    #![trigger s[c], s[q]]
                    0 < c < s.len() && q == (c - 1) / 2 && c != n ==> s[c].rank() <= s[q].rank() by {
                    if 0 < c < s.len() && q == (c - 1) / 2 && c != n {
                        assert(old(self).data@[c] == s[c]);
                        assert(old(self).data@[q] == s[q]);
                    }
                }
                assert(forall|c: int| 0 < c < s.len() && (c - 1) / 2 == n ==> #[trigger] s[c] != s[c]);
            }
            let last = self.data.len() - 1;
            sift_up(&mut self.data, last);
        } else {
            let top = self.data[0];
            if entry.key() < top.key() {
                let ghost s = self.data@;
                self.data.set(0, entry);
                proof {
                    assert(s.update(0, entry).to_multiset() == s.to_multiset().insert(entry).remove(s[0]));
                    assert(s.to_multiset().insert(entry).remove(s[0]) =~= s.to_multiset().remove(s[0]).insert(entry));
                    let t = self.data@;
                    assert forall|c: int, q: int|
                        #![trigger t[c], t[q]]
                        0 < c < t.len() && q == (c - 1) / 2 && q != 0 ==> t[c].rank() <= t[q].rank() by {
                        if 0 < c < t.len() && q == (c - 1) / 2 && q != 0 {
                            assert(s[c] == t[c]);
                            assert(s[q] == t[q]);
                        }
                    }
                }
                sift_down(&mut self.data, 0);
            }
        }
    }

    fn max_dist(&self) -> (r: i64) {
        if self.data.len() < self.limit || self.data.len() == 0 {
            INFINITY
        } else {
            self.data[0].distance()
        }
    }

    fn into_vec(self) -> (r: Vec<N>)
        ensures
            r@ == self.spec_data(),
    {
        self.data
    }

    fn into_sorted_vec(self) -> (r: Vec<N>) {
        sort_by_rank(self.data)
    }
}

} // verus!
