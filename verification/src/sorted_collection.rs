//! A bounded result collection kept in ascending order of rank, built on the
//! `sorted-vec` crate's `SortedVec`.
//!
//! The sorted vector holds one key per entry: the entry's rank and the slot
//! where the entry is stored. The keys are ordered as tuples, so entries come
//! out in ascending order of rank.

use vstd::prelude::*;
use vstd::multiset::Multiset;
use crate::binary_heap::bounded_absorb;
use crate::neighbour::{NeighbourEntry, Ranked};
use crate::result_collection::{sorted_by_rank, ResultCollection, INFINITY};

verus! {

broadcast use vstd::seq_lib::group_to_multiset_ensures, vstd::multiset::group_multiset_axioms;

#[verifier::external_type_specification]
#[verifier::external_body]
#[verifier::reject_recursive_types(T)]
pub struct ExSortedVec<T: Ord>(::sorted_vec::SortedVec<T>);

/// The keys that a sorted vector of keys holds, in its order.
pub uninterp spec fn sorted_keys(v: ::sorted_vec::SortedVec<(i128, u64)>) -> Seq<(i128, u64)>;

/// The order of keys: first by rank, then by slot.
pub open spec fn key_le(a: (i128, u64), b: (i128, u64)) -> bool {
    a.0 < b.0 || (a.0 == b.0 && a.1 <= b.1)
}

/// The keys are in ascending order.
pub open spec fn keys_sorted(s: Seq<(i128, u64)>) -> bool {
    forall|i: int, j: int| 0 <= i < j < s.len() ==> key_le(#[trigger] s[i], #[trigger] s[j])
}

/// `SortedVec::with_capacity`: an empty sorted vector.
#[verifier::external_body]
fn keys_with_capacity(capacity: usize) -> (r: ::sorted_vec::SortedVec<(i128, u64)>)
    ensures
        sorted_keys(r) == Seq::<(i128, u64)>::empty(),
{
    ::sorted_vec::SortedVec::with_capacity(capacity)
}

/// `SortedVec::len` (through `Deref` to `Vec`): the number of keys.
#[verifier::external_body]
fn keys_len(v: &::sorted_vec::SortedVec<(i128, u64)>) -> (r: usize)
    ensures
        r == sorted_keys(*v).len(),
{
    v.len()
}

/// `SortedVec::last` (through `Deref` to `Vec`): the last key, if any.
#[verifier::external_body]
fn keys_last(v: &::sorted_vec::SortedVec<(i128, u64)>) -> (r: Option<(i128, u64)>)
    ensures
        sorted_keys(*v).len() == 0 ==> r is None,
        sorted_keys(*v).len() > 0 ==> r == Some(sorted_keys(*v).last()),
{
    v.last().copied()
}

/// `SortedVec::insert`: inserts the key at the position that a binary search
/// finds, and returns that position. Stated for a sorted vector only, where
/// that position keeps it sorted; of an unsorted one nothing is said.
#[verifier::external_body]
fn keys_insert(v: &mut ::sorted_vec::SortedVec<(i128, u64)>, key: (i128, u64)) -> (r: usize)
    ensures
        keys_sorted(sorted_keys(*old(v))) ==> {
            &&& r <= sorted_keys(*old(v)).len()
            &&& sorted_keys(*final(v)) == sorted_keys(*old(v)).insert(r as int, key)
            &&& keys_sorted(sorted_keys(*final(v)))
        },
{
    v.insert(key)
}

/// `SortedVec::push`: appends the key when it is not below the last one,
/// and otherwise inserts it as `insert` does; returns its position. Stated
/// for a sorted vector only.
#[verifier::external_body]
fn keys_push(v: &mut ::sorted_vec::SortedVec<(i128, u64)>, key: (i128, u64)) -> (r: usize)
    ensures
        keys_sorted(sorted_keys(*old(v))) ==> {
            &&& r <= sorted_keys(*old(v)).len()
            &&& sorted_keys(*final(v)) == sorted_keys(*old(v)).insert(r as int, key)
            &&& keys_sorted(sorted_keys(*final(v)))
        },
{
    v.push(key)
}

/// `SortedVec::pop`: takes out the last key, if any.
#[verifier::external_body]
fn keys_pop(v: &mut ::sorted_vec::SortedVec<(i128, u64)>) -> (r: Option<(i128, u64)>)
    ensures
        sorted_keys(*old(v)).len() == 0 ==> r is None && sorted_keys(*final(v)) == sorted_keys(*old(v)),
        sorted_keys(*old(v)).len() > 0 ==> r == Some(sorted_keys(*old(v)).last()) && sorted_keys(*final(v))
            == sorted_keys(*old(v)).drop_last(),
{
    v.pop()
}

/// `SortedVec::remove_item`: in a sorted vector, finds the key by binary
/// search and removes it; returns it, or `None` when it is absent.
#[verifier::external_body]
fn keys_remove_item(v: &mut ::sorted_vec::SortedVec<(i128, u64)>, key: &(i128, u64)) -> (r: Option<(i128, u64)>)
    ensures
        keys_sorted(sorted_keys(*old(v))) ==> {
            &&& (r is Some <==> sorted_keys(*old(v)).contains(*key))
            &&& r is None ==> sorted_keys(*final(v)) == sorted_keys(*old(v))
            &&& r is Some ==> r == Some(*key) && exists|i: int|
                0 <= i < sorted_keys(*old(v)).len() && sorted_keys(*old(v))[i] == *key && sorted_keys(*final(v))
                    == sorted_keys(*old(v)).remove(i)
        },
{
    v.remove_item(key)
}

/// `SortedVec::into_vec`: the keys, in order.
#[verifier::external_body]
fn keys_into_vec(v: ::sorted_vec::SortedVec<(i128, u64)>) -> (r: Vec<(i128, u64)>)
    ensures
        r@ == sorted_keys(v),
{
    v.into_vec()
}

/// The entries that keys `ks` point to in store `es`, in key order.
pub open spec fn view_of<N>(ks: Seq<(i128, u64)>, es: Seq<N>) -> Seq<N> {
    Seq::new(ks.len(), |i: int| es[ks[i].1 as int])
}

/// The keys index the store: one key per stored entry, each slot once, and
/// each key carries the rank of the entry in its slot.
pub open spec fn keys_index<N: Ranked>(ks: Seq<(i128, u64)>, es: Seq<N>) -> bool {
    &&& ks.len() == es.len()
    &&& forall|i: int| 0 <= i < ks.len() ==> (#[trigger] ks[i]).1 < es.len() && ks[i].0 == es[ks[i].1 as int].rank()
    &&& forall|i: int, j: int|
        0 <= i < ks.len() && 0 <= j < ks.len() && i != j ==> (#[trigger] ks[i]).1 != (#[trigger] ks[j]).1
}

/// Removing a key keeps the keys sorted.
proof fn lemma_sorted_remove(ks: Seq<(i128, u64)>, i: int)
    requires
        keys_sorted(ks),
        0 <= i < ks.len(),
    ensures
        keys_sorted(ks.remove(i)),
{
    let r = ks.remove(i);
    assert forall|a: int, b: int| 0 <= a < b < r.len() implies key_le(#[trigger] r[a], #[trigger] r[b]) by {
        let a0 = if a < i { a } else { a + 1 };
        let b0 = if b < i { b } else { b + 1 };
        assert(r[a] == ks[a0]);
        assert(r[b] == ks[b0]);
    }
}

/// Sorted keys that index a store list the entries in ascending order of rank.
proof fn lemma_view_sorted<N: Ranked>(ks: Seq<(i128, u64)>, es: Seq<N>)
    requires
        keys_sorted(ks),
        keys_index(ks, es),
    ensures
        sorted_by_rank(view_of(ks, es)),
{
    let v = view_of(ks, es);
    assert forall|i: int, j: int| 0 <= i < j < v.len() implies #[trigger] v[i].rank() <= #[trigger] v[j].rank() by {
        assert(key_le(ks[i], ks[j]));
    }
}

/// A collection kept in ascending order of rank, holding at most `limit`
/// entries: the entries sit in a store, and a `SortedVec` holds one key
/// (rank, slot) per entry.
pub struct SortedResults<N> {
    keys: ::sorted_vec::SortedVec<(i128, u64)>,
    store: Vec<N>,
    limit: usize,
}

impl<N: Ranked + Copy> SortedResults<N> {
    /// The capacity the collection was made with.
    pub closed spec fn spec_limit(&self) -> nat {
        self.limit as nat
    }

    /// The entries, in ascending order of rank.
    pub closed spec fn spec_view(&self) -> Seq<N> {
        view_of(sorted_keys(self.keys), self.store@)
    }

    /// The keys are sorted and index the store, which fits the capacity.
    pub closed spec fn well_formed(&self) -> bool {
        &&& keys_sorted(sorted_keys(self.keys))
        &&& keys_index(sorted_keys(self.keys), self.store@)
        &&& self.store@.len() <= self.limit
    }

    /// A well-formed collection lists its entries in ascending order of rank.
    pub proof fn lemma_sorted(&self)
        requires
            self.well_formed(),
        ensures
            sorted_by_rank(self.spec_view()),
            self.spec_view().len() <= self.spec_limit(),
    {
        lemma_view_sorted(sorted_keys(self.keys), self.store@);
    }

    /// Stores an entry and its key; the key goes in by `push` or by `insert`.
    fn store_entry(&mut self, entry: N, by_push: bool)
        requires
            old(self).well_formed(),
            old(self).store@.len() < old(self).limit,
        ensures
            final(self).well_formed(),
            final(self).limit == old(self).limit,
            final(self).spec_view().to_multiset() == old(self).spec_view().to_multiset().insert(entry),
    {
        let ghost ks = sorted_keys(self.keys);
        let ghost es = self.store@;
        let slot = self.store.len();
        let key = (entry.key(), slot as u64);
        let pos = if by_push {
            keys_push(&mut self.keys, key)
        } else {
            keys_insert(&mut self.keys, key)
        };
        self.store.push(entry);
        proof {
            let ks2 = sorted_keys(self.keys);
            let es2 = self.store@;
            assert(ks2 == ks.insert(pos as int, key));
            assert(es2 == es.push(entry));
            assert forall|i: int| 0 <= i < ks2.len() implies (#[trigger] ks2[i]).1 < es2.len() && ks2[i].0
                == es2[ks2[i].1 as int].rank() by {
                if i < pos {
                    assert(ks2[i] == ks[i]);
                } else if i > pos {
                    assert(ks2[i] == ks[i - 1]);
                }
            }
            assert forall|i: int, j: int|
                0 <= i < ks2.len() && 0 <= j < ks2.len() && i != j implies (#[trigger] ks2[i]).1 != (
            #[trigger] ks2[j]).1 by {
                let i0 = if i < pos { i } else { i - 1 };
                let j0 = if j < pos { j } else { j - 1 };
                if i != pos {
                    assert(ks2[i] == ks[i0]);
                }
                if j != pos {
                    assert(ks2[j] == ks[j0]);
                }
            }
            assert(view_of(ks2, es2) =~= view_of(ks, es).insert(pos as int, entry)) by {
                assert forall|i: int| 0 <= i < ks2.len() implies view_of(ks2, es2)[i] == view_of(ks, es).insert(
                    pos as int,
                    entry,
                )[i] by {
                    if i < pos {
                        assert(ks2[i] == ks[i]);
                    } else if i > pos {
                        assert(ks2[i] == ks[i - 1]);
                    }
                }
            }
        }
    }

    /// Takes out the entry of highest rank (the last one).
    fn take_last(&mut self) -> (r: N)
        requires
            old(self).well_formed(),
            old(self).store@.len() > 0,
        ensures
            final(self).well_formed(),
            final(self).limit == old(self).limit,
            r == old(self).spec_view().last(),
            final(self).spec_view().to_multiset() == old(self).spec_view().to_multiset().remove(r),
            final(self).store@.len() == old(self).store@.len() - 1,
    {
        let ghost ks0 = sorted_keys(self.keys);
        let ghost es0 = self.store@;
        let n = self.store.len();
        let popped = keys_pop(&mut self.keys);
        let (_, s) = popped.unwrap();
        proof {
            assert(ks0[ks0.len() - 1].1 == s);
        }
        let slot = s as usize;
        let out = self.store.swap_remove(slot);
        if slot < n - 1 {
            // The entry of the last slot moved to `slot`: re-key it.
            let moved = self.store[slot];
            let rank = moved.key();
            let old_key = (rank, (n - 1) as u64);
            let ghost ks1 = sorted_keys(self.keys);
            proof {
                lemma_last_slot_key(ks0, es0);
            }
            let _ = keys_remove_item(&mut self.keys, &old_key);
            let ghost ks2 = sorted_keys(self.keys);
            let ghost i = choose|i: int| 0 <= i < ks1.len() && ks1[i] == old_key && ks2 == ks1.remove(i);
            proof {
                lemma_sorted_remove(ks1, i);
            }
            let new_key = (rank, slot as u64);
            let pos = keys_insert(&mut self.keys, new_key);
            proof {
                lemma_rekey(ks0, es0, i, pos as int);
            }
        } else {
            proof {
                lemma_drop_last_slot(ks0, es0);
            }
        }
        out
    }
}

/// The key of the last slot is among the keys other than the last one, when
/// the last key names another slot.
proof fn lemma_last_slot_key<N: Ranked>(ks0: Seq<(i128, u64)>, es0: Seq<N>)
    requires
        keys_index(ks0, es0),
        0 < es0.len() <= u64::MAX,
        ks0.last().1 < es0.len() - 1,
    ensures
        ks0.drop_last().contains((es0.last().rank(), (es0.len() - 1) as u64)),
{
    let n = es0.len();
    lemma_slots_cover(ks0, n);
    assert(slot_used(ks0, n - 1));
    let k = choose|k: int| 0 <= k < ks0.len() && ks0[k].1 == n - 1;
    assert(k != ks0.len() - 1);
    assert(ks0.drop_last()[k] == ks0[k]);
}

/// Taking out the last key, when it names the last slot, keeps the keys
/// indexing the shortened store and lists the other entries.
proof fn lemma_drop_last_slot<N: Ranked>(ks0: Seq<(i128, u64)>, es0: Seq<N>)
    requires
        keys_sorted(ks0),
        keys_index(ks0, es0),
        es0.len() > 0,
        ks0.last().1 == es0.len() - 1,
    ensures
        keys_sorted(ks0.drop_last()),
        keys_index(ks0.drop_last(), es0.update(ks0.last().1 as int, es0.last()).drop_last()),
        view_of(ks0, es0).last() == es0[ks0.last().1 as int],
        view_of(ks0.drop_last(), es0.update(ks0.last().1 as int, es0.last()).drop_last()).to_multiset()
            == view_of(ks0, es0).to_multiset().remove(es0[ks0.last().1 as int]),
{
    let ks1 = ks0.drop_last();
    let es1 = es0.update(ks0.last().1 as int, es0.last()).drop_last();
    let v0 = view_of(ks0, es0);
    lemma_sorted_remove(ks0, ks0.len() - 1);
    assert(ks0.remove(ks0.len() - 1) =~= ks1);
    assert(es1 =~= es0.drop_last());
    assert forall|j: int| 0 <= j < ks1.len() implies (#[trigger] ks1[j]).1 < es1.len() by {
        assert(ks1[j] == ks0[j]);
        assert(ks0[j].1 != ks0[ks0.len() - 1].1);
    }
    assert(view_of(ks1, es1) =~= v0.drop_last());
    assert(v0 =~= v0.drop_last().push(v0.last()));
}

/// Re-keying the entry that moved from the last slot to the freed slot keeps
/// the keys indexing the store and lists the other entries.
#[verifier::rlimit(40)]
proof fn lemma_rekey<N: Ranked>(ks0: Seq<(i128, u64)>, es0: Seq<N>, i: int, pos: int)
    requires
        keys_sorted(ks0),
        keys_index(ks0, es0),
        0 < es0.len() <= u64::MAX,
        ks0.last().1 < es0.len() - 1,
        0 <= i < ks0.len() - 1,
        ks0[i] == (es0.last().rank(), (es0.len() - 1) as u64),
        0 <= pos <= ks0.len() - 2,
    ensures
        ({
            let slot = ks0.last().1 as int;
            let es1 = es0.update(slot, es0.last()).drop_last();
            let ks3 = ks0.drop_last().remove(i).insert(pos, (es0.last().rank(), slot as u64));
            &&& keys_index(ks3, es1)
            &&& view_of(ks0, es0).last() == es0[slot]
            &&& view_of(ks3, es1).to_multiset() == view_of(ks0, es0).to_multiset().remove(es0[slot])
        }),
{
    let n = es0.len();
    let slot = ks0.last().1 as int;
    let moved = es0.last();
    let es1 = es0.update(slot, moved).drop_last();
    let ks1 = ks0.drop_last();
    let ks2 = ks1.remove(i);
    let new_key = (moved.rank(), slot as u64);
    let ks3 = ks2.insert(pos, new_key);
    let v0 = view_of(ks0, es0);
    let w1 = view_of(ks1, es0);
    // Every remaining key other than the re-keyed one names a slot below
    // `n - 1` other than `slot`, whose entry did not move.
    assert forall|j: int| 0 <= j < ks2.len() implies (#[trigger] ks2[j]).1 != slot && ks2[j].1 < n - 1 && es1[
        ks2[j].1 as int] == es0[ks2[j].1 as int] by {
        let j1 = if j < i { j } else { j + 1 };
        assert(ks2[j] == ks1[j1]);
        assert(ks1[j1] == ks0[j1]);
        assert(ks0[j1].1 != ks0[ks0.len() - 1].1);
        assert(ks0[j1].1 != ks0[i].1);
    }
    assert forall|j: int| 0 <= j < ks3.len() implies (#[trigger] ks3[j]).1 < es1.len() && ks3[j].0
        == es1[ks3[j].1 as int].rank() by {
        if j < pos {
            assert(ks3[j] == ks2[j]);
            let j1 = if j < i { j } else { j + 1 };
            assert(ks2[j] == ks0[j1]);
        } else if j > pos {
            assert(ks3[j] == ks2[j - 1]);
            let j1 = if j - 1 < i { j - 1 } else { j };
            assert(ks2[j - 1] == ks0[j1]);
        }
    }
    assert forall|a: int, b: int|
        0 <= a < ks3.len() && 0 <= b < ks3.len() && a != b implies (#[trigger] ks3[a]).1 != (#[trigger] ks3[b]).1 by {
        let a2 = if a < pos { a } else { a - 1 };
        let b2 = if b < pos { b } else { b - 1 };
        if a != pos && b != pos {
            let a1 = if a2 < i { a2 } else { a2 + 1 };
            let b1 = if b2 < i { b2 } else { b2 + 1 };
            assert(ks3[a] == ks2[a2]);
            assert(ks3[b] == ks2[b2]);
            assert(ks2[a2] == ks0[a1]);
            assert(ks2[b2] == ks0[b1]);
        } else if a == pos {
            assert(ks3[b] == ks2[b2]);
        } else {
            assert(ks3[a] == ks2[a2]);
        }
    }
    // The listed entries: the last one went out, the moved one changed place.
    assert(view_of(ks2, es1) =~= w1.remove(i)) by {
        assert forall|j: int| 0 <= j < ks2.len() implies view_of(ks2, es1)[j] == w1.remove(i)[j] by {
            let j1 = if j < i { j } else { j + 1 };
            assert(ks2[j] == ks1[j1]);
        }
    }
    assert(view_of(ks3, es1) =~= view_of(ks2, es1).insert(pos, moved)) by {
        assert forall|j: int| 0 <= j < ks3.len() implies view_of(ks3, es1)[j] == view_of(ks2, es1).insert(
            pos,
            moved,
        )[j] by {
            if j < pos {
                assert(ks3[j] == ks2[j]);
            } else if j > pos {
                assert(ks3[j] == ks2[j - 1]);
            }
        }
    }
    assert(ks1[i] == ks0[i]);
    assert(ks1[i].1 as int == n - 1);
    assert(w1[i] == es0[n - 1]);
    assert(w1[i] == moved);
    assert(w1 =~= v0.drop_last());
    assert(v0 =~= v0.drop_last().push(v0.last()));
    assert(w1.remove(i).to_multiset() == w1.to_multiset().remove(moved));
    assert(w1.to_multiset().remove(moved).insert(moved) =~= w1.to_multiset());
}

/// Some key names slot `s`.
pub open spec fn slot_used(ks: Seq<(i128, u64)>, s: int) -> bool {
    exists|k: int| 0 <= k < ks.len() && ks[k].1 == s
}

/// The slots of keys that index a store cover every slot of the store.
proof fn lemma_slots_cover(ks: Seq<(i128, u64)>, n: nat)
    requires
        ks.len() == n,
        forall|i: int| 0 <= i < ks.len() ==> (#[trigger] ks[i]).1 < n,
        forall|i: int, j: int|
            0 <= i < ks.len() && 0 <= j < ks.len() && i != j ==> (#[trigger] ks[i]).1 != (#[trigger] ks[j]).1,
    ensures
        forall|s: int| 0 <= s < n ==> #[trigger] slot_used(ks, s),
{
    let range = vstd::set_lib::set_int_range(0, n as int);
    let f = |k: int| ks[k].1 as int;
    let img = range.map(f);
    vstd::set_lib::lemma_int_range(0, n as int);
    assert(vstd::relations::injective_on(f, range));
    vstd::set_lib::lemma_map_size(range, img, f);
    assert(img.subset_of(range)) by {
        assert forall|y: int| img.contains(y) implies range.contains(y) by {
            let x = choose|x: int| range.contains(x) && f(x) == y;
        }
    }
    vstd::set_lib::lemma_subset_equality(img, range);
    assert forall|s: int| 0 <= s < n implies #[trigger] slot_used(ks, s) by {
        assert(range.contains(s));
        assert(img.contains(s));
        let x = choose|x: int| range.contains(x) && f(x) == s;
        assert(ks[x].1 == s);
    }
}

impl<N: NeighbourEntry<i64, T, K> + Ranked, T: Copy, const K: usize> ResultCollection<N, T, K> for SortedResults<N> {
    open spec fn entries(&self) -> Seq<N> {
        self.spec_view()
    }

    open spec fn inv(&self) -> bool {
        self.well_formed()
    }

    open spec fn accepts_capacity(capacity: usize) -> bool {
        true
    }

    open spec fn may_add(&self) -> bool {
        self.spec_limit() > 0
    }

    open spec fn next_out(&self) -> N {
        self.spec_view().last()
    }

    open spec fn added(pre: Self, post: Self, entry: N) -> bool {
        &&& post.spec_limit() == pre.spec_limit()
        &&& bounded_absorb(
            pre.spec_view().to_multiset(),
            pre.spec_limit(),
            pre.spec_view().last(),
            entry,
            post.spec_view().to_multiset(),
        )
    }

    open spec fn removed(pre: Self, post: Self) -> bool {
        &&& post.spec_limit() == pre.spec_limit()
        &&& post.spec_view().to_multiset() == pre.spec_view().to_multiset().remove(pre.spec_view().last())
    }

    open spec fn spec_max_dist(&self) -> i64 {
        if self.spec_view().len() < self.spec_limit() || self.spec_view().len() == 0 {
            INFINITY
        } else {
            self.spec_view().last().entry().distance
        }
    }

    proof fn lemma_no_room_is_empty(&self) {
    }

    fn new_with_capacity(capacity: usize) -> (r: Self)
        ensures
            r.spec_limit() == capacity,
    {
        SortedResults { keys: keys_with_capacity(capacity), store: Vec::with_capacity(capacity), limit: capacity }
    }

    fn result_len(&self) -> (r: usize) {
        keys_len(&self.keys)
    }

    fn result_pop(&mut self) -> (r: Option<N>) {
        if self.store.len() == 0 {
            None
        } else {
            Some(self.take_last())
        }
    }

    fn result_peek(&self) -> (r: Option<&N>) {
        match keys_last(&self.keys) {
            Some((_, slot)) => Some(&self.store[slot as usize]),
            None => None,
        }
    }

    fn add(&mut self, entry: N) {
        let len = keys_len(&self.keys);
        if len < self.limit {
            self.store_entry(entry, false);
            proof {
                assert(old(self).spec_view().to_multiset().len() == old(self).spec_view().len());
            }
        } else {
            let last = keys_last(&self.keys);
            let (last_rank, _) = last.unwrap();
            if entry.key() < last_rank {
                let _ = self.take_last();
                self.store_entry(entry, true);
            }
            proof {
                assert(old(self).spec_view().to_multiset().len() == old(self).spec_view().len());
                let ks = sorted_keys(old(self).keys);
                assert(old(self).spec_view().last() == old(self).store@[ks.last().1 as int]);
                assert(ks.last().0 == old(self).spec_view().last().rank());
            }
        }
    }

    fn max_dist(&self) -> (r: i64) {
        let len = keys_len(&self.keys);
        if len < self.limit || len == 0 {
            INFINITY
        } else {
            let (_, slot) = keys_last(&self.keys).unwrap();
            self.store[slot as usize].distance()
        }
    }

    fn into_vec(self) -> (r: Vec<N>)
        ensures
            r@ == self.spec_view(),
    {
        let keys = keys_into_vec(self.keys);
        let mut out: Vec<N> = Vec::with_capacity(keys.len());
        let mut i: usize = 0;
        while i < keys.len()
            invariant
                i <= keys@.len(),
                keys@ == sorted_keys(self.keys),
                keys_index(keys@, self.store@),
                out@ == view_of(keys@, self.store@).take(i as int),
            decreases keys.len() - i,
        {
            let (_, slot) = keys[i];
            out.push(self.store[slot as usize]);
            proof {
                assert(view_of(keys@, self.store@).take(i + 1) == view_of(keys@, self.store@).take(i as int).push(
                    self.store@[slot as int],
                ));
            }
            i = i + 1;
        }
        assert(view_of(keys@, self.store@).take(keys@.len() as int) == view_of(keys@, self.store@));
        out
    }

    fn into_sorted_vec(self) -> (r: Vec<N>) {
        proof {
            self.lemma_sorted();
        }
        self.into_vec()
    }
}

} // verus!
