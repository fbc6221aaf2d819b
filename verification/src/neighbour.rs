//! Neighbour records for search results and queries.
//!
//! `Neighbour` holds a distance, an item and the point's coordinates.
//! `NearestNeighbour` orders neighbours by distance (ascending), for nearest
//! neighbour queries; `BestNeighbour` orders them by item (ascending), for
//! "best n within" queries.

use vstd::prelude::*;
use vstd::std_specs::cmp::{PartialOrdSpec, PartialOrdSpecImpl};
use vstd::std_specs::convert::{FromSpec, FromSpecImpl};
use std::cmp::Ordering;

verus! {

/// Common operations of neighbour entries.
pub trait NeighbourEntry<A: Copy, T: Copy, const K: usize>: Sized + Copy {
    /// The distance, item and point that the entry holds.
    spec fn entry(&self) -> Neighbour<A, T, K>;

    /// The entry that `new` builds from these parts.
    spec fn spec_new(distance: A, item: T, point: [A; K]) -> Self;

    /// The entry that `spec_new` describes holds the parts it was given.
    proof fn lemma_entry_of_new(distance: A, item: T, point: [A; K])
        ensures
            Self::spec_new(distance, item, point).entry() == (Neighbour { distance, item, point }),
    ;

    /// Builds an entry from a distance, an item and a point.
    fn new(distance: A, item: T, point: [A; K]) -> (r: Self)
        ensures
            r == Self::spec_new(distance, item, point),
            r.entry() == (Neighbour { distance, item, point }),
    ;

    /// The distance value.
    fn distance(&self) -> (r: A)
        ensures
            r == self.entry().distance,
    ;

    /// The item value.
    fn item(&self) -> (r: T)
        ensures
            r == self.entry().item,
    ;

    /// The point coordinates.
    fn point(&self) -> (r: &[A; K])
        ensures
            *r == self.entry().point,
    ;
}

/// A neighbour: its distance from the query, its item and its coordinates.
#[derive(Debug, Copy, Clone, PartialEq)]
pub struct Neighbour<A, T, const K: usize> {
    /// Distance from the query point
    pub distance: A,
    /// Item identifier or index
    pub item: T,
    /// Coordinates of the point
    pub point: [A; K],
}

impl<A: Copy, T: Copy, const K: usize> Neighbour<A, T, K> {
    /// Creates a neighbour from a distance, an item and a point.
    pub fn new(distance: A, item: T, point: [A; K]) -> (r: Self)
        ensures
            r == (Neighbour { distance, item, point }),
    {
        Neighbour { distance, item, point }
    }
}

impl<A: Copy, T: Copy, const K: usize> NeighbourEntry<A, T, K> for Neighbour<A, T, K> {
    open spec fn entry(&self) -> Neighbour<A, T, K> {
        *self
    }

    open spec fn spec_new(distance: A, item: T, point: [A; K]) -> Self {
        Neighbour { distance, item, point }
    }

    proof fn lemma_entry_of_new(distance: A, item: T, point: [A; K]) {
    }

    fn new(distance: A, item: T, point: [A; K]) -> (r: Self) {
        Neighbour { distance, item, point }
    }

    fn distance(&self) -> (r: A) {
        self.distance
    }

    fn item(&self) -> (r: T) {
        self.item
    }

    fn point(&self) -> (r: &[A; K]) {
        &self.point
    }
}

/// A neighbour ordered by distance (ascending), for nearest neighbour queries.
#[derive(Debug, Copy, Clone, PartialEq)]
pub struct NearestNeighbour<A, T, const K: usize>(pub Neighbour<A, T, K>);

impl<A: Copy, T: Copy, const K: usize> NearestNeighbour<A, T, K> {
    /// Creates a nearest neighbour from a distance, an item and a point.
    pub fn new(distance: A, item: T, point: [A; K]) -> (r: Self)
        ensures
            r == NearestNeighbour(Neighbour { distance, item, point }),
    {
        NearestNeighbour(Neighbour { distance, item, point })
    }
}

impl<A: Copy, T: Copy, const K: usize> NeighbourEntry<A, T, K> for NearestNeighbour<A, T, K> {
    open spec fn entry(&self) -> Neighbour<A, T, K> {
        self.0
    }

    open spec fn spec_new(distance: A, item: T, point: [A; K]) -> Self {
        NearestNeighbour(Neighbour { distance, item, point })
    }

    proof fn lemma_entry_of_new(distance: A, item: T, point: [A; K]) {
    }

    fn new(distance: A, item: T, point: [A; K]) -> (r: Self) {
        NearestNeighbour(Neighbour { distance, item, point })
    }

    fn distance(&self) -> (r: A) {
        self.0.distance
    }

    fn item(&self) -> (r: T) {
        self.0.item
    }

    fn point(&self) -> (r: &[A; K]) {
        &self.0.point
    }
}

impl<A: Copy + PartialOrd, T: Copy + PartialEq, const K: usize> PartialOrd for NearestNeighbour<A, T, K> {
    fn partial_cmp(&self, other: &Self) -> (r: Option<Ordering>) {
        self.0.distance.partial_cmp(&other.0.distance)
    }
}

impl<A: Copy + PartialOrd, T: Copy + PartialEq, const K: usize> PartialOrdSpecImpl for NearestNeighbour<A, T, K> {
    open spec fn obeys_partial_cmp_spec() -> bool {
        A::obeys_partial_cmp_spec()
    }

    open spec fn partial_cmp_spec(&self, other: &Self) -> Option<Ordering> {
        self.0.distance.partial_cmp_spec(&other.0.distance)
    }
}

impl<A: Copy + PartialEq, T: Copy + PartialEq, const K: usize> Eq for NearestNeighbour<A, T, K> {

}

impl<A: Copy, T: Copy, const K: usize> From<NearestNeighbour<A, T, K>> for (A, T) {
    fn from(neighbour: NearestNeighbour<A, T, K>) -> (r: (A, T)) {
        (neighbour.0.distance, neighbour.0.item)
    }
}

impl<A: Copy, T: Copy, const K: usize> FromSpecImpl<NearestNeighbour<A, T, K>> for (A, T) {
    open spec fn obeys_from_spec() -> bool {
        true
    }

    open spec fn from_spec(neighbour: NearestNeighbour<A, T, K>) -> (A, T) {
        (neighbour.0.distance, neighbour.0.item)
    }
}

impl<A: Copy, T: Copy, const K: usize> From<NearestNeighbour<A, T, K>> for (A, T, [A; K]) {
    fn from(neighbour: NearestNeighbour<A, T, K>) -> (r: (A, T, [A; K])) {
        (neighbour.0.distance, neighbour.0.item, neighbour.0.point)
    }
}

impl<A: Copy, T: Copy, const K: usize> FromSpecImpl<NearestNeighbour<A, T, K>> for (A, T, [A; K]) {
    open spec fn obeys_from_spec() -> bool {
        true
    }

    open spec fn from_spec(neighbour: NearestNeighbour<A, T, K>) -> (A, T, [A; K]) {
        (neighbour.0.distance, neighbour.0.item, neighbour.0.point)
    }
}

/// A neighbour ordered by item (ascending), for "best n within" queries.
#[derive(Debug, Copy, Clone, PartialEq)]
pub struct BestNeighbour<A, T, const K: usize>(pub Neighbour<A, T, K>);

impl<A: Copy, T: Copy, const K: usize> BestNeighbour<A, T, K> {
    /// Creates a best neighbour from a distance, an item and a point.
    pub fn new(distance: A, item: T, point: [A; K]) -> (r: Self)
        ensures
            r == BestNeighbour(Neighbour { distance, item, point }),
    {
        BestNeighbour(Neighbour { distance, item, point })
    }
}

impl<A: Copy, T: Copy, const K: usize> NeighbourEntry<A, T, K> for BestNeighbour<A, T, K> {
    open spec fn entry(&self) -> Neighbour<A, T, K> {
        self.0
    }

    open spec fn spec_new(distance: A, item: T, point: [A; K]) -> Self {
        BestNeighbour(Neighbour { distance, item, point })
    }

    proof fn lemma_entry_of_new(distance: A, item: T, point: [A; K]) {
    }

    fn new(distance: A, item: T, point: [A; K]) -> (r: Self) {
        BestNeighbour(Neighbour { distance, item, point })
    }

    fn distance(&self) -> (r: A) {
        self.0.distance
    }

    fn item(&self) -> (r: T) {
        self.0.item
    }

    fn point(&self) -> (r: &[A; K]) {
        &self.0.point
    }
}

impl<A: Copy + PartialEq, T: Copy + PartialOrd, const K: usize> PartialOrd for BestNeighbour<A, T, K> {
    fn partial_cmp(&self, other: &Self) -> (r: Option<Ordering>) {
        self.0.item.partial_cmp(&other.0.item)
    }
}

impl<A: Copy + PartialEq, T: Copy + PartialOrd, const K: usize> PartialOrdSpecImpl for BestNeighbour<A, T, K> {
    open spec fn obeys_partial_cmp_spec() -> bool {
        T::obeys_partial_cmp_spec()
    }

    open spec fn partial_cmp_spec(&self, other: &Self) -> Option<Ordering> {
        self.0.item.partial_cmp_spec(&other.0.item)
    }
}

impl<A: Copy + PartialEq, T: Copy + PartialEq, const K: usize> Eq for BestNeighbour<A, T, K> {

}

impl<A: Copy, T: Copy, const K: usize> From<BestNeighbour<A, T, K>> for (A, T) {
    fn from(neighbour: BestNeighbour<A, T, K>) -> (r: (A, T)) {
        (neighbour.0.distance, neighbour.0.item)
    }
}

impl<A: Copy, T: Copy, const K: usize> FromSpecImpl<BestNeighbour<A, T, K>> for (A, T) {
    open spec fn obeys_from_spec() -> bool {
        true
    }

    open spec fn from_spec(neighbour: BestNeighbour<A, T, K>) -> (A, T) {
        (neighbour.0.distance, neighbour.0.item)
    }
}

impl<A: Copy, T: Copy, const K: usize> From<BestNeighbour<A, T, K>> for (A, T, [A; K]) {
    fn from(neighbour: BestNeighbour<A, T, K>) -> (r: (A, T, [A; K])) {
        (neighbour.0.distance, neighbour.0.item, neighbour.0.point)
    }
}

impl<A: Copy, T: Copy, const K: usize> FromSpecImpl<BestNeighbour<A, T, K>> for (A, T, [A; K]) {
    open spec fn obeys_from_spec() -> bool {
        true
    }

    open spec fn from_spec(neighbour: BestNeighbour<A, T, K>) -> (A, T, [A; K]) {
        (neighbour.0.distance, neighbour.0.item, neighbour.0.point)
    }
}

/// The key by which ordered result collections compare entries: a nearest
/// neighbour is ranked by its distance, a best neighbour by its item.
pub trait Ranked {
    /// The entry's rank; a lower rank is a better entry.
    spec fn rank(&self) -> i128;

    /// Returns the entry's rank.
    fn key(&self) -> (k: i128)
        ensures
            k == self.rank(),
    ;
}

/// An item type whose values are ranked by their value: every value of it
/// is also an `i128`, so items of any of these types compare through it.
pub trait ItemKey: Copy {
    /// The item's value.
    spec fn item_rank(&self) -> i128;

    /// Returns the item's value.
    fn item_key(&self) -> (k: i128)
        ensures
            k == self.item_rank(),
    ;
}

impl ItemKey for u8 {
    open spec fn item_rank(&self) -> i128 {
        *self as i128
    }

    fn item_key(&self) -> (k: i128) {
        *self as i128
    }
}

impl ItemKey for u16 {
    open spec fn item_rank(&self) -> i128 {
        *self as i128
    }

    fn item_key(&self) -> (k: i128) {
        *self as i128
    }
}

impl ItemKey for u32 {
    open spec fn item_rank(&self) -> i128 {
        *self as i128
    }

    fn item_key(&self) -> (k: i128) {
        *self as i128
    }
}

impl ItemKey for u64 {
    open spec fn item_rank(&self) -> i128 {
        *self as i128
    }

    fn item_key(&self) -> (k: i128) {
        *self as i128
    }
}

impl ItemKey for usize {
    open spec fn item_rank(&self) -> i128 {
        *self as i128
    }

    fn item_key(&self) -> (k: i128) {
        *self as i128
    }
}

impl ItemKey for i8 {
    open spec fn item_rank(&self) -> i128 {
        *self as i128
    }

    fn item_key(&self) -> (k: i128) {
        *self as i128
    }
}

impl ItemKey for i16 {
    open spec fn item_rank(&self) -> i128 {
        *self as i128
    }

    fn item_key(&self) -> (k: i128) {
        *self as i128
    }
}

impl ItemKey for i32 {
    open spec fn item_rank(&self) -> i128 {
        *self as i128
    }

    fn item_key(&self) -> (k: i128) {
        *self as i128
    }
}

impl ItemKey for i64 {
    open spec fn item_rank(&self) -> i128 {
        *self as i128
    }

    fn item_key(&self) -> (k: i128) {
        *self as i128
    }
}

impl<T: Copy, const K: usize> Ranked for NearestNeighbour<i64, T, K> {
    open spec fn rank(&self) -> i128 {
        self.0.distance as i128
    }

    fn key(&self) -> (k: i128) {
        self.0.distance as i128
    }
}

impl<T: ItemKey, const K: usize> Ranked for BestNeighbour<i64, T, K> {
    open spec fn rank(&self) -> i128 {
        self.0.item.item_rank()
    }

    fn key(&self) -> (k: i128) {
        self.0.item.item_key()
    }
}

/// Items of every item type rank as they compare: one item ranks below
/// another exactly when it is smaller.
pub proof fn law_item_rank_orders_as_items()
    ensures
        forall|x: u8, y: u8| #![trigger x.item_rank(), y.item_rank()] (x.item_rank() < y.item_rank()) == (x < y),
        forall|x: u16, y: u16| #![trigger x.item_rank(), y.item_rank()] (x.item_rank() < y.item_rank()) == (x < y),
        forall|x: u32, y: u32| #![trigger x.item_rank(), y.item_rank()] (x.item_rank() < y.item_rank()) == (x < y),
        forall|x: u64, y: u64| #![trigger x.item_rank(), y.item_rank()] (x.item_rank() < y.item_rank()) == (x < y),
        forall|x: usize, y: usize| #![trigger x.item_rank(), y.item_rank()] (x.item_rank() < y.item_rank()) == (x < y),
        forall|x: i8, y: i8| #![trigger x.item_rank(), y.item_rank()] (x.item_rank() < y.item_rank()) == (x < y),
        forall|x: i16, y: i16| #![trigger x.item_rank(), y.item_rank()] (x.item_rank() < y.item_rank()) == (x < y),
        forall|x: i32, y: i32| #![trigger x.item_rank(), y.item_rank()] (x.item_rank() < y.item_rank()) == (x < y),
        forall|x: i64, y: i64| #![trigger x.item_rank(), y.item_rank()] (x.item_rank() < y.item_rank()) == (x < y),
{
}

/// A nearest neighbour ranks below another exactly when it is nearer, and
/// as high exactly when it is as near.
pub proof fn law_nearest_rank_orders_by_distance<T: Copy, const K: usize>(
    n: NearestNeighbour<i64, T, K>,
    m: NearestNeighbour<i64, T, K>,
)
    ensures
        (n.rank() < m.rank()) == (n.0.distance < m.0.distance),
        (n.rank() == m.rank()) == (n.0.distance == m.0.distance),
{
}

/// A best neighbour ranks below another exactly when its item is smaller,
/// and as high exactly when the items are equal, for every item type.
pub proof fn law_best_rank_orders_by_item<const K: usize>()
    ensures
        forall|n: BestNeighbour<i64, u8, K>, m: BestNeighbour<i64, u8, K>|
            #![trigger n.rank(), m.rank()]
            (n.rank() < m.rank()) == (n.0.item < m.0.item) && (n.rank() == m.rank()) == (n.0.item == m.0.item),
        forall|n: BestNeighbour<i64, u16, K>, m: BestNeighbour<i64, u16, K>|
            #![trigger n.rank(), m.rank()]
            (n.rank() < m.rank()) == (n.0.item < m.0.item) && (n.rank() == m.rank()) == (n.0.item == m.0.item),
        forall|n: BestNeighbour<i64, u32, K>, m: BestNeighbour<i64, u32, K>|
            #![trigger n.rank(), m.rank()]
            (n.rank() < m.rank()) == (n.0.item < m.0.item) && (n.rank() == m.rank()) == (n.0.item == m.0.item),
        forall|n: BestNeighbour<i64, u64, K>, m: BestNeighbour<i64, u64, K>|
            #![trigger n.rank(), m.rank()]
            (n.rank() < m.rank()) == (n.0.item < m.0.item) && (n.rank() == m.rank()) == (n.0.item == m.0.item),
        forall|n: BestNeighbour<i64, usize, K>, m: BestNeighbour<i64, usize, K>|
            #![trigger n.rank(), m.rank()]
            (n.rank() < m.rank()) == (n.0.item < m.0.item) && (n.rank() == m.rank()) == (n.0.item == m.0.item),
        forall|n: BestNeighbour<i64, i8, K>, m: BestNeighbour<i64, i8, K>|
            #![trigger n.rank(), m.rank()]
            (n.rank() < m.rank()) == (n.0.item < m.0.item) && (n.rank() == m.rank()) == (n.0.item == m.0.item),
        forall|n: BestNeighbour<i64, i16, K>, m: BestNeighbour<i64, i16, K>|
            #![trigger n.rank(), m.rank()]
            (n.rank() < m.rank()) == (n.0.item < m.0.item) && (n.rank() == m.rank()) == (n.0.item == m.0.item),
        forall|n: BestNeighbour<i64, i32, K>, m: BestNeighbour<i64, i32, K>|
            #![trigger n.rank(), m.rank()]
            (n.rank() < m.rank()) == (n.0.item < m.0.item) && (n.rank() == m.rank()) == (n.0.item == m.0.item),
        forall|n: BestNeighbour<i64, i64, K>, m: BestNeighbour<i64, i64, K>|
            #![trigger n.rank(), m.rank()]
            (n.rank() < m.rank()) == (n.0.item < m.0.item) && (n.rank() == m.rank()) == (n.0.item == m.0.item),
{
}

/// The ordering that a comparison gives when the first value is less than
/// the second (`less`), greater (`greater`), or neither.
pub open spec fn compare_result(less: bool, greater: bool) -> Option<Ordering> {
    if less {
        Some(Ordering::Less)
    } else if greater {
        Some(Ordering::Greater)
    } else {
        Some(Ordering::Equal)
    }
}

/// Nearest neighbours compare as their distances do: less when nearer,
/// greater when farther, equal when as near; which is what `partial_cmp` returns.
pub proof fn law_nearest_compares_by_distance<T: Copy + PartialEq, const K: usize>(
    a: NearestNeighbour<i64, T, K>,
    b: NearestNeighbour<i64, T, K>,
)
    ensures
        PartialOrdSpec::partial_cmp_spec(&a, &b) == compare_result(a.0.distance < b.0.distance, a.0.distance > b.0.distance),
{
}

/// Best neighbours compare as their items do, for every item type, whatever
/// their distances; which is what `partial_cmp` returns.
pub proof fn law_best_compares_by_item<A: Copy + PartialEq, const K: usize>()
    ensures
        forall|a: BestNeighbour<A, u8, K>, b: BestNeighbour<A, u8, K>|
            #[trigger] PartialOrdSpec::partial_cmp_spec(&a, &b) == compare_result(a.0.item < b.0.item, a.0.item > b.0.item),
        forall|a: BestNeighbour<A, u16, K>, b: BestNeighbour<A, u16, K>|
            #[trigger] PartialOrdSpec::partial_cmp_spec(&a, &b) == compare_result(a.0.item < b.0.item, a.0.item > b.0.item),
        forall|a: BestNeighbour<A, u32, K>, b: BestNeighbour<A, u32, K>|
            #[trigger] PartialOrdSpec::partial_cmp_spec(&a, &b) == compare_result(a.0.item < b.0.item, a.0.item > b.0.item),
        forall|a: BestNeighbour<A, u64, K>, b: BestNeighbour<A, u64, K>|
            #[trigger] PartialOrdSpec::partial_cmp_spec(&a, &b) == compare_result(a.0.item < b.0.item, a.0.item > b.0.item),
        forall|a: BestNeighbour<A, usize, K>, b: BestNeighbour<A, usize, K>|
            #[trigger] PartialOrdSpec::partial_cmp_spec(&a, &b) == compare_result(a.0.item < b.0.item, a.0.item > b.0.item),
        forall|a: BestNeighbour<A, i8, K>, b: BestNeighbour<A, i8, K>|
            #[trigger] PartialOrdSpec::partial_cmp_spec(&a, &b) == compare_result(a.0.item < b.0.item, a.0.item > b.0.item),
        forall|a: BestNeighbour<A, i16, K>, b: BestNeighbour<A, i16, K>|
            #[trigger] PartialOrdSpec::partial_cmp_spec(&a, &b) == compare_result(a.0.item < b.0.item, a.0.item > b.0.item),
        forall|a: BestNeighbour<A, i32, K>, b: BestNeighbour<A, i32, K>|
            #[trigger] PartialOrdSpec::partial_cmp_spec(&a, &b) == compare_result(a.0.item < b.0.item, a.0.item > b.0.item),
        forall|a: BestNeighbour<A, i64, K>, b: BestNeighbour<A, i64, K>|
            #[trigger] PartialOrdSpec::partial_cmp_spec(&a, &b) == compare_result(a.0.item < b.0.item, a.0.item > b.0.item),
{
}

/// Converting a neighbour built from a distance, an item and a point gives
/// back that distance and item (and point).
pub proof fn law_tuple_conversions<A: Copy, T: Copy, const K: usize>(distance: A, item: T, point: [A; K])
    ensures
        <(A, T) as FromSpec<NearestNeighbour<A, T, K>>>::from_spec(
            NearestNeighbour(Neighbour { distance, item, point }),
        ) == (distance, item),
        <(A, T, [A; K]) as FromSpec<NearestNeighbour<A, T, K>>>::from_spec(
            NearestNeighbour(Neighbour { distance, item, point }),
        ) == (distance, item, point),
        <(A, T) as FromSpec<BestNeighbour<A, T, K>>>::from_spec(BestNeighbour(Neighbour { distance, item, point }))
            == (distance, item),
        <(A, T, [A; K]) as FromSpec<BestNeighbour<A, T, K>>>::from_spec(
            BestNeighbour(Neighbour { distance, item, point }),
        ) == (distance, item, point),
{
}

} // verus!
