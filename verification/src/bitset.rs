//! The bit sets of the `bit_set` crate, as the scheduler uses them: a set of small `usize`
//! indices. Contracts speak of a set only through [`bitset_view`]; every operation that the
//! library performs on one goes through a trusted wrapper of this module, each a single call
//! into `bit_set`.

use vstd::prelude::*;

verus! {

/// A set of small indices, held in a private `bit_set::BitSet`. That type's parameter is
/// bounded by the outside trait `BitBlock`, so the type cannot stand in a declaration of its
/// own; the struct is opaque, and its contents are [`bitset_view`].
#[verifier::external_body]
pub struct BitSet {
    inner: bit_set::BitSet,
}

/// The indices that a bit set holds.
pub uninterp spec fn bitset_view(set: BitSet) -> Set<usize>;

impl BitSet {
    /// The indices that the set holds.
    pub open spec fn view(&self) -> Set<usize> {
        bitset_view(*self)
    }

    /// A set holding no index.
    pub fn new() -> (r: Self)
        ensures
            r@ == Set::<usize>::empty(),
    {
        bits_new()
    }

    /// A set holding no index, with room for the indices below `nbits`.
    pub fn with_capacity(nbits: usize) -> (r: Self)
        ensures
            r@ == Set::<usize>::empty(),
    {
        bits_with_capacity(nbits)
    }

    /// Whether `value` is in the set.
    pub fn contains(&self, value: usize) -> (r: bool)
        ensures
            r == self@.contains(value),
    {
        bits_contains(self, value)
    }

    /// Adds `value`; returns whether it was absent.
    pub fn insert(&mut self, value: usize) -> (r: bool)
        requires
            value < usize::MAX,
        ensures
            r == !old(self)@.contains(value),
            final(self)@ == old(self)@.insert(value),
    {
        bits_insert(self, value)
    }

    /// Removes `value`; returns whether it was present.
    pub fn remove(&mut self, value: usize) -> (r: bool)
        ensures
            r == old(self)@.contains(value),
            final(self)@ == old(self)@.remove(value),
    {
        bits_remove(self, value)
    }

    /// The set becomes its union with `other`.
    pub fn union_with(&mut self, other: &BitSet)
        ensures
            final(self)@ == old(self)@.union(other@),
    {
        bits_union_with(self, other)
    }

    /// The indices of `other` leave the set.
    pub fn difference_with(&mut self, other: &BitSet)
        ensures
            final(self)@ == old(self)@.difference(other@),
    {
        bits_difference_with(self, other)
    }

    /// Whether the two sets share no index.
    pub fn is_disjoint(&self, other: &BitSet) -> (r: bool)
        ensures
            r == self@.disjoint(other@),
    {
        bits_is_disjoint(self, other)
    }

    /// Whether every index of `other` is in the set.
    pub fn is_superset(&self, other: &BitSet) -> (r: bool)
        ensures
            r == other@.subset_of(self@),
    {
        bits_is_superset(self, other)
    }

    /// Whether the set holds no index.
    pub fn is_empty(&self) -> (r: bool)
        ensures
            r == (self@ == Set::<usize>::empty()),
    {
        bits_is_empty(self)
    }

    /// Removes every index.
    pub fn make_empty(&mut self)
        ensures
            final(self)@ == Set::<usize>::empty(),
    {
        bits_make_empty(self)
    }

    /// The indices of the set, each once, ascending.
    pub fn items(&self) -> (r: Vec<usize>)
        ensures
            r@.to_set() == self@,
            self@.finite(),
            forall|i: int, j: int| 0 <= i < j < r@.len() ==> r@[i] < r@[j],
            forall|i: int| 0 <= i < r@.len() ==> r@[i] < usize::MAX,
    {
        let r = bits_items(self);
        proof {
            vstd::seq_lib::seq_to_set_is_finite(r@);
        }
        r
    }
}

/// Calls `BitSet::new`, which creates a set holding no index.
#[verifier::external_body]
fn bits_new() -> (r: BitSet)
    ensures
        bitset_view(r) == Set::<usize>::empty(),
{
    BitSet { inner: bit_set::BitSet::new() }
}

/// Calls `BitSet::with_capacity`, which creates a set holding no index, with room for
/// the indices below `nbits`.
#[verifier::external_body]
fn bits_with_capacity(nbits: usize) -> (r: BitSet)
    ensures
        bitset_view(r) == Set::<usize>::empty(),
{
    BitSet { inner: bit_set::BitSet::with_capacity(nbits) }
}

/// Calls `BitSet::contains`: whether `value` is in the set.
#[verifier::external_body]
fn bits_contains(set: &BitSet, value: usize) -> (r: bool)
    ensures
        r == bitset_view(*set).contains(value),
{
    set.inner.contains(value)
}

/// Calls `BitSet::insert`, which adds `value` and returns whether it was absent. The set
/// grows to `value + 1` bits when needed, which overflows for `usize::MAX`; that value
/// is left out.
#[verifier::external_body]
fn bits_insert(set: &mut BitSet, value: usize) -> (r: bool)
    requires
        value < usize::MAX,
    ensures
        r == !bitset_view(*old(set)).contains(value),
        bitset_view(*final(set)) == bitset_view(*old(set)).insert(value),
{
    set.inner.insert(value)
}

/// Calls `BitSet::remove`, which removes `value` and returns whether it was present.
#[verifier::external_body]
fn bits_remove(set: &mut BitSet, value: usize) -> (r: bool)
    ensures
        r == bitset_view(*old(set)).contains(value),
        bitset_view(*final(set)) == bitset_view(*old(set)).remove(value),
{
    set.inner.remove(value)
}

/// Calls `BitSet::union_with`: the set becomes its union with `other`.
#[verifier::external_body]
fn bits_union_with(set: &mut BitSet, other: &BitSet)
    ensures
        bitset_view(*final(set)) == bitset_view(*old(set)).union(bitset_view(*other)),
{
    set.inner.union_with(&other.inner)
}

/// Calls `BitSet::difference_with`: the indices of `other` leave the set.
#[verifier::external_body]
fn bits_difference_with(set: &mut BitSet, other: &BitSet)
    ensures
        bitset_view(*final(set)) == bitset_view(*old(set)).difference(bitset_view(*other)),
{
    set.inner.difference_with(&other.inner)
}

/// Calls `BitSet::is_disjoint`: whether the two sets share no index.
#[verifier::external_body]
fn bits_is_disjoint(set: &BitSet, other: &BitSet) -> (r: bool)
    ensures
        r == bitset_view(*set).disjoint(bitset_view(*other)),
{
    set.inner.is_disjoint(&other.inner)
}

/// Calls `BitSet::is_superset`: whether every index of `other` is in the set.
#[verifier::external_body]
fn bits_is_superset(set: &BitSet, other: &BitSet) -> (r: bool)
    ensures
        r == bitset_view(*other).subset_of(bitset_view(*set)),
{
    set.inner.is_superset(&other.inner)
}

/// Calls `BitSet::is_empty`: whether the set holds no index.
#[verifier::external_body]
fn bits_is_empty(set: &BitSet) -> (r: bool)
    ensures
        r == (bitset_view(*set) == Set::<usize>::empty()),
{
    set.inner.is_empty()
}

/// Calls `BitSet::make_empty`, which removes every index.
#[verifier::external_body]
fn bits_make_empty(set: &mut BitSet)
    ensures
        bitset_view(*final(set)) == Set::<usize>::empty(),
{
    set.inner.make_empty()
}

/// Collects `BitSet::iter`. The iterator walks the storage blocks from the first to the
/// last and each block from its lowest bit up, so every index comes out once, in
/// ascending order. An index is the position of a set bit in a bit vector of at most
/// `usize::MAX` bits, so it is below `usize::MAX`.
#[verifier::external_body]
fn bits_items(set: &BitSet) -> (r: Vec<usize>)
    ensures
        r@.to_set() == bitset_view(*set),
        forall|i: int, j: int| 0 <= i < j < r@.len() ==> r@[i] < r@[j],
        forall|i: int| 0 <= i < r@.len() ==> r@[i] < usize::MAX,
{
    set.inner.iter().collect()
}

} // verus!
