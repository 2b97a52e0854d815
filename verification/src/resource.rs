//! Resource ids, the set of resources a system accesses, and owned handles to resources that
//! were taken out of their container.

use vstd::prelude::*;
use crate::bitset::BitSet;
use std::marker::PhantomData;
use std::ops::Deref;

verus! {

/// A marker type that nobody outside this module can make a value of: the default type
/// argument of an untyped [`ResourceId`].
pub struct Void {
    _private: (),
}

/// A typed index that identifies a resource. The type parameter only keeps ids of
/// different resource types apart; [`ResourceId::untyped`] erases it and
/// [`ResourceId::typed`] restores it.
pub struct ResourceId<T: ?Sized = Void>(pub usize, pub PhantomData<T>);

impl<T: ?Sized> Clone for ResourceId<T> {
    fn clone(&self) -> (r: Self)
        ensures
            r.0 == self.0,
    {
        ResourceId(self.0, PhantomData)
    }
}

impl<T: ?Sized> Copy for ResourceId<T> {

}

impl<T: ?Sized> PartialEq for ResourceId<T> {
    /// Two ids are equal when their indices are.
    fn eq(&self, other: &Self) -> (r: bool) {
        self.0 == other.0
    }
}

impl<T: ?Sized> vstd::std_specs::cmp::PartialEqSpecImpl for ResourceId<T> {
    open spec fn obeys_eq_spec() -> bool {
        true
    }

    open spec fn eq_spec(&self, other: &Self) -> bool {
        self.0 == other.0
    }
}

impl<T: ?Sized> Eq for ResourceId<T> {

}

impl<T: ?Sized> ResourceId<T> {
    /// The id of the resource with index `index`.
    pub fn new(index: usize) -> (r: Self)
        ensures
            r.0 == index,
    {
        ResourceId(index, PhantomData)
    }

    /// The same index as an id of another resource type.
    pub fn cast<X: ?Sized>(self) -> (r: ResourceId<X>)
        ensures
            r.0 == self.0,
    {
        ResourceId(self.0, PhantomData)
    }

    /// Erases the resource type.
    pub fn untyped(self) -> (r: ResourceId)
        ensures
            r.0 == self.0,
    {
        self.cast()
    }

    /// The index of the resource.
    pub fn index(&self) -> (r: usize)
        ensures
            r == self.0,
    {
        self.0
    }
}

impl ResourceId {
    /// Restores the resource type; the caller names the type the id was made for.
    pub fn typed<T: ?Sized>(self) -> (r: ResourceId<T>)
        ensures
            r.0 == self.0,
    {
        self.cast()
    }
}

/// The resources that a system reads (shared) and writes (exclusive).
pub struct ResourceAccess {
    pub shared: BitSet,
    pub exclusive: BitSet,
}

impl ResourceAccess {
    /// An access to no resource.
    pub fn new() -> (r: Self)
        ensures
            r.shared@ == Set::<usize>::empty(),
            r.exclusive@ == Set::<usize>::empty(),
    {
        ResourceAccess { shared: BitSet::new(), exclusive: BitSet::new() }
    }

    /// Adds a shared access to `resource`, which must not be accessed exclusively; returns
    /// whether it was not accessed shared before.
    pub fn add_shared_checked<T: ?Sized>(&mut self, resource: ResourceId<T>) -> (r: bool)
        requires
            !old(self).exclusive@.contains(resource.0),
            resource.0 < usize::MAX,
        ensures
            r == !old(self).shared@.contains(resource.0),
            final(self).shared@ == old(self).shared@.insert(resource.0),
            final(self).exclusive@ == old(self).exclusive@,
    {
        self.add_shared_index_checked(resource.0)
    }

    fn add_shared_index_checked(&mut self, index: usize) -> (r: bool)
        requires
            !old(self).exclusive@.contains(index),
            index < usize::MAX,
        ensures
            r == !old(self).shared@.contains(index),
            final(self).shared@ == old(self).shared@.insert(index),
            final(self).exclusive@ == old(self).exclusive@,
    {
        self.shared.insert(index)
    }

    /// Adds a shared access to `resource`; returns whether it was not accessed shared before.
    pub fn add_shared<T: ?Sized>(&mut self, resource: ResourceId<T>) -> (r: bool)
        requires
            resource.0 < usize::MAX,
        ensures
            r == !old(self).shared@.contains(resource.0),
            final(self).shared@ == old(self).shared@.insert(resource.0),
            final(self).exclusive@ == old(self).exclusive@,
    {
        self.shared.insert(resource.0)
    }

    /// Adds an exclusive access to `resource`, which must not be accessed shared; returns
    /// whether it was not accessed exclusively before.
    pub fn add_exclusive_checked<T: ?Sized>(&mut self, resource: ResourceId<T>) -> (r: bool)
        requires
            !old(self).shared@.contains(resource.0),
            resource.0 < usize::MAX,
        ensures
            r == !old(self).exclusive@.contains(resource.0),
            final(self).exclusive@ == old(self).exclusive@.insert(resource.0),
            final(self).shared@ == old(self).shared@,
    {
        self.add_exclusive_index_checked(resource.0)
    }

    fn add_exclusive_index_checked(&mut self, index: usize) -> (r: bool)
        requires
            !old(self).shared@.contains(index),
            index < usize::MAX,
        ensures
            r == !old(self).exclusive@.contains(index),
            final(self).exclusive@ == old(self).exclusive@.insert(index),
            final(self).shared@ == old(self).shared@,
    {
        self.exclusive.insert(index)
    }

    /// Adds an exclusive access to `resource`; returns whether it was not accessed
    /// exclusively before.
    pub fn add_exclusive<T: ?Sized>(&mut self, resource: ResourceId<T>) -> (r: bool)
        requires
            resource.0 < usize::MAX,
        ensures
            r == !old(self).exclusive@.contains(resource.0),
            final(self).exclusive@ == old(self).exclusive@.insert(resource.0),
            final(self).shared@ == old(self).shared@,
    {
        self.exclusive.insert(resource.0)
    }

    /// Whether `resource` is accessed shared.
    pub fn is_shared<T: ?Sized>(&self, resource: ResourceId<T>) -> (r: bool)
        ensures
            r == self.shared@.contains(resource.0),
    {
        self.shared.contains(resource.0)
    }

    /// Whether `resource` is in the shared set: this looks into the shared set, not into the
    /// exclusive one.
    pub fn is_exclusive<T: ?Sized>(&self, resource: ResourceId<T>) -> (r: bool)
        ensures
            r == self.shared@.contains(resource.0),
    {
        self.shared.contains(resource.0)
    }

    /// Removes every access.
    pub fn clear(&mut self)
        ensures
            final(self).shared@ == Set::<usize>::empty(),
            final(self).exclusive@ == Set::<usize>::empty(),
    {
        self.shared.make_empty();
        self.exclusive.make_empty();
    }

    /// Adds the accesses of `other`; a resource accessed exclusively by either is no longer
    /// accessed shared.
    pub fn union_with(&mut self, other: &Self)
        ensures
            final(self).exclusive@ == old(self).exclusive@.union(other.exclusive@),
            final(self).shared@ == old(self).shared@.union(other.shared@).difference(
                old(self).exclusive@.union(other.exclusive@),
            ),
    {
        self.shared.union_with(&other.shared);
        self.exclusive.union_with(&other.exclusive);
        self.shared.difference_with(&self.exclusive);
    }

    /// Adds the shared and the exclusive accesses of `other`, each to its own kind.
    pub fn extend(&mut self, other: &Self)
        ensures
            final(self).shared@ == old(self).shared@.union(other.shared@),
            final(self).exclusive@ == old(self).exclusive@.union(other.exclusive@),
    {
        self.shared.union_with(&other.shared);
        self.exclusive.union_with(&other.exclusive);
    }

    /// Adds the accesses of `other`, which must be compatible with these.
    pub fn union_with_checked(&mut self, other: &Self)
        requires
            old(self).compatible(other),
        ensures
            final(self).exclusive@ == old(self).exclusive@.union(other.exclusive@),
            final(self).shared@ == old(self).shared@.union(other.shared@).difference(
                old(self).exclusive@.union(other.exclusive@),
            ),
    {
        self.union_with(other);
    }

    /// Two accesses are compatible when no resource accessed exclusively by one is accessed
    /// by the other.
    pub open spec fn compatible(&self, other: &Self) -> bool {
        &&& self.shared@.disjoint(other.exclusive@)
        &&& self.exclusive@.disjoint(other.shared@)
        &&& self.exclusive@.disjoint(other.exclusive@)
    }

    /// Whether the two accesses are compatible.
    pub fn is_compatible(&self, other: &Self) -> (r: bool)
        ensures
            r == self.compatible(other),
    {
        self.shared.is_disjoint(&other.exclusive) && self.exclusive.is_disjoint(&other.shared)
            && self.exclusive.is_disjoint(&other.exclusive)
    }

    /// Whether no resource is accessed both shared and exclusively.
    pub fn is_valid(&self) -> (r: bool)
        ensures
            r == self.shared@.disjoint(self.exclusive@),
    {
        self.shared.is_disjoint(&self.exclusive)
    }
}

impl Default for ResourceAccess {
    fn default() -> (r: Self)
        ensures
            r.shared@ == Set::<usize>::empty(),
            r.exclusive@ == Set::<usize>::empty(),
    {
        Self::new()
    }
}

/// After [`ResourceAccess::union_with`] no resource is accessed both shared and exclusively.
pub proof fn lemma_union_with_is_valid(
    shared: Set<usize>,
    exclusive: Set<usize>,
    other_shared: Set<usize>,
    other_exclusive: Set<usize>,
)
    ensures
        shared.union(other_shared).difference(exclusive.union(other_exclusive)).disjoint(
            exclusive.union(other_exclusive),
        ),
{
}

/// Compatibility of two accesses does not depend on their order.
pub proof fn lemma_compatible_symmetric(a: &ResourceAccess, b: &ResourceAccess)
    ensures
        a.compatible(b) == b.compatible(a),
{
}

/// An owned, exclusive handle to a resource that was taken out of its container; it is to be
/// put back there before the container is used again.
pub struct Taken<T: ?Sized> {
    value: Box<T>,
    id: ResourceId,
}

impl<T: ?Sized> Taken<T> {
    /// The handle of the resource `id` with the value `value`.
    pub fn new(value: Box<T>, id: ResourceId) -> (r: Self)
        ensures
            r.spec_id() == id.0,
            r.boxed() == value,
    {
        Taken { value, id }
    }

    /// The index of the resource.
    pub closed spec fn spec_id(&self) -> usize {
        self.id.0
    }

    /// The value of the resource, boxed.
    pub closed spec fn boxed(&self) -> Box<T> {
        self.value
    }

    /// The id of the resource, typed.
    pub fn id(&self) -> (r: ResourceId<T>)
        ensures
            r.0 == self.spec_id(),
    {
        self.id.cast()
    }

    /// The value, boxed.
    pub fn into_box(self) -> (r: Box<T>)
        ensures
            r == self.boxed(),
    {
        self.value
    }
}

impl<T> Taken<T> {
    /// The value.
    pub fn into_inner(self) -> (r: T)
        ensures
            r == *self.boxed(),
    {
        *self.value
    }
}

impl<T: ?Sized> Deref for Taken<T> {
    type Target = T;

    fn deref(&self) -> (r: &T)
        ensures
            r == &*self.boxed(),
    {
        &self.value
    }
}

/// A resource that was removed from its container, together with its id.
pub struct RemovedResource<T> {
    id: ResourceId,
    value: Box<T>,
}

impl<T> RemovedResource<T> {
    /// The removed resource `id` with the value `value`.
    pub fn new(id: ResourceId, value: Box<T>) -> (r: Self)
        ensures
            r.spec_id() == id.0,
            r.value() == *value,
    {
        RemovedResource { id, value }
    }

    /// The index of the resource.
    pub closed spec fn spec_id(&self) -> usize {
        self.id.0
    }

    /// The value of the resource.
    pub closed spec fn value(&self) -> T {
        *self.value
    }

    /// The id of the resource, typed.
    pub fn id(&self) -> (r: ResourceId<T>)
        ensures
            r.0 == self.spec_id(),
    {
        self.id.cast()
    }

    /// The value.
    pub fn into_inner(self) -> (r: T)
        ensures
            r == self.value(),
    {
        *self.value
    }
}

impl<T> Deref for RemovedResource<T> {
    type Target = T;

    fn deref(&self) -> (r: &T)
        ensures
            *r == self.value(),
    {
        &self.value
    }
}

/// The state of a system parameter that reads the resource `0`.
pub struct ResState<T>(pub ResourceId<T>);

/// The state of a system parameter that writes the resource `0`.
pub struct ResMutState<T>(pub ResourceId<T>);

/// The state of a system parameter that reads the resource `0`, if it exists.
pub struct OptionResState<T>(pub Option<ResourceId<T>>);

/// The state of a system parameter that writes the resource `0`, if it exists.
pub struct OptionResMutState<T>(pub Option<ResourceId<T>>);

} // verus!
