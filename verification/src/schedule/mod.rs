//! Building a schedule: the dependency graph of systems, its layering, and the tracking of
//! resource accesses between layers.

pub mod dump;
pub mod graph;
pub mod resource_tracker;
pub mod schedule_impl;

use vstd::prelude::*;

verus! {

/// An index identifying a system within a schedule.
#[derive(Copy, Clone, Debug, PartialEq, Eq, Structural, PartialOrd, Ord, Hash)]
pub struct SystemId(pub usize);

impl SystemId {
    /// The sentinel of an unassigned system id.
    pub fn undefined() -> (r: Self)
        ensures
            r.0 == usize::MAX,
    {
        SystemId(usize::MAX)
    }

    /// Whether this is the sentinel of an unassigned system.
    pub open spec fn spec_is_undefined(&self) -> bool {
        self.0 == usize::MAX
    }

    /// Whether this is the sentinel of an unassigned system.
    pub fn is_undefined(&self) -> (r: bool)
        ensures
            r == self.spec_is_undefined(),
    {
        self.0 == usize::MAX
    }

    /// Whether this names a system.
    pub fn is_defined(&self) -> (r: bool)
        ensures
            r == !self.spec_is_undefined(),
    {
        self.0 != usize::MAX
    }
}

/// The index of a layer of a schedule.
#[derive(Copy, Clone, Debug, PartialEq, Eq, Structural, PartialOrd, Ord, Hash)]
pub struct Layer(pub usize);

impl Layer {
    /// The sentinel for "no layer".
    pub fn undefined() -> (r: Self)
        ensures
            r.0 == usize::MAX,
    {
        Layer(usize::MAX)
    }
}

/// The ways building a schedule can fail.
#[derive(Debug)]
pub enum ScheduleError {
    /// The dependency graph cannot be sorted.
    GraphError(graph::GraphError),
    /// Two systems of one layer access a resource in a way that cannot be resolved.
    ResourceConflict(resource_tracker::ResourceConflict),
}

} // verus!
