//! A schedule organised by phases: systems are filed into phase nodes of a dependency
//! graph, the graph is sorted into groups of nodes, and the groups become a sequence of
//! task groups, each either one exclusive system or a run of concurrent systems in which
//! every system names the entry that must wait for it.

pub mod dot;
pub mod execution;
pub mod graph;
pub mod planner;
pub mod sort;
pub mod tracker;

use vstd::prelude::*;

verus! {

/// The node of the phase that runs first.
pub const FIRST_NODE_INDEX: usize = 0;

/// The node of the phase that runs last.
pub const LAST_NODE_INDEX: usize = 1;

} // verus!
