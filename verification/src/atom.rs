//! Identities of resource containers.

use vstd::prelude::*;

verus! {

/// The identity of a resource container; [`Atom::zero`] stands for "none yet".
#[derive(Debug, Clone, Copy, PartialEq, Eq, Structural, Hash)]
pub struct Atom(pub usize);

impl Atom {
    /// The identity of no container.
    pub fn zero() -> (r: Self)
        ensures
            r.0 == 0,
    {
        Atom(0)
    }
}

impl Default for Atom {
    fn default() -> (r: Self)
        ensures
            r.0 == 0,
    {
        Atom(0)
    }
}

} // verus!
