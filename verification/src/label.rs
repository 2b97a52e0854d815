//! Labels of system sets.

use vstd::prelude::*;
use crate::interned::InternedStr;

verus! {

/// The id of a system set: its interned name.
#[derive(Clone, Copy, Debug, PartialEq, Eq, Structural, Hash, PartialOrd, Ord)]
pub struct SystemSetId(pub InternedStr);

impl SystemSetId {
    /// The key under which a schedule files the label.
    pub open spec fn key(&self) -> u16 {
        self.0.0
    }
}

/// A label that names a system by its name.
#[derive(Copy, Clone, Hash, Debug)]
pub struct SystemLabel(pub &'static str);

} // verus!
