//! Scheduling core of a game-engine runtime: resource bookkeeping, a dependency graph of
//! systems that is sorted into layers, resource-conflict tracking and double-buffered events.

pub mod atom;
pub mod bitset;
pub mod event;
pub mod interned;
pub mod label;
pub mod phase_schedule;
pub mod resource;
pub mod schedule;
pub mod util;
