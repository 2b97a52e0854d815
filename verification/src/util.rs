//! Small versioning and tick helpers shared by the schedule and the resource container.

use vstd::prelude::*;
use core::cmp::Ordering;
use std::sync::atomic::AtomicI32;
use vstd::std_specs::cmp::PartialOrdSpecImpl;

verus! {

/// A change counter with a dirty flag folded into its sign.
///
/// A value `v <= 0` means "dirty"; resetting makes it clean (`> 0`) and moves it to a fresh
/// version number `|v| + 1`, so that a downstream copy can notice that something changed.
#[derive(Debug, Clone, PartialEq, Eq)]
pub struct DirtyVersion(pub isize);

impl DirtyVersion {
    /// The raw version value.
    pub open spec fn value(&self) -> int {
        self.0 as int
    }

    /// `true` when the version is dirty.
    pub open spec fn spec_is_dirty(&self) -> bool {
        self.0 <= 0
    }

    /// `reset` does not overflow on this value.
    pub open spec fn can_reset(&self) -> bool {
        self.0 > 0 || self.0 > isize::MIN + 1
    }

    /// The value after a reset.
    pub open spec fn spec_reset_value(v: int) -> int {
        if v <= 0 { -v + 1 } else { v }
    }

    /// Creates a dirty version (value 0).
    pub fn new() -> (r: Self)
        ensures
            r.0 == 0,
            r.spec_is_dirty(),
    {
        DirtyVersion(0)
    }

    /// Marks the version as dirty: a clean version `v > 0` becomes `-v`; a dirty one is kept.
    pub fn dirty(&mut self)
        ensures
            final(self).0 == (if old(self).0 > 0 { -old(self).0 } else { old(self).0 as int }),
            final(self).spec_is_dirty(),
    {
        let v = self.0;
        if v > 0 {
            self.0 = -v;
        }
    }

    /// Returns `true` when the version is dirty (`<= 0`).
    pub fn is_dirty(&self) -> (r: bool)
        ensures
            r == self.spec_is_dirty(),
    {
        self.0 <= 0
    }

    /// Makes the version clean. A dirty value `v` becomes `-v + 1` and `true` is returned;
    /// a clean version is left as it is and `false` is returned.
    pub fn reset(&mut self) -> (r: bool)
        requires
            old(self).can_reset(),
        ensures
            r == old(self).spec_is_dirty(),
            final(self).0 == Self::spec_reset_value(old(self).0 as int),
            !final(self).spec_is_dirty(),
    {
        let v = self.0;
        if v <= 0 {
            self.0 = -v + 1;
            true
        } else {
            false
        }
    }

    /// Resets `upstream` and brings `self` in line with it. Returns `true` when `upstream`
    /// was dirty or when `self` held another version than `upstream`.
    pub fn check_and_reset(&mut self, upstream: &mut Self) -> (r: bool)
        requires
            old(upstream).can_reset(),
        ensures
            final(upstream).0 == Self::spec_reset_value(old(upstream).0 as int),
            final(self).0 == final(upstream).0,
            r == (old(upstream).spec_is_dirty() || old(self).0 != old(upstream).0),
    {
        if upstream.reset() {
            self.0 = upstream.0;
            true
        } else {
            let v = upstream.0;
            if self.0 != v {
                self.0 = v;
                true
            } else {
                false
            }
        }
    }
}

/// `a` is newer than `b` when `a - b`, taken modulo `2^32` into the `i32` range, is positive.
pub open spec fn spec_is_newer(a: i32, b: i32) -> bool {
    let d = a - b;
    (0 < d && d <= i32::MAX) || d < i32::MIN
}

/// Resetting makes a version clean, and resetting it again changes nothing.
pub proof fn lemma_reset_settles(v: int)
    requires
        v > isize::MIN + 1,
    ensures
        DirtyVersion::spec_reset_value(v) > 0,
        DirtyVersion::spec_reset_value(DirtyVersion::spec_reset_value(v))
            == DirtyVersion::spec_reset_value(v),
{
}

/// Marking a clean version `v` dirty and resetting it gives a fresh version `v + 1`, so a
/// copy that still holds `v` notices the change.
pub proof fn lemma_dirty_reset_is_fresh(v: int)
    requires
        0 < v < isize::MAX,
    ensures
        DirtyVersion::spec_reset_value(-v) == v + 1,
        DirtyVersion::spec_reset_value(-v) != v,
{
}

/// The value after `t`, wrapping around from `i32::MAX` to `i32::MIN`.
pub open spec fn spec_next_tick(t: i32) -> i32 {
    if t == i32::MAX {
        i32::MIN
    } else {
        (t + 1) as i32
    }
}

/// The tick after `t` is newer than `t`, also where the counter wraps around.
pub proof fn lemma_next_is_newer(t: i32)
    ensures
        spec_is_newer(spec_next_tick(t), t),
        !spec_is_newer(t, spec_next_tick(t)),
{
}

/// Of two ticks, at most one is newer than the other, and no tick is newer than itself.
pub proof fn lemma_newer_antisymmetric(a: i32, b: i32)
    ensures
        spec_is_newer(a, b) ==> !spec_is_newer(b, a),
        !spec_is_newer(a, a),
{
}

/// A wrapping frame counter.
#[derive(Copy, Clone, Default, Debug, Eq, PartialEq, Structural, Hash)]
pub struct Tick(pub i32);

impl Tick {
    /// Creates a tick with the given value.
    pub fn new(value: i32) -> (r: Self)
        ensures
            r.0 == value,
    {
        Tick(value)
    }

    /// The raw value.
    pub fn get(self) -> (r: i32)
        ensures
            r == self.0,
    {
        self.0
    }

    /// The tick after this one; after `i32::MAX` the counter wraps around to `i32::MIN`.
    pub fn next(self) -> (r: Self)
        ensures
            r.0 == spec_next_tick(self.0),
    {
        Tick(self.0.wrapping_add(1))
    }

    /// Returns true if `self` is newer than `other`, that is when the wrapping difference
    /// `self - other` is positive. Ticks that have wrapped around compare correctly as long
    /// as they are less than `i32::MAX` apart.
    pub fn is_newer_than(self, other: Self) -> (r: bool)
        ensures
            r == spec_is_newer(self.0, other.0),
    {
        let diff = self.0.wrapping_sub(other.0);
        diff > 0
    }

    /// The order of two ticks: equal values are `Equal`, a newer tick is `Greater`, and
    /// every other tick is `Less`.
    pub open spec fn tick_order(self, other: Self) -> Ordering {
        if self.0 == other.0 {
            Ordering::Equal
        } else if spec_is_newer(self.0, other.0) {
            Ordering::Greater
        } else {
            Ordering::Less
        }
    }
}

impl PartialOrdSpecImpl for Tick {
    open spec fn obeys_partial_cmp_spec() -> bool {
        true
    }

    open spec fn partial_cmp_spec(&self, other: &Self) -> Option<Ordering> {
        Some(self.tick_order(*other))
    }
}

impl PartialOrd for Tick {
    fn partial_cmp(&self, other: &Self) -> (r: Option<Ordering>) {
        if self.0 == other.0 {
            Some(Ordering::Equal)
        } else if self.is_newer_than(*other) {
            Some(Ordering::Greater)
        } else {
            Some(Ordering::Less)
        }
    }
}

/// Whether the atomic update step replaces `current` by `tick`.
pub open spec fn spec_tick_replaces(tick: i32, current: i32, keep_newer: bool) -> bool {
    if keep_newer {
        spec_is_newer(tick, current)
    } else {
        spec_is_newer(current, tick)
    }
}

/// The step that an atomic update applies to the stored value `current`: with `keep_newer`,
/// `tick` replaces `current` when it is newer; otherwise it replaces `current` when `current`
/// is newer than `tick`. `None` keeps the stored value.
pub fn tick_replacement(tick: i32, current: i32, keep_newer: bool) -> (r: Option<i32>)
    ensures
        r == (if spec_tick_replaces(tick, current, keep_newer) {
            Some(tick)
        } else {
            None::<i32>
        }),
{
    let replace = if keep_newer {
        Tick(tick).is_newer_than(Tick(current))
    } else {
        Tick(current).is_newer_than(Tick(tick))
    };
    if replace {
        Some(tick)
    } else {
        None
    }
}

/// Calls `AtomicI32::fetch_update` with `tick_replacement(tick, .., keep_newer)` as the update
/// step. As that function is documented, it returns `Ok(previous)` when the step returned
/// `Some` for the value it last read (and then stored the new value), and `Err(previous)`
/// when the step returned `None` for it. What the other threads store in between is not
/// known here, so nothing is said of which value was read.
#[verifier::external_body]
fn atomic_fetch_update(atomic: &AtomicI32, tick: i32, keep_newer: bool) -> (r: Result<i32, i32>)
    ensures
        match r {
            Ok(previous) => spec_tick_replaces(tick, previous, keep_newer),
            Err(previous) => !spec_tick_replaces(tick, previous, keep_newer),
        },
{
    atomic.fetch_update(
        std::sync::atomic::Ordering::SeqCst,
        std::sync::atomic::Ordering::Acquire,
        |current| tick_replacement(tick, current, keep_newer),
    )
}

/// A [`Tick`] that can be shared between threads.
#[derive(Debug, Default)]
pub struct AtomicTick(pub AtomicI32);

impl AtomicTick {
    /// Creates an atomic tick holding `tick`.
    pub fn new(tick: Tick) -> (r: Self) {
        AtomicTick(AtomicI32::new(tick.0))
    }

    /// Reads the current tick. Other threads may change it at any time, so nothing is
    /// promised of the value.
    pub fn get(&self) -> (r: Tick) {
        Tick(self.0.load(std::sync::atomic::Ordering::Relaxed))
    }

    /// Stores `tick`.
    pub fn set(&self, tick: Tick) {
        self.0.store(tick.0, std::sync::atomic::Ordering::Relaxed);
    }

    /// Stores `tick` if it is newer than the current value (a maximum). Returns `tick` when it
    /// was stored, otherwise the current value, of which `tick` is not newer.
    pub fn update_newer(&self, tick: Tick) -> (r: Tick)
        ensures
            r == tick || !spec_is_newer(tick.0, r.0),
    {
        match atomic_fetch_update(&self.0, tick.0, true) {
            Ok(_) => tick,
            Err(current) => Tick(current),
        }
    }

    /// Stores `tick` if the current value is newer than it (a minimum). Returns `tick` when it
    /// was stored, otherwise the current value, which is not newer than `tick`.
    pub fn update_older(&self, tick: Tick) -> (r: Tick)
        ensures
            r == tick || !spec_is_newer(r.0, tick.0),
    {
        match atomic_fetch_update(&self.0, tick.0, false) {
            Ok(_) => tick,
            Err(current) => Tick(current),
        }
    }
}

} // verus!
