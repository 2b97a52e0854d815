use pulz_schedule::util::{tick_replacement, AtomicTick, DirtyVersion, Tick};

// --- Initial state ---

#[test]
fn dirty_version_new_is_clean() {
    let mut v = DirtyVersion::new();
    // Initially dirty (counter = 0, and is_dirty checks <= 0)
    assert!(v.is_dirty());
    // Reset makes it clean: 0 → 1
    assert!(v.reset());
    assert!(!v.is_dirty()); // 1 > 0, so clean
}

#[test]
fn dirty_version_initial_state_is_dirty() {
    let v = DirtyVersion::new();
    assert!(v.is_dirty()); // 0 <= 0
}

// --- dirty() ---

#[test]
fn dirty_version_make_dirty_from_clean() {
    let v = DirtyVersion::new();
    assert!(v.is_dirty()); // 0 <= 0
}

#[test]
fn dirty_version_flips_positive() {
    let mut v = DirtyVersion::new();
    v.dirty(); // 0 stays 0
    assert!(v.is_dirty());
}

#[test]
fn dirty_version_make_dirty_from_positive() {
    let mut v = DirtyVersion::new();
    v.reset(); // 0 → 1 (clean)
    assert!(!v.is_dirty());
    v.dirty(); // 1 → -1 (dirty)
    assert!(v.is_dirty());
}

// --- reset() ---

#[test]
fn dirty_version_reset_from_negative() {
    let mut v = DirtyVersion::new();
    assert!(v.reset()); // 0 → 1, returned true because was dirty
    assert!(!v.is_dirty());
}

#[test]
fn dirty_version_reset_from_positive_returns_false() {
    let mut v = DirtyVersion::new();
    v.reset(); // 0 → 1
    assert!(!v.reset()); // 1 > 0, returns false
}

#[test]
fn dirty_version_reset_chain_increments() {
    let mut v = DirtyVersion::new();
    assert!(v.reset()); // 0 → 1 (first reset, was dirty)
    assert!(!v.reset()); // 1 > 0, returns false (already clean)
    v.dirty(); // 1 → -1
    assert!(v.reset()); // -1 → 2
    assert!(!v.reset()); // 2 > 0, returns false
}

#[test]
fn dirty_version_reset_from_negative_returns_true() {
    let mut v = DirtyVersion::new();
    v.dirty(); // still 0
    let mut v2 = DirtyVersion::new();
    v2.reset(); // 0 → 1
    v2.dirty(); // 1 → -1
    assert!(v2.is_dirty());
    assert!(v2.reset()); // -1 → 2, returns true
    assert!(!v2.is_dirty());
}

// --- check_and_reset() ---

#[test]
fn check_and_reset_upstream_resets() {
    let mut upstream = DirtyVersion::new();
    let mut downstream = DirtyVersion::new();
    // Both start dirty (0)
    assert!(downstream.check_and_reset(&mut upstream));
    // upstream: 0 → 1, downstream gets upstream's new value (1)
    assert!(!downstream.is_dirty());
}

#[test]
fn check_and_reset_upstream_not_resets_copies() {
    let mut upstream = DirtyVersion::new();
    upstream.reset(); // 0 → 1 (clean)
    let mut downstream = DirtyVersion::new();
    // downstream was dirty (0), upstream is clean (1), they differ → sync
    assert!(downstream.check_and_reset(&mut upstream));
    assert_eq!(downstream.0, upstream.0);
}

#[test]
fn check_and_reset_no_change() {
    let mut upstream = DirtyVersion::new();
    upstream.reset(); // 0 → 1
    upstream.reset(); // stays 1
    let mut downstream = DirtyVersion::new();
    downstream.reset(); // 0 → 1
    downstream.reset(); // stays 1
    // Both at the same value, upstream reset returns false → no change
    assert!(!downstream.check_and_reset(&mut upstream));
}

#[test]
fn dirty_version_negative_then_positive() {
    let mut v = DirtyVersion::new();
    v.dirty(); // 0 stays 0
    v.reset(); // 0 → 1
    v.dirty(); // 1 → -1
    assert!(v.is_dirty());
    v.reset(); // -1 → 2
    assert!(!v.is_dirty());
}

#[test]
fn dirty_version_multiple_dirty_cycles() {
    let mut v = DirtyVersion::new();
    // Cycle 1: dirty → reset → dirty → reset
    v.dirty(); // 0 stays 0
    v.reset(); // 0 → 1
    v.dirty(); // 1 → -1
    v.reset(); // -1 → 2
    // Cycle 2
    v.dirty(); // 2 → -2
    v.reset(); // -2 → 3
    assert!(!v.is_dirty());
}

// --- further cases ---

#[test]
fn dirty_then_reset_gives_fresh_version() {
    let mut v = DirtyVersion::new();
    v.reset();
    v.reset();
    assert_eq!(v.0, 1);
    v.dirty();
    assert_eq!(v.0, -1);
    v.reset();
    assert_eq!(v.0, 2);
    // a second check_and_reset settles
    let mut down = DirtyVersion::new();
    assert!(down.check_and_reset(&mut v));
    assert!(!down.check_and_reset(&mut v));
}

#[test]
fn tick_next_is_newer() {
    let t = Tick::new(5);
    assert_eq!(t.get(), 5);
    let n = t.next();
    assert_eq!(n.get(), 6);
    assert!(n.is_newer_than(t));
    assert!(!t.is_newer_than(n));
    assert!(!t.is_newer_than(t));
}

#[test]
fn tick_compares_across_wrap_around() {
    let old = Tick::new(i32::MAX);
    let new = Tick::new(i32::MIN);
    assert!(new.is_newer_than(old));
    assert!(!old.is_newer_than(new));
    assert!(new > old);
    assert!(old < new);
}

#[test]
fn atomic_tick_keeps_newest_and_oldest() {
    let t = AtomicTick::new(Tick::new(10));
    assert_eq!(t.get(), Tick::new(10));
    assert_eq!(t.update_newer(Tick::new(12)), Tick::new(12));
    assert_eq!(t.get(), Tick::new(12));
    assert_eq!(t.update_newer(Tick::new(11)), Tick::new(12));
    assert_eq!(t.update_older(Tick::new(3)), Tick::new(3));
    assert_eq!(t.update_older(Tick::new(7)), Tick::new(3));
    t.set(Tick::new(100));
    assert_eq!(t.get(), Tick::new(100));
}

#[test]
fn tick_replacement_decides() {
    assert_eq!(tick_replacement(5, 3, true), Some(5));
    assert_eq!(tick_replacement(3, 5, true), None);
    assert_eq!(tick_replacement(3, 5, false), Some(3));
    assert_eq!(tick_replacement(5, 3, false), None);
}

#[test]
fn tick_next_wraps_around() {
    let t = Tick::new(i32::MAX);
    let n = t.next();
    assert_eq!(n, Tick::new(i32::MIN));
    assert!(n.is_newer_than(t));
}
