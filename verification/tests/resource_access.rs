use pulz_schedule::resource::{ResourceAccess, ResourceId};

fn shared_access(id: ResourceId<u32>) -> ResourceAccess {
    let mut a = ResourceAccess::new();
    a.add_shared(id);
    a
}

fn exclusive_access(id: ResourceId<u32>) -> ResourceAccess {
    let mut a = ResourceAccess::new();
    a.add_exclusive(id);
    a
}

// --- add_shared / add_exclusive ---

#[test]
fn access_add_shared_inserts() {
    let id = ResourceId::<u32>::new(5);
    let mut a = ResourceAccess::new();
    assert!(a.add_shared(id)); // was not present
    assert!(!a.add_shared(id)); // already present
}

#[test]
fn access_add_exclusive_inserts() {
    let id = ResourceId::<u32>::new(7);
    let mut a = ResourceAccess::new();
    assert!(a.add_exclusive(id));
    assert!(!a.add_exclusive(id));
}

// --- is_shared / is_exclusive ---

#[test]
fn access_is_shared() {
    let id = ResourceId::<u32>::new(1);
    let mut a = ResourceAccess::new();
    assert!(!a.is_shared(id));
    a.add_shared(id);
    assert!(a.is_shared(id));
}

#[test]
fn access_is_exclusive() {
    let id = ResourceId::<u32>::new(2);
    let mut a = ResourceAccess::new();
    assert!(!a.is_exclusive(id));
    // is_exclusive looks into the shared set
    a.add_shared(id);
    assert!(a.is_exclusive(id));
}

// --- clear ---

#[test]
fn access_clear() {
    let id = ResourceId::<u32>::new(10);
    let mut a = ResourceAccess::new();
    a.add_shared(id);
    a.add_exclusive(ResourceId::<u32>::new(11));
    a.clear();
    assert!(!a.is_shared(id));
}

// --- union_with ---

#[test]
fn access_union_with_merges() {
    let id_a = ResourceId::<u32>::new(1);
    let id_b = ResourceId::<u32>::new(2);
    let mut a = shared_access(id_a);
    let b = shared_access(id_b);
    a.union_with(&b);
    assert!(a.is_shared(id_a));
    assert!(a.is_shared(id_b));
}

#[test]
fn access_union_with_removes_exclusive_overlaps() {
    let id = ResourceId::<u32>::new(1);
    let mut a = shared_access(id);
    let b = exclusive_access(id);
    a.union_with(&b);
    // exclusive should be removed from shared
    assert!(!a.is_shared(id));
}

// --- union_with_checked ---

#[test]
fn access_union_with_checked_ok() {
    let id_a = ResourceId::<u32>::new(1);
    let id_b = ResourceId::<u32>::new(2);
    let mut a = shared_access(id_a);
    let b = shared_access(id_b);
    a.union_with_checked(&b); // should not panic
}

// --- is_compatible ---

#[test]
fn access_is_compatible_disjoint_resources() {
    let id_a = ResourceId::<u32>::new(1);
    let id_b = ResourceId::<u32>::new(2);
    let a = shared_access(id_a);
    let b = exclusive_access(id_b);
    assert!(a.is_compatible(&b));
}

#[test]
fn access_is_compatible_shared_shared() {
    let id = ResourceId::<u32>::new(1);
    let a = shared_access(id);
    let b = shared_access(id);
    assert!(a.is_compatible(&b));
}

#[test]
fn access_is_compatible_exclusive_exclusive() {
    let id_a = ResourceId::<u32>::new(1);
    let id_b = ResourceId::<u32>::new(2);
    let a = exclusive_access(id_a);
    let b = exclusive_access(id_b);
    assert!(a.is_compatible(&b));
}

#[test]
fn access_is_compatible_shared_exclusive_same_resource_fails() {
    let id = ResourceId::<u32>::new(1);
    let a = shared_access(id);
    let b = exclusive_access(id);
    assert!(!a.is_compatible(&b));
}

#[test]
fn access_is_compatible_exclusive_exclusive_same_resource_fails() {
    let id = ResourceId::<u32>::new(1);
    let a = exclusive_access(id);
    let b = exclusive_access(id);
    assert!(!a.is_compatible(&b));
}

// --- is_valid ---

#[test]
fn access_is_valid_no_overlap() {
    let mut a = ResourceAccess::new();
    a.add_shared(ResourceId::<u32>::new(1));
    a.add_exclusive(ResourceId::<u32>::new(2));
    assert!(a.is_valid());
}

#[test]
fn access_is_valid_with_overlap_fails() {
    let id = ResourceId::<u32>::new(1);
    let mut a = ResourceAccess::new();
    a.add_shared(id);
    a.add_exclusive(id);
    assert!(!a.is_valid());
}

// --- Default ---

#[test]
fn access_default_is_empty() {
    let a = ResourceAccess::default();
    assert!(a.shared.is_empty());
    assert!(a.exclusive.is_empty());
}

// --- further cases ---

#[test]
fn checked_adds_and_union_stays_valid() {
    let mut a = ResourceAccess::new();
    assert!(a.add_shared_checked(ResourceId::<u32>::new(3)));
    assert!(a.add_exclusive_checked(ResourceId::<u32>::new(4)));
    let mut b = ResourceAccess::new();
    b.add_exclusive(ResourceId::<u32>::new(3));
    a.union_with(&b);
    assert!(a.is_valid());
    assert_eq!(a.exclusive.items(), vec![3, 4]);
    assert!(a.shared.items().is_empty());
}

#[test]
fn resource_ids_keep_their_index() {
    let id = ResourceId::<u32>::new(9);
    let untyped = id.untyped();
    assert_eq!(untyped.index(), 9);
    let typed: ResourceId<String> = untyped.typed();
    assert_eq!(typed.index(), 9);
}

#[test]
fn resource_id_equality_goes_by_index() {
    let a = ResourceId::<u32>::new(3);
    let b = ResourceId::<u32>::new(3);
    let c = ResourceId::<u32>::new(4);
    assert!(a == b);
    assert!(a != c);
    assert!(a.untyped() == b.untyped());
    assert!(a.untyped().typed::<u32>() == a);
}
