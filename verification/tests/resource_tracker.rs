use pulz_schedule::resource::ResourceAccess;
use pulz_schedule::schedule::resource_tracker::{ResourceConflict, ResourceMutTracker};
use pulz_schedule::schedule::{Layer, SystemId};

fn make_shared_access(resource_idx: usize) -> ResourceAccess {
    let mut access = ResourceAccess::new();
    access.shared.insert(resource_idx);
    access
}

fn make_exclusive_access(resource_idx: usize) -> ResourceAccess {
    let mut access = ResourceAccess::new();
    access.exclusive.insert(resource_idx);
    access
}

#[test]
fn tracker_no_conflict_sequential_layers() {
    let mut tracker = ResourceMutTracker::new();
    let mut dependent = vec![Layer::undefined(); 2];
    tracker
        .mark_access(&make_exclusive_access(0), Layer(0), SystemId(0), &mut dependent)
        .unwrap();
    tracker
        .mark_access(&make_exclusive_access(0), Layer(1), SystemId(1), &mut dependent)
        .unwrap();
}

#[test]
fn tracker_exclusive_exclusive_same_layer_conflict() {
    let mut tracker = ResourceMutTracker::new();
    let mut dependent = vec![Layer::undefined(); 2];
    tracker
        .mark_access(&make_exclusive_access(0), Layer(0), SystemId(0), &mut dependent)
        .unwrap();
    let result =
        tracker.mark_access(&make_exclusive_access(0), Layer(0), SystemId(1), &mut dependent);
    assert!(result.is_err());
    match result.unwrap_err() {
        ResourceConflict::ExclusiveExclusive {
            resource: 0,
            system_a: SystemId(0),
            system_b: SystemId(1),
            layer: 0,
        } => {}
        other => panic!("unexpected conflict: {other:?}"),
    }
}

#[test]
fn tracker_shared_exclusive_same_layer_conflict() {
    let mut tracker = ResourceMutTracker::new();
    let mut dependent = vec![Layer::undefined(); 2];
    tracker
        .mark_access(&make_shared_access(0), Layer(0), SystemId(0), &mut dependent)
        .unwrap();
    let result =
        tracker.mark_access(&make_exclusive_access(0), Layer(0), SystemId(1), &mut dependent);
    assert!(result.is_err());
    match result.unwrap_err() {
        ResourceConflict::SharedExclusive {
            resource: 0,
            system_shared,
            system_exclusive: SystemId(1),
            layer: 0,
        } => {
            assert_eq!(system_shared, vec![SystemId(0)]);
        }
        other => panic!("unexpected conflict: {other:?}"),
    }
}

#[test]
fn tracker_exclusive_shared_same_layer_conflict() {
    let mut tracker = ResourceMutTracker::new();
    let mut dependent = vec![Layer::undefined(); 2];
    tracker
        .mark_access(&make_exclusive_access(0), Layer(0), SystemId(0), &mut dependent)
        .unwrap();
    let result =
        tracker.mark_access(&make_shared_access(0), Layer(0), SystemId(1), &mut dependent);
    assert!(result.is_err());
}

#[test]
fn tracker_exclusive_then_shared_next_layer_ok() {
    let mut tracker = ResourceMutTracker::new();
    let mut dependent = vec![Layer::undefined(); 2];
    tracker
        .mark_access(&make_exclusive_access(0), Layer(0), SystemId(0), &mut dependent)
        .unwrap();
    tracker
        .mark_access(&make_shared_access(0), Layer(1), SystemId(1), &mut dependent)
        .unwrap();
}

#[test]
fn tracker_shared_then_exclusive_next_layer_ok() {
    let mut tracker = ResourceMutTracker::new();
    let mut dependent = vec![Layer::undefined(); 2];
    tracker
        .mark_access(&make_shared_access(0), Layer(0), SystemId(0), &mut dependent)
        .unwrap();
    tracker
        .mark_access(&make_exclusive_access(0), Layer(1), SystemId(1), &mut dependent)
        .unwrap();
}

#[test]
fn tracker_multiple_shared_same_layer_ok() {
    let mut tracker = ResourceMutTracker::new();
    let mut dependent = vec![Layer::undefined(); 3];
    tracker
        .mark_access(&make_shared_access(0), Layer(0), SystemId(0), &mut dependent)
        .unwrap();
    tracker
        .mark_access(&make_shared_access(0), Layer(0), SystemId(1), &mut dependent)
        .unwrap();
}

#[test]
fn tracker_different_resources_no_conflict() {
    let mut tracker = ResourceMutTracker::new();
    let mut dependent = vec![Layer::undefined(); 2];
    tracker
        .mark_access(&make_exclusive_access(0), Layer(0), SystemId(0), &mut dependent)
        .unwrap();
    tracker
        .mark_access(&make_exclusive_access(1), Layer(0), SystemId(1), &mut dependent)
        .unwrap();
}

#[test]
fn tracker_shared_dependent_layer_updated() {
    let mut tracker = ResourceMutTracker::new();
    let mut dependent = vec![Layer::undefined(); 2];
    tracker
        .mark_access(&make_shared_access(0), Layer(0), SystemId(0), &mut dependent)
        .unwrap();
    tracker
        .mark_access(&make_shared_access(0), Layer(1), SystemId(1), &mut dependent)
        .unwrap();
    // System 0's dependent layer should be updated to 1
    assert_eq!(dependent[0], Layer(1));
}

#[test]
fn tracker_exclusive_cleans_shared_systems() {
    let mut tracker = ResourceMutTracker::new();
    let mut dependent = vec![Layer::undefined(); 2];
    tracker
        .mark_access(&make_shared_access(0), Layer(0), SystemId(0), &mut dependent)
        .unwrap();
    tracker
        .mark_access(&make_exclusive_access(0), Layer(1), SystemId(1), &mut dependent)
        .unwrap();
    let result =
        tracker.mark_access(&make_shared_access(0), Layer(1), SystemId(2), &mut dependent);
    assert!(result.is_err());
}

// --- further cases ---

#[test]
fn tracker_exclusive_lowers_dependent_layers_of_readers() {
    let mut tracker = ResourceMutTracker::new();
    let mut dependent = vec![Layer::undefined(); 3];
    tracker
        .mark_access(&make_shared_access(4), Layer(0), SystemId(0), &mut dependent)
        .unwrap();
    tracker
        .mark_access(&make_shared_access(4), Layer(1), SystemId(1), &mut dependent)
        .unwrap();
    tracker
        .mark_access(&make_exclusive_access(4), Layer(3), SystemId(2), &mut dependent)
        .unwrap();
    // system 0 had to run by layer 1 already; system 1 by layer 3
    assert_eq!(dependent, vec![Layer(1), Layer(3), Layer::undefined()]);
}

#[test]
fn tracker_conflict_in_one_access_of_both_kinds() {
    let mut tracker = ResourceMutTracker::new();
    let mut dependent = vec![Layer::undefined(); 1];
    let mut access = ResourceAccess::new();
    access.exclusive.insert(2);
    access.shared.insert(2);
    match tracker.mark_access(&access, Layer(0), SystemId(0), &mut dependent) {
        Err(ResourceConflict::SharedExclusive {
            resource: 2,
            system_shared,
            system_exclusive: SystemId(0),
            layer: 0,
        }) => assert_eq!(system_shared, vec![SystemId(0)]),
        other => panic!("unexpected outcome: {other:?}"),
    }
}

#[test]
fn tracker_run_conflicts_only_with_same_layer() {
    // layer 0: two readers of resource 3 and a writer of resource 4; layer 1: a writer of
    // resource 3 succeeds, then a reader of resource 3 in layer 1 conflicts with it
    let mut tracker = ResourceMutTracker::new();
    let mut dependent = vec![Layer::undefined(); 5];
    tracker.mark_access(&make_shared_access(3), Layer(0), SystemId(0), &mut dependent).unwrap();
    tracker.mark_access(&make_shared_access(3), Layer(0), SystemId(1), &mut dependent).unwrap();
    tracker.mark_access(&make_exclusive_access(4), Layer(0), SystemId(2), &mut dependent).unwrap();
    tracker.mark_access(&make_exclusive_access(3), Layer(1), SystemId(3), &mut dependent).unwrap();
    let result = tracker.mark_access(&make_shared_access(3), Layer(1), SystemId(4), &mut dependent);
    match result {
        Err(ResourceConflict::SharedExclusive { resource, system_exclusive, layer, .. }) => {
            assert_eq!(resource, 3);
            assert_eq!(system_exclusive, SystemId(3));
            assert_eq!(layer, 1);
        }
        _ => panic!("expected a conflict between shared and exclusive access"),
    }
}
