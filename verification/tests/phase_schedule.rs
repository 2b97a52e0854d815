use pulz_schedule::interned::{InternedStr, Interner};
use pulz_schedule::label::SystemSetId;
use pulz_schedule::phase_schedule::dot::DotItem;
use pulz_schedule::phase_schedule::execution::{ExecutionCursor, ExecutionStep};
use pulz_schedule::phase_schedule::graph::DependencyGraph;
use pulz_schedule::phase_schedule::planner::{PhaseScheduleError, Schedule, TaskGroup};
use pulz_schedule::phase_schedule::tracker::ResourceConflict;
use pulz_schedule::resource::{ResourceAccess, ResourceId};
use pulz_schedule::schedule::schedule_impl::SystemKind;

struct Labels {
    first: SystemSetId,
    last: SystemSetId,
    update: SystemSetId,
    a: SystemSetId,
    b: SystemSetId,
}

fn labels() -> Labels {
    let mut interner = Interner::new();
    let mut l = |s: &'static str| SystemSetId(InternedStr::from_static(&mut interner, s));
    Labels {
        first: l("First"),
        last: l("Last"),
        update: l("Update"),
        a: l("A"),
        b: l("B"),
    }
}

fn schedule(l: &Labels) -> Schedule {
    Schedule::new(l.first, l.last, l.update)
}

fn core_graph(l: &Labels) -> DependencyGraph {
    let mut g = DependencyGraph::new();
    assert_eq!(g.insert_phase(l.first), 0);
    assert_eq!(g.insert_phase(l.last), 1);
    assert_eq!(g.insert_phase(l.update), 2);
    g
}

fn add(s: &mut Schedule, kind: SystemKind, access: ResourceAccess, phase: Option<SystemSetId>) {
    let mut b = s.add_system(kind, access);
    if let Some(p) = phase {
        b.into_phase(p);
    }
    b.finish(s);
}

#[test]
fn schedule_test_schedule() {
    let l = labels();
    let mut s = schedule(&l);
    add(&mut s, SystemKind::Send, ResourceAccess::new(), None);
    add(&mut s, SystemKind::Exclusive, ResourceAccess::new(), None);
    assert!(s.is_dirty());
    assert_eq!(s.init().unwrap(), true);
    assert!(!s.is_dirty());
    assert_eq!(
        s.ordered_task_groups(),
        &vec![TaskGroup::Concurrent(vec![(0, usize::MAX)]), TaskGroup::Exclusive(1)]
    );
    // a second init does nothing
    assert_eq!(s.init().unwrap(), false);

    // one iteration runs the concurrent system, joins, then runs the exclusive one
    let mut cursor = ExecutionCursor::new();
    let groups = s.ordered_task_groups();
    assert_eq!(
        cursor.next_step(groups),
        (ExecutionStep::RunConcurrent { system: 0, wait_groups: 2, signal_index: 0 }, true)
    );
    assert_eq!(cursor.next_step(groups), (ExecutionStep::JoinGroup, true));
    assert_eq!(cursor.next_step(groups), (ExecutionStep::RunExclusive(1), false));
    assert_eq!(cursor.current_task_group, 0);
    // the next call starts a new iteration
    assert_eq!(
        cursor.next_step(groups).0,
        ExecutionStep::RunConcurrent { system: 0, wait_groups: 2, signal_index: 0 }
    );
}

#[test]
fn phase_graph_sorts_dependent_phase_after_update() {
    let l = labels();
    let mut g = core_graph(&l);
    let a = g.insert_phase(l.a);
    assert_eq!(a, 3);
    g.add_dependency(a, 2);
    assert_eq!(
        g.build_topological_groups(),
        Ok(vec![vec![0], vec![2], vec![3], vec![1]])
    );
}

#[test]
fn phase_graph_cycle_returns_groups_so_far() {
    let l = labels();
    let mut g = core_graph(&l);
    let a = g.insert_phase(l.a);
    let b = g.insert_phase(l.b);
    g.add_dependency(a, b);
    g.add_dependency(b, a);
    assert_eq!(g.build_topological_groups(), Err(vec![vec![0], vec![2]]));
}

#[test]
fn phase_graph_sub_node_completes_before_parent() {
    let l = labels();
    let mut g = core_graph(&l);
    let p = g.insert_phase(l.a);
    let child = g.insert_new();
    assert_eq!(child, 4);
    g.add_sub_node(p, child);
    g.set_parent(child, p);
    g.add_dependency(child, 2);
    assert_eq!(
        g.build_topological_groups(),
        Ok(vec![vec![0], vec![2], vec![4, 3], vec![1]])
    );
}

#[test]
fn phase_graph_insert_phase_is_idempotent() {
    let l = labels();
    let mut g = core_graph(&l);
    assert_eq!(g.insert_phase(l.update), 2);
    assert_eq!(g.len(), 3);
}

#[test]
fn phase_schedule_dot_items() {
    let l = labels();
    let mut s = schedule(&l);
    add(&mut s, SystemKind::Send, ResourceAccess::new(), None);
    add(&mut s, SystemKind::Exclusive, ResourceAccess::new(), None);
    assert_eq!(
        s.dot_items(),
        vec![
            DotItem::BoxNode(0),
            DotItem::BoxNode(1),
            DotItem::EndNode(2),
            DotItem::StartEdge(2)
        ]
    );
    s.init().unwrap();
    assert_eq!(
        s.dot_items(),
        vec![
            DotItem::ClusterStart(0),
            DotItem::ClusterNode(0),
            DotItem::ClusterEnd,
            DotItem::StartToCluster { to: 0, cluster: 0 },
            DotItem::DashedEdge { from: 0, to: 1 },
            DotItem::BoxNode(1),
            DotItem::EndNode(2),
            DotItem::DashedEdge { from: 1, to: 2 },
        ]
    );
}

#[test]
fn phase_schedule_exclusive_conflict_in_one_group() {
    let l = labels();
    let mut s = schedule(&l);
    let r: ResourceId = ResourceId::new(5);
    let mut a0 = ResourceAccess::new();
    a0.add_exclusive(r);
    let mut a1 = ResourceAccess::new();
    a1.add_exclusive(r);
    add(&mut s, SystemKind::Send, a0, None);
    add(&mut s, SystemKind::Send, a1, None);
    match s.init() {
        Err(PhaseScheduleError::Conflict(c)) => assert_eq!(
            c,
            ResourceConflict::ExclusiveExclusive { resource: 5, system_a: 0, system_b: 1 }
        ),
        other => panic!("unexpected outcome: {other:?}"),
    }
    assert!(s.is_dirty());
    assert!(s.ordered_task_groups().is_empty());
}

#[test]
fn phase_schedule_shared_then_exclusive_in_later_phase() {
    let l = labels();
    let mut s = schedule(&l);
    s.add_phase_dependency(l.update, l.a);
    let r: ResourceId = ResourceId::new(3);
    let mut a0 = ResourceAccess::new();
    a0.add_shared(r);
    let mut a1 = ResourceAccess::new();
    a1.add_exclusive(r);
    add(&mut s, SystemKind::Send, a0, None);
    add(&mut s, SystemKind::Send, a1, Some(l.a));
    s.init().unwrap();
    // system 0 is needed by group 2 (phase A depends on the update phase)
    assert_eq!(
        s.ordered_task_groups(),
        &vec![TaskGroup::Concurrent(vec![(0, 2), (1, usize::MAX)])]
    );
}

#[test]
fn phase_schedule_exclusive_dropped_before_dependant() {
    let l = labels();
    let mut s = schedule(&l);
    s.add_phase_dependency(l.update, l.a);
    add(&mut s, SystemKind::Exclusive, ResourceAccess::new(), None);
    add(&mut s, SystemKind::Send, ResourceAccess::new(), Some(l.a));
    s.init().unwrap();
    assert_eq!(
        s.ordered_task_groups(),
        &vec![TaskGroup::Exclusive(0), TaskGroup::Concurrent(vec![(1, usize::MAX)])]
    );
}

#[test]
fn phase_schedule_unsend_moves_to_the_end() {
    let l = labels();
    let mut s = schedule(&l);
    s.add_phase_chain(&vec![l.a, l.b]);
    add(&mut s, SystemKind::Unsend, ResourceAccess::new(), None);
    add(&mut s, SystemKind::Send, ResourceAccess::new(), Some(l.a));
    add(&mut s, SystemKind::Send, ResourceAccess::new(), Some(l.b));
    s.init().unwrap();
    assert_eq!(
        s.ordered_task_groups(),
        &vec![TaskGroup::Concurrent(vec![
            (1, 2),
            (2, usize::MAX),
            (0, usize::MAX)
        ])]
    );
}

#[test]
fn phase_schedule_system_after_phase_gets_own_node() {
    let l = labels();
    let mut s = schedule(&l);
    add(&mut s, SystemKind::Send, ResourceAccess::new(), Some(l.a));
    let mut b = s.add_system(SystemKind::Send, ResourceAccess::new());
    assert_eq!(b.system_id().0, 1);
    b.after(&mut s, l.a);
    b.finish(&mut s);
    assert_eq!(s.nodes_len(), 5);
    s.init().unwrap();
    assert_eq!(
        s.ordered_task_groups(),
        &vec![TaskGroup::Concurrent(vec![(0, 2), (1, usize::MAX)])]
    );
}

#[test]
fn phase_schedule_system_before_phase() {
    let l = labels();
    let mut s = schedule(&l);
    add(&mut s, SystemKind::Send, ResourceAccess::new(), Some(l.a));
    let mut b = s.add_system(SystemKind::Send, ResourceAccess::new());
    b.before(&mut s, l.a);
    b.finish(&mut s);
    s.init().unwrap();
    let groups = s.ordered_task_groups();
    // system 1 runs in an earlier group than system 0, and group 2 needs it
    assert_eq!(
        groups,
        &vec![TaskGroup::Concurrent(vec![(1, 2), (0, usize::MAX)])]
    );
}

#[test]
fn phase_schedule_has_exclusive_systems() {
    let l = labels();
    let mut s = schedule(&l);
    add(&mut s, SystemKind::Send, ResourceAccess::new(), None);
    assert!(!s.has_exclusive_systems());
    add(&mut s, SystemKind::Exclusive, ResourceAccess::new(), None);
    assert!(s.has_exclusive_systems());
}

#[test]
fn execution_cursor_idle_without_groups() {
    let mut cursor = ExecutionCursor::new();
    let groups: Vec<TaskGroup> = Vec::new();
    assert_eq!(cursor.next_step(&groups), (ExecutionStep::Idle, false));
}

#[test]
fn phase_schedule_update_access_merges_systems() {
    let l = labels();
    let mut s = schedule(&l);
    let r1: ResourceId = ResourceId::new(1);
    let r2: ResourceId = ResourceId::new(2);
    let r3: ResourceId = ResourceId::new(3);
    let mut a0 = ResourceAccess::new();
    a0.add_shared(r1);
    a0.add_shared(r2);
    let mut a1 = ResourceAccess::new();
    a1.add_exclusive(r2);
    let mut a2 = ResourceAccess::new();
    a2.add_exclusive(r3);
    add(&mut s, SystemKind::Send, a0, None);
    add(&mut s, SystemKind::Unsend, a1, None);
    // the access of a system that runs alone is not merged
    add(&mut s, SystemKind::Exclusive, a2, None);
    let mut merged = ResourceAccess::new();
    s.update_access(&mut merged);
    assert!(merged.is_shared(r1));
    assert!(!merged.is_shared(r2));
    assert!(merged.exclusive.contains(2));
    assert!(!merged.exclusive.contains(3));
    assert!(!merged.is_shared(r3));
}

#[test]
fn resource_access_extend_is_plain_union() {
    let r1: ResourceId = ResourceId::new(1);
    let mut a = ResourceAccess::new();
    a.add_shared(r1);
    let mut b = ResourceAccess::new();
    b.add_exclusive(r1);
    a.extend(&b);
    assert!(a.shared.contains(1));
    assert!(a.exclusive.contains(1));
}
