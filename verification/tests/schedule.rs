use pulz_schedule::interned::InternedStr;
use pulz_schedule::label::SystemSetId;
use pulz_schedule::resource::ResourceId;
use pulz_schedule::schedule::dump::{parse_format, ScheduleDumpFormat};
use pulz_schedule::schedule::schedule_impl::{LayerRun, Schedule, SystemKind};
use pulz_schedule::schedule::{Layer, ScheduleError, SystemId};
use pulz_schedule::atom::Atom;
use pulz_schedule::util::DirtyVersion;

fn label(i: u16) -> SystemSetId {
    SystemSetId(InternedStr(i))
}

#[test]
fn schedule_layers_follow_dependencies() {
    let mut s = Schedule::new();
    let a = s.add_system(label(1));
    let _b = s.add_system(label(2));
    s.after(a, label(2));
    s.rebuild().unwrap();
    assert_eq!(s.ordered_layers(), &vec![vec![SystemId(1)], vec![SystemId(0)]]);
    // system 0 waits for system 1, so system 1 must have run by layer 1
    assert_eq!(s.system_dependent_layers(), &vec![Layer::undefined(), Layer(1)]);
}

#[test]
fn schedule_chain_orders_sets() {
    let mut s = Schedule::new();
    s.add_system(label(1));
    s.add_system(label(2));
    s.add_system(label(3));
    s.chain(&vec![label(3), label(2), label(1)]);
    s.rebuild().unwrap();
    assert_eq!(
        s.ordered_layers(),
        &vec![vec![SystemId(2)], vec![SystemId(1)], vec![SystemId(0)]]
    );
}

#[test]
fn schedule_cycle_is_a_graph_error() {
    let mut s = Schedule::new();
    s.add_system(label(1));
    s.add_system(label(2));
    s.add_dependency(label(1), label(2));
    s.add_dependency(label(2), label(1));
    assert!(matches!(s.rebuild(), Err(ScheduleError::GraphError(_))));
    assert!(s.ordered_layers().is_empty());
}

#[test]
fn schedule_exclusive_systems_get_their_own_layer() {
    let mut s = Schedule::new();
    s.add_system(label(1));
    s.add_system_exclusive(label(2));
    s.add_system(label(3));
    s.rebuild().unwrap();
    let layers = s.ordered_layers();
    assert_eq!(layers.len(), 2);
    assert_eq!(layers[0], vec![SystemId(1)]);
    assert_eq!(layers[1].len(), 2);
    assert!(layers[1].contains(&SystemId(0)));
    assert!(layers[1].contains(&SystemId(2)));
}

#[test]
fn schedule_unsend_systems_run_last_in_layer() {
    let mut s = Schedule::new();
    s.add_system_unsend(label(1));
    s.add_system(label(2));
    s.add_system(label(3));
    s.rebuild().unwrap();
    let layers = s.ordered_layers();
    assert_eq!(layers.len(), 1);
    assert_eq!(layers[0].len(), 3);
    assert_eq!(layers[0][2], SystemId(0));
    assert_eq!(s.system_kinds()[0], SystemKind::Unsend);
}

#[test]
fn schedule_writer_before_readers() {
    // system 0 reads resource 7, system 1 writes it; both in one layer
    let mut s = Schedule::new();
    s.add_system(label(1));
    s.add_system(label(2));
    s.access_mut(SystemId(0)).add_shared(ResourceId::<u32>::new(7));
    s.access_mut(SystemId(1)).add_exclusive(ResourceId::<u32>::new(7));
    s.rebuild().unwrap();
    let layers = s.ordered_layers();
    assert_eq!(layers, &vec![vec![SystemId(0)], vec![SystemId(1)]]);
}

#[test]
fn schedule_two_writers_in_one_layer_conflict() {
    let mut s = Schedule::new();
    s.add_system(label(1));
    s.add_system(label(2));
    s.access_mut(SystemId(0)).add_exclusive(ResourceId::<u32>::new(7));
    s.access_mut(SystemId(1)).add_exclusive(ResourceId::<u32>::new(7));
    assert!(matches!(s.rebuild(), Err(ScheduleError::ResourceConflict(_))));
}

#[test]
fn schedule_init_decides_rebuild() {
    let mut s = Schedule::new();
    s.add_system(label(1));
    let atom = Atom(3);
    let mut version = DirtyVersion::new();
    assert!(s.accepts_resources(atom));
    assert!(s.begin_init(atom, &mut version));
    assert!(!s.begin_init(atom, &mut version));
    assert!(!s.accepts_resources(Atom(4)));
    assert!(s.is_label_used_for_system(label(1)));
    assert!(!s.is_label_used_for_system(label(2)));
}

#[test]
fn dump_format_names() {
    assert_eq!(parse_format("debug"), Ok(ScheduleDumpFormat::Debug));
    assert_eq!(parse_format("DoT"), Ok(ScheduleDumpFormat::Dot));
    assert!(parse_format("svg").is_err());
    let f: ScheduleDumpFormat = "DEBUG".parse().unwrap();
    assert_eq!(f, ScheduleDumpFormat::Debug);
    assert_eq!(ScheduleDumpFormat::default(), ScheduleDumpFormat::Debug);
}

#[test]
fn schedule_new_is_empty() {
    let s = Schedule::new();
    assert_eq!(s.systems_len(), 0);
}

#[test]
fn schedule_add_system_creates_node() {
    let mut s = Schedule::new();
    let node = s.add_system(label(1));
    // the label of the system now names a node with a system
    assert_eq!(node.0, 0);
    assert!(s.is_label_used_for_system(label(1)));
}

#[test]
fn schedule_add_system_unsend() {
    let mut s = Schedule::new();
    s.add_system_unsend(label(1));
    assert_eq!(s.system_kinds()[0], SystemKind::Unsend);
}

#[test]
fn schedule_add_system_exclusive() {
    let mut s = Schedule::new();
    s.add_system_exclusive(label(1));
    assert_eq!(s.system_kinds()[0], SystemKind::Exclusive);
}

#[test]
fn schedule_after_dependency() {
    // sys_a adds 3, sys_b doubles: sys_b after sys_a gives 6, so sys_a runs first
    let mut s = Schedule::new();
    s.add_system(label(1));
    let b = s.add_system(label(2));
    s.after(b, label(1));
    s.rebuild().unwrap();
    assert_eq!(s.ordered_layers(), &vec![vec![SystemId(0)], vec![SystemId(1)]]);
}

#[test]
fn schedule_before_dependency() {
    // sys_b is added first, sys_a before it: sys_a runs first
    let mut s = Schedule::new();
    s.add_system(label(2));
    let a = s.add_system(label(1));
    s.before(a, label(2));
    s.rebuild().unwrap();
    assert_eq!(s.ordered_layers(), &vec![vec![SystemId(1)], vec![SystemId(0)]]);
}

#[test]
fn schedule_run_plan_splits_at_exclusive_layers() {
    let mut s = Schedule::new();
    s.add_system(label(1));
    s.add_system_exclusive(label(2));
    s.add_system(label(3));
    s.rebuild().unwrap();
    assert!(s.has_exclusive_layer());
    assert_eq!(
        s.run_plan(),
        vec![LayerRun::Exclusive(0), LayerRun::Shared { from: 1, to: 2 }]
    );
    assert!(s.is_exclusive_layer(&s.ordered_layers()[0]));
    assert!(!s.is_exclusive_layer(&s.ordered_layers()[1]));
    assert!(!s.is_exclusive_layer(&Vec::new()));
}

#[test]
fn schedule_run_plan_without_exclusive_layers() {
    let mut s = Schedule::new();
    let a = s.add_system(label(1));
    s.add_system(label(2));
    s.after(a, label(2));
    s.rebuild().unwrap();
    assert!(!s.has_exclusive_layer());
    assert_eq!(s.run_plan(), vec![LayerRun::Shared { from: 0, to: 2 }]);
}

#[test]
fn schedule_exclusive_among_shared_conflict_is_an_error() {
    // in one layer: system 0 writes resource 7 and reads resource 8, system 1 reads
    // resource 7, system 2 writes resource 8; system 0 is then both a shared system to
    // move and an exclusive one, which cannot be resolved
    let mut s = Schedule::new();
    s.add_system(label(1));
    s.add_system(label(2));
    s.add_system(label(3));
    s.access_mut(SystemId(0)).add_exclusive(ResourceId::<u32>::new(7));
    s.access_mut(SystemId(0)).add_shared(ResourceId::<u32>::new(8));
    s.access_mut(SystemId(1)).add_shared(ResourceId::<u32>::new(7));
    s.access_mut(SystemId(2)).add_exclusive(ResourceId::<u32>::new(8));
    assert!(matches!(s.rebuild(), Err(ScheduleError::ResourceConflict(_))));
}

#[test]
fn schedule_readers_move_before_writer() {
    // systems 0 and 2 read resource 7, system 1 writes it, all in one layer: reader 0 moves
    // to a layer before the writer, and when the rest of the layer is marked again, so does
    // reader 2
    let mut s = Schedule::new();
    s.add_system(label(1));
    s.add_system(label(2));
    s.add_system(label(3));
    s.access_mut(SystemId(0)).add_shared(ResourceId::<u32>::new(7));
    s.access_mut(SystemId(1)).add_exclusive(ResourceId::<u32>::new(7));
    s.access_mut(SystemId(2)).add_shared(ResourceId::<u32>::new(7));
    s.rebuild().unwrap();
    let layers = s.ordered_layers();
    assert_eq!(layers.len(), 3);
    assert_eq!(layers[0], vec![SystemId(0)]);
    assert_eq!(layers[1], vec![SystemId(2)]);
    assert_eq!(layers[2], vec![SystemId(1)]);
}

#[test]
fn schedule_exclusive_held_back_while_shared_systems_wait() {
    // systems 0 and 1 depend on nothing, so shared systems wait without end; system 2 and
    // the exclusive system 3 follow system 0 in the second layer, where system 3 is held
    // back and, with no later layer to take it, left out
    let mut s = Schedule::new();
    s.add_system(label(1));
    s.add_system(label(2));
    s.add_system(label(3));
    s.add_system_exclusive(label(4));
    s.add_dependency(label(1), label(3));
    s.add_dependency(label(1), label(4));
    s.rebuild().unwrap();
    let layers = s.ordered_layers();
    assert_eq!(layers, &vec![vec![SystemId(0), SystemId(1)], vec![SystemId(2)]]);
}

#[test]
fn schedule_exclusive_only_layer_keeps_its_systems() {
    let mut s = Schedule::new();
    s.add_system_exclusive(label(1));
    s.add_system_exclusive(label(2));
    s.rebuild().unwrap();
    let layers = s.ordered_layers();
    assert_eq!(layers.len(), 1);
    assert_eq!(layers[0].len(), 2);
    assert!(layers[0].contains(&SystemId(0)));
    assert!(layers[0].contains(&SystemId(1)));
}

#[test]
fn schedule_unsend_system_trades_places_with_the_last() {
    // system 0 must run on the schedule's thread: it trades places with the last system of
    // the layer
    let mut s = Schedule::new();
    s.add_system_unsend(label(1));
    s.add_system(label(2));
    s.add_system(label(3));
    s.rebuild().unwrap();
    assert_eq!(s.ordered_layers(), &vec![vec![SystemId(2), SystemId(1), SystemId(0)]]);
}

#[test]
fn schedule_system_in_a_set_is_waited_for() {
    // system 0 belongs to set 10, and system 1 comes after the set: system 0 must have run
    // by the layer of system 1
    let mut s = Schedule::new();
    let a = s.add_system(label(1));
    let b = s.add_system(label(2));
    s.parent(a, label(10));
    s.after(b, label(10));
    s.rebuild().unwrap();
    assert_eq!(s.ordered_layers(), &vec![vec![SystemId(0)], vec![SystemId(1)]]);
    assert_eq!(s.system_dependent_layers(), &vec![Layer(1), Layer::undefined()]);
}

#[test]
fn schedule_readers_must_finish_before_the_writer() {
    // readers 0 and 2 of resource 7 move to layers before the writer 1, which must wait for
    // both
    let mut s = Schedule::new();
    s.add_system(label(1));
    s.add_system(label(2));
    s.add_system(label(3));
    s.access_mut(SystemId(0)).add_shared(ResourceId::<u32>::new(7));
    s.access_mut(SystemId(1)).add_exclusive(ResourceId::<u32>::new(7));
    s.access_mut(SystemId(2)).add_shared(ResourceId::<u32>::new(7));
    s.rebuild().unwrap();
    assert_eq!(s.ordered_layers(), &vec![vec![SystemId(0)], vec![SystemId(2)], vec![SystemId(1)]]);
    assert_eq!(s.system_dependent_layers(), &vec![Layer(2), Layer::undefined(), Layer(2)]);
}
