//! The phase schedule: its systems, the dependency graph of phases, and the task groups
//! that running the schedule walks through.

use vstd::prelude::*;
use vstd::multiset::Multiset;
use crate::label::SystemSetId;
use crate::phase_schedule::graph::{strictly_ascending, DependencyGraph, DependencyNode};
use crate::phase_schedule::sort::{grouped_outcome, groups_in_order, groups_view, sortable};
use crate::phase_schedule::tracker::{
    accesses_fold,
    entries_wf,
    lowered_to,
    ops_of,
    ConflictView,
    EntryView,
    ResourceConflict,
    ResourceMutTracker,
};
use crate::resource::ResourceAccess;
use crate::schedule::schedule_impl::SystemKind;
use crate::schedule::SystemId;

verus! {

/// A step of a schedule's run.
#[derive(Debug, PartialEq, Eq)]
pub enum TaskGroup {
    /// Systems that may run side by side, in topological order. Each entry holds a system and
    /// its conflict group: the index of the first group of the sort that needs it to have
    /// run, or `usize::MAX` when none does.
    Concurrent(Vec<(usize, usize)>),
    /// A system that runs alone.
    Exclusive(usize),
}

/// The task group names systems below `n`, and a concurrent group is not empty.
pub open spec fn task_group_wf(t: TaskGroup, n: nat) -> bool {
    match t {
        TaskGroup::Exclusive(s) => s < n,
        TaskGroup::Concurrent(entries) => entries@.len() > 0 && forall|k: int|
            0 <= k < entries@.len() ==> (#[trigger] entries@[k]).0 < n,
    }
}

/// A set of systems filed into phases, and the task groups that run them.
pub struct Schedule {
    systems: Vec<SystemKind>,
    access: Vec<ResourceAccess>,
    graph: DependencyGraph,
    ordered_task_groups: Vec<TaskGroup>,
    dirty: bool,
    update_phase: SystemSetId,
}

impl Schedule {
    /// The kinds of the systems, by index.
    pub closed spec fn systems(&self) -> Seq<SystemKind> {
        self.systems@
    }

    /// The resource accesses of the systems, by index.
    pub closed spec fn accesses(&self) -> Seq<ResourceAccess> {
        self.access@
    }

    /// The dependency graph of phases and systems.
    pub closed spec fn graph(&self) -> DependencyGraph {
        self.graph
    }

    /// The task groups of the last build.
    pub closed spec fn task_groups(&self) -> Seq<TaskGroup> {
        self.ordered_task_groups@
    }

    /// Whether the schedule changed since it was last built.
    pub closed spec fn dirty(&self) -> bool {
        self.dirty
    }

    /// The phase that systems join unless they are put into another.
    pub closed spec fn update_phase(&self) -> SystemSetId {
        self.update_phase
    }

    /// Every system has an access, the graph is well formed and holds the first, the last
    /// and the update phase, the systems of every node are systems of the schedule, and the
    /// task groups name systems of the schedule.
    pub closed spec fn wf(&self) -> bool {
        &&& self.systems@.len() == self.access@.len()
        &&& self.graph.wf()
        &&& self.graph.nodes().len() >= 3
        &&& forall|n: int, k: int|
            0 <= n < self.graph.nodes().len() && 0 <= k < self.graph.nodes()[n].systems@.len()
                ==> #[trigger] self.graph.nodes()[n].systems@[k] < self.systems@.len()
        &&& forall|n: int|
            0 <= n < self.graph.nodes().len() ==> strictly_ascending(
                #[trigger] self.graph.nodes()[n].systems@,
            )
        &&& forall|i: int|
            0 <= i < self.ordered_task_groups@.len() ==> task_group_wf(
                #[trigger] self.ordered_task_groups@[i],
                self.systems@.len(),
            )
    }

    /// A schedule without systems, whose graph holds the phases `first`, `last` and `update`
    /// as nodes 0, 1 and 2; `update` is where systems go by default.
    pub fn new(first: SystemSetId, last: SystemSetId, update: SystemSetId) -> (r: Self)
        requires
            first.key() != last.key(),
            first.key() != update.key(),
            last.key() != update.key(),
        ensures
            r.wf(),
            r.systems() == Seq::<SystemKind>::empty(),
            r.task_groups() == Seq::<TaskGroup>::empty(),
            r.dirty(),
            r.update_phase() == update,
            r.graph().nodes().len() == 3,
            r.graph().labels() == map![first.key() => 0usize, last.key() => 1usize, update.key() => 2usize],
    {
        let mut graph = DependencyGraph::new();
        let f = graph.insert_phase(first);
        let l = graph.insert_phase(last);
        let u = graph.insert_phase(update);
        let r = Schedule {
            systems: Vec::new(),
            access: Vec::new(),
            graph,
            ordered_task_groups: Vec::new(),
            dirty: true,
            update_phase: update,
        };
        proof {
            assert(r.graph.labels() =~= map![first.key() => 0usize, last.key() => 1usize, update.key() => 2usize]);
            assert forall|n: int| 0 <= n < r.graph.nodes().len() implies r.graph.nodes()[n].systems@
                =~= Seq::<usize>::empty() by {
                if n < 2 {
                    assert(r.graph.nodes()[n] == r.graph.nodes().take(2)[n]);
                }
                if n < 1 {
                    assert(r.graph.nodes().take(2)[n] == r.graph.nodes().take(2).take(1)[n]);
                }
            }
        }
        r
    }

    /// The task groups of a well-formed schedule name its systems, and no concurrent group is
    /// empty.
    pub proof fn lemma_task_groups_wf(&self)
        requires
            self.wf(),
        ensures
            forall|i: int|
                0 <= i < self.task_groups().len() ==> task_group_wf(
                    #[trigger] self.task_groups()[i],
                    self.systems().len(),
                ),
    {
    }

    /// The number of systems.
    pub fn systems_len(&self) -> (r: usize)
        ensures
            r == self.systems().len(),
    {
        self.systems.len()
    }

    /// The number of nodes of the graph.
    pub fn nodes_len(&self) -> (r: usize)
        ensures
            r == self.graph().nodes().len(),
    {
        self.graph.len()
    }

    /// Whether the schedule changed since it was last built.
    pub fn is_dirty(&self) -> (r: bool)
        ensures
            r == self.dirty(),
    {
        self.dirty
    }

    /// The task groups of the last build.
    pub fn ordered_task_groups(&self) -> (r: &Vec<TaskGroup>)
        ensures
            r@ == self.task_groups(),
    {
        &self.ordered_task_groups
    }

    /// The kinds of the systems.
    pub fn system_kinds(&self) -> (r: &Vec<SystemKind>)
        ensures
            r@ == self.systems(),
    {
        &self.systems
    }

    /// Whether any system runs alone.
    pub fn has_exclusive_systems(&self) -> (r: bool)
        ensures
            r == exists|i: int| 0 <= i < self.systems().len() && #[trigger] self.systems()[i]
                == SystemKind::Exclusive,
    {
        let mut i: usize = 0;
        while i < self.systems.len()
            invariant
                0 <= i <= self.systems@.len(),
                forall|j: int| 0 <= j < i ==> self.systems@[j] != SystemKind::Exclusive,
            decreases self.systems@.len() - i,
        {
            if self.systems[i].is_exclusive() {
                return true;
            }
            i += 1;
        }
        false
    }

    /// Adds a system of kind `kind` with the resource access `access`, and returns the
    /// builder that files it into the graph: by default into the update phase, without
    /// dependencies of its own.
    pub fn add_system(&mut self, kind: SystemKind, access: ResourceAccess) -> (r:
        SystemEntryBuilder)
        requires
            old(self).wf(),
        ensures
            final(self).wf(),
            final(self).systems() == old(self).systems().push(kind),
            final(self).accesses() == old(self).accesses().push(access),
            final(self).graph() == old(self).graph(),
            final(self).task_groups() == old(self).task_groups(),
            final(self).dirty(),
            final(self).update_phase() == old(self).update_phase(),
            r.id() == old(self).systems().len(),
            r.phase() == old(self).update_phase(),
            r.dependency_node() == usize::MAX,
            r.valid_for(*final(self)),
    {
        self.dirty = true;
        let index = self.systems.len();
        self.systems.push(kind);
        self.access.push(access);
        proof {
            assert forall|i: int| 0 <= i < self.ordered_task_groups@.len() implies task_group_wf(
                #[trigger] self.ordered_task_groups@[i],
                self.systems@.len(),
            ) by {
                assert(task_group_wf(self.ordered_task_groups@[i], old(self).systems@.len()));
                match self.ordered_task_groups@[i] {
                    TaskGroup::Exclusive(_) => {},
                    TaskGroup::Concurrent(entries) => {
                        assert forall|k: int| 0 <= k < entries@.len() implies (
                        #[trigger] entries@[k]).0 < self.systems@.len() by {}
                    },
                }
            }
        }
        SystemEntryBuilder { id: index, dependency_node: usize::MAX, phase: self.update_phase }
    }

    /// Chains the phases `phases`: each one after the first depends on the one before it.
    pub fn add_phase_chain(&mut self, phases: &Vec<SystemSetId>)
        requires
            old(self).wf(),
            old(self).graph().nodes().len() + phases@.len() + 1 < usize::MAX,
        ensures
            final(self).wf(),
            final(self).systems() == old(self).systems(),
            final(self).accesses() == old(self).accesses(),
            final(self).task_groups() == old(self).task_groups(),
            final(self).update_phase() == old(self).update_phase(),
            phases@.len() > 0 ==> final(self).dirty(),
            phases@.len() == 0 ==> *final(self) == *old(self),
            forall|k: int|
                0 <= k < phases@.len() ==> final(self).graph().labels().contains_key(
                    #[trigger] phases@[k].key(),
                ),
            forall|k: int|
                1 <= k < phases@.len() ==> final(self).graph().nodes()[final(self).graph().labels()[#[trigger] phases@[k].key()] as int].dependencies@.contains(
                    final(self).graph().labels()[phases@[k - 1].key()],
                ),
    {
        if phases.len() == 0 {
            return ;
        }
        self.dirty = true;
        let mut prev = self.insert_phase(phases[0]);
        let mut i: usize = 1;
        while i < phases.len()
            invariant
                1 <= i <= phases@.len(),
                self.wf(),
                self.dirty,
                self.systems() == old(self).systems(),
                self.accesses() == old(self).accesses(),
                self.task_groups() == old(self).task_groups(),
                self.update_phase() == old(self).update_phase(),
                self.graph().nodes().len() + (phases@.len() - i) + 1 < usize::MAX,
                self.graph().labels().contains_key(phases@[i - 1].key()),
                prev == self.graph().labels()[phases@[i - 1].key()],
                forall|k: int|
                    0 <= k < i ==> self.graph().labels().contains_key(#[trigger] phases@[k].key()),
                forall|k: int|
                    1 <= k < i ==> self.graph().nodes()[self.graph().labels()[
                        #[trigger] phases@[k].key()] as int].dependencies@.contains(
                        self.graph().labels()[phases@[k - 1].key()],
                    ),
            decreases phases@.len() - i,
        {
            let ghost g0 = self.graph();
            let phase = self.insert_phase(phases[i]);
            let ghost g1 = self.graph();
            self.add_graph_dependency(phase, prev);
            proof {
                assert forall|k: int|
                    1 <= k < i + 1 implies self.graph().nodes()[self.graph().labels()[
                    #[trigger] phases@[k].key()] as int].dependencies@.contains(
                    self.graph().labels()[phases@[k - 1].key()],
                ) by {
                    if k < i {
                        let a = g0.labels()[phases@[k].key()];
                        let b = g0.labels()[phases@[k - 1].key()];
                        assert(g0.nodes()[a as int].dependencies@.contains(b));
                        assert(g1.labels()[phases@[k].key()] == a);
                        assert(g1.labels()[phases@[k - 1].key()] == b);
                        if !g0.labels().contains_key(phases@[i as int].key()) {
                            assert(g1.nodes()[a as int] == g1.nodes().take(g0.nodes().len() as int)[a as int]);
                        }
                    }
                }
                assert forall|k: int| 0 <= k < i + 1 implies self.graph().labels().contains_key(
                    #[trigger] phases@[k].key(),
                ) by {
                    if k < i {
                        assert(g0.labels().contains_key(phases@[k].key()));
                    }
                }
            }
            prev = phase;
            i += 1;
        }
    }

    /// Makes the phase `second` depend on the phase `first`.
    pub fn add_phase_dependency(&mut self, first: SystemSetId, second: SystemSetId)
        requires
            old(self).wf(),
            old(self).graph().nodes().len() + 3 < usize::MAX,
        ensures
            final(self).wf(),
            final(self).dirty(),
            final(self).systems() == old(self).systems(),
            final(self).accesses() == old(self).accesses(),
            final(self).task_groups() == old(self).task_groups(),
            final(self).update_phase() == old(self).update_phase(),
            final(self).graph().labels().contains_key(first.key()),
            final(self).graph().labels().contains_key(second.key()),
            final(self).graph().nodes()[final(self).graph().labels()[second.key()] as int].dependencies@.contains(
                final(self).graph().labels()[first.key()],
            ),
    {
        self.dirty = true;
        let first_index = self.insert_phase(first);
        let ghost g1 = self.graph();
        let second_index = self.insert_phase(second);
        proof {
            assert(self.graph().labels()[first.key()] == first_index);
        }
        self.add_graph_dependency(second_index, first_index);
    }

    /// The node of the phase `label`, added when the label has none yet.
    fn insert_phase(&mut self, label: SystemSetId) -> (r: usize)
        requires
            old(self).wf(),
            old(self).graph().nodes().len() + 1 < usize::MAX,
        ensures
            final(self).wf(),
            final(self).systems() == old(self).systems(),
            final(self).accesses() == old(self).accesses(),
            final(self).task_groups() == old(self).task_groups(),
            final(self).update_phase() == old(self).update_phase(),
            final(self).dirty() == old(self).dirty(),
            final(self).graph().labels().contains_key(label.key()),
            r == final(self).graph().labels()[label.key()],
            r < final(self).graph().nodes().len(),
            final(self).graph().nodes().len() <= old(self).graph().nodes().len() + 1,
            final(self).graph().nodes().len() >= old(self).graph().nodes().len(),
            forall|k: u16| #[trigger]
                old(self).graph().labels().contains_key(k) ==> final(self).graph().labels().contains_key(k)
                    && final(self).graph().labels()[k] == old(self).graph().labels()[k],
            forall|n: int|
                0 <= n < old(self).graph().nodes().len() ==> #[trigger] final(self).graph().nodes()[n]
                    == old(self).graph().nodes()[n],
            forall|n: int|
                old(self).graph().nodes().len() <= n < final(self).graph().nodes().len()
                    ==> crate::phase_schedule::graph::fresh_node(
                    #[trigger] final(self).graph().nodes()[n],
                    n,
                ),
    {
        let ghost g0 = self.graph;
        let r = self.graph.insert_phase(label);
        proof {
            if !g0.labels().contains_key(label.key()) {
                assert forall|n: int|
                    0 <= n < g0.nodes().len() implies #[trigger] self.graph.nodes()[n] == g0.nodes()[n] by {
                    assert(self.graph.nodes()[n] == self.graph.nodes().take(g0.nodes().len() as int)[n]);
                }
            }
            assert forall|n: int| 0 <= n < self.graph.nodes().len() implies {
                &&& strictly_ascending(#[trigger] self.graph.nodes()[n].systems@)
                &&& forall|k: int| 0 <= k < self.graph.nodes()[n].systems@.len() ==> self.graph.nodes()[n].systems@[k] < self.systems@.len()
            } by {
                if n < g0.nodes().len() {
                    assert(self.graph.nodes()[n] == g0.nodes()[n]);
                }
            }
        }
        r
    }

    /// Makes node `node` depend on node `dependency`.
    fn add_graph_dependency(&mut self, node: usize, dependency: usize)
        requires
            old(self).wf(),
            node < old(self).graph().nodes().len(),
            dependency < old(self).graph().nodes().len(),
        ensures
            final(self).wf(),
            final(self).systems() == old(self).systems(),
            final(self).accesses() == old(self).accesses(),
            final(self).task_groups() == old(self).task_groups(),
            final(self).update_phase() == old(self).update_phase(),
            final(self).dirty() == old(self).dirty(),
            final(self).graph().labels() == old(self).graph().labels(),
            final(self).graph().nodes().len() == old(self).graph().nodes().len(),
            forall|i: int|
                0 <= i < old(self).graph().nodes().len() && i != node ==> #[trigger] final(self).graph().nodes()[i] == old(self).graph().nodes()[i],
            final(self).graph().nodes()[node as int].dependencies@ == old(self).graph().nodes()[node as int].dependencies@.insert(dependency),
            final(self).graph().nodes()[node as int].sub_nodes == old(self).graph().nodes()[node as int].sub_nodes,
            final(self).graph().nodes()[node as int].parent == old(self).graph().nodes()[node as int].parent,
            final(self).graph().nodes()[node as int].systems == old(self).graph().nodes()[node as int].systems,
    {
        let ghost g0 = self.graph;
        self.graph.add_dependency(node, dependency);
        proof {
            assert forall|n: int| 0 <= n < self.graph.nodes().len() implies #[trigger] self.graph.nodes()[n].systems
                == g0.nodes()[n].systems by {}
        }
    }
}

/// Files a new system into the dependency graph: either into a phase, or, once it has
/// dependencies of its own, as a node of its own under that phase.
pub struct SystemEntryBuilder {
    id: usize,
    dependency_node: usize,
    phase: SystemSetId,
}

impl SystemEntryBuilder {
    /// The index of the system.
    pub closed spec fn id(&self) -> usize {
        self.id
    }

    /// The system's own node, or `usize::MAX` while it has none.
    pub closed spec fn dependency_node(&self) -> usize {
        self.dependency_node
    }

    /// The phase the system is filed into.
    pub closed spec fn phase(&self) -> SystemSetId {
        self.phase
    }

    /// The builder belongs to `schedule`: its system is a system of the schedule, and its
    /// node, once it has one, is a node that holds the system.
    pub open spec fn valid_for(&self, schedule: Schedule) -> bool {
        &&& self.id() < schedule.systems().len()
        &&& self.dependency_node() == usize::MAX || (self.dependency_node()
            < schedule.graph().nodes().len() && schedule.graph().nodes()[self.dependency_node() as int].systems@.contains(
            self.id(),
        ) && schedule.graph().nodes()[self.dependency_node() as int].parent == usize::MAX)
    }

    /// The id of the system.
    pub fn system_id(&self) -> (r: SystemId)
        ensures
            r.0 == self.id(),
    {
        SystemId(self.id)
    }

    /// Files the system into the phase `label` instead of the update phase.
    pub fn into_phase(&mut self, label: SystemSetId)
        ensures
            final(self).phase() == label,
            final(self).id() == old(self).id(),
            final(self).dependency_node() == old(self).dependency_node(),
    {
        self.phase = label;
    }
}

/// `b` keeps every node and label of `a`, every dependency, sub-node and system of its
/// nodes, and every parent that `a` had set.
pub open spec fn graph_extended(a: DependencyGraph, b: DependencyGraph) -> bool {
    &&& a.nodes().len() <= b.nodes().len()
    &&& forall|k: u16| #[trigger]
        a.labels().contains_key(k) ==> b.labels().contains_key(k) && b.labels()[k] == a.labels()[k]
    &&& forall|n: int|
        0 <= n < a.nodes().len() ==> {
            &&& a.nodes()[n].dependencies@.subset_of(#[trigger] b.nodes()[n].dependencies@)
            &&& a.nodes()[n].sub_nodes@.subset_of(b.nodes()[n].sub_nodes@)
            &&& a.nodes()[n].systems@.to_set().subset_of(b.nodes()[n].systems@.to_set())
            &&& a.nodes()[n].parent == usize::MAX || b.nodes()[n].parent == a.nodes()[n].parent
        }
}

/// Extending a graph twice extends it.
#[verifier::spinoff_prover]
proof fn lemma_extended_trans(a: DependencyGraph, b: DependencyGraph, c: DependencyGraph)
    requires
        graph_extended(a, b),
        graph_extended(b, c),
    ensures
        graph_extended(a, c),
{
    assert forall|n: int| 0 <= n < a.nodes().len() implies {
        &&& a.nodes()[n].dependencies@.subset_of(#[trigger] c.nodes()[n].dependencies@)
        &&& a.nodes()[n].sub_nodes@.subset_of(c.nodes()[n].sub_nodes@)
        &&& a.nodes()[n].systems@.to_set().subset_of(c.nodes()[n].systems@.to_set())
        &&& a.nodes()[n].parent == usize::MAX || c.nodes()[n].parent == a.nodes()[n].parent
    } by {
        assert(a.nodes()[n].dependencies@.subset_of(b.nodes()[n].dependencies@));
        assert(b.nodes()[n].dependencies@.subset_of(c.nodes()[n].dependencies@));
        assert(a.nodes()[n].sub_nodes@.subset_of(b.nodes()[n].sub_nodes@));
        assert(a.nodes()[n].systems@.to_set().subset_of(b.nodes()[n].systems@.to_set()));
    }
    assert forall|k: u16| #[trigger] a.labels().contains_key(k) implies c.labels().contains_key(k)
        && c.labels()[k] == a.labels()[k] by {
        assert(b.labels().contains_key(k));
    }
}

/// `a` and `b` have the same systems, accesses, task groups, update phase and dirty flag.
pub open spec fn same_systems(a: Schedule, b: Schedule) -> bool {
    &&& b.systems() == a.systems()
    &&& b.accesses() == a.accesses()
    &&& b.task_groups() == a.task_groups()
    &&& b.update_phase() == a.update_phase()
    &&& b.dirty() == a.dirty()
}

impl SystemEntryBuilder {
    /// The system's own node, added (holding the system) when it has none yet.
    fn get_dependency_node(&mut self, schedule: &mut Schedule) -> (r: usize)
        requires
            old(schedule).wf(),
            old(self).valid_for(*old(schedule)),
            old(schedule).graph().nodes().len() + 1 < usize::MAX,
        ensures
            final(schedule).wf(),
            same_systems(*old(schedule), *final(schedule)),
            graph_extended(old(schedule).graph(), final(schedule).graph()),
            final(schedule).graph().nodes().len() <= old(schedule).graph().nodes().len() + 1,
            r == final(self).dependency_node(),
            r < final(schedule).graph().nodes().len(),
            final(self).id() == old(self).id(),
            final(self).phase() == old(self).phase(),
            final(schedule).graph().nodes()[r as int].systems@.contains(old(self).id()),
            final(schedule).graph().nodes()[r as int].parent == usize::MAX,
            old(self).dependency_node() != usize::MAX ==> r == old(self).dependency_node()
                && *final(schedule) == *old(schedule),
            old(self).dependency_node() == usize::MAX ==> r == old(schedule).graph().nodes().len(),
    {
        if self.dependency_node == usize::MAX {
            let ghost g0 = schedule.graph;
            let node = schedule.graph.insert_new();
            let ghost g1 = schedule.graph;
            schedule.graph.push_system(node, self.id);
            self.dependency_node = node;
            proof {
                let g2 = schedule.graph;
                assert forall|n: int| 0 <= n < g0.nodes().len() implies #[trigger] g2.nodes()[n]
                    == g0.nodes()[n] by {
                    assert(g1.nodes()[n] == g1.nodes().take(node as int)[n]);
                }
                assert(g2.nodes()[node as int].systems@ == seq![self.id]);
                assert forall|n: int| 0 <= n < g2.nodes().len() implies {
                    &&& strictly_ascending(#[trigger] g2.nodes()[n].systems@)
                    &&& forall|k: int|
                        0 <= k < g2.nodes()[n].systems@.len() ==> g2.nodes()[n].systems@[k]
                            < schedule.systems@.len()
                } by {
                    if n < g0.nodes().len() {
                        assert(g2.nodes()[n] == g0.nodes()[n]);
                    }
                }
                assert(g2.nodes()[node as int].systems@[0] == self.id);
            }
        }
        self.dependency_node
    }
}

impl SystemEntryBuilder {
    /// Makes the phase `label` wait for the system: the system gets a node of its own, on
    /// which the phase depends.
    pub fn before(&mut self, schedule: &mut Schedule, label: SystemSetId)
        requires
            old(schedule).wf(),
            old(self).valid_for(*old(schedule)),
            old(schedule).graph().nodes().len() + 2 < usize::MAX,
        ensures
            final(schedule).wf(),
            same_systems(*old(schedule), *final(schedule)),
            graph_extended(old(schedule).graph(), final(schedule).graph()),
            final(schedule).graph().nodes().len() <= old(schedule).graph().nodes().len() + 2,
            final(self).valid_for(*final(schedule)),
            final(self).id() == old(self).id(),
            final(self).phase() == old(self).phase(),
            final(self).dependency_node() != usize::MAX,
            final(schedule).graph().labels().contains_key(label.key()),
            final(schedule).graph().nodes()[final(schedule).graph().labels()[label.key()] as int].dependencies@.contains(
                final(self).dependency_node(),
            ),
    {
        let ghost g0 = schedule.graph;
        let system_node_index = self.get_dependency_node(schedule);
        let ghost g1 = schedule.graph;
        let phase_node = schedule.insert_phase(label);
        let ghost g2 = schedule.graph;
        schedule.add_graph_dependency(phase_node, system_node_index);
        proof {
            let g3 = schedule.graph;
            assert(graph_extended(g1, g2)) by {
                assert forall|n: int| 0 <= n < g1.nodes().len() implies #[trigger] g2.nodes()[n]
                    == g1.nodes()[n] by {}
            }
            assert(graph_extended(g2, g3)) by {
                assert forall|n: int| 0 <= n < g2.nodes().len() implies {
                    &&& g2.nodes()[n].dependencies@.subset_of(#[trigger] g3.nodes()[n].dependencies@)
                    &&& g2.nodes()[n].sub_nodes@.subset_of(g3.nodes()[n].sub_nodes@)
                    &&& g2.nodes()[n].systems@.to_set().subset_of(g3.nodes()[n].systems@.to_set())
                    &&& g2.nodes()[n].parent == usize::MAX || g3.nodes()[n].parent == g2.nodes()[n].parent
                } by {
                    if n != phase_node {
                        assert(g3.nodes()[n] == g2.nodes()[n]);
                    }
                }
            }
            lemma_extended_trans(g0, g1, g2);
            lemma_extended_trans(g0, g2, g3);
            assert(g2.nodes()[system_node_index as int] == g1.nodes()[system_node_index as int]);
            if system_node_index != phase_node {
                assert(g3.nodes()[system_node_index as int] == g2.nodes()[system_node_index as int]);
            }
        }
    }

    /// Makes the system wait for the phase `label`: the system gets a node of its own, which
    /// depends on the phase.
    pub fn after(&mut self, schedule: &mut Schedule, label: SystemSetId)
        requires
            old(schedule).wf(),
            old(self).valid_for(*old(schedule)),
            old(schedule).graph().nodes().len() + 2 < usize::MAX,
        ensures
            final(schedule).wf(),
            same_systems(*old(schedule), *final(schedule)),
            graph_extended(old(schedule).graph(), final(schedule).graph()),
            final(schedule).graph().nodes().len() <= old(schedule).graph().nodes().len() + 2,
            final(self).valid_for(*final(schedule)),
            final(self).id() == old(self).id(),
            final(self).phase() == old(self).phase(),
            final(self).dependency_node() != usize::MAX,
            final(schedule).graph().labels().contains_key(label.key()),
            final(schedule).graph().nodes()[final(self).dependency_node() as int].dependencies@.contains(
                final(schedule).graph().labels()[label.key()],
            ),
    {
        let ghost g0 = schedule.graph;
        let phase_node_index = schedule.insert_phase(label);
        let ghost g1 = schedule.graph;
        proof {
            if self.dependency_node != usize::MAX {
                assert(g1.nodes()[self.dependency_node as int] == g0.nodes()[self.dependency_node as int]);
            }
        }
        let system_node = self.get_dependency_node(schedule);
        let ghost g2 = schedule.graph;
        schedule.add_graph_dependency(system_node, phase_node_index);
        proof {
            let g3 = schedule.graph;
            assert(graph_extended(g0, g1)) by {
                assert forall|n: int| 0 <= n < g0.nodes().len() implies #[trigger] g1.nodes()[n]
                    == g0.nodes()[n] by {}
            }
            assert(graph_extended(g2, g3)) by {
                assert forall|n: int| 0 <= n < g2.nodes().len() implies {
                    &&& g2.nodes()[n].dependencies@.subset_of(#[trigger] g3.nodes()[n].dependencies@)
                    &&& g2.nodes()[n].sub_nodes@.subset_of(g3.nodes()[n].sub_nodes@)
                    &&& g2.nodes()[n].systems@.to_set().subset_of(g3.nodes()[n].systems@.to_set())
                    &&& g2.nodes()[n].parent == usize::MAX || g3.nodes()[n].parent == g2.nodes()[n].parent
                } by {
                    if n != system_node {
                        assert(g3.nodes()[n] == g2.nodes()[n]);
                    }
                }
            }
            lemma_extended_trans(g0, g1, g2);
            lemma_extended_trans(g0, g2, g3);
            assert(g2.labels()[label.key()] == phase_node_index);
        }
    }

    /// Files the system: a system with a node of its own becomes a sub-node of its phase,
    /// with the phase as parent; any other system joins the systems of its phase.
    pub fn finish(self, schedule: &mut Schedule)
        requires
            old(schedule).wf(),
            self.valid_for(*old(schedule)),
            old(schedule).graph().nodes().len() + 1 < usize::MAX,
        ensures
            final(schedule).wf(),
            same_systems(*old(schedule), *final(schedule)),
            graph_extended(old(schedule).graph(), final(schedule).graph()),
            final(schedule).graph().nodes().len() <= old(schedule).graph().nodes().len() + 1,
            final(schedule).graph().labels().contains_key(self.phase().key()),
            self.dependency_node() != usize::MAX ==> {
                let p = final(schedule).graph().labels()[self.phase().key()];
                &&& final(schedule).graph().nodes()[p as int].sub_nodes@.contains(
                    self.dependency_node(),
                )
                &&& final(schedule).graph().nodes()[self.dependency_node() as int].parent == p
            },
            self.dependency_node() == usize::MAX ==> final(schedule).graph().nodes()[final(schedule).graph().labels()[self.phase().key()] as int].systems@.contains(self.id()),
    {
        let ghost g0 = schedule.graph;
        if self.dependency_node != usize::MAX {
            let parent = schedule.insert_phase(self.phase);
            let ghost g1 = schedule.graph;
            schedule.graph.add_sub_node(parent, self.dependency_node);
            let ghost g2 = schedule.graph;
            schedule.graph.set_parent(self.dependency_node, parent);
            proof {
                let g3 = schedule.graph;
                assert(graph_extended(g0, g1)) by {
                    assert forall|n: int| 0 <= n < g0.nodes().len() implies #[trigger] g1.nodes()[n]
                        == g0.nodes()[n] by {}
                }
                assert(g1.nodes()[self.dependency_node as int] == g0.nodes()[self.dependency_node as int]);
                assert(graph_extended(g1, g3)) by {
                    assert forall|n: int| 0 <= n < g1.nodes().len() implies {
                        &&& g1.nodes()[n].dependencies@.subset_of(#[trigger] g3.nodes()[n].dependencies@)
                        &&& g1.nodes()[n].sub_nodes@.subset_of(g3.nodes()[n].sub_nodes@)
                        &&& g1.nodes()[n].systems@.to_set().subset_of(g3.nodes()[n].systems@.to_set())
                        &&& g1.nodes()[n].parent == usize::MAX || g3.nodes()[n].parent == g1.nodes()[n].parent
                    } by {
                        if n != parent && n != self.dependency_node {
                            assert(g3.nodes()[n] == g1.nodes()[n]);
                        }
                        if n == parent && n != self.dependency_node {
                            assert(g3.nodes()[n] == g2.nodes()[n]);
                        }
                    }
                }
                lemma_extended_trans(g0, g1, g3);
                assert forall|n: int| 0 <= n < g3.nodes().len() implies #[trigger] g3.nodes()[n].systems
                    == g1.nodes()[n].systems by {}
                if parent != self.dependency_node {
                    assert(g3.nodes()[parent as int] == g2.nodes()[parent as int]);
                }
            }
        } else {
            let phase = schedule.insert_phase(self.phase);
            let ghost g1 = schedule.graph;
            schedule.graph.insert_system_sorted(phase, self.id);
            proof {
                let g2 = schedule.graph;
                assert(graph_extended(g0, g1)) by {
                    assert forall|n: int| 0 <= n < g0.nodes().len() implies #[trigger] g1.nodes()[n]
                        == g0.nodes()[n] by {}
                }
                assert(graph_extended(g1, g2)) by {
                    assert forall|n: int| 0 <= n < g1.nodes().len() implies {
                        &&& g1.nodes()[n].dependencies@.subset_of(#[trigger] g2.nodes()[n].dependencies@)
                        &&& g1.nodes()[n].sub_nodes@.subset_of(g2.nodes()[n].sub_nodes@)
                        &&& g1.nodes()[n].systems@.to_set().subset_of(g2.nodes()[n].systems@.to_set())
                        &&& g1.nodes()[n].parent == usize::MAX || g2.nodes()[n].parent == g1.nodes()[n].parent
                    } by {
                        if n != phase {
                            assert(g2.nodes()[n] == g1.nodes()[n]);
                        }
                    }
                }
                lemma_extended_trans(g0, g1, g2);
                assert(g2.nodes()[phase as int].systems@.to_set().contains(self.id));
                assert forall|n: int| 0 <= n < g2.nodes().len() implies {
                    &&& strictly_ascending(#[trigger] g2.nodes()[n].systems@)
                    &&& forall|k: int|
                        0 <= k < g2.nodes()[n].systems@.len() ==> g2.nodes()[n].systems@[k]
                            < schedule.systems@.len()
                } by {
                    if n != phase {
                        assert(g2.nodes()[n] == g1.nodes()[n]);
                    } else {
                        assert forall|k: int| 0 <= k < g2.nodes()[n].systems@.len() implies g2.nodes()[n].systems@[k]
                            < schedule.systems@.len() by {
                            assert(g2.nodes()[n].systems@.to_set().contains(g2.nodes()[n].systems@[k]));
                            if g2.nodes()[n].systems@[k] != self.id {
                                assert(g1.nodes()[n].systems@.to_set().contains(g2.nodes()[n].systems@[k]));
                            }
                        }
                    }
                }
            }
        }
    }
}

/// The accesses of the systems `systems[..j]` that do not run alone, each as (group `g`,
/// system).
pub open spec fn system_items(kinds: Seq<SystemKind>, systems: Seq<usize>, g: usize, j: int) -> Seq<
    (usize, usize),
>
    decreases j,
{
    if j <= 0 {
        Seq::empty()
    } else {
        let prev = system_items(kinds, systems, g, j - 1);
        if kinds[systems[j - 1] as int] != SystemKind::Exclusive {
            prev.push((g, systems[j - 1]))
        } else {
            prev
        }
    }
}

/// The accesses of the systems of the nodes `group[..k]`, node after node.
pub open spec fn node_items(
    nodes: Seq<DependencyNode>,
    kinds: Seq<SystemKind>,
    group: Seq<usize>,
    g: usize,
    k: int,
) -> Seq<(usize, usize)>
    decreases k,
{
    if k <= 0 {
        Seq::empty()
    } else {
        node_items(nodes, kinds, group, g, k - 1) + system_items(
            kinds,
            nodes[group[k - 1] as int].systems@,
            g,
            nodes[group[k - 1] as int].systems@.len() as int,
        )
    }
}

/// The accesses of the groups `groups[..g]`, group after group.
pub open spec fn access_items(
    nodes: Seq<DependencyNode>,
    kinds: Seq<SystemKind>,
    groups: Seq<Seq<usize>>,
    g: int,
) -> Seq<(usize, usize)>
    decreases g,
{
    if g <= 0 {
        Seq::empty()
    } else {
        access_items(nodes, kinds, groups, g - 1) + node_items(
            nodes,
            kinds,
            groups[g - 1],
            (g - 1) as usize,
            groups[g - 1].len() as int,
        )
    }
}

/// The first `k` of the accesses `items`, each recorded with the system's resource access:
/// the conflict of the first one that conflicts, or the records and the entries of `result`
/// afterwards.
pub open spec fn track_fold(
    entries: Seq<EntryView>,
    result: Seq<usize>,
    accesses: Seq<ResourceAccess>,
    items: Seq<(usize, usize)>,
    k: int,
) -> Result<(Seq<EntryView>, Seq<usize>), ConflictView>
    decreases k,
{
    if k <= 0 {
        Ok((entries, result))
    } else {
        match track_fold(entries, result, accesses, items, k - 1) {
            Err(c) => Err(c),
            Ok((es, res)) => {
                let (g, s) = items[k - 1];
                let ops = ops_of(accesses[s as int]);
                match accesses_fold(es, ops, s, g, ops.len() as int) {
                    Err(c) => Err(c),
                    Ok((es2, low)) => Ok((es2, lowered_to(res, s, g, low))),
                }
            },
        }
    }
}

/// `a` is a prefix of `b`.
pub open spec fn prefix_of<A>(a: Seq<A>, b: Seq<A>) -> bool {
    a.len() <= b.len() && forall|i: int| 0 <= i < a.len() ==> a[i] == b[i]
}

proof fn lemma_prefix_trans<A>(a: Seq<A>, b: Seq<A>, c: Seq<A>)
    requires
        prefix_of(a, b),
        prefix_of(b, c),
    ensures
        prefix_of(a, c),
{
}

proof fn lemma_prefix_append<A>(p: Seq<A>, a: Seq<A>, b: Seq<A>)
    requires
        prefix_of(a, b),
    ensures
        prefix_of(p + a, p + b),
{
    assert forall|i: int| 0 <= i < (p + a).len() implies (p + a)[i] == (p + b)[i] by {
        if i >= p.len() {
            assert((p + a)[i] == a[i - p.len()]);
            assert((p + b)[i] == b[i - p.len()]);
        }
    }
}

proof fn lemma_prefix_left<A>(p: Seq<A>, b: Seq<A>)
    ensures
        prefix_of(p, p + b),
{
}

proof fn lemma_system_items_prefix(kinds: Seq<SystemKind>, systems: Seq<usize>, g: usize, j: int, m: int)
    requires
        j <= m,
    ensures
        prefix_of(system_items(kinds, systems, g, j), system_items(kinds, systems, g, m)),
    decreases m - j,
{
    if j < m {
        lemma_system_items_prefix(kinds, systems, g, j, m - 1);
        if m >= 1 {
            let prev = system_items(kinds, systems, g, m - 1);
            assert(prefix_of(prev, system_items(kinds, systems, g, m)));
            lemma_prefix_trans(
                system_items(kinds, systems, g, j),
                prev,
                system_items(kinds, systems, g, m),
            );
        }
    }
}

proof fn lemma_node_items_prefix(
    nodes: Seq<DependencyNode>,
    kinds: Seq<SystemKind>,
    group: Seq<usize>,
    g: usize,
    k: int,
    m: int,
)
    requires
        k <= m,
    ensures
        prefix_of(node_items(nodes, kinds, group, g, k), node_items(nodes, kinds, group, g, m)),
    decreases m - k,
{
    if k < m {
        lemma_node_items_prefix(nodes, kinds, group, g, k, m - 1);
        if m >= 1 {
            let prev = node_items(nodes, kinds, group, g, m - 1);
            let n = group[m - 1] as int;
            lemma_prefix_left(
                prev,
                system_items(kinds, nodes[n].systems@, g, nodes[n].systems@.len() as int),
            );
            lemma_prefix_trans(
                node_items(nodes, kinds, group, g, k),
                prev,
                node_items(nodes, kinds, group, g, m),
            );
        }
    }
}

proof fn lemma_access_items_prefix(
    nodes: Seq<DependencyNode>,
    kinds: Seq<SystemKind>,
    groups: Seq<Seq<usize>>,
    g: int,
    m: int,
)
    requires
        g <= m,
    ensures
        prefix_of(access_items(nodes, kinds, groups, g), access_items(nodes, kinds, groups, m)),
    decreases m - g,
{
    if g < m {
        lemma_access_items_prefix(nodes, kinds, groups, g, m - 1);
        if m >= 1 {
            let prev = access_items(nodes, kinds, groups, m - 1);
            lemma_prefix_left(
                prev,
                node_items(nodes, kinds, groups[m - 1], (m - 1) as usize, groups[m - 1].len() as int),
            );
            lemma_prefix_trans(
                access_items(nodes, kinds, groups, g),
                prev,
                access_items(nodes, kinds, groups, m),
            );
        }
    }
}

/// The accesses up to system `j` of node `k` of group `g` are a prefix of all accesses.
proof fn lemma_items_prefix(
    nodes: Seq<DependencyNode>,
    kinds: Seq<SystemKind>,
    groups: Seq<Seq<usize>>,
    g: int,
    k: int,
    j: int,
)
    requires
        0 <= g < groups.len(),
        0 <= k < groups[g].len(),
        0 <= j <= nodes[groups[g][k] as int].systems@.len(),
    ensures
        prefix_of(
            access_items(nodes, kinds, groups, g) + node_items(nodes, kinds, groups[g], g as usize, k)
                + system_items(kinds, nodes[groups[g][k] as int].systems@, g as usize, j),
            access_items(nodes, kinds, groups, groups.len() as int),
        ),
{
    let a = access_items(nodes, kinds, groups, g);
    let n = node_items(nodes, kinds, groups[g], g as usize, k);
    let systems = nodes[groups[g][k] as int].systems@;
    let full = systems.len() as int;
    lemma_system_items_prefix(kinds, systems, g as usize, j, full);
    lemma_prefix_append(
        n,
        system_items(kinds, systems, g as usize, j),
        system_items(kinds, systems, g as usize, full),
    );
    assert(node_items(nodes, kinds, groups[g], g as usize, k + 1) == n + system_items(
        kinds,
        systems,
        g as usize,
        full,
    ));
    lemma_node_items_prefix(nodes, kinds, groups[g], g as usize, k + 1, groups[g].len() as int);
    lemma_prefix_trans(
        n + system_items(kinds, systems, g as usize, j),
        node_items(nodes, kinds, groups[g], g as usize, k + 1),
        node_items(nodes, kinds, groups[g], g as usize, groups[g].len() as int),
    );
    lemma_prefix_append(
        a,
        n + system_items(kinds, systems, g as usize, j),
        node_items(nodes, kinds, groups[g], g as usize, groups[g].len() as int),
    );
    assert(a + n + system_items(kinds, systems, g as usize, j) == a + (n + system_items(
        kinds,
        systems,
        g as usize,
        j,
    )));
    lemma_access_items_prefix(nodes, kinds, groups, g + 1, groups.len() as int);
    lemma_prefix_trans(
        a + (n + system_items(kinds, systems, g as usize, j)),
        access_items(nodes, kinds, groups, g + 1),
        access_items(nodes, kinds, groups, groups.len() as int),
    );
}

/// Once the tracking fails, it fails with the same conflict over longer prefixes.
proof fn lemma_track_err(
    entries: Seq<EntryView>,
    result: Seq<usize>,
    accesses: Seq<ResourceAccess>,
    items: Seq<(usize, usize)>,
    k: int,
    m: int,
)
    requires
        0 <= k <= m,
        track_fold(entries, result, accesses, items, k) is Err,
    ensures
        track_fold(entries, result, accesses, items, m) == track_fold(
            entries,
            result,
            accesses,
            items,
            k,
        ),
    decreases m - k,
{
    if k < m {
        lemma_track_err(entries, result, accesses, items, k, m - 1);
    }
}

/// The groups view of a vector of groups.
pub open spec fn vv(groups: Seq<Vec<usize>>) -> Seq<Seq<usize>> {
    groups.map_values(|g: Vec<usize>| g@)
}

/// Every entry of `groups` is a node of `nodes`.
pub open spec fn groups_in(groups: Seq<Seq<usize>>, n: nat) -> bool {
    forall|g: int, k: int| 0 <= g < groups.len() && 0 <= k < groups[g].len() ==> #[trigger] groups[g][k] < n
}

impl Schedule {
    /// Walks the groups in order and, within a group, the systems of its nodes, node after
    /// node; records the resource access of each system that does not run alone. A system
    /// whose access finds an exclusive access to a resource in an earlier group has its entry
    /// in `result` lowered to its own group. Stops at the first conflict.
    pub fn mark_system_resource_dependencies_and_check_conflicts(
        &self,
        result: &mut Vec<usize>,
        groups: &Vec<Vec<usize>>,
    ) -> (r: Result<(), ResourceConflict>)
        requires
            self.wf(),
            old(result)@.len() == self.systems().len(),
            groups_in(vv(groups@), self.graph().nodes().len()),
        ensures
            final(result)@.len() == old(result)@.len(),
            match track_fold(
                Seq::empty(),
                old(result)@,
                self.accesses(),
                access_items(self.graph().nodes(), self.systems(), vv(groups@), groups@.len() as int),
                access_items(self.graph().nodes(), self.systems(), vv(groups@), groups@.len() as int).len() as int,
            ) {
                Ok((_, res)) => r is Ok && final(result)@ == res,
                Err(c) => r is Err && r->Err_0.view() == c,
            },
    {
        let ghost nodes = self.graph().nodes();
        let ghost kinds = self.systems();
        let ghost gv = vv(groups@);
        let ghost all = access_items(nodes, kinds, gv, gv.len() as int);
        let ghost r0 = result@;
        let ghost mut sofar: Seq<(usize, usize)> = Seq::empty();
        let mut resources = ResourceMutTracker::new();
        let _groups_len = groups.len();
        proof {
            assert(resources.entries() =~= Seq::<EntryView>::empty());
        }
        let mut g: usize = 0;
        while g < groups.len()
            invariant
                0 <= g <= groups@.len(),
                groups@.len() <= usize::MAX,
                self.wf(),
                nodes == self.graph().nodes(),
                kinds == self.systems(),
                gv == vv(groups@),
                all == access_items(nodes, kinds, gv, gv.len() as int),
                groups_in(gv, nodes.len()),
                r0 == old(result)@,
                result@.len() == r0.len(),
                r0.len() == kinds.len(),
                sofar == access_items(nodes, kinds, gv, g as int),
                entries_wf(resources.entries()),
                track_fold(Seq::empty(), r0, self.accesses(), all, sofar.len() as int) == Ok::<
                    (Seq<EntryView>, Seq<usize>),
                    ConflictView,
                >((resources.entries(), result@)),
            decreases groups@.len() - g,
        {
            let group = &groups[g];
            proof {
                assert(gv[g as int] == group@);
            }
            let mut k: usize = 0;
            while k < group.len()
                invariant
                    0 <= k <= group@.len(),
                    0 <= g < groups@.len(),
                    groups@.len() <= usize::MAX,
                    group@ == gv[g as int],
                    self.wf(),
                    nodes == self.graph().nodes(),
                    kinds == self.systems(),
                    gv == vv(groups@),
                    all == access_items(nodes, kinds, gv, gv.len() as int),
                    groups_in(gv, nodes.len()),
                    r0 == old(result)@,
                    result@.len() == r0.len(),
                    r0.len() == kinds.len(),
                    sofar == access_items(nodes, kinds, gv, g as int) + node_items(
                        nodes,
                        kinds,
                        gv[g as int],
                        g,
                        k as int,
                    ),
                    entries_wf(resources.entries()),
                    track_fold(Seq::empty(), r0, self.accesses(), all, sofar.len() as int) == Ok::<
                        (Seq<EntryView>, Seq<usize>),
                        ConflictView,
                    >((resources.entries(), result@)),
                decreases group@.len() - k,
            {
                proof {
                    assert(group@[k as int] == gv[g as int][k as int]);
                    assert(gv[g as int][k as int] < nodes.len());
                }
                let node = self.graph.node(group[k]);
                let ghost systems = node.systems@;
                let ghost base = sofar;
                let mut j: usize = 0;
                while j < node.systems.len()
                    invariant
                        0 <= j <= systems.len(),
                        systems == node.systems@,
                        0 <= g < groups@.len(),
                        0 <= k < group@.len(),
                        group@ == gv[g as int],
                        groups@.len() <= usize::MAX,
                        *node == nodes[gv[g as int][k as int] as int],
                        self.wf(),
                        nodes == self.graph().nodes(),
                        kinds == self.systems(),
                        gv == vv(groups@),
                        all == access_items(nodes, kinds, gv, gv.len() as int),
                        groups_in(gv, nodes.len()),
                        r0 == old(result)@,
                        result@.len() == r0.len(),
                        r0.len() == kinds.len(),
                        base == access_items(nodes, kinds, gv, g as int) + node_items(
                            nodes,
                            kinds,
                            gv[g as int],
                            g,
                            k as int,
                        ),
                        sofar == base + system_items(kinds, systems, g, j as int),
                        entries_wf(resources.entries()),
                        track_fold(Seq::empty(), r0, self.accesses(), all, sofar.len() as int)
                            == Ok::<(Seq<EntryView>, Seq<usize>), ConflictView>(
                            (resources.entries(), result@),
                        ),
                    decreases systems.len() - j,
                {
                    let s = node.systems[j];
                    proof {
                        self.lemma_node_systems_in_range(gv[g as int][k as int] as int, j as int);
                    }
                    if !self.systems[s].is_exclusive() {
                        let ghost before = sofar;
                        proof {
                            lemma_items_prefix(nodes, kinds, gv, g as int, k as int, j as int + 1);
                            assert(base + system_items(kinds, systems, g, j + 1) == before.push((g, s)));
                            assert(all[before.len() as int] == (g, s));
                            self.lemma_accesses_len();
                        }
                        let m = resources.mark_access(&self.access[s], g, s, result);
                        proof {
                            sofar = before.push((g, s));
                        }
                        match m {
                            Err(e) => {
                                proof {
                                    lemma_track_err(
                                        Seq::empty(),
                                        r0,
                                        self.accesses(),
                                        all,
                                        sofar.len() as int,
                                        all.len() as int,
                                    );
                                }
                                return Err(e);
                            },
                            Ok(()) => {},
                        }
                    }
                    j += 1;
                }
                proof {
                    assert(sofar == access_items(nodes, kinds, gv, g as int) + node_items(
                        nodes,
                        kinds,
                        gv[g as int],
                        g,
                        k + 1,
                    ));
                }
                k += 1;
            }
            proof {
                assert(sofar == access_items(nodes, kinds, gv, g + 1));
            }
            g += 1;
        }
        proof {
            assert(sofar.len() == all.len());
        }
        Ok(())
    }

    /// The systems of every node are systems of the schedule.
    proof fn lemma_node_systems_in_range(&self, n: int, j: int)
        requires
            self.wf(),
            0 <= n < self.graph().nodes().len(),
            0 <= j < self.graph().nodes()[n].systems@.len(),
        ensures
            self.graph().nodes()[n].systems@[j] < self.systems().len(),
    {
    }

    /// Every system has an access.
    proof fn lemma_accesses_len(&self)
        requires
            self.wf(),
        ensures
            self.accesses().len() == self.systems().len(),
    {
    }
}

/// `res` with each entry `s` for which `cond(s)` holds lowered to `g`.
pub open spec fn lower_if(res: Seq<usize>, cond: spec_fn(usize) -> bool, g: usize) -> Seq<usize> {
    Seq::new(res.len(), |s: int| if cond(s as usize) && res[s] > g { g } else { res[s] })
}

/// Node `n` depends on a node that holds system `s`.
pub open spec fn depends_on_system(nodes: Seq<DependencyNode>, n: usize, s: usize) -> bool {
    exists|d: usize|
        nodes[n as int].dependencies@.contains(d) && #[trigger] nodes[d as int].systems@.contains(s)
}

/// Some node of group `g` depends on a node that holds system `s`.
pub open spec fn needed_by(nodes: Seq<DependencyNode>, groups: Seq<Seq<usize>>, s: usize, g: int) -> bool {
    exists|k: int| 0 <= k < groups[g].len() && #[trigger] depends_on_system(nodes, groups[g][k], s)
}

/// The entries of `res` after the dependencies of the first `g` groups: first the systems
/// of the first phase are lowered to 1, then, group after group, the systems that a node of
/// the group depends on are lowered to the group.
pub open spec fn graph_lowered(
    nodes: Seq<DependencyNode>,
    groups: Seq<Seq<usize>>,
    res: Seq<usize>,
    g: int,
) -> Seq<usize>
    decreases g,
{
    if g <= 0 {
        lower_if(res, |s: usize| nodes[0].systems@.contains(s), 1)
    } else {
        lower_if(
            graph_lowered(nodes, groups, res, g - 1),
            |s: usize| needed_by(nodes, groups, s, g - 1),
            (g - 1) as usize,
        )
    }
}

impl Schedule {
    /// Lowers to `g` the entry of each system of `systems`.
    fn lower_systems(result: &mut Vec<usize>, systems: &Vec<usize>, g: usize)
        requires
            forall|j: int| 0 <= j < systems@.len() ==> #[trigger] systems@[j] < old(result)@.len(),
        ensures
            final(result)@ == lower_if(old(result)@, |s: usize| systems@.contains(s), g),
    {
        let ghost r0 = result@;
        let _len = result.len();
        let mut j: usize = 0;
        while j < systems.len()
            invariant
                0 <= j <= systems@.len(),
                r0.len() <= usize::MAX,
                result@.len() == r0.len(),
                forall|q: int| 0 <= q < systems@.len() ==> #[trigger] systems@[q] < r0.len(),
                result@ == lower_if(r0, |s: usize| systems@.take(j as int).contains(s), g),
            decreases systems@.len() - j,
        {
            let s = systems[j];
            let ghost before = result@;
            if result[s] > g {
                result.set(s, g);
            }
            j += 1;
            proof {
                assert forall|t: int| 0 <= t < r0.len() implies #[trigger] result@[t] == lower_if(
                    r0,
                    |x: usize| systems@.take(j as int).contains(x),
                    g,
                )[t] by {
                    let x = t as usize;
                    let now = systems@.take(j as int);
                    let prev = systems@.take(j - 1);
                    assert(now.contains(x) == (prev.contains(x) || x == s)) by {
                        if now.contains(x) {
                            let q = choose|q: int| 0 <= q < now.len() && now[q] == x;
                            if q < j - 1 {
                                assert(prev[q] == x);
                            }
                        }
                        if prev.contains(x) {
                            let q = choose|q: int| 0 <= q < prev.len() && prev[q] == x;
                            assert(now[q] == x);
                        }
                        if x == s {
                            assert(now[j - 1] == x);
                        }
                    }
                    assert(before[t] == lower_if(r0, |y: usize| prev.contains(y), g)[t]);
                    if x != s {
                        assert(result@[t] == before[t]);
                    }
                }
                assert(result@ =~= lower_if(r0, |s: usize| systems@.take(j as int).contains(s), g));
            }
        }
        proof {
            assert(systems@.take(systems@.len() as int) =~= systems@);
        }
    }

    /// Lowers to `g` the entry of each system of the nodes that node `node` depends on.
    fn lower_dependencies_of(&self, result: &mut Vec<usize>, node: usize, g: usize)
        requires
            self.wf(),
            node < self.graph().nodes().len(),
            old(result)@.len() == self.systems().len(),
        ensures
            final(result)@ == lower_if(
                old(result)@,
                |s: usize| depends_on_system(self.graph().nodes(), node, s),
                g,
            ),
    {
        let ghost nodes = self.graph().nodes();
        let ghost r0 = result@;
        let deps = self.graph.node(node).dependencies.items();
        let mut q: usize = 0;
        while q < deps.len()
            invariant
                0 <= q <= deps@.len(),
                self.wf(),
                nodes == self.graph().nodes(),
                node < nodes.len(),
                deps@.to_set() == nodes[node as int].dependencies@,
                r0.len() == self.systems().len(),
                result@ == lower_if(
                    r0,
                    |s: usize|
                        exists|i: int|
                            0 <= i < q && #[trigger] nodes[deps@[i] as int].systems@.contains(s),
                    g,
                ),
            decreases deps@.len() - q,
        {
            let d = deps[q];
            proof {
                assert(deps@.to_set().contains(d));
                assert(d < nodes.len());
                assert forall|j: int| 0 <= j < nodes[d as int].systems@.len() implies #[trigger] nodes[d as int].systems@[j]
                    < result@.len() by {
                    self.lemma_node_systems_in_range(d as int, j);
                }
            }
            let ghost before = result@;
            Self::lower_systems(result, &self.graph.node(d).systems, g);
            q += 1;
            proof {
                assert forall|t: int| 0 <= t < r0.len() implies #[trigger] result@[t] == lower_if(
                    r0,
                    |s: usize|
                        exists|i: int|
                            0 <= i < q && #[trigger] nodes[deps@[i] as int].systems@.contains(s),
                    g,
                )[t] by {
                    let x = t as usize;
                    let now = exists|i: int|
                        0 <= i < q && #[trigger] nodes[deps@[i] as int].systems@.contains(x);
                    let was = exists|i: int|
                        0 <= i < q - 1 && #[trigger] nodes[deps@[i] as int].systems@.contains(x);
                    assert(now == (was || nodes[d as int].systems@.contains(x))) by {
                        if nodes[d as int].systems@.contains(x) {
                            assert(nodes[deps@[q - 1] as int].systems@.contains(x));
                        }
                        if now {
                            let i = choose|i: int|
                                0 <= i < q && #[trigger] nodes[deps@[i] as int].systems@.contains(x);
                            if i < q - 1 {
                                assert(was);
                            }
                        }
                    }
                }
                assert(result@ =~= lower_if(
                    r0,
                    |s: usize|
                        exists|i: int|
                            0 <= i < q && #[trigger] nodes[deps@[i] as int].systems@.contains(s),
                    g,
                ));
            }
        }
        proof {
            assert forall|t: int| 0 <= t < r0.len() implies #[trigger] result@[t] == lower_if(
                r0,
                |s: usize| depends_on_system(nodes, node, s),
                g,
            )[t] by {
                let x = t as usize;
                let a = exists|i: int|
                    0 <= i < deps@.len() && #[trigger] nodes[deps@[i] as int].systems@.contains(x);
                let b = depends_on_system(nodes, node, x);
                assert(a == b) by {
                    if a {
                        let i = choose|i: int|
                            0 <= i < deps@.len() && #[trigger] nodes[deps@[i] as int].systems@.contains(x);
                        assert(deps@.to_set().contains(deps@[i]));
                    }
                    if b {
                        let d = choose|d: usize|
                            nodes[node as int].dependencies@.contains(d)
                                && #[trigger] nodes[d as int].systems@.contains(x);
                        assert(deps@.to_set().contains(d));
                        let i = choose|i: int| 0 <= i < deps@.len() && deps@[i] == d;
                        assert(nodes[deps@[i] as int].systems@.contains(x));
                    }
                }
            }
            assert(result@ =~= lower_if(r0, |s: usize| depends_on_system(nodes, node, s), g));
        }
    }
}

/// Lowering to `g` twice lowers to `g` where either condition holds.
proof fn lemma_lower_twice(res: Seq<usize>, c1: spec_fn(usize) -> bool, c2: spec_fn(usize) -> bool, g: usize)
    requires
        res.len() <= usize::MAX,
    ensures
        lower_if(lower_if(res, c1, g), c2, g) == lower_if(res, |s: usize| c1(s) || c2(s), g),
{
    assert(lower_if(lower_if(res, c1, g), c2, g) =~= lower_if(res, |s: usize| c1(s) || c2(s), g));
}

impl Schedule {
    /// Lowers the entries of `result` by the dependencies in the graph: the systems of the
    /// first phase to 1, and, group after group, the systems of the nodes that a node of the
    /// group depends on to the group.
    pub fn mark_system_dependencies_from_graph(&self, result: &mut Vec<usize>, groups: &Vec<Vec<usize>>)
        requires
            self.wf(),
            old(result)@.len() == self.systems().len(),
            groups_in(vv(groups@), self.graph().nodes().len()),
        ensures
            final(result)@.len() == old(result)@.len(),
            final(result)@ == graph_lowered(
                self.graph().nodes(),
                vv(groups@),
                old(result)@,
                groups@.len() as int,
            ),
    {
        let ghost nodes = self.graph().nodes();
        let ghost gv = vv(groups@);
        let ghost r0 = result@;
        let _len = result.len();
        proof {
            assert forall|j: int| 0 <= j < nodes[0].systems@.len() implies #[trigger] nodes[0].systems@[j]
                < result@.len() by {
                self.lemma_node_systems_in_range(0, j);
            }
        }
        Self::lower_systems(result, &self.graph.node(crate::phase_schedule::FIRST_NODE_INDEX).systems, 1);
        let mut g: usize = 0;
        while g < groups.len()
            invariant
                0 <= g <= groups@.len(),
                self.wf(),
                nodes == self.graph().nodes(),
                gv == vv(groups@),
                groups_in(gv, nodes.len()),
                r0.len() == self.systems().len(),
                r0.len() <= usize::MAX,
                result@.len() == r0.len(),
                result@ == graph_lowered(nodes, gv, r0, g as int),
            decreases groups@.len() - g,
        {
            let group = &groups[g];
            let ghost prev = result@;
            proof {
                assert(gv[g as int] == group@);
                assert(lower_if(prev, |s: usize| exists|q: int| 0 <= q < 0 && #[trigger] depends_on_system(nodes, group@[q], s), g) =~= prev);
            }
            let mut k: usize = 0;
            while k < group.len()
                invariant
                    0 <= k <= group@.len(),
                    0 <= g < groups@.len(),
                    group@ == gv[g as int],
                    self.wf(),
                    nodes == self.graph().nodes(),
                    gv == vv(groups@),
                    groups_in(gv, nodes.len()),
                    prev.len() == self.systems().len(),
                    prev.len() <= usize::MAX,
                    result@ == lower_if(
                        prev,
                        |s: usize|
                            exists|q: int| 0 <= q < k && #[trigger] depends_on_system(nodes, group@[q], s),
                        g,
                    ),
                decreases group@.len() - k,
            {
                proof {
                    assert(group@[k as int] == gv[g as int][k as int]);
                }
                let ghost mid = result@;
                self.lower_dependencies_of(result, group[k], g);
                proof {
                    let c1 = |s: usize| exists|q: int| 0 <= q < k && #[trigger] depends_on_system(nodes, group@[q], s);
                    let c2 = |s: usize| depends_on_system(nodes, group@[k as int], s);
                    lemma_lower_twice(prev, c1, c2, g);
                    let la = lower_if(prev, |s: usize| c1(s) || c2(s), g);
                    let lb = lower_if(
                        prev,
                        |s: usize|
                            exists|q: int| 0 <= q < k + 1 && #[trigger] depends_on_system(nodes, group@[q], s),
                        g,
                    );
                    assert(la =~= lb) by {
                        assert forall|t: int| 0 <= t < prev.len() implies #[trigger] la[t] == lb[t] by {
                            if c2(t as usize) {
                                assert(depends_on_system(nodes, group@[k as int], t as usize));
                            }
                            if exists|q: int| 0 <= q < k + 1 && #[trigger] depends_on_system(nodes, group@[q], t as usize) {
                                let q = choose|q: int| 0 <= q < k + 1 && #[trigger] depends_on_system(nodes, group@[q], t as usize);
                                if q < k {
                                    assert(c1(t as usize));
                                }
                            }
                        }
                    }
                }
                k += 1;
            }
            proof {
                let la = lower_if(
                    prev,
                    |s: usize|
                        exists|q: int| 0 <= q < group@.len() && #[trigger] depends_on_system(nodes, group@[q], s),
                    g,
                );
                let lb = lower_if(prev, |s: usize| needed_by(nodes, gv, s, g as int), g);
                assert(la =~= lb) by {
                    assert forall|t: int| 0 <= t < prev.len() implies #[trigger] la[t] == lb[t] by {
                        if needed_by(nodes, gv, t as usize, g as int) {
                            let q = choose|q: int| 0 <= q < gv[g as int].len() && #[trigger] depends_on_system(nodes, gv[g as int][q], t as usize);
                            assert(depends_on_system(nodes, group@[q], t as usize));
                        }
                    }
                }
            }
            g += 1;
        }
    }
}

/// System `s` must run on the schedule's thread or alone: it is moved towards the end.
pub open spec fn movable(kinds: Seq<SystemKind>, s: usize) -> bool {
    kinds[s as int] != SystemKind::Send
}

/// The group a moved system lands in: it started in group `g0`, the group before the first
/// group that needs it (its conflict group `c`) if that is later, at most the last group of
/// `len`.
pub open spec fn dest_group(c: usize, g0: int, len: int) -> int {
    let m = if c as int - 1 > g0 {
        c as int - 1
    } else {
        g0
    };
    if m > len - 1 {
        len - 1
    } else {
        m
    }
}

/// The systems of the groups `groups[..upto]` for which `pred(system, group)` holds.
pub open spec fn sum_ms(groups: Seq<Seq<usize>>, pred: spec_fn(usize, int) -> bool, upto: int) -> Multiset<
    usize,
>
    decreases upto,
{
    if upto <= 0 {
        Multiset::empty()
    } else {
        sum_ms(groups, pred, upto - 1).add(
            groups[upto - 1].to_multiset().filter(|s: usize| pred(s, upto - 1)),
        )
    }
}

/// The systems that stay in group `j`: those that may run on any thread.
pub open spec fn stay_ms(kinds: Seq<SystemKind>, groups: Seq<Seq<usize>>, j: int) -> Multiset<usize> {
    groups[j].to_multiset().filter(|s: usize| !movable(kinds, s))
}

/// The moved systems that land in group `j`.
pub open spec fn landed_ms(
    kinds: Seq<SystemKind>,
    conflict: Seq<usize>,
    groups: Seq<Seq<usize>>,
    j: int,
) -> Multiset<usize> {
    sum_ms(
        groups,
        |s: usize, g0: int|
            movable(kinds, s) && dest_group(conflict[s as int], g0, groups.len() as int) == j,
        groups.len() as int,
    )
}

/// The moved systems from the groups before `i` that have not landed before group `i - 1`.
spec fn pending_ms(
    kinds: Seq<SystemKind>,
    conflict: Seq<usize>,
    groups: Seq<Seq<usize>>,
    i: int,
) -> Multiset<usize> {
    sum_ms(
        groups,
        |s: usize, g0: int|
            movable(kinds, s) && dest_group(conflict[s as int], g0, groups.len() as int) >= i - 1,
        i,
    )
}

/// Filtering a sum filters each of its terms.
proof fn lemma_sum_filter(
    groups: Seq<Seq<usize>>,
    p: spec_fn(usize, int) -> bool,
    q: spec_fn(usize) -> bool,
    u: int,
)
    ensures
        sum_ms(groups, p, u).filter(q) =~= sum_ms(groups, |s: usize, g: int| p(s, g) && q(s), u),
    decreases u,
{
    broadcast use vstd::multiset::group_multiset_axioms;

    if u > 0 {
        lemma_sum_filter(groups, p, q, u - 1);
    }
}

/// Sums of predicates that agree on the groups summed are equal.
proof fn lemma_sum_ext(
    groups: Seq<Seq<usize>>,
    p1: spec_fn(usize, int) -> bool,
    p2: spec_fn(usize, int) -> bool,
    u: int,
)
    requires
        forall|s: usize, g: int| 0 <= g < u ==> #[trigger] p1(s, g) == p2(s, g),
    ensures
        sum_ms(groups, p1, u) =~= sum_ms(groups, p2, u),
    decreases u,
{
    broadcast use vstd::multiset::group_multiset_axioms;

    if u > 0 {
        lemma_sum_ext(groups, p1, p2, u - 1);
        assert(groups[u - 1].to_multiset().filter(|s: usize| p1(s, u - 1)) =~= groups[u
            - 1].to_multiset().filter(|s: usize| p2(s, u - 1)));
    }
}

/// Terms after `i` that hold nothing add nothing to a sum.
proof fn lemma_sum_prefix(groups: Seq<Seq<usize>>, p: spec_fn(usize, int) -> bool, i: int, u: int)
    requires
        0 <= i <= u,
        forall|s: usize, g: int| i <= g < u ==> !#[trigger] p(s, g),
    ensures
        sum_ms(groups, p, u) =~= sum_ms(groups, p, i),
    decreases u - i,
{
    broadcast use vstd::multiset::group_multiset_axioms;

    if i < u {
        lemma_sum_prefix(groups, p, i, u - 1);
        assert(groups[u - 1].to_multiset().filter(|s: usize| p(s, u - 1)) =~= Multiset::empty());
    }
}

/// Handing the systems of `src` from position `j` on whose conflict group is at most `i` to
/// the end of `dest`, as the move does: a system handed on leaves its place to the last
/// system of `src`. Gives what stays in `src` and the grown `dest`.
pub open spec fn hand_on_walk(
    cg: Seq<usize>,
    src: Seq<usize>,
    dest: Seq<usize>,
    i: int,
    j: int,
) -> (Seq<usize>, Seq<usize>)
    decreases src.len() - j,
{
    if j < 0 || j >= src.len() {
        (src, dest)
    } else if cg[src[j] as int] <= i {
        hand_on_walk(cg, src.update(j, src.last()).drop_last(), dest.push(src[j]), i, j)
    } else {
        hand_on_walk(cg, src, dest, i, j + 1)
    }
}

/// Taking the systems of `group` from position `j` on that run alone to the end of `te`,
/// and those that run on the schedule's thread to the end of `tn`; a system taken leaves
/// its place to the last system of the group. Gives the group left, `tn` and `te`.
pub open spec fn take_movable_walk(
    kinds: Seq<SystemKind>,
    group: Seq<usize>,
    tn: Seq<usize>,
    te: Seq<usize>,
    j: int,
) -> (Seq<usize>, Seq<usize>, Seq<usize>)
    decreases group.len() - j,
{
    if j < 0 || j >= group.len() {
        (group, tn, te)
    } else {
        let s = group[j];
        let rest = group.update(j, group.last()).drop_last();
        if kinds[s as int] == SystemKind::Exclusive {
            take_movable_walk(kinds, rest, tn, te.push(s), j)
        } else if kinds[s as int] != SystemKind::Send {
            take_movable_walk(kinds, rest, tn.push(s), te, j)
        } else {
            take_movable_walk(kinds, group, tn, te, j + 1)
        }
    }
}

/// The move at group `i`, with the groups `st.0`, the waiting systems that run on the
/// schedule's thread `st.1` and those that run alone `st.2`: the waiting systems that group
/// `i` needs go to group `i - 1` (those of `st.1` first), then group `i` gives up its systems
/// that do not run on any thread.
pub open spec fn move_step(
    kinds: Seq<SystemKind>,
    cg: Seq<usize>,
    st: (Seq<Seq<usize>>, Seq<usize>, Seq<usize>),
    i: int,
) -> (Seq<Seq<usize>>, Seq<usize>, Seq<usize>) {
    let (groups, tn, te) = st;
    let (g1, tn1, te1) = if i >= 1 {
        let (tn1, d1) = hand_on_walk(cg, tn, groups[i - 1], i, 0);
        let (te1, d2) = hand_on_walk(cg, te, d1, i, 0);
        (groups.update(i - 1, d2), tn1, te1)
    } else {
        (groups, tn, te)
    };
    let (x, tn2, te2) = take_movable_walk(kinds, g1[i], tn1, te1, 0);
    (g1.update(i, x), tn2, te2)
}

/// The move from group `i` on.
pub open spec fn move_walk(
    kinds: Seq<SystemKind>,
    cg: Seq<usize>,
    st: (Seq<Seq<usize>>, Seq<usize>, Seq<usize>),
    i: int,
) -> (Seq<Seq<usize>>, Seq<usize>, Seq<usize>)
    decreases st.0.len() - i,
{
    if i < 0 || i >= st.0.len() {
        st
    } else {
        move_walk(kinds, cg, move_step(kinds, cg, st, i), i + 1)
    }
}

/// The groups after the move: the walk over all groups, after which the systems still
/// waiting join the last group, those that run on the schedule's thread first.
pub open spec fn moved_groups(kinds: Seq<SystemKind>, cg: Seq<usize>, groups: Seq<Seq<usize>>) -> Seq<
    Seq<usize>,
> {
    if groups.len() == 0 {
        groups
    } else {
        let (g, tn, te) = move_walk(kinds, cg, (groups, Seq::empty(), Seq::empty()), 0);
        g.update(g.len() - 1, g[g.len() - 1] + tn + te)
    }
}

impl Schedule {
    /// Moves the systems of `src` whose conflict group is at most `i` into group `i - 1`,
    /// and keeps the others in `src`.
    fn add_to_prev_group_if_conflict(
        system_conflict_groups: &Vec<usize>,
        src: &mut Vec<usize>,
        groups: &mut Vec<Vec<usize>>,
        i: usize,
    )
        requires
            i < old(groups)@.len(),
            i == 0 ==> old(src)@.len() == 0,
            forall|k: int|
                0 <= k < old(src)@.len() ==> #[trigger] old(src)@[k] < system_conflict_groups@.len(),
        ensures
            final(groups)@.len() == old(groups)@.len(),
            forall|j: int|
                0 <= j < old(groups)@.len() && j != i - 1 ==> #[trigger] final(groups)@[j] == old(
                    groups,
                )@[j],
            i >= 1 ==> final(groups)@[i - 1]@.to_multiset() =~= old(groups)@[i - 1]@.to_multiset().add(
                old(src)@.to_multiset().filter(|s: usize| system_conflict_groups@[s as int] <= i),
            ),
            final(src)@.to_multiset() =~= old(src)@.to_multiset().filter(
                |s: usize| system_conflict_groups@[s as int] > i,
            ),
            forall|k: int|
                0 <= k < final(src)@.len() ==> #[trigger] final(src)@[k]
                    < system_conflict_groups@.len(),
            i >= 1 ==> (final(src)@, final(groups)@[i - 1]@) == hand_on_walk(
                system_conflict_groups@,
                old(src)@,
                old(groups)@[i - 1]@,
                i as int,
                0,
            ),
            i == 0 ==> final(src)@ == old(src)@,
    {
        broadcast use vstd::multiset::group_multiset_axioms;

        let ghost src0 = src@;
        let ghost g0 = groups@;
        let ghost cg = system_conflict_groups@;
        let ghost mut moved: Seq<usize> = Seq::empty();
        proof {
            lemma_empty_ms_usize();
        }
        let mut j: usize = 0;
        while j < src.len()
            invariant
                0 <= j <= src@.len(),
                i < groups@.len(),
                groups@.len() == g0.len(),
                g0 == old(groups)@,
                src0 == old(src)@,
                cg == system_conflict_groups@,
                i == 0 ==> src@.len() == 0,
                forall|k: int| 0 <= k < src@.len() ==> #[trigger] src@[k] < cg.len(),
                forall|k: int| 0 <= k < j ==> cg[#[trigger] src@[k] as int] > i,
                forall|k: int| 0 <= k < moved.len() ==> cg[#[trigger] moved[k] as int] <= i,
                src@.to_multiset().add(moved.to_multiset()) =~= src0.to_multiset(),
                forall|q: int| 0 <= q < g0.len() && q != i - 1 ==> #[trigger] groups@[q] == g0[q],
                i >= 1 ==> groups@[i - 1]@ == g0[i - 1]@ + moved,
                i >= 1 ==> hand_on_walk(cg, src@, groups@[i - 1]@, i as int, j as int)
                    == hand_on_walk(cg, src0, g0[i - 1]@, i as int, 0),
                i == 0 ==> src@ == src0,
            decreases src@.len() - j,
        {
            let s = src[j];
            let conflict = system_conflict_groups[s] <= i;
            if conflict {
                let ghost before = src@;
                let ghost dest_before = groups@[i - 1]@;
                src.swap_remove(j);
                groups[i - 1].push(s);
                proof {
                    assert(groups@[i - 1]@ == dest_before.push(s));
                    assert(hand_on_walk(cg, before, dest_before, i as int, j as int)
                        == hand_on_walk(cg, src@, groups@[i - 1]@, i as int, j as int));
                    lemma_swap_remove_ms_usize(before, j as int);
                    assert(src@ == before.update(j as int, before.last()).drop_last());
                    let m2 = moved.push(s);
                    vstd::seq_lib::to_multiset_build(moved, s);
                    assert(m2.to_multiset() =~= moved.to_multiset().insert(s));
                    assert(src@.to_multiset().add(m2.to_multiset()) =~= src0.to_multiset());
                    assert forall|k: int| 0 <= k < j implies cg[#[trigger] src@[k] as int] > i by {
                        assert(src@[k] == before[k]);
                    }
                    assert forall|k: int| 0 <= k < src@.len() implies #[trigger] src@[k] < cg.len() by {
                        if k == j {
                            assert(src@[k] == before.last());
                        } else {
                            assert(src@[k] == before[k]);
                        }
                    }
                    assert(groups@[i - 1]@ =~= g0[i - 1]@ + m2);
                    moved = m2;
                }
            } else {
                proof {
                    if i >= 1 {
                        assert(hand_on_walk(cg, src@, groups@[i - 1]@, i as int, j as int)
                            == hand_on_walk(cg, src@, groups@[i - 1]@, i as int, j + 1));
                    }
                }
                j += 1;
            }
        }
        proof {
            let cond_le = |s: usize| cg[s as int] <= i;
            let cond_gt = |s: usize| cg[s as int] > i;
            assert forall|x: usize| src@.to_multiset().count(x) > 0 implies cg[x as int] > i by {
                vstd::seq_lib::to_multiset_contains(src@, x);
                let k = choose|k: int| 0 <= k < src@.len() && src@[k] == x;
                assert(cg[src@[k] as int] > i);
            }
            assert forall|x: usize| moved.to_multiset().count(x) > 0 implies cg[x as int] <= i by {
                vstd::seq_lib::to_multiset_contains(moved, x);
                let k = choose|k: int| 0 <= k < moved.len() && moved[k] == x;
                assert(cg[moved[k] as int] <= i);
            }
            assert(src0.to_multiset().filter(cond_gt) =~= src@.to_multiset());
            assert(src0.to_multiset().filter(cond_le) =~= moved.to_multiset());
            if i >= 1 {
                vstd::seq_lib::lemma_multiset_commutative(g0[i - 1]@, moved);
            }
        }
    }
}

/// The empty sequence holds nothing.
proof fn lemma_empty_ms_usize()
    ensures
        Seq::<usize>::empty().to_multiset() =~= Multiset::<usize>::empty(),
{
    broadcast use vstd::multiset::group_multiset_axioms;

    assert forall|a: usize|
        Seq::<usize>::empty().to_multiset().count(a) == Multiset::<usize>::empty().count(a) by {
        vstd::seq_lib::to_multiset_contains(Seq::<usize>::empty(), a);
    }
}

/// Removing an element by swapping the last one into its place removes it from the multiset.
proof fn lemma_swap_remove_ms_usize(s: Seq<usize>, i: int)
    requires
        0 <= i < s.len(),
    ensures
        s.update(i, s.last()).drop_last().to_multiset().insert(s[i]) =~= s.to_multiset(),
{
    broadcast use vstd::multiset::group_multiset_axioms;

    let t = s.update(i, s.last());
    vstd::seq_lib::to_multiset_update(s, i, s.last());
    assert(t.drop_last() == t.remove(t.len() - 1));
    vstd::seq_lib::to_multiset_remove(t, t.len() - 1);
    assert(t[t.len() - 1] == s.last());
    vstd::seq_lib::to_multiset_contains(s, s[i]);
    assert(s.contains(s[i]));
    vstd::seq_lib::to_multiset_contains(s, s.last());
    assert(s.contains(s.last()));
}

/// Every entry of `s` is below `n`.
pub open spec fn all_below(s: Seq<usize>, n: nat) -> bool {
    forall|k: int| 0 <= k < s.len() ==> #[trigger] s[k] < n
}

impl Schedule {
    /// Takes the systems of `group` that run alone into `tmp_excl` and those that run on the
    /// schedule's thread into `tmp_nosend`; the others stay.
    fn take_movable(&self, group: &mut Vec<usize>, tmp_nosend: &mut Vec<usize>, tmp_excl: &mut Vec<usize>)
        requires
            self.wf(),
            all_below(old(group)@, self.systems().len()),
        ensures
            final(group)@.to_multiset() =~= old(group)@.to_multiset().filter(
                |s: usize| !movable(self.systems(), s),
            ),
            final(tmp_nosend)@.to_multiset().add(final(tmp_excl)@.to_multiset()) =~= old(
                tmp_nosend,
            )@.to_multiset().add(old(tmp_excl)@.to_multiset()).add(
                old(group)@.to_multiset().filter(|s: usize| movable(self.systems(), s)),
            ),
            all_below(final(group)@, self.systems().len()),
            all_below(old(tmp_nosend)@, self.systems().len()) ==> all_below(final(tmp_nosend)@, self.systems().len()),
            all_below(old(tmp_excl)@, self.systems().len()) ==> all_below(final(tmp_excl)@, self.systems().len()),
            (final(group)@, final(tmp_nosend)@, final(tmp_excl)@) == take_movable_walk(
                self.systems(),
                old(group)@,
                old(tmp_nosend)@,
                old(tmp_excl)@,
                0,
            ),
    {
        broadcast use vstd::multiset::group_multiset_axioms;

        let ghost kinds = self.systems();
        let ghost g0 = group@;
        let ghost n0 = tmp_nosend@;
        let ghost e0 = tmp_excl@;
        let ghost mut moved: Seq<usize> = Seq::empty();
        proof {
            lemma_empty_ms_usize();
        }
        let mut j: usize = 0;
        while j < group.len()
            invariant
                0 <= j <= group@.len(),
                self.wf(),
                kinds == self.systems(),
                g0 == old(group)@,
                n0 == old(tmp_nosend)@,
                e0 == old(tmp_excl)@,
                all_below(group@, kinds.len()),
                all_below(n0, kinds.len()) ==> all_below(tmp_nosend@, kinds.len()),
                all_below(e0, kinds.len()) ==> all_below(tmp_excl@, kinds.len()),
                forall|k: int| 0 <= k < j ==> !movable(kinds, #[trigger] group@[k]),
                forall|k: int| 0 <= k < moved.len() ==> movable(kinds, #[trigger] moved[k]),
                group@.to_multiset().add(moved.to_multiset()) =~= g0.to_multiset(),
                tmp_nosend@.to_multiset().add(tmp_excl@.to_multiset()) =~= n0.to_multiset().add(
                    e0.to_multiset(),
                ).add(moved.to_multiset()),
                take_movable_walk(kinds, group@, tmp_nosend@, tmp_excl@, j as int)
                    == take_movable_walk(kinds, g0, n0, e0, 0),
            decreases group@.len() - j,
        {
            let s = group[j];
            let ghost before = group@;
            let ghost walk_before = (group@, tmp_nosend@, tmp_excl@);
            if self.systems[s].is_exclusive() || !self.systems[s].is_send() {
                let ghost tbn = tmp_nosend@;
                let ghost tbe = tmp_excl@;
                let x = group.swap_remove(j);
                proof {
                    lemma_swap_remove_ms_usize(before, j as int);
                    vstd::seq_lib::to_multiset_build(moved, x);
                }
                if self.systems[s].is_exclusive() {
                    let ghost eb = tmp_excl@;
                    tmp_excl.push(x);
                    proof {
                        vstd::seq_lib::to_multiset_build(eb, x);
                    }
                } else {
                    let ghost nb = tmp_nosend@;
                    tmp_nosend.push(x);
                    proof {
                        vstd::seq_lib::to_multiset_build(nb, x);
                    }
                }
                proof {
                    let m2 = moved.push(x);
                    assert forall|k: int| 0 <= k < j implies !movable(kinds, #[trigger] group@[k]) by {
                        assert(group@[k] == before[k]);
                    }
                    assert forall|k: int| 0 <= k < group@.len() implies #[trigger] group@[k] < kinds.len() by {
                        if k == j {
                            assert(group@[k] == before.last());
                        } else {
                            assert(group@[k] == before[k]);
                        }
                    }
                    assert(group@.to_multiset().add(m2.to_multiset()) =~= g0.to_multiset());
                    assert(m2.to_multiset() =~= moved.to_multiset().insert(x));
                    assert(tmp_nosend@.to_multiset().add(tmp_excl@.to_multiset()) =~= tbn.to_multiset().add(
                        tbe.to_multiset(),
                    ).insert(x));
                    assert(tmp_nosend@.to_multiset().add(tmp_excl@.to_multiset()) =~= n0.to_multiset().add(
                        e0.to_multiset(),
                    ).add(m2.to_multiset()));
                    moved = m2;
                    assert(take_movable_walk(kinds, walk_before.0, walk_before.1, walk_before.2, j as int)
                        == take_movable_walk(kinds, group@, tmp_nosend@, tmp_excl@, j as int));
                }
            } else {
                proof {
                    assert(take_movable_walk(kinds, group@, tmp_nosend@, tmp_excl@, j as int)
                        == take_movable_walk(kinds, group@, tmp_nosend@, tmp_excl@, j + 1));
                }
                j += 1;
            }
        }
        proof {
            assert forall|x: usize| group@.to_multiset().count(x) > 0 implies !movable(kinds, x) by {
                vstd::seq_lib::to_multiset_contains(group@, x);
                let k = choose|k: int| 0 <= k < group@.len() && group@[k] == x;
                assert(!movable(kinds, group@[k]));
            }
            assert forall|x: usize| moved.to_multiset().count(x) > 0 implies movable(kinds, x) by {
                vstd::seq_lib::to_multiset_contains(moved, x);
                let k = choose|k: int| 0 <= k < moved.len() && moved[k] == x;
                assert(movable(kinds, moved[k]));
            }
            assert(g0.to_multiset().filter(|s: usize| !movable(kinds, s)) =~= group@.to_multiset());
            assert(g0.to_multiset().filter(|s: usize| movable(kinds, s)) =~= moved.to_multiset());
        }
    }
}

/// Every entry of every group is below `n`.
pub open spec fn groups_below(groups: Seq<Seq<usize>>, n: nat) -> bool {
    forall|g: int| 0 <= g < groups.len() ==> #[trigger] all_below(groups[g], n)
}

/// Where the moved systems land in group `i - 1` and what remains pending for group `i`.
proof fn lemma_pending_step(kinds: Seq<SystemKind>, cg: Seq<usize>, groups: Seq<Seq<usize>>, i: int)
    requires
        1 <= i < groups.len(),
    ensures
        pending_ms(kinds, cg, groups, i).filter(|s: usize| cg[s as int] <= i) =~= landed_ms(
            kinds,
            cg,
            groups,
            i - 1,
        ),
        pending_ms(kinds, cg, groups, i).filter(|s: usize| cg[s as int] > i) =~= sum_ms(
            groups,
            |s: usize, g0: int|
                movable(kinds, s) && dest_group(cg[s as int], g0, groups.len() as int) >= i,
            i,
        ),
{
    let len = groups.len() as int;
    let pp = |s: usize, g0: int| movable(kinds, s) && dest_group(cg[s as int], g0, len) >= i - 1;
    let le = |s: usize| cg[s as int] <= i;
    let gt = |s: usize| cg[s as int] > i;
    let land = |s: usize, g0: int| movable(kinds, s) && dest_group(cg[s as int], g0, len) == i - 1;
    let rest = |s: usize, g0: int| movable(kinds, s) && dest_group(cg[s as int], g0, len) >= i;
    lemma_sum_filter(groups, pp, le, i);
    lemma_sum_ext(groups, |s: usize, g: int| pp(s, g) && le(s), land, i);
    lemma_sum_prefix(groups, land, i, len);
    lemma_sum_filter(groups, pp, gt, i);
    lemma_sum_ext(groups, |s: usize, g: int| pp(s, g) && gt(s), rest, i);
}

/// The pending systems after group `i` has been taken apart.
proof fn lemma_pending_next(kinds: Seq<SystemKind>, cg: Seq<usize>, groups: Seq<Seq<usize>>, i: int)
    requires
        0 <= i < groups.len(),
    ensures
        pending_ms(kinds, cg, groups, i + 1) =~= sum_ms(
            groups,
            |s: usize, g0: int|
                movable(kinds, s) && dest_group(cg[s as int], g0, groups.len() as int) >= i,
            i,
        ).add(groups[i].to_multiset().filter(|s: usize| movable(kinds, s))),
{
    broadcast use vstd::multiset::group_multiset_axioms;

    let len = groups.len() as int;
    let pp = |s: usize, g0: int| movable(kinds, s) && dest_group(cg[s as int], g0, len) >= i;
    assert(pending_ms(kinds, cg, groups, i + 1) == sum_ms(groups, pp, i + 1));
    assert(groups[i].to_multiset().filter(|s: usize| pp(s, i)) =~= groups[i].to_multiset().filter(
        |s: usize| movable(kinds, s),
    ));
}

/// At the end, the pending systems are those that land in the last group.
proof fn lemma_pending_last(kinds: Seq<SystemKind>, cg: Seq<usize>, groups: Seq<Seq<usize>>)
    requires
        groups.len() >= 1,
    ensures
        pending_ms(kinds, cg, groups, groups.len() as int) =~= landed_ms(
            kinds,
            cg,
            groups,
            groups.len() - 1,
        ),
{
    let len = groups.len() as int;
    lemma_sum_ext(
        groups,
        |s: usize, g0: int| movable(kinds, s) && dest_group(cg[s as int], g0, len) >= len - 1,
        |s: usize, g0: int| movable(kinds, s) && dest_group(cg[s as int], g0, len) == len - 1,
        len,
    );
}

impl Schedule {
    /// Moves the systems that run on the schedule's thread or alone as far towards the end
    /// as their conflict groups allow: a system of group `g0` with conflict group `c` lands in
    /// group `c - 1` if that is later than `g0`, and at most in the last group. Systems that
    /// may run on any thread stay in their group. The groups are those of `moved_groups`,
    /// orders included.
    pub fn move_nonsync_and_exclusive(
        &self,
        groups: &mut Vec<Vec<usize>>,
        system_conflict_groups: &Vec<usize>,
    )
        requires
            self.wf(),
            system_conflict_groups@.len() == self.systems().len(),
            groups_below(vv(old(groups)@), self.systems().len()),
        ensures
            final(groups)@.len() == old(groups)@.len(),
            groups_below(vv(final(groups)@), self.systems().len()),
            forall|j: int|
                0 <= j < old(groups)@.len() ==> #[trigger] final(groups)@[j]@.to_multiset() =~= stay_ms(
                    self.systems(),
                    vv(old(groups)@),
                    j,
                ).add(landed_ms(self.systems(), system_conflict_groups@, vv(old(groups)@), j)),
            vv(final(groups)@) == moved_groups(
                self.systems(),
                system_conflict_groups@,
                vv(old(groups)@),
            ),
    {
        broadcast use vstd::multiset::group_multiset_axioms;

        if groups.len() == 0 {
            return ;
        }
        let ghost kinds = self.systems();
        let ghost cg = system_conflict_groups@;
        let ghost g0 = vv(groups@);
        let n = self.systems.len();
        let mut tmp_nosend: Vec<usize> = Vec::new();
        let mut tmp_excl: Vec<usize> = Vec::new();
        let len = groups.len();
        proof {
            lemma_empty_ms_usize();
            assert(pending_ms(kinds, cg, g0, 0) =~= Multiset::empty());
            assert(tmp_nosend@ =~= Seq::<usize>::empty());
            assert(tmp_excl@ =~= Seq::<usize>::empty());
        }
        let mut i: usize = 0;
        while i < len
            invariant
                move_walk(kinds, cg, (vv(groups@), tmp_nosend@, tmp_excl@), i as int) == move_walk(
                    kinds,
                    cg,
                    (g0, Seq::<usize>::empty(), Seq::<usize>::empty()),
                    0,
                ),
                0 <= i <= len,
                len == groups@.len(),
                len == g0.len(),
                len >= 1,
                n == kinds.len(),
                self.wf(),
                kinds == self.systems(),
                cg == system_conflict_groups@,
                cg.len() == kinds.len(),
                g0 == vv(old(groups)@),
                groups_below(g0, n as nat),
                groups_below(vv(groups@), n as nat),
                all_below(tmp_nosend@, n as nat),
                all_below(tmp_excl@, n as nat),
                i == 0 ==> tmp_nosend@.len() == 0 && tmp_excl@.len() == 0,
                forall|j: int|
                    0 <= j < i - 1 ==> #[trigger] groups@[j]@.to_multiset() =~= stay_ms(kinds, g0, j).add(
                        landed_ms(kinds, cg, g0, j),
                    ),
                i >= 1 ==> groups@[i - 1]@.to_multiset() =~= stay_ms(kinds, g0, i - 1),
                forall|j: int| i <= j < len ==> #[trigger] groups@[j]@ == g0[j],
                tmp_nosend@.to_multiset().add(tmp_excl@.to_multiset()) =~= pending_ms(
                    kinds,
                    cg,
                    g0,
                    i as int,
                ),
            decreases len - i,
        {
            let ghost ga = groups@;
            let ghost tn = tmp_nosend@;
            let ghost te = tmp_excl@;
            Self::add_to_prev_group_if_conflict(system_conflict_groups, &mut tmp_nosend, groups, i);
            let ghost gb = groups@;
            Self::add_to_prev_group_if_conflict(system_conflict_groups, &mut tmp_excl, groups, i);
            let ghost gc = groups@;
            proof {
                let le = |s: usize| cg[s as int] <= i;
                let gt = |s: usize| cg[s as int] > i;
                if i >= 1 {
                    lemma_pending_step(kinds, cg, g0, i as int);
                    assert((tn.to_multiset().add(te.to_multiset())).filter(le) =~= tn.to_multiset().filter(
                        le,
                    ).add(te.to_multiset().filter(le)));
                    assert(gc[i - 1]@.to_multiset() =~= stay_ms(kinds, g0, i - 1).add(
                        landed_ms(kinds, cg, g0, i - 1),
                    ));
                    assert((tn.to_multiset().add(te.to_multiset())).filter(gt) =~= tn.to_multiset().filter(
                        gt,
                    ).add(te.to_multiset().filter(gt)));
                } else {
                    lemma_empty_ms_usize();
                    assert(tmp_nosend@.to_multiset().add(tmp_excl@.to_multiset()) =~= Multiset::empty());
                    assert(sum_ms(
                        g0,
                        |s: usize, g: int|
                            movable(kinds, s) && dest_group(cg[s as int], g, len as int) >= i,
                        i as int,
                    ) =~= Multiset::empty());
                }
                assert(gc[i as int] == ga[i as int]);
                assert(gc[i as int]@ == g0[i as int]);
                assert(all_below(g0[i as int], n as nat));
            }
            let ghost tn1 = tmp_nosend@;
            let ghost te1 = tmp_excl@;
            self.take_movable(&mut groups[i], &mut tmp_nosend, &mut tmp_excl);
            proof {
                let st0 = (vv(ga), tn, te);
                let stn = (vv(groups@), tmp_nosend@, tmp_excl@);
                let (g1, t1, e1) = if i >= 1 {
                    let (a1, d1) = hand_on_walk(cg, tn, vv(ga)[i - 1], i as int, 0);
                    let (b1, d2) = hand_on_walk(cg, te, d1, i as int, 0);
                    (vv(ga).update(i - 1, d2), a1, b1)
                } else {
                    (vv(ga), tn, te)
                };
                if i >= 1 {
                    assert(gb[i - 1]@ == hand_on_walk(cg, tn, ga[i - 1]@, i as int, 0).1);
                    assert(gc[i - 1]@ == hand_on_walk(cg, te, gb[i - 1]@, i as int, 0).1);
                    assert(vv(gc) =~= g1);
                } else {
                    assert(vv(gc) =~= vv(ga));
                }
                assert(t1 == tn1 && e1 == te1);
                assert(g1[i as int] == gc[i as int]@);
                let (x, t2, e2) = take_movable_walk(kinds, g1[i as int], t1, e1, 0);
                assert(vv(groups@) =~= g1.update(i as int, x));
                assert(stn == move_step(kinds, cg, st0, i as int));
                assert(move_walk(kinds, cg, st0, i as int) == move_walk(
                    kinds,
                    cg,
                    move_step(kinds, cg, st0, i as int),
                    i + 1,
                ));
            }
            proof {
                lemma_pending_next(kinds, cg, g0, i as int);
                assert forall|j: int| 0 <= j < i implies #[trigger] groups@[j]@.to_multiset() =~= stay_ms(
                    kinds,
                    g0,
                    j,
                ).add(landed_ms(kinds, cg, g0, j)) by {
                    assert(groups@[j] == gc[j]);
                    if j < i - 1 {
                        assert(gc[j] == ga[j]);
                    }
                }
                assert forall|j: int| i + 1 <= j < len implies #[trigger] groups@[j]@ == g0[j] by {
                    assert(groups@[j] == gc[j]);
                    assert(gc[j] == ga[j]);
                }
                assert forall|g: int| 0 <= g < groups@.len() implies #[trigger] all_below(
                    vv(groups@)[g],
                    n as nat,
                ) by {
                    if g != i {
                        assert(groups@[g] == gc[g]);
                        if g != i - 1 {
                            assert(gc[g] == ga[g]);
                            assert(all_below(vv(ga)[g], n as nat));
                        } else {
                            assert forall|k: int| 0 <= k < groups@[g]@.len() implies #[trigger] groups@[g]@[k] < n by {
                                let x = groups@[g]@[k];
                                vstd::seq_lib::to_multiset_contains(groups@[g]@, x);
                                assert(groups@[g]@.contains(x));
                                assert(groups@[g]@.to_multiset().count(x) > 0);
                                assert(gc[g]@.to_multiset().count(x) > 0);
                                if ga[g]@.to_multiset().count(x) > 0 {
                                    vstd::seq_lib::to_multiset_contains(ga[g]@, x);
                                    let q = choose|q: int| 0 <= q < ga[g]@.len() && ga[g]@[q] == x;
                                    assert(all_below(vv(ga)[g], n as nat));
                                    assert(vv(ga)[g][q] < n);
                                } else if tn.to_multiset().count(x) > 0 {
                                    vstd::seq_lib::to_multiset_contains(tn, x);
                                    let q = choose|q: int| 0 <= q < tn.len() && tn[q] == x;
                                    assert(tn[q] < n);
                                } else {
                                    vstd::seq_lib::to_multiset_contains(te, x);
                                    let q = choose|q: int| 0 <= q < te.len() && te[q] == x;
                                    assert(te[q] < n);
                                }
                            }
                        }
                    }
                }
            }
            i += 1;
        }
        let ghost gd = groups@;
        proof {
            assert(move_walk(kinds, cg, (vv(groups@), tmp_nosend@, tmp_excl@), i as int) == (
                vv(groups@),
                tmp_nosend@,
                tmp_excl@,
            ));
        }
        let mut k: usize = 0;
        while k < tmp_nosend.len()
            invariant
                0 <= k <= tmp_nosend@.len(),
                len == groups@.len(),
                len >= 1,
                forall|j: int| 0 <= j < len - 1 ==> #[trigger] groups@[j] == gd[j],
                groups@[len - 1]@ == gd[len - 1]@ + tmp_nosend@.take(k as int),
            decreases tmp_nosend@.len() - k,
        {
            groups[len - 1].push(tmp_nosend[k]);
            k += 1;
            proof {
                assert(groups@[len - 1]@ =~= gd[len - 1]@ + tmp_nosend@.take(k as int));
            }
        }
        let ghost ge = groups@;
        let mut k: usize = 0;
        while k < tmp_excl.len()
            invariant
                0 <= k <= tmp_excl@.len(),
                len == groups@.len(),
                len >= 1,
                forall|j: int| 0 <= j < len - 1 ==> #[trigger] groups@[j] == ge[j],
                groups@[len - 1]@ == ge[len - 1]@ + tmp_excl@.take(k as int),
            decreases tmp_excl@.len() - k,
        {
            groups[len - 1].push(tmp_excl[k]);
            k += 1;
            proof {
                assert(groups@[len - 1]@ =~= ge[len - 1]@ + tmp_excl@.take(k as int));
            }
        }
        proof {
            let last = len - 1;
            assert(tmp_nosend@.take(tmp_nosend@.len() as int) =~= tmp_nosend@);
            assert(tmp_excl@.take(tmp_excl@.len() as int) =~= tmp_excl@);
            assert(vv(groups@) =~= vv(gd).update(
                last as int,
                vv(gd)[last as int] + tmp_nosend@ + tmp_excl@,
            )) by {
                assert forall|j: int| 0 <= j < len implies vv(groups@)[j] == vv(gd).update(
                    last as int,
                    vv(gd)[last as int] + tmp_nosend@ + tmp_excl@,
                )[j] by {
                    if j < last {
                        assert(groups@[j] == ge[j]);
                        assert(ge[j] == gd[j]);
                    } else {
                        assert(groups@[j]@ =~= ge[j]@ + tmp_excl@);
                        assert(ge[j]@ =~= gd[j]@ + tmp_nosend@);
                    }
                }
            }
            vstd::seq_lib::lemma_multiset_commutative(gd[last]@, tmp_nosend@);
            vstd::seq_lib::lemma_multiset_commutative(ge[last]@, tmp_excl@);
            lemma_pending_last(kinds, cg, g0);
            assert(groups@[last as int]@.to_multiset() =~= stay_ms(kinds, g0, last as int).add(
                landed_ms(kinds, cg, g0, last as int),
            ));
            assert forall|j: int| 0 <= j < len implies #[trigger] groups@[j]@.to_multiset() =~= stay_ms(
                kinds,
                g0,
                j,
            ).add(landed_ms(kinds, cg, g0, j)) by {
                if j < last {
                    assert(groups@[j] == gd[j]);
                }
            }
            assert forall|g: int| 0 <= g < groups@.len() implies #[trigger] all_below(
                vv(groups@)[g],
                n as nat,
            ) by {
                if g < last {
                    assert(groups@[g] == gd[g]);
                    assert(all_below(vv(gd)[g], n as nat));
                } else {
                    assert forall|q: int| 0 <= q < groups@[g]@.len() implies #[trigger] groups@[g]@[q] < n by {
                        let full = gd[last]@ + tmp_nosend@ + tmp_excl@;
                        assert(groups@[g]@ =~= full);
                        if q < gd[last]@.len() {
                            assert(all_below(vv(gd)[last as int], n as nat));
                            assert(vv(gd)[last as int][q] < n);
                        } else if q < gd[last]@.len() + tmp_nosend@.len() {
                            assert(tmp_nosend@[q - gd[last]@.len()] < n);
                        } else {
                            assert(tmp_excl@[q - gd[last]@.len() - tmp_nosend@.len()] < n);
                        }
                    }
                }
            }
        }
    }
}

/// The systems of the nodes `group[..k]`, node after node.
pub open spec fn group_systems(nodes: Seq<DependencyNode>, group: Seq<usize>, k: int) -> Seq<usize>
    decreases k,
{
    if k <= 0 {
        Seq::empty()
    } else {
        group_systems(nodes, group, k - 1) + nodes[group[k - 1] as int].systems@
    }
}

/// The groups of systems of groups of nodes.
pub open spec fn system_groups(nodes: Seq<DependencyNode>, groups: Seq<Seq<usize>>) -> Seq<Seq<usize>> {
    Seq::new(groups.len(), |g: int| group_systems(nodes, groups[g], groups[g].len() as int))
}

/// The conflict group of each system before the sort: none.
pub open spec fn no_conflicts(n: nat) -> Seq<usize> {
    Seq::new(n, |i: int| usize::MAX)
}

/// The conflict groups of the systems for the groups `groups` of nodes: the conflict of the
/// resource tracking, or the group by which each system must have run.
pub open spec fn conflict_groups_of(
    nodes: Seq<DependencyNode>,
    kinds: Seq<SystemKind>,
    accesses: Seq<ResourceAccess>,
    groups: Seq<Seq<usize>>,
) -> Result<Seq<usize>, ConflictView> {
    let items = access_items(nodes, kinds, groups, groups.len() as int);
    match track_fold(Seq::empty(), no_conflicts(kinds.len()), accesses, items, items.len() as int) {
        Ok((_, res)) => Ok(graph_lowered(nodes, groups, res, groups.len() as int)),
        Err(c) => Err(c),
    }
}

impl Schedule {
    /// The conflict groups of the systems: for each system, the first group that needs it
    /// to have run, or `usize::MAX`; or the first resource conflict.
    pub fn get_conflict_groups_for_systems(&self, groups: &Vec<Vec<usize>>) -> (r: Result<
        Vec<usize>,
        ResourceConflict,
    >)
        requires
            self.wf(),
            groups_in(vv(groups@), self.graph().nodes().len()),
        ensures
            r is Ok ==> r->Ok_0@.len() == self.systems().len(),
            match conflict_groups_of(self.graph().nodes(), self.systems(), self.accesses(), vv(groups@)) {
                Ok(cg) => r is Ok && r->Ok_0@ == cg,
                Err(c) => r is Err && r->Err_0.view() == c,
            },
    {
        let n = self.systems.len();
        let mut result: Vec<usize> = Vec::new();
        let mut i: usize = 0;
        while i < n
            invariant
                0 <= i <= n,
                result@ == Seq::new(i as nat, |j: int| usize::MAX),
            decreases n - i,
        {
            result.push(usize::MAX);
            i += 1;
            proof {
                assert(result@ =~= Seq::new(i as nat, |j: int| usize::MAX));
            }
        }
        let m = self.mark_system_resource_dependencies_and_check_conflicts(&mut result, groups);
        match m {
            Err(e) => Err(e),
            Ok(()) => {
                self.mark_system_dependencies_from_graph(&mut result, groups);
                Ok(result)
            },
        }
    }

    /// The systems of each group of nodes, node after node.
    pub fn systems_of_groups(&self, groups: &Vec<Vec<usize>>) -> (r: Vec<Vec<usize>>)
        requires
            self.wf(),
            groups_in(vv(groups@), self.graph().nodes().len()),
        ensures
            vv(r@) == system_groups(self.graph().nodes(), vv(groups@)),
            groups_below(vv(r@), self.systems().len()),
    {
        let ghost nodes = self.graph().nodes();
        let ghost gv = vv(groups@);
        let mut result: Vec<Vec<usize>> = Vec::new();
        let mut g: usize = 0;
        while g < groups.len()
            invariant
                0 <= g <= groups@.len(),
                self.wf(),
                nodes == self.graph().nodes(),
                gv == vv(groups@),
                groups_in(gv, nodes.len()),
                vv(result@) == system_groups(nodes, gv).take(g as int),
                groups_below(vv(result@), self.systems().len()),
            decreases groups@.len() - g,
        {
            let group = &groups[g];
            proof {
                assert(gv[g as int] == group@);
            }
            let mut systems: Vec<usize> = Vec::new();
            let mut k: usize = 0;
            while k < group.len()
                invariant
                    0 <= k <= group@.len(),
                    0 <= g < groups@.len(),
                    group@ == gv[g as int],
                    self.wf(),
                    nodes == self.graph().nodes(),
                    gv == vv(groups@),
                    groups_in(gv, nodes.len()),
                    systems@ == group_systems(nodes, group@, k as int),
                    all_below(systems@, self.systems().len()),
                decreases group@.len() - k,
            {
                proof {
                    assert(group@[k as int] == gv[g as int][k as int]);
                }
                let node = self.graph.node(group[k]);
                let ghost before = systems@;
                let mut j: usize = 0;
                while j < node.systems.len()
                    invariant
                        0 <= j <= node.systems@.len(),
                        *node == nodes[group@[k as int] as int],
                        0 <= k < group@.len(),
                        group@[k as int] < nodes.len(),
                        self.wf(),
                        nodes == self.graph().nodes(),
                        systems@ == before + node.systems@.take(j as int),
                        all_below(systems@, self.systems().len()),
                    decreases node.systems@.len() - j,
                {
                    proof {
                        self.lemma_node_systems_in_range(group@[k as int] as int, j as int);
                    }
                    systems.push(node.systems[j]);
                    j += 1;
                    proof {
                        assert(systems@ =~= before + node.systems@.take(j as int));
                    }
                }
                proof {
                    assert(node.systems@.take(node.systems@.len() as int) =~= node.systems@);
                }
                k += 1;
            }
            let ghost sv = systems@;
            let ghost rv = vv(result@);
            result.push(systems);
            proof {
                assert(sv == system_groups(nodes, gv)[g as int]);
                assert(vv(result@) =~= rv.push(sv));
                assert(vv(result@) =~= system_groups(nodes, gv).take(g + 1));
                assert forall|q: int| 0 <= q < vv(result@).len() implies #[trigger] all_below(
                    vv(result@)[q],
                    self.systems().len(),
                ) by {
                    if q < g {
                        assert(vv(result@)[q] == rv[q]);
                    }
                }
            }
            g += 1;
        }
        proof {
            assert(system_groups(nodes, gv).take(groups@.len() as int) =~= system_groups(nodes, gv));
        }
        result
    }
}

/// A task group, as values.
pub enum TaskGroupView {
    Concurrent(Seq<(usize, usize)>),
    Exclusive(usize),
}

/// The task group as values.
pub open spec fn tg_view(t: TaskGroup) -> TaskGroupView {
    match t {
        TaskGroup::Concurrent(entries) => TaskGroupView::Concurrent(entries@),
        TaskGroup::Exclusive(s) => TaskGroupView::Exclusive(s),
    }
}

/// The task groups as values.
pub open spec fn tgs_view(ts: Seq<TaskGroup>) -> Seq<TaskGroupView> {
    ts.map_values(|t: TaskGroup| tg_view(t))
}

/// The groups `groups[..g]`, one after the other.
pub open spec fn concat(groups: Seq<Seq<usize>>, g: int) -> Seq<usize>
    decreases g,
{
    if g <= 0 {
        Seq::empty()
    } else {
        concat(groups, g - 1) + groups[g - 1]
    }
}

proof fn lemma_concat_prefix(groups: Seq<Seq<usize>>, g: int, m: int)
    requires
        g <= m,
    ensures
        prefix_of(concat(groups, g), concat(groups, m)),
    decreases m - g,
{
    if g < m {
        lemma_concat_prefix(groups, g, m - 1);
        if m >= 1 {
            lemma_prefix_left(concat(groups, m - 1), groups[m - 1]);
            lemma_prefix_trans(concat(groups, g), concat(groups, m - 1), concat(groups, m));
        }
    }
}

/// The task groups finished and the concurrent entries collected after the first `k`
/// systems of `flat`: a system that runs alone closes the collected entries into a concurrent
/// group, if there are any, and becomes an exclusive group; any other system joins the
/// collected entries with its conflict group.
pub open spec fn build_state(
    kinds: Seq<SystemKind>,
    conflict: Seq<usize>,
    flat: Seq<usize>,
    k: int,
) -> (Seq<TaskGroupView>, Seq<(usize, usize)>)
    decreases k,
{
    if k <= 0 {
        (Seq::empty(), Seq::empty())
    } else {
        let (tg, cur) = build_state(kinds, conflict, flat, k - 1);
        let s = flat[k - 1];
        if kinds[s as int] == SystemKind::Exclusive {
            (
                if cur.len() > 0 {
                    tg.push(TaskGroupView::Concurrent(cur))
                } else {
                    tg
                }.push(TaskGroupView::Exclusive(s)),
                Seq::empty(),
            )
        } else {
            (tg, cur.push((s, conflict[s as int])))
        }
    }
}

/// The task groups of the systems `flat`, in this order.
pub open spec fn task_groups_of(kinds: Seq<SystemKind>, conflict: Seq<usize>, flat: Seq<usize>) -> Seq<
    TaskGroupView,
> {
    let (tg, cur) = build_state(kinds, conflict, flat, flat.len() as int);
    if cur.len() > 0 {
        tg.push(TaskGroupView::Concurrent(cur))
    } else {
        tg
    }
}

impl Schedule {
    /// Builds the task groups from the groups of systems, walked in order.
    fn build_task_groups(&mut self, groups: &Vec<Vec<usize>>, system_conflict_groups: &Vec<usize>)
        requires
            old(self).wf(),
            groups_below(vv(groups@), old(self).systems().len()),
            system_conflict_groups@.len() == old(self).systems().len(),
        ensures
            final(self).wf(),
            final(self).systems() == old(self).systems(),
            final(self).accesses() == old(self).accesses(),
            final(self).graph() == old(self).graph(),
            final(self).dirty() == old(self).dirty(),
            final(self).update_phase() == old(self).update_phase(),
            tgs_view(final(self).task_groups()) == task_groups_of(
                old(self).systems(),
                system_conflict_groups@,
                concat(vv(groups@), groups@.len() as int),
            ),
    {
        let ghost kinds = self.systems();
        let ghost cg = system_conflict_groups@;
        let ghost gv = vv(groups@);
        let ghost full = concat(gv, gv.len() as int);
        let n = self.systems.len();
        let mut tasks: Vec<TaskGroup> = Vec::new();
        let mut current: Vec<(usize, usize)> = Vec::new();
        let ghost mut count: int = 0;
        proof {
            assert(tgs_view(tasks@) =~= Seq::<TaskGroupView>::empty());
        }
        let mut g: usize = 0;
        while g < groups.len()
            invariant
                0 <= g <= groups@.len(),
                self.wf(),
                kinds == self.systems(),
                n == kinds.len(),
                cg == system_conflict_groups@,
                cg.len() == n,
                gv == vv(groups@),
                groups_below(gv, n as nat),
                full == concat(gv, gv.len() as int),
                count == concat(gv, g as int).len(),
                prefix_of(concat(gv, g as int), full),
                (tgs_view(tasks@), current@) == build_state(kinds, cg, full, count),
                forall|i: int| 0 <= i < tasks@.len() ==> task_group_wf(#[trigger] tasks@[i], n as nat),
                all_below(current@.map_values(|e: (usize, usize)| e.0), n as nat),
            decreases groups@.len() - g,
        {
            let group = &groups[g];
            proof {
                assert(gv[g as int] == group@);
                assert(all_below(gv[g as int], n as nat));
            }
            let mut k: usize = 0;
            while k < group.len()
                invariant
                    0 <= k <= group@.len(),
                    0 <= g < groups@.len(),
                    group@ == gv[g as int],
                    self.wf(),
                    kinds == self.systems(),
                    n == kinds.len(),
                    cg == system_conflict_groups@,
                    cg.len() == n,
                    gv == vv(groups@),
                    groups_below(gv, n as nat),
                    all_below(group@, n as nat),
                    full == concat(gv, gv.len() as int),
                    count == concat(gv, g as int).len() + k,
                    prefix_of(concat(gv, g as int) + group@.take(k as int), full),
                    (tgs_view(tasks@), current@) == build_state(kinds, cg, full, count),
                    forall|i: int| 0 <= i < tasks@.len() ==> task_group_wf(#[trigger] tasks@[i], n as nat),
                    all_below(current@.map_values(|e: (usize, usize)| e.0), n as nat),
                decreases group@.len() - k,
            {
                let s = group[k];
                proof {
                    lemma_concat_prefix(gv, g + 1, gv.len() as int);
                    assert(concat(gv, g + 1) == concat(gv, g as int) + group@);
                    lemma_prefix_append(concat(gv, g as int), group@.take(k + 1), group@);
                    assert(prefix_of(group@.take(k + 1), group@));
                    lemma_prefix_trans(
                        concat(gv, g as int) + group@.take(k + 1),
                        concat(gv, g + 1),
                        full,
                    );
                    assert((concat(gv, g as int) + group@.take(k + 1))[count] == s);
                    assert(full[count] == s);
                }
                let ghost tv = tgs_view(tasks@);
                if self.systems[s].is_exclusive() {
                    if current.len() > 0 {
                        let entries = current;
                        current = Vec::new();
                        proof {
                            assert(task_group_wf(TaskGroup::Concurrent(entries), n as nat)) by {
                                assert forall|q: int| 0 <= q < entries@.len() implies (#[trigger] entries@[q]).0 < n by {
                                    assert(entries@.map_values(|e: (usize, usize)| e.0)[q] == entries@[q].0);
                                }
                            }
                        }
                        tasks.push(TaskGroup::Concurrent(entries));
                    }
                    tasks.push(TaskGroup::Exclusive(s));
                } else {
                    let ghost cb = current@;
                    current.push((s, system_conflict_groups[s]));
                    proof {
                        assert(current@.map_values(|e: (usize, usize)| e.0) =~= cb.map_values(|e: (usize, usize)| e.0).push(s));
                    }
                }
                proof {
                    count = count + 1;
                    assert(tgs_view(tasks@) == build_state(kinds, cg, full, count).0) by {
                        if kinds[s as int] == SystemKind::Exclusive {
                            let pre = build_state(kinds, cg, full, count - 1);
                            if pre.1.len() > 0 {
                                assert(tgs_view(tasks@) =~= tv.push(TaskGroupView::Concurrent(pre.1)).push(
                                    TaskGroupView::Exclusive(s),
                                ));
                            } else {
                                assert(tgs_view(tasks@) =~= tv.push(TaskGroupView::Exclusive(s)));
                            }
                        } else {
                            assert(tgs_view(tasks@) =~= tv);
                        }
                    }
                    assert(prefix_of(concat(gv, g as int) + group@.take(k + 1), full));
                }
                k += 1;
            }
            proof {
                assert(group@.take(group@.len() as int) =~= group@);
                assert(concat(gv, g + 1) == concat(gv, g as int) + group@);
            }
            g += 1;
        }
        proof {
            assert(count == full.len());
        }
        if current.len() > 0 {
            proof {
                assert(task_group_wf(TaskGroup::Concurrent(current), n as nat)) by {
                    assert forall|q: int| 0 <= q < current@.len() implies (#[trigger] current@[q]).0 < n by {
                        assert(current@.map_values(|e: (usize, usize)| e.0)[q] == current@[q].0);
                    }
                }
            }
            let ghost tv = tgs_view(tasks@);
            let ghost cv = current@;
            tasks.push(TaskGroup::Concurrent(current));
            proof {
                assert(tgs_view(tasks@) =~= tv.push(TaskGroupView::Concurrent(cv)));
            }
        }
        self.ordered_task_groups = tasks;
    }
}

/// The ways building a phase schedule can fail.
#[derive(Debug)]
pub enum PhaseScheduleError {
    /// The graph cannot be sorted; these are the groups built before no node could be
    /// completed.
    Cycle(Vec<Vec<usize>>),
    /// Two systems of one group access a resource in a way that cannot be granted.
    Conflict(ResourceConflict),
}

/// `tgs` are the task groups built from the groups `groups` of nodes that the sort gives
/// (each in the order of the sort): with the conflict groups `cg` of the systems, and the
/// groups of systems `moved` that the move makes of them, in which each system that must run
/// on the schedule's thread or alone has landed where its conflict group allows.
pub open spec fn planned(
    nodes: Seq<DependencyNode>,
    kinds: Seq<SystemKind>,
    accesses: Seq<ResourceAccess>,
    groups: Seq<Seq<usize>>,
    cg: Seq<usize>,
    moved: Seq<Seq<usize>>,
    tgs: Seq<TaskGroupView>,
) -> bool {
    let sg = system_groups(nodes, groups);
    &&& grouped_outcome(nodes, Ok(groups))
    &&& groups_in_order(nodes, groups, groups.len() - 1)
    &&& conflict_groups_of(nodes, kinds, accesses, groups) == Ok::<Seq<usize>, ConflictView>(cg)
    &&& moved == moved_groups(kinds, cg, sg)
    &&& moved.len() == sg.len()
    &&& forall|j: int|
        0 <= j < sg.len() ==> #[trigger] moved[j].to_multiset() == stay_ms(kinds, sg, j).add(
            landed_ms(kinds, cg, sg, j),
        )
    &&& tgs == task_groups_of(kinds, cg, concat(moved, moved.len() as int))
}

impl Schedule {
    /// Builds the task groups: sorts the graph into groups of nodes, finds the conflict
    /// group of each system by its resource accesses and its dependants in the graph, moves
    /// the systems that must run on the schedule's thread or alone towards the end, and cuts
    /// the sequence of systems into task groups. On failure the task groups stay as they were.
    pub fn rebuild(&mut self) -> (r: Result<(), PhaseScheduleError>)
        requires
            old(self).wf(),
        ensures
            final(self).wf(),
            final(self).systems() == old(self).systems(),
            final(self).accesses() == old(self).accesses(),
            final(self).graph() == old(self).graph(),
            final(self).dirty() == old(self).dirty(),
            final(self).update_phase() == old(self).update_phase(),
            (r matches Err(PhaseScheduleError::Cycle(_))) <==> !sortable(old(self).graph().nodes()),
            r is Err ==> final(self).task_groups() == old(self).task_groups(),
            match r {
                Err(PhaseScheduleError::Cycle(groups)) => grouped_outcome(
                    old(self).graph().nodes(),
                    Err(groups_view(groups@)),
                ),
                Err(PhaseScheduleError::Conflict(c)) => exists|groups: Seq<Seq<usize>>|
                    grouped_outcome(old(self).graph().nodes(), Ok(groups)) && groups_in_order(
                        old(self).graph().nodes(),
                        groups,
                        groups.len() - 1,
                    ) && #[trigger] conflict_groups_of(
                        old(self).graph().nodes(),
                        old(self).systems(),
                        old(self).accesses(),
                        groups,
                    ) == Err::<Seq<usize>, ConflictView>(c.view()),
                Ok(()) => exists|groups: Seq<Seq<usize>>, cg: Seq<usize>, moved: Seq<Seq<usize>>|
                    #[trigger] planned(
                        old(self).graph().nodes(),
                        old(self).systems(),
                        old(self).accesses(),
                        groups,
                        cg,
                        moved,
                        tgs_view(final(self).task_groups()),
                    ),
            },
    {
        let ghost nodes = self.graph().nodes();
        let ghost kinds = self.systems();
        let ghost acc = self.accesses();
        proof {
            self.lemma_graph_sortable_size();
        }
        let sorted = self.graph.build_topological_groups();
        let groups = match sorted {
            Ok(groups) => groups,
            Err(groups) => {
                return Err(PhaseScheduleError::Cycle(groups));
            },
        };
        let ghost gv = vv(groups@);
        proof {
            assert(groups_view(groups@) == gv);
            assert(grouped_outcome(nodes, Ok(gv)));
            assert(groups_in(gv, nodes.len())) by {
                assert forall|g: int, k: int| 0 <= g < gv.len() && 0 <= k < gv[g].len() implies #[trigger] gv[g][k]
                    < nodes.len() by {
                    assert(crate::phase_schedule::sort::groups_ordered(nodes, gv));
                }
            }
        }
        let c = self.get_conflict_groups_for_systems(&groups);
        let system_conflict_groups = match c {
            Ok(cg) => cg,
            Err(e) => {
                proof {
                    assert(conflict_groups_of(nodes, kinds, acc, gv) == Err::<Seq<usize>, ConflictView>(e.view()));
                }
                return Err(PhaseScheduleError::Conflict(e));
            },
        };
        let mut system_groups = self.systems_of_groups(&groups);
        let ghost sg = vv(system_groups@);
        let ghost cgv = system_conflict_groups@;
        proof {
            assert(conflict_groups_of(nodes, kinds, acc, gv) == Ok::<Seq<usize>, ConflictView>(cgv));
        }
        self.move_nonsync_and_exclusive(&mut system_groups, &system_conflict_groups);
        let ghost mv = vv(system_groups@);
        self.build_task_groups(&system_groups, &system_conflict_groups);
        proof {
            assert(mv.len() == sg.len());
            assert forall|j: int| 0 <= j < sg.len() implies #[trigger] mv[j].to_multiset() == stay_ms(kinds, sg, j).add(
                landed_ms(kinds, cgv, sg, j),
            ) by {
                assert(mv[j] == system_groups@[j]@);
            }
            assert(planned(nodes, kinds, acc, gv, cgv, mv, tgs_view(self.task_groups())));
        }
        Ok(())
    }

    /// A well-formed schedule's graph has room to be sorted.
    proof fn lemma_graph_sortable_size(&self)
        requires
            self.wf(),
        ensures
            self.graph.wf(),
            self.graph.nodes().len() > 2,
    {
    }
}

impl Schedule {
    /// Builds the task groups if the schedule changed since its last build, and marks it as
    /// built. Returns whether it built them. On failure the schedule stays as it was.
    pub fn init(&mut self) -> (r: Result<bool, PhaseScheduleError>)
        requires
            old(self).wf(),
        ensures
            final(self).wf(),
            final(self).systems() == old(self).systems(),
            final(self).accesses() == old(self).accesses(),
            final(self).graph() == old(self).graph(),
            final(self).update_phase() == old(self).update_phase(),
            !old(self).dirty() ==> (r matches Ok(false)) && *final(self) == *old(self),
            old(self).dirty() ==> {
                &&& (r matches Err(PhaseScheduleError::Cycle(_))) <==> !sortable(
                    old(self).graph().nodes(),
                )
                &&& r is Err ==> final(self).dirty() && final(self).task_groups() == old(
                    self,
                ).task_groups()
                &&& r is Ok ==> (r matches Ok(true)) && !final(self).dirty() && exists|
                    groups: Seq<Seq<usize>>,
                    cg: Seq<usize>,
                    moved: Seq<Seq<usize>>,
                | #[trigger]
                    planned(
                        old(self).graph().nodes(),
                        old(self).systems(),
                        old(self).accesses(),
                        groups,
                        cg,
                        moved,
                        tgs_view(final(self).task_groups()),
                    )
            },
    {
        if self.dirty {
            let ghost before = *self;
            match self.rebuild() {
                Ok(()) => {
                    let ghost mid = *self;
                    self.dirty = false;
                    proof {
                        let (g, c, m) = choose|
                            groups: Seq<Seq<usize>>,
                            cg: Seq<usize>,
                            moved: Seq<Seq<usize>>,
                        | #[trigger]
                            planned(
                                before.graph().nodes(),
                                before.systems(),
                                before.accesses(),
                                groups,
                                cg,
                                moved,
                                tgs_view(mid.task_groups()),
                            );
                        assert(self.task_groups() == mid.task_groups());
                        assert(planned(
                            before.graph().nodes(),
                            before.systems(),
                            before.accesses(),
                            g,
                            c,
                            m,
                            tgs_view(self.task_groups()),
                        ));
                    }
                    Ok(true)
                },
                Err(e) => Err(e),
            }
        } else {
            Ok(false)
        }
    }
}

/// The systems of a task group, in order.
pub open spec fn group_entries(t: TaskGroupView) -> Seq<usize> {
    match t {
        TaskGroupView::Exclusive(s) => seq![s],
        TaskGroupView::Concurrent(entries) => entries.map_values(|e: (usize, usize)| e.0),
    }
}

/// The systems of task groups, group after group.
pub open spec fn tg_systems(tgs: Seq<TaskGroupView>) -> Seq<usize>
    decreases tgs.len(),
{
    if tgs.len() == 0 {
        Seq::empty()
    } else {
        tg_systems(tgs.drop_last()) + group_entries(tgs.last())
    }
}

/// An exclusive task group holds a system that runs alone; a concurrent one holds at least
/// one entry, none of which runs alone, each with the system's conflict group.
pub open spec fn task_group_kinds(kinds: Seq<SystemKind>, conflict: Seq<usize>, t: TaskGroupView) -> bool {
    match t {
        TaskGroupView::Exclusive(s) => kinds[s as int] == SystemKind::Exclusive,
        TaskGroupView::Concurrent(entries) => entries.len() > 0 && forall|k: int|
            0 <= k < entries.len() ==> kinds[(#[trigger] entries[k]).0 as int] != SystemKind::Exclusive
                && entries[k].1 == conflict[entries[k].0 as int],
    }
}

proof fn lemma_build_state(kinds: Seq<SystemKind>, conflict: Seq<usize>, flat: Seq<usize>, k: int)
    requires
        0 <= k <= flat.len(),
    ensures
        ({
            let (tg, cur) = build_state(kinds, conflict, flat, k);
            &&& tg_systems(tg) + cur.map_values(|e: (usize, usize)| e.0) == flat.take(k)
            &&& forall|i: int| 0 <= i < tg.len() ==> task_group_kinds(kinds, conflict, #[trigger] tg[i])
            &&& forall|q: int|
                0 <= q < cur.len() ==> kinds[(#[trigger] cur[q]).0 as int] != SystemKind::Exclusive
                    && cur[q].1 == conflict[cur[q].0 as int]
        }),
    decreases k,
{
    if k > 0 {
        lemma_build_state(kinds, conflict, flat, k - 1);
        let (tg, cur) = build_state(kinds, conflict, flat, k - 1);
        let s = flat[k - 1];
        let cm = cur.map_values(|e: (usize, usize)| e.0);
        assert(flat.take(k) =~= flat.take(k - 1).push(s));
        if kinds[s as int] == SystemKind::Exclusive {
            let tg1 = if cur.len() > 0 {
                tg.push(TaskGroupView::Concurrent(cur))
            } else {
                tg
            };
            if cur.len() > 0 {
                assert(tg1.drop_last() == tg);
                assert(tg_systems(tg1) == tg_systems(tg) + cm);
            } else {
                assert(cm =~= Seq::<usize>::empty());
                assert(tg_systems(tg1) =~= tg_systems(tg) + cm);
            }
            let tg2 = tg1.push(TaskGroupView::Exclusive(s));
            assert(tg2.drop_last() == tg1);
            assert(tg_systems(tg2) == tg_systems(tg1) + seq![s]);
            assert(tg_systems(tg2) + Seq::<(usize, usize)>::empty().map_values(
                |e: (usize, usize)| e.0,
            ) =~= flat.take(k));
            assert forall|i: int| 0 <= i < tg2.len() implies task_group_kinds(kinds, conflict, #[trigger] tg2[i]) by {
                if i < tg.len() {
                    assert(tg2[i] == tg[i]);
                }
            }
        } else {
            let cur2 = cur.push((s, conflict[s as int]));
            assert(cur2.map_values(|e: (usize, usize)| e.0) =~= cm.push(s));
            assert(tg_systems(tg) + cur2.map_values(|e: (usize, usize)| e.0) =~= flat.take(k));
        }
    }
}

/// Cutting a sequence of systems into task groups keeps every system, in order: each system
/// that runs alone becomes an exclusive group, and each run of other systems between them a
/// concurrent group of its entries, each with its conflict group.
pub proof fn lemma_task_groups_keep_systems(kinds: Seq<SystemKind>, conflict: Seq<usize>, flat: Seq<usize>)
    ensures
        tg_systems(task_groups_of(kinds, conflict, flat)) == flat,
        forall|i: int|
            0 <= i < task_groups_of(kinds, conflict, flat).len() ==> task_group_kinds(
                kinds,
                conflict,
                #[trigger] task_groups_of(kinds, conflict, flat)[i],
            ),
{
    lemma_build_state(kinds, conflict, flat, flat.len() as int);
    let (tg, cur) = build_state(kinds, conflict, flat, flat.len() as int);
    assert(flat.take(flat.len() as int) =~= flat);
    if cur.len() > 0 {
        let t = tg.push(TaskGroupView::Concurrent(cur));
        assert(t.drop_last() == tg);
        assert forall|i: int| 0 <= i < t.len() implies task_group_kinds(kinds, conflict, #[trigger] t[i]) by {
            if i < tg.len() {
                assert(t[i] == tg[i]);
            }
        }
    } else {
        assert(cur.map_values(|e: (usize, usize)| e.0) =~= Seq::<usize>::empty());
        assert(tg_systems(tg) =~= flat);
    }
}

/// All systems of the groups `groups[..u]`, counted.
pub open spec fn total_ms(groups: Seq<Seq<usize>>, u: int) -> Multiset<usize>
    decreases u,
{
    if u <= 0 {
        Multiset::empty()
    } else {
        total_ms(groups, u - 1).add(groups[u - 1].to_multiset())
    }
}

/// The systems that stay in the groups `..u`, counted.
spec fn stays_upto(kinds: Seq<SystemKind>, groups: Seq<Seq<usize>>, u: int) -> Multiset<usize>
    decreases u,
{
    if u <= 0 {
        Multiset::empty()
    } else {
        stays_upto(kinds, groups, u - 1).add(stay_ms(kinds, groups, u - 1))
    }
}

/// The systems that land in the groups `..u`, counted.
spec fn lands_upto(kinds: Seq<SystemKind>, cg: Seq<usize>, groups: Seq<Seq<usize>>, u: int) -> Multiset<
    usize,
>
    decreases u,
{
    if u <= 0 {
        Multiset::empty()
    } else {
        lands_upto(kinds, cg, groups, u - 1).add(landed_ms(kinds, cg, groups, u - 1))
    }
}

/// Sums of disjoint predicates add up to the sum of either.
proof fn lemma_sum_or(
    groups: Seq<Seq<usize>>,
    p: spec_fn(usize, int) -> bool,
    q: spec_fn(usize, int) -> bool,
    u: int,
)
    requires
        forall|s: usize, g: int| !(#[trigger] p(s, g) && q(s, g)),
    ensures
        sum_ms(groups, p, u).add(sum_ms(groups, q, u)) =~= sum_ms(
            groups,
            |s: usize, g: int| p(s, g) || q(s, g),
            u,
        ),
    decreases u,
{
    broadcast use vstd::multiset::group_multiset_axioms;

    if u > 0 {
        lemma_sum_or(groups, p, q, u - 1);
        let m = groups[u - 1].to_multiset();
        let a = m.filter(|s: usize| p(s, u - 1));
        let b = m.filter(|s: usize| q(s, u - 1));
        let c = m.filter(|s: usize| p(s, u - 1) || q(s, u - 1));
        assert(a.add(b) =~= c) by {
            assert forall|x: usize| #[trigger] a.add(b).count(x) == c.count(x) by {
                assert(!(p(x, u - 1) && q(x, u - 1)));
            }
        }
    }
}

proof fn lemma_stays(kinds: Seq<SystemKind>, groups: Seq<Seq<usize>>, u: int)
    requires
        0 <= u <= groups.len(),
    ensures
        stays_upto(kinds, groups, u) =~= sum_ms(groups, |s: usize, g: int| !movable(kinds, s), u),
    decreases u,
{
    broadcast use vstd::multiset::group_multiset_axioms;

    if u > 0 {
        lemma_stays(kinds, groups, u - 1);
        assert(stay_ms(kinds, groups, u - 1) =~= groups[u - 1].to_multiset().filter(
            |s: usize| (|s: usize, g: int| !movable(kinds, s))(s, u - 1),
        ));
    }
}

proof fn lemma_lands(kinds: Seq<SystemKind>, cg: Seq<usize>, groups: Seq<Seq<usize>>, u: int)
    requires
        0 <= u <= groups.len(),
    ensures
        lands_upto(kinds, cg, groups, u) =~= sum_ms(
            groups,
            |s: usize, g0: int|
                movable(kinds, s) && dest_group(cg[s as int], g0, groups.len() as int) < u,
            groups.len() as int,
        ),
    decreases u,
{
    broadcast use vstd::multiset::group_multiset_axioms;

    let len = groups.len() as int;
    if u == 0 {
        lemma_sum_prefix(
            groups,
            |s: usize, g0: int| movable(kinds, s) && dest_group(cg[s as int], g0, len) < u,
            0,
            len,
        );
    } else {
        lemma_lands(kinds, cg, groups, u - 1);
        let below = |s: usize, g0: int| movable(kinds, s) && dest_group(cg[s as int], g0, len) < u - 1;
        let at = |s: usize, g0: int| movable(kinds, s) && dest_group(cg[s as int], g0, len) == u - 1;
        lemma_sum_or(groups, below, at, len);
        lemma_sum_ext(
            groups,
            |s: usize, g: int| below(s, g) || at(s, g),
            |s: usize, g0: int| movable(kinds, s) && dest_group(cg[s as int], g0, len) < u,
            len,
        );
    }
}

proof fn lemma_total_sum(groups: Seq<Seq<usize>>, u: int)
    requires
        0 <= u <= groups.len(),
    ensures
        total_ms(groups, u) =~= sum_ms(groups, |s: usize, g: int| true, u),
    decreases u,
{
    broadcast use vstd::multiset::group_multiset_axioms;

    if u > 0 {
        lemma_total_sum(groups, u - 1);
        assert(groups[u - 1].to_multiset().filter(|s: usize| (|s: usize, g: int| true)(s, u - 1))
            =~= groups[u - 1].to_multiset());
    }
}

proof fn lemma_total_moved(
    kinds: Seq<SystemKind>,
    cg: Seq<usize>,
    sg: Seq<Seq<usize>>,
    moved: Seq<Seq<usize>>,
    u: int,
)
    requires
        0 <= u <= sg.len(),
        moved.len() == sg.len(),
        forall|j: int|
            0 <= j < sg.len() ==> #[trigger] moved[j].to_multiset() == stay_ms(kinds, sg, j).add(
                landed_ms(kinds, cg, sg, j),
            ),
    ensures
        total_ms(moved, u) =~= stays_upto(kinds, sg, u).add(lands_upto(kinds, cg, sg, u)),
    decreases u,
{
    broadcast use vstd::multiset::group_multiset_axioms;

    if u > 0 {
        lemma_total_moved(kinds, cg, sg, moved, u - 1);
        assert(moved[u - 1].to_multiset() == stay_ms(kinds, sg, u - 1).add(
            landed_ms(kinds, cg, sg, u - 1),
        ));
    }
}

/// Moving the systems that must run on the schedule's thread or alone towards the end
/// neither adds nor loses a system: the groups after the move hold, all together, exactly
/// the systems they held before.
pub proof fn lemma_moving_keeps_systems(
    kinds: Seq<SystemKind>,
    cg: Seq<usize>,
    sg: Seq<Seq<usize>>,
    moved: Seq<Seq<usize>>,
)
    requires
        sg.len() >= 1,
        moved.len() == sg.len(),
        forall|j: int|
            0 <= j < sg.len() ==> #[trigger] moved[j].to_multiset() == stay_ms(kinds, sg, j).add(
                landed_ms(kinds, cg, sg, j),
            ),
    ensures
        total_ms(moved, moved.len() as int) == total_ms(sg, sg.len() as int),
{
    let len = sg.len() as int;
    lemma_total_moved(kinds, cg, sg, moved, len);
    lemma_stays(kinds, sg, len);
    lemma_lands(kinds, cg, sg, len);
    let mv = |s: usize, g0: int| movable(kinds, s) && dest_group(cg[s as int], g0, len) < len;
    let st = |s: usize, g: int| !movable(kinds, s);
    lemma_sum_or(sg, st, mv, len);
    lemma_sum_ext(sg, |s: usize, g: int| st(s, g) || mv(s, g), |s: usize, g: int| true, len);
    lemma_total_sum(sg, len);
}

/// The resources that the systems `..k` that do not run alone access shared.
pub open spec fn shared_upto(kinds: Seq<SystemKind>, accesses: Seq<ResourceAccess>, k: int) -> Set<usize>
    decreases k,
{
    if k <= 0 {
        Set::empty()
    } else if kinds[k - 1] != SystemKind::Exclusive {
        shared_upto(kinds, accesses, k - 1).union(accesses[k - 1].shared@)
    } else {
        shared_upto(kinds, accesses, k - 1)
    }
}

/// The resources that the systems `..k` that do not run alone access exclusively.
pub open spec fn exclusive_upto(kinds: Seq<SystemKind>, accesses: Seq<ResourceAccess>, k: int) -> Set<usize>
    decreases k,
{
    if k <= 0 {
        Set::empty()
    } else if kinds[k - 1] != SystemKind::Exclusive {
        exclusive_upto(kinds, accesses, k - 1).union(accesses[k - 1].exclusive@)
    } else {
        exclusive_upto(kinds, accesses, k - 1)
    }
}

impl Schedule {
    /// Adds to `access` the accesses of the schedule taken as one system: every resource
    /// that one of its systems (but those that run alone) accesses exclusively, and every
    /// other resource that one of them accesses shared.
    pub fn update_access(&self, access: &mut ResourceAccess)
        requires
            self.wf(),
        ensures
            final(access).exclusive@ == old(access).exclusive@.union(
                exclusive_upto(self.systems(), self.accesses(), self.systems().len() as int),
            ),
            final(access).shared@ == old(access).shared@.union(
                shared_upto(self.systems(), self.accesses(), self.systems().len() as int).difference(
                    exclusive_upto(self.systems(), self.accesses(), self.systems().len() as int),
                ),
            ),
    {
        let ghost kinds = self.systems();
        let ghost acc = self.accesses();
        let mut scratch = ResourceAccess::new();
        let mut i: usize = 0;
        while i < self.systems.len()
            invariant
                0 <= i <= kinds.len(),
                kinds == self.systems(),
                acc == self.accesses(),
                acc.len() == kinds.len(),
                self.systems@ == kinds,
                self.access@ == acc,
                scratch.shared@ == shared_upto(kinds, acc, i as int),
                scratch.exclusive@ == exclusive_upto(kinds, acc, i as int),
            decreases kinds.len() - i,
        {
            if !self.systems[i].is_exclusive() {
                scratch.extend(&self.access[i]);
            }
            i += 1;
        }
        scratch.shared.difference_with(&scratch.exclusive);
        access.extend(&scratch);
    }
}

} // verus!
