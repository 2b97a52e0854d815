//! The schedule: its systems, the labels of system sets, the dependency graph between them,
//! and the layers that running the schedule walks through.

use vstd::prelude::*;
use std::collections::BTreeMap;
use vstd::multiset::Multiset;
use crate::atom::Atom;
use crate::label::SystemSetId;
use crate::resource::ResourceAccess;
use crate::schedule::graph::{
    both_sorted,
    dependent_layers_of,
    graph_waits,
    is_layering,
    lemma_node_system_in_layers,
    lemma_system_layers_bounded,
    system_layers_of,
    schedulable,
    sorts_systems,
    system_layers_view,
    systems_len_of,
    Graph,
    GraphError,
    Node,
    NodeId,
};
use crate::schedule::resource_tracker::{
    access_ops,
    conflict_ids_below,
    op_conflict,
    op_fails,
    EntryView,
    sorted_items,
    state_after,
    TrackState,
    lemma_recent_marked,
    recent_shared_in,
    tracker_ready,
    ResourceConflict,
    ResourceMutTracker,
};
use crate::schedule::{Layer, ScheduleError, SystemId};
use crate::util::DirtyVersion;

verus! {

broadcast use vstd::std_specs::btree::group_btree_axioms;

/// How a system runs: on any thread, only on the thread of the schedule, or alone with
/// exclusive access to all resources.
#[derive(Copy, Clone, Debug, PartialEq, Eq, Structural)]
pub enum SystemKind {
    Send,
    Unsend,
    Exclusive,
}

impl SystemKind {
    /// Whether the system runs alone.
    pub fn is_exclusive(&self) -> (r: bool)
        ensures
            r == (*self == SystemKind::Exclusive),
    {
        match self {
            SystemKind::Exclusive => true,
            _ => false,
        }
    }

    /// Whether the system may run on any thread.
    pub fn is_send(&self) -> (r: bool)
        ensures
            r == (*self == SystemKind::Send),
    {
        match self {
            SystemKind::Send => true,
            _ => false,
        }
    }
}

/// A set of systems, ordered by their dependencies into layers.
///
/// Systems are added with a label; labels of system sets become nodes of the dependency
/// graph. Building the schedule sorts the graph into layers, gives exclusive systems layers
/// of their own, orders exclusive before shared resource access, and moves systems that must
/// run on the schedule's thread to the end of their layer.
pub struct Schedule {
    systems: Vec<SystemKind>,
    access: Vec<ResourceAccess>,
    phase_labels: BTreeMap<u16, NodeId>,
    graph: Graph,
    ordered_layers: Vec<Vec<SystemId>>,
    system_dependent_layers: Vec<Layer>,
    atom: Atom,
    version: DirtyVersion,
}

impl Schedule {
    /// The kinds of the systems, by system id.
    pub closed spec fn systems(&self) -> Seq<SystemKind> {
        self.systems@
    }

    /// The node of each label, by the label's key.
    pub closed spec fn labels(&self) -> Map<u16, NodeId> {
        self.phase_labels@
    }

    /// The dependency graph.
    pub closed spec fn graph(&self) -> Graph {
        self.graph
    }

    /// The version: dirty when the schedule changed since it was last built.
    pub closed spec fn version(&self) -> DirtyVersion {
        self.version
    }

    /// The layers of systems of the last build.
    pub closed spec fn layers(&self) -> Seq<Seq<SystemId>> {
        self.ordered_layers@.map_values(|l: Vec<SystemId>| l@)
    }

    /// The dependent layer of each system, as of the last build.
    pub closed spec fn dependent_layers(&self) -> Seq<Layer> {
        self.system_dependent_layers@
    }

    /// The accesses of each system.
    pub closed spec fn accesses(&self) -> Seq<ResourceAccess> {
        self.access@
    }

    /// The resource container the schedule was initialized with.
    pub closed spec fn atom(&self) -> Atom {
        self.atom
    }

    /// Every system has an access, every label a node, every parent is a node, and every
    /// node's system is a system of the schedule.
    pub closed spec fn wf(&self) -> bool {
        &&& self.systems@.len() == self.access@.len()
        &&& self.graph.wf()
        &&& self.graph.parents_in_range()
        &&& forall|k: u16| #[trigger]
            self.phase_labels@.contains_key(k) ==> self.phase_labels@[k].0
                < self.graph.nodes().len()
        &&& forall|n: int|
            0 <= n < self.graph.nodes().len() ==> {
                let s = (#[trigger] self.graph.nodes()[n]).system.0;
                s == usize::MAX || s < self.systems@.len()
            }
    }

    /// An empty schedule, dirty.
    pub fn new() -> (r: Self)
        ensures
            r.wf(),
            r.systems() == Seq::<SystemKind>::empty(),
            r.labels() == Map::<u16, NodeId>::empty(),
            r.graph().nodes() == Seq::<Node>::empty(),
            r.layers() == Seq::<Seq<SystemId>>::empty(),
            r.dependent_layers() == Seq::<Layer>::empty(),
            r.atom().0 == 0,
            r.version().spec_is_dirty(),
    {
        let r = Schedule {
            systems: Vec::new(),
            access: Vec::new(),
            phase_labels: BTreeMap::new(),
            graph: Graph::new(),
            ordered_layers: Vec::new(),
            system_dependent_layers: Vec::new(),
            atom: Atom::zero(),
            version: DirtyVersion::new(),
        };
        assert(r.layers() =~= Seq::<Seq<SystemId>>::empty());
        r
    }

    /// The number of systems.
    pub fn systems_len(&self) -> (r: usize)
        ensures
            r == self.systems().len(),
    {
        self.systems.len()
    }

    /// Whether `label` is the label of a node that has a system: adding a system with this
    /// label is refused.
    pub fn is_label_used_for_system(&self, label: SystemSetId) -> (r: bool)
        requires
            self.wf(),
        ensures
            r == (self.labels().contains_key(label.key()) && self.graph().nodes()[self.labels()[
                label.key()].0 as int].system.0 != usize::MAX),
    {
        match self.phase_labels.get(&label.0.0) {
            Some(node_id) => {
                let node = self.graph.get(*node_id);
                match node {
                    Some(n) => n.system.is_defined(),
                    None => false,
                }
            },
            None => false,
        }
    }

    /// The node of `label`, created when the label is new. A system id that is defined
    /// becomes the system of the node.
    fn get_or_set_label(&mut self, label: SystemSetId, system_id: SystemId) -> (r: NodeId)
        requires
            old(self).wf(),
            system_id.0 == usize::MAX || system_id.0 < old(self).systems().len(),
            system_id.0 != usize::MAX && old(self).labels().contains_key(label.key()) ==> old(
                self,
            ).graph().nodes()[old(self).labels()[label.key()].0 as int].system.0 == usize::MAX,
        ensures
            final(self).wf(),
            label_outcome(*old(self), *final(self), label, system_id, r),
    {
        let key = label.0.0;
        match self.phase_labels.get(&key) {
            Some(node_id) => {
                let node_id = *node_id;
                if system_id.is_defined() {
                    let node = self.graph.get_mut(node_id);
                    match node {
                        Some(n) => {
                            n.system = system_id;
                        },
                        None => {},
                    }
                }
                proof {
                    if system_id.0 != usize::MAX {
                        assert forall|n: int| 0 <= n < self.graph.nodes().len() implies {
                            let s = (#[trigger] self.graph.nodes()[n]).system.0;
                            s == usize::MAX || s < self.systems@.len()
                        } by {
                            if n != node_id.0 {
                                assert(self.graph.nodes()[n] == old(self).graph.nodes()[n]);
                            }
                        }
                        assert forall|i: int| 0 <= i < self.graph.nodes().len() implies #[trigger]
                            self.graph.nodes()[i].wf() by {
                            assert(old(self).graph.nodes()[i].wf());
                        }
                    }
                }
                node_id
            },
            None => {
                let (node_id, _node) = self.graph.insert(system_id);
                self.phase_labels.insert(key, node_id);
                proof {
                    assert(self.graph.nodes().take(old(self).graph.nodes().len() as int)
                        =~= old(self).graph.nodes());
                }
                node_id
            },
        }
    }

    /// Looking up a label leaves the schedule grown.
    proof fn lemma_label_grows(
        before: Schedule,
        after: Schedule,
        label: SystemSetId,
        system_id: SystemId,
        r: NodeId,
    )
        requires
            before.wf(),
            system_id.0 == usize::MAX,
            label_outcome(before, after, label, system_id, r),
        ensures
            grows(before, after),
            after.labels().contains_key(label.key()),
            after.labels()[label.key()] == r,
            r.0 < after.graph().nodes().len(),
    {
        if !before.labels().contains_key(label.key()) {
            assert forall|n: int| 0 <= n < before.graph().nodes().len() implies #[trigger]
                after.graph().nodes()[n] == before.graph().nodes()[n] by {
                assert(after.graph().nodes().take(before.graph().nodes().len() as int)[n]
                    == after.graph().nodes()[n]);
            }
        }
    }

    fn add_system_kind(&mut self, kind: SystemKind, label: SystemSetId) -> (r: NodeId)
        requires
            old(self).wf(),
            old(self).systems().len() < usize::MAX,
            !(old(self).labels().contains_key(label.key()) && old(self).graph().nodes()[old(
                self,
            ).labels()[label.key()].0 as int].system.0 != usize::MAX),
        ensures
            final(self).wf(),
            final(self).systems() == old(self).systems().push(kind),
            final(self).accesses().len() == old(self).accesses().len() + 1,
            final(self).accesses()[old(self).accesses().len() as int].shared@ == Set::<
                usize,
            >::empty(),
            final(self).accesses()[old(self).accesses().len() as int].exclusive@ == Set::<
                usize,
            >::empty(),
            final(self).version().spec_is_dirty(),
            final(self).labels().contains_key(label.key()),
            final(self).labels()[label.key()] == r,
            r.0 < final(self).graph().nodes().len(),
            final(self).graph().nodes()[r.0 as int].system == SystemId(
                old(self).systems().len() as usize,
            ),
    {
        self.version.dirty();
        let index = self.systems.len();
        self.systems.push(kind);
        self.access.push(ResourceAccess::new());
        let id = SystemId(index);
        proof {
            assert forall|n: int| 0 <= n < self.graph.nodes().len() implies {
                let s = (#[trigger] self.graph.nodes()[n]).system.0;
                s == usize::MAX || s < self.systems@.len()
            } by {
                assert(old(self).graph.nodes()[n] == self.graph.nodes()[n]);
            }
        }
        let node_id = self.get_or_set_label(label, id);
        node_id
    }

    /// Adds a system that may run on any thread, labeled `label`; returns its node.
    pub fn add_system(&mut self, label: SystemSetId) -> (r: NodeId)
        requires
            old(self).wf(),
            old(self).systems().len() < usize::MAX,
            !(old(self).labels().contains_key(label.key()) && old(self).graph().nodes()[old(
                self,
            ).labels()[label.key()].0 as int].system.0 != usize::MAX),
        ensures
            final(self).wf(),
            final(self).systems() == old(self).systems().push(SystemKind::Send),
            final(self).version().spec_is_dirty(),
            final(self).labels()[label.key()] == r,
            r.0 < final(self).graph().nodes().len(),
            final(self).graph().nodes()[r.0 as int].system == SystemId(
                old(self).systems().len() as usize,
            ),
    {
        self.add_system_kind(SystemKind::Send, label)
    }

    /// Adds a system that must run on the schedule's thread, labeled `label`; returns its
    /// node.
    pub fn add_system_unsend(&mut self, label: SystemSetId) -> (r: NodeId)
        requires
            old(self).wf(),
            old(self).systems().len() < usize::MAX,
            !(old(self).labels().contains_key(label.key()) && old(self).graph().nodes()[old(
                self,
            ).labels()[label.key()].0 as int].system.0 != usize::MAX),
        ensures
            final(self).wf(),
            final(self).systems() == old(self).systems().push(SystemKind::Unsend),
            final(self).version().spec_is_dirty(),
            final(self).labels()[label.key()] == r,
            r.0 < final(self).graph().nodes().len(),
            final(self).graph().nodes()[r.0 as int].system == SystemId(
                old(self).systems().len() as usize,
            ),
    {
        self.add_system_kind(SystemKind::Unsend, label)
    }

    /// Adds a system that runs alone, labeled `label`; returns its node.
    pub fn add_system_exclusive(&mut self, label: SystemSetId) -> (r: NodeId)
        requires
            old(self).wf(),
            old(self).systems().len() < usize::MAX,
            !(old(self).labels().contains_key(label.key()) && old(self).graph().nodes()[old(
                self,
            ).labels()[label.key()].0 as int].system.0 != usize::MAX),
        ensures
            final(self).wf(),
            final(self).systems() == old(self).systems().push(SystemKind::Exclusive),
            final(self).version().spec_is_dirty(),
            final(self).labels()[label.key()] == r,
            r.0 < final(self).graph().nodes().len(),
            final(self).graph().nodes()[r.0 as int].system == SystemId(
                old(self).systems().len() as usize,
            ),
    {
        self.add_system_kind(SystemKind::Exclusive, label)
    }

    /// Makes the node of `label` the parent of `node_id`.
    pub fn parent(&mut self, node_id: NodeId, label: SystemSetId)
        requires
            old(self).wf(),
            node_id.0 < old(self).graph().nodes().len(),
        ensures
            final(self).wf(),
            final(self).labels().contains_key(label.key()),
            final(self).graph().nodes()[node_id.0 as int].parent == label_node(
                *final(self),
                label,
            ),
            final(self).graph().nodes()[node_id.0 as int].system == old(
                self,
            ).graph().nodes()[node_id.0 as int].system,
            final(self).graph().nodes()[node_id.0 as int].deps() == old(
                self,
            ).graph().nodes()[node_id.0 as int].deps(),
            final(self).systems() == old(self).systems(),
    {
        let label_node = self.get_or_set_label(label, SystemId(usize::MAX));
        proof {
            Self::lemma_label_grows(*old(self), *self, label, SystemId(usize::MAX), label_node);
        }
        let ghost mid = self.graph;
        self.graph.set_parent(label_node, node_id);
        proof {
            assert forall|n: int| 0 <= n < self.graph.nodes().len() implies {
                let s = (#[trigger] self.graph.nodes()[n]).system.0;
                s == usize::MAX || s < self.systems@.len()
            } by {}
            assert forall|i: int| 0 <= i < self.graph.nodes().len() implies #[trigger]
                self.graph.nodes()[i].wf() by {
                assert(mid.nodes()[i].wf());
                if i == node_id.0 {
                    assert(self.graph.nodes()[i].deps() == mid.nodes()[i].deps());
                } else {
                    assert(self.graph.nodes()[i] == mid.nodes()[i]);
                }
            }
        }
    }

    /// Makes the node of `label` depend on `node_id`: `node_id` runs before it.
    pub fn before(&mut self, node_id: NodeId, label: SystemSetId)
        requires
            old(self).wf(),
            node_id.0 < old(self).graph().nodes().len(),
        ensures
            final(self).wf(),
            grows(*old(self), *final(self)),
            final(self).labels().contains_key(label.key()),
            final(self).graph().nodes()[label_node(*final(self), label).0 as int].deps().contains(
                node_id,
            ),
    {
        let label_node = self.get_or_set_label(label, SystemId(usize::MAX));
        proof {
            Self::lemma_label_grows(*old(self), *self, label, SystemId(usize::MAX), label_node);
        }
        self.add_graph_dependency(node_id, label_node);
    }

    /// Makes `node_id` depend on the node of `label`: `node_id` runs after it.
    pub fn after(&mut self, node_id: NodeId, label: SystemSetId)
        requires
            old(self).wf(),
            node_id.0 < old(self).graph().nodes().len(),
        ensures
            final(self).wf(),
            grows(*old(self), *final(self)),
            final(self).labels().contains_key(label.key()),
            final(self).graph().nodes()[node_id.0 as int].deps().contains(
                label_node(*final(self), label),
            ),
    {
        let label_node = self.get_or_set_label(label, SystemId(usize::MAX));
        proof {
            Self::lemma_label_grows(*old(self), *self, label, SystemId(usize::MAX), label_node);
        }
        self.add_graph_dependency(label_node, node_id);
    }

    fn add_graph_dependency(&mut self, dependency: NodeId, dependent: NodeId)
        requires
            old(self).wf(),
            dependent.0 < old(self).graph().nodes().len(),
        ensures
            final(self).wf(),
            grows(*old(self), *final(self)),
            final(self).labels() == old(self).labels(),
            final(self).version() == old(self).version(),
            final(self).graph().nodes()[dependent.0 as int].deps().contains(dependency),
    {
        self.graph.add_dependency(dependency, dependent);
        proof {
            let d = dependent.0 as int;
            assert(self.graph.nodes()[d].deps().to_set().contains(dependency));
            assert forall|n: int| 0 <= n < self.graph.nodes().len() implies {
                let s = (#[trigger] self.graph.nodes()[n]).system.0;
                s == usize::MAX || s < self.systems@.len()
            } by {
                if n != d {
                    assert(self.graph.nodes()[n] == old(self).graph.nodes()[n]);
                }
            }
            assert(self.graph.parents_in_range()) by {
                assert forall|i: int| 0 <= i < self.graph.nodes().len() implies {
                    let p = #[trigger] self.graph.nodes()[i].parent.0;
                    p == usize::MAX || p < self.graph.nodes().len()
                } by {
                    if i != d {
                        assert(self.graph.nodes()[i] == old(self).graph.nodes()[i]);
                    }
                }
            }
            assert forall|n: int| 0 <= n < old(self).graph.nodes().len() implies {
                &&& (#[trigger] self.graph.nodes()[n]).system == old(self).graph.nodes()[n].system
                &&& self.graph.nodes()[n].parent == old(self).graph.nodes()[n].parent
                &&& old(self).graph.nodes()[n].deps().to_set().subset_of(
                    self.graph.nodes()[n].deps().to_set(),
                )
            } by {
                if n != d {
                    assert(self.graph.nodes()[n] == old(self).graph.nodes()[n]);
                }
            }
        }
    }

    /// Chains the system sets of `labels`: each one depends on the one before it.
    pub fn chain(&mut self, labels: &Vec<SystemSetId>)
        requires
            old(self).wf(),
        ensures
            final(self).wf(),
            grows(*old(self), *final(self)),
            labels@.len() > 0 ==> final(self).version().spec_is_dirty(),
            labels@.len() == 0 ==> *final(self) == *old(self),
            forall|i: int|
                0 <= i < labels@.len() ==> final(self).labels().contains_key(
                    (#[trigger] labels@[i]).key(),
                ),
            forall|i: int|
                0 < i < labels@.len() ==> final(self).graph().nodes()[label_node(
                    *final(self),
                    #[trigger] labels@[i],
                ).0 as int].deps().contains(label_node(*final(self), labels@[i - 1])),
    {
        if labels.len() == 0 {
            return ;
        }
        self.version.dirty();
        let ghost s0 = *self;
        let mut prev_node_id = self.get_or_set_label(labels[0], SystemId(usize::MAX));
        proof {
            Self::lemma_label_grows(s0, *self, labels@[0], SystemId(usize::MAX), prev_node_id);
        }
        let mut i: usize = 1;
        while i < labels.len()
            invariant
                1 <= i <= labels@.len(),
                self.wf(),
                grows(*old(self), *self),
                self.version().spec_is_dirty(),
                prev_node_id == label_node(*self, labels@[i - 1]),
                prev_node_id.0 < self.graph().nodes().len(),
                forall|j: int| 0 <= j < i ==> self.labels().contains_key(
                    (#[trigger] labels@[j]).key(),
                ),
                forall|j: int|
                    0 < j < i ==> self.graph().nodes()[label_node(
                        *self,
                        #[trigger] labels@[j],
                    ).0 as int].deps().contains(label_node(*self, labels@[j - 1])),
            decreases labels@.len() - i,
        {
            let ghost s1 = *self;
            let current_node_id = self.get_or_set_label(labels[i], SystemId(usize::MAX));
            proof {
                Self::lemma_label_grows(s1, *self, labels@[i as int], SystemId(usize::MAX), current_node_id);
            }
            let ghost s2 = *self;
            self.add_graph_dependency(prev_node_id, current_node_id);
            proof {
                assert forall|j: int| 0 < j < i + 1 implies self.graph().nodes()[label_node(
                    *self,
                    #[trigger] labels@[j],
                ).0 as int].deps().contains(label_node(*self, labels@[j - 1])) by {
                    if j < i {
                        let nj = label_node(s1, labels@[j]).0 as int;
                        assert(s1.graph().nodes()[nj].deps().contains(label_node(s1, labels@[j - 1])));
                        assert(s1.graph().nodes()[nj].deps().to_set().contains(label_node(s1, labels@[j - 1])));
                        assert(s2.graph().nodes()[nj].deps().to_set().contains(label_node(s1, labels@[j - 1])));
                        assert(self.graph().nodes()[nj].deps().to_set().contains(label_node(s1, labels@[j - 1])));
                    }
                }
            }
            prev_node_id = current_node_id;
            i += 1;
        }
    }

    /// Takes the exclusive systems out of a layer of more than one system into
    /// `tmp_exclusive`, and returns the largest dependent layer of the systems that stay
    /// and of `shared_waiting_until_layer`.
    fn take_exclusive(
        &self,
        layer_systems: &mut Vec<SystemId>,
        tmp_exclusive: &mut Vec<SystemId>,
        dependent_layers: &Vec<Layer>,
        shared_waiting_until_layer: usize,
        exclusive_dependent_layer_min: &mut usize,
    ) -> (shared_dependent_layer_max: usize)
        requires
            dependent_layers@.len() <= self.systems@.len(),
            forall|k: int|
                0 <= k < old(layer_systems)@.len() ==> (#[trigger] old(layer_systems)@[k]).0
                    < dependent_layers@.len(),
        ensures
            final(layer_systems)@.to_multiset().add(final(tmp_exclusive)@.to_multiset())
                =~= old(layer_systems)@.to_multiset().add(old(tmp_exclusive)@.to_multiset()),
            forall|k: int|
                0 <= k < final(layer_systems)@.len() ==> (#[trigger] final(layer_systems)@[k]).0
                    < dependent_layers@.len() && kind_of(self.systems@, final(layer_systems)@[k])
                    != SystemKind::Exclusive,
            final(tmp_exclusive)@.len() >= old(tmp_exclusive)@.len(),
            final(tmp_exclusive)@.take(old(tmp_exclusive)@.len() as int) == old(tmp_exclusive)@,
            forall|k: int|
                old(tmp_exclusive)@.len() <= k < final(tmp_exclusive)@.len() ==> (
                #[trigger] final(tmp_exclusive)@[k]).0 < dependent_layers@.len() && kind_of(
                    self.systems@,
                    final(tmp_exclusive)@[k],
                ) == SystemKind::Exclusive,
            (forall|k: int|
                0 <= k < old(layer_systems)@.len() ==> kind_of(
                    self.systems@,
                    #[trigger] old(layer_systems)@[k],
                ) != SystemKind::Exclusive) ==> final(tmp_exclusive)@ == old(tmp_exclusive)@,
            (final(layer_systems)@, final(tmp_exclusive)@, shared_dependent_layer_max)
                == take_walk(
                self.systems@,
                dependent_layers@,
                old(layer_systems)@,
                old(tmp_exclusive)@,
                shared_waiting_until_layer,
                0,
            ),
    {
        broadcast use vstd::multiset::group_multiset_axioms;

        let mut shared_dependent_layer_max = shared_waiting_until_layer;
        let ghost ls0 = layer_systems@;
        let ghost tmp0 = tmp_exclusive@;
        let mut i: usize = 0;
        while i < layer_systems.len()
            invariant
                0 <= i <= layer_systems@.len(),
                dependent_layers@.len() <= self.systems@.len(),
                layer_systems@.to_multiset().add(tmp_exclusive@.to_multiset()) =~= ls0.to_multiset().add(
                    tmp0.to_multiset(),
                ),
                forall|k: int|
                    0 <= k < layer_systems@.len() ==> (#[trigger] layer_systems@[k]).0
                        < dependent_layers@.len(),
                forall|k: int|
                    0 <= k < i ==> kind_of(self.systems@, #[trigger] layer_systems@[k])
                        != SystemKind::Exclusive,
                tmp_exclusive@.len() >= tmp0.len(),
                tmp_exclusive@.take(tmp0.len() as int) == tmp0,
                forall|k: int|
                    tmp0.len() <= k < tmp_exclusive@.len() ==> (#[trigger] tmp_exclusive@[k]).0
                        < dependent_layers@.len() && kind_of(self.systems@, tmp_exclusive@[k])
                        == SystemKind::Exclusive,
                (forall|k: int|
                    0 <= k < ls0.len() ==> kind_of(self.systems@, #[trigger] ls0[k])
                        != SystemKind::Exclusive) ==> tmp_exclusive@ == tmp0 && layer_systems@
                    == ls0,
                take_walk(
                    self.systems@,
                    dependent_layers@,
                    layer_systems@,
                    tmp_exclusive@,
                    shared_dependent_layer_max,
                    i as int,
                ) == take_walk(
                    self.systems@,
                    dependent_layers@,
                    ls0,
                    tmp0,
                    shared_waiting_until_layer,
                    0,
                ),
            decreases layer_systems@.len() - i,
        {
            let system_id = layer_systems[i];
            let dependent_layer = dependent_layers[system_id.0];
            if self.systems[system_id.0].is_exclusive() {
                if *exclusive_dependent_layer_min > dependent_layer.0 {
                    *exclusive_dependent_layer_min = dependent_layer.0;
                }
                let ghost l0 = layer_systems@;
                let ghost t0 = tmp_exclusive@;
                tmp_exclusive.push(system_id);
                layer_systems.swap_remove(i);
                proof {
                    assert(take_walk(
                        self.systems@,
                        dependent_layers@,
                        l0,
                        t0,
                        shared_dependent_layer_max,
                        i as int,
                    ) == take_walk(
                        self.systems@,
                        dependent_layers@,
                        layer_systems@,
                        tmp_exclusive@,
                        shared_dependent_layer_max,
                        i as int,
                    ));
                    lemma_swap_remove_ms(l0, i as int);
                    vstd::seq_lib::to_multiset_build(t0, system_id);
                    assert(tmp_exclusive@.take(tmp0.len() as int) =~= t0.take(tmp0.len() as int));
                    assert forall|k: int| 0 <= k < layer_systems@.len() implies (
                    #[trigger] layer_systems@[k]).0 < dependent_layers@.len() by {
                        if k == i {
                            assert(layer_systems@[k] == l0.last());
                        } else {
                            assert(layer_systems@[k] == l0[k]);
                        }
                    }
                    assert forall|k: int| 0 <= k < i implies kind_of(
                        self.systems@,
                        #[trigger] layer_systems@[k],
                    ) != SystemKind::Exclusive by {
                        assert(layer_systems@[k] == l0[k]);
                    }
                    if forall|k: int|
                        0 <= k < ls0.len() ==> kind_of(self.systems@, #[trigger] ls0[k])
                            != SystemKind::Exclusive {
                        assert(l0 == ls0);
                        assert(kind_of(self.systems@, ls0[i as int]) != SystemKind::Exclusive);
                    }
                }
                continue ;
            }
            let ghost max0 = shared_dependent_layer_max;
            if shared_dependent_layer_max < dependent_layer.0 {
                shared_dependent_layer_max = dependent_layer.0;
            }
            proof {
                assert(take_walk(
                    self.systems@,
                    dependent_layers@,
                    layer_systems@,
                    tmp_exclusive@,
                    max0,
                    i as int,
                ) == take_walk(
                    self.systems@,
                    dependent_layers@,
                    layer_systems@,
                    tmp_exclusive@,
                    shared_dependent_layer_max,
                    i + 1,
                ));
            }
            i += 1;
        }
        shared_dependent_layer_max
    }

    /// Gives the exclusive systems of every layer of more than one system layers of their
    /// own: a layer of exclusive systems only is kept as it is; otherwise the exclusive
    /// systems go into a new layer before it, unless shared systems of earlier layers are
    /// still waiting, in which case they wait for a later layer. Inserting a layer shifts the
    /// dependent layers from it on by one.
    fn split_exclusive(&self, layers: &mut Vec<Vec<SystemId>>, dependent_layers: &mut Vec<Layer>)
        requires
            ids_below(system_layers_view(old(layers)@), old(dependent_layers)@.len() as nat),
            old(dependent_layers)@.len() <= self.systems@.len(),
        ensures
            final(dependent_layers)@.len() == old(dependent_layers)@.len(),
            ids_below(system_layers_view(final(layers)@), old(dependent_layers)@.len() as nat),
            final(layers)@.len() >= old(layers)@.len(),
            forall|i: int|
                0 <= i < final(layers)@.len() ==> homogeneous(
                    self.systems@,
                    #[trigger] final(layers)@[i]@,
                ),
            forall|s: SystemId|
                #[trigger] layers_ms(system_layers_view(final(layers)@)).count(s) <= layers_ms(
                    system_layers_view(old(layers)@),
                ).count(s),
            forall|s: SystemId|
                s.0 < old(dependent_layers)@.len() && kind_of(self.systems@, s)
                    != SystemKind::Exclusive ==> #[trigger] layers_ms(
                    system_layers_view(final(layers)@),
                ).count(s) == layers_ms(system_layers_view(old(layers)@)).count(s),
            split_in_order(
                self.systems@,
                system_layers_view(old(layers)@),
                system_layers_view(final(layers)@),
            ),
            (system_layers_view(final(layers)@), final(dependent_layers)@) == split_result(
                self.systems@,
                system_layers_view(old(layers)@),
                old(dependent_layers)@,
            ),
    {
        broadcast use vstd::multiset::group_multiset_axioms;

        let ghost n = dependent_layers@.len();
        let ghost sorted = system_layers_view(layers@);
        let ghost mut f: Seq<int> = Seq::new(sorted.len(), |i: int| i);
        proof {
            assert forall|i: int, k: int|
                0 <= i < sorted.len() && 0 <= k < sorted[i].len() && kind_of(
                    self.systems@,
                    #[trigger] sorted[i][k],
                ) != SystemKind::Exclusive implies sorted[f[i]].contains(sorted[i][k]) by {
                assert(sorted[i][k] == sorted[i][k]);
            }
        }
        let ghost m0 = layers_ms(system_layers_view(layers@));
        let mut shared_waiting_until_layer: usize = 0;
        let mut exclusive_dependent_layer_min: usize = usize::MAX;
        let mut tmp_exclusive: Vec<SystemId> = Vec::new();
        let mut layer_index: usize = 0;
        let ghost mut stripped = false;
        let ghost start: SplitState = (
            sorted,
            dependent_layers@,
            0usize,
            Seq::<SystemId>::empty(),
            0int,
        );
        let ghost mut fuel: nat = (2 * sorted.len() + 1) as nat;
        proof {
            assert(tmp_exclusive@ =~= Seq::<SystemId>::empty());
            assert((system_layers_view(layers@), dependent_layers@, shared_waiting_until_layer, tmp_exclusive@, layer_index as int) == start);
            lemma_empty_ms();
            assert(tmp_exclusive@ =~= Seq::<SystemId>::empty());
            assert(layers_ms(system_layers_view(layers@)).add(tmp_exclusive@.to_multiset()) =~= m0);
        }
        while layer_index < layers.len()
            invariant
                0 <= layer_index <= layers@.len(),
                dependent_layers@.len() == n,
                n <= self.systems@.len(),
                ids_below(system_layers_view(layers@), n as nat),
                forall|k: int|
                    0 <= k < tmp_exclusive@.len() ==> (#[trigger] tmp_exclusive@[k]).0 < n
                        && kind_of(self.systems@, tmp_exclusive@[k]) == SystemKind::Exclusive,
                forall|j: int|
                    0 <= j < layer_index ==> homogeneous(self.systems@, #[trigger] layers@[j]@),
                layers_ms(system_layers_view(layers@)).add(tmp_exclusive@.to_multiset()) == m0,
                m0 == layers_ms(system_layers_view(old(layers)@)),
                layers@.len() >= old(layers)@.len(),
                sorted == system_layers_view(old(layers)@),
                follows_layers(self.systems@, sorted, system_layers_view(layers@), f),
                stripped ==> layer_index < layers@.len() && tmp_exclusive@.len() == 0
                    && forall|k: int|
                    0 <= k < layers@[layer_index as int]@.len() ==> kind_of(
                        self.systems@,
                        #[trigger] layers@[layer_index as int]@[k],
                    ) != SystemKind::Exclusive,
                fuel >= 2 * (layers@.len() - layer_index) + (if stripped {
                    0int
                } else {
                    1int
                }),
                start == (sorted, old(dependent_layers)@, 0usize, Seq::<SystemId>::empty(), 0int),
                split_walk(
                    self.systems@,
                    (
                        system_layers_view(layers@),
                        dependent_layers@,
                        shared_waiting_until_layer,
                        tmp_exclusive@,
                        layer_index as int,
                    ),
                    fuel,
                ) == split_walk(self.systems@, start, (2 * sorted.len() + 1) as nat),
            decreases 2 * (layers@.len() - layer_index) + (if stripped {
                0int
            } else {
                1int
            }),
        {
            let ghost was_stripped = stripped;
            let ghost lv0 = system_layers_view(layers@);
            let ghost dep0 = dependent_layers@;
            let ghost w0 = shared_waiting_until_layer;
            let ghost st0: SplitState = (
                lv0,
                dep0,
                w0,
                tmp_exclusive@,
                layer_index as int,
            );
            let ghost mut taken_g: (Seq<SystemId>, Seq<SystemId>, usize) = (
                Seq::empty(),
                Seq::empty(),
                0usize,
            );
            let mut layer_systems: Vec<SystemId> = Vec::new();
            std::mem::swap(&mut layer_systems, &mut layers[layer_index]);
            let ghost x0 = layer_systems@;
            let ghost tmp_before = tmp_exclusive@;
            let ghost lva = system_layers_view(layers@);
            proof {
                assert(system_layers_view(layers@) =~= lv0.update(layer_index as int, Seq::empty()));
                lemma_layers_ms_update(lv0, layer_index as int, Seq::empty());
                assert(lv0[layer_index as int] == x0);
                lemma_empty_ms();
                assert(layers_ms(lva).add(x0.to_multiset()) =~= layers_ms(lv0));
                assert forall|k: int| 0 <= k < x0.len() implies (#[trigger] x0[k]).0 < n by {
                    assert(lv0[layer_index as int][k] == x0[k]);
                }
            }
            let mut inserted = false;
            if layer_systems.len() > 1 {
                let ghost t0 = tmp_exclusive@;
                let shared_dependent_layer_max = self.take_exclusive(
                    &mut layer_systems,
                    &mut tmp_exclusive,
                    dependent_layers,
                    shared_waiting_until_layer,
                    &mut exclusive_dependent_layer_min,
                );
                proof {
                    taken_g = (layer_systems@, tmp_exclusive@, shared_dependent_layer_max);
                    assert forall|k: int| 0 <= k < tmp_exclusive@.len() implies (
                    #[trigger] tmp_exclusive@[k]).0 < n && kind_of(
                        self.systems@,
                        tmp_exclusive@[k],
                    ) == SystemKind::Exclusive by {
                        if k < t0.len() {
                            assert(tmp_exclusive@.take(t0.len() as int)[k] == t0[k]);
                        }
                    }
                }
                if tmp_exclusive.len() > 0 {
                    if layer_systems.len() == 0 {
                        let ghost t1 = tmp_exclusive@;
                        let ghost xe = layer_systems@;
                        layer_systems.append(&mut tmp_exclusive);
                        proof {
                            lemma_empty_ms();
                            assert(xe =~= Seq::<SystemId>::empty());
                        }
                        exclusive_dependent_layer_min = usize::MAX;
                        proof {
                            assert(layer_systems@ =~= t1);
                            lemma_empty_ms();
                            assert(tmp_exclusive@ =~= Seq::<SystemId>::empty());
                        }
                    } else if shared_waiting_until_layer <= layer_index {
                        inserted = true;
                    }
                }
                shared_waiting_until_layer = shared_dependent_layer_max;
                if exclusive_dependent_layer_min < shared_waiting_until_layer {
                    exclusive_dependent_layer_min = shared_waiting_until_layer;
                }
            }
            proof {
                if x0.len() > 1 {
                } else {
                    assert(layer_systems@ == x0);
                    assert(tmp_exclusive@ == tmp_before);
                }
                assert(layer_systems@.to_multiset().add(tmp_exclusive@.to_multiset()) =~= x0.to_multiset().add(
                    tmp_before.to_multiset(),
                ));
            }
            let ghost lv1 = system_layers_view(layers@);
            let ghost x1 = layer_systems@;
            let ghost t1x = tmp_exclusive@;
            layers.set(layer_index, layer_systems);
            proof {
                assert(system_layers_view(layers@) =~= lv1.update(layer_index as int, x1));
                lemma_layers_ms_update(lv1, layer_index as int, x1);
                assert(lv1[layer_index as int] =~= Seq::<SystemId>::empty());
                lemma_empty_ms();
                assert(lv1 == lva);
                assert(layers_ms(system_layers_view(layers@)) =~= layers_ms(lva).add(
                    x1.to_multiset(),
                ));
                assert forall|x: SystemId|
                    #[trigger] layers_ms(system_layers_view(layers@)).add(
                        tmp_exclusive@.to_multiset(),
                    ).count(x) == m0.count(x) by {
                    assert(layers_ms(lva).add(x0.to_multiset()).count(x) == layers_ms(lv0).count(
                        x,
                    ));
                    assert(layers_ms(lv0).add(tmp_before.to_multiset()).count(x) == m0.count(x));
                    assert(x1.to_multiset().add(tmp_exclusive@.to_multiset()).count(x)
                        == x0.to_multiset().add(tmp_before.to_multiset()).count(x));
                }
                assert(layers_ms(system_layers_view(layers@)).add(tmp_exclusive@.to_multiset())
                    =~= m0);
            }
            if inserted {
                let mut taken: Vec<SystemId> = Vec::new();
                std::mem::swap(&mut taken, &mut tmp_exclusive);
                let ghost lv2 = system_layers_view(layers@);
                let ghost tk = taken@;
                layers.insert(layer_index, taken);
                exclusive_dependent_layer_min = usize::MAX;
                shift_values(dependent_layers, layer_index, 1);
                proof {
                    assert(system_layers_view(layers@) =~= lv2.insert(layer_index as int, tk));
                    lemma_layers_ms_insert(lv2, layer_index as int, tk);
                    lemma_empty_ms();
                    assert(tmp_exclusive@ =~= Seq::<SystemId>::empty());
                    assert(layers_ms(system_layers_view(layers@)).add(tmp_exclusive@.to_multiset())
                        =~= m0);
                }
            }
            proof {
                let lvn = system_layers_view(layers@);
                assert forall|i: int, k: int|
                    0 <= i < lvn.len() && 0 <= k < lvn[i].len() implies (#[trigger] lvn[i][k]).0
                        < n by {
                    if inserted {
                        if i < layer_index {
                            assert(lvn[i] == lv0[i]);
                        } else if i == layer_index {
                        } else if i == layer_index + 1 {
                        } else {
                            assert(lvn[i] == lv0[i - 1]);
                        }
                    } else if i != layer_index {
                        assert(lvn[i] == lv0[i]);
                    }
                }
                assert forall|j: int| 0 <= j < layer_index + 1 implies homogeneous(
                    self.systems@,
                    #[trigger] layers@[j]@,
                ) by {
                    if j < layer_index {
                        assert(layers@[j]@ == lvn[j]);
                        assert(lvn[j] == lv0[j]);
                    }
                }
            }
            proof {
                let lvn = system_layers_view(layers@);
                let li = layer_index as int;
                let f0 = f;
                let f1 = if inserted { f0.insert(li, f0[li]) } else { f0 };
                assert forall|k: int|
                    0 <= k < x1.len() && kind_of(self.systems@, #[trigger] x1[k])
                        != SystemKind::Exclusive implies sorted[f0[li]].contains(x1[k]) by {
                    let s0 = x1[k];
                    vstd::seq_lib::to_multiset_contains(x1, s0);
                    assert(x1.contains(s0));
                    if tmp_before.to_multiset().count(s0) > 0 {
                        vstd::seq_lib::to_multiset_contains(tmp_before, s0);
                        let j = choose|j: int| 0 <= j < tmp_before.len() && tmp_before[j] == s0;
                        assert(kind_of(self.systems@, tmp_before[j]) == SystemKind::Exclusive);
                    }
                    assert(x1.to_multiset().add(t1x.to_multiset()) == x0.to_multiset().add(
                        tmp_before.to_multiset(),
                    ));
                    assert(x1.to_multiset().add(t1x.to_multiset()).count(s0) > 0);
                    assert(x0.to_multiset().count(s0) > 0);
                    vstd::seq_lib::to_multiset_contains(x0, s0);
                    let j = choose|j: int| 0 <= j < x0.len() && x0[j] == s0;
                    assert(lv0[li][j] == s0);
                }
                assert(follows_layers(self.systems@, sorted, lvn, f1)) by {
                    assert forall|i: int, k: int|
                        0 <= i < lvn.len() && 0 <= k < lvn[i].len() && kind_of(
                            self.systems@,
                            #[trigger] lvn[i][k],
                        ) != SystemKind::Exclusive implies sorted[f1[i]].contains(lvn[i][k]) by {
                        if inserted {
                            if i < li {
                                assert(lvn[i] == lv0[i]);
                            } else if i == li {
                            } else if i == li + 1 {
                                assert(lvn[i] == x1);
                                assert(f1[i] == f0[li]);
                            } else {
                                assert(lvn[i] == lv0[i - 1]);
                                assert(f1[i] == f0[i - 1]);
                            }
                        } else if i != li {
                            assert(lvn[i] == lv0[i]);
                        } else {
                            assert(lvn[i] == x1);
                        }
                    }
                    assert forall|i: int, j: int| 0 <= i <= j < f1.len() implies #[trigger] f1[i]
                        <= #[trigger] f1[j] by {
                        if inserted {
                            if i > li {
                                assert(f1[i] == f0[i - 1]);
                            } else if i < li {
                                assert(f1[i] == f0[i]);
                            }
                            if j > li {
                                assert(f1[j] == f0[j - 1]);
                            } else if j < li {
                                assert(f1[j] == f0[j]);
                            }
                        }
                    }
                    assert forall|i: int| 0 <= i < f1.len() implies 0 <= #[trigger] f1[i]
                        < sorted.len() by {
                        if inserted && i > li {
                            assert(f1[i] == f0[i - 1]);
                        }
                    }
                }
                f = f1;
            }
            proof {
                if inserted {
                    stripped = true;
                } else {
                    stripped = false;
                }
            }
            layer_index += 1;
            proof {
                let kinds = self.systems@;
                let li = st0.4;
                let stn: SplitState = (
                    system_layers_view(layers@),
                    dependent_layers@,
                    shared_waiting_until_layer,
                    tmp_exclusive@,
                    layer_index as int,
                );
                assert(lv0[li] == x0);
                if x0.len() > 1 {
                    assert(taken_g == take_walk(kinds, dep0, x0, tmp_before, w0, 0));
                    let (x1g, t1g, smaxg) = taken_g;
                    if t1g.len() > 0 && x1g.len() == 0 {
                        assert(!inserted);
                        assert(system_layers_view(layers@) =~= lv0.update(li, t1g));
                        assert(tmp_exclusive@ =~= Seq::<SystemId>::empty());
                    } else if t1g.len() > 0 && w0 <= li {
                        assert(inserted);
                        assert(system_layers_view(layers@) =~= lv0.update(li, x1g).insert(li, t1g));
                        assert(dependent_layers@ =~= shifted(dep0, li as usize));
                    } else {
                        assert(!inserted);
                        assert(system_layers_view(layers@) =~= lv0.update(li, x1g));
                    }
                } else {
                    assert(!inserted);
                    assert(system_layers_view(layers@) =~= lv0);
                }
                assert(stn == split_step(kinds, st0));
                assert(split_walk(kinds, st0, fuel) == split_walk(
                    kinds,
                    split_step(kinds, st0),
                    (fuel - 1) as nat,
                ));
                fuel = (fuel - 1) as nat;
            }
        }
        proof {
            assert(split_walk(
                self.systems@,
                (
                    system_layers_view(layers@),
                    dependent_layers@,
                    shared_waiting_until_layer,
                    tmp_exclusive@,
                    layer_index as int,
                ),
                fuel,
            ) == (
                system_layers_view(layers@),
                dependent_layers@,
                shared_waiting_until_layer,
                tmp_exclusive@,
                layer_index as int,
            ));
            assert(follows_layers(self.systems@, sorted, system_layers_view(layers@), f));
            let mf = layers_ms(system_layers_view(layers@));
            assert forall|s: SystemId| #[trigger] mf.count(s) <= m0.count(s) by {}
            assert forall|s: SystemId|
                s.0 < n && kind_of(self.systems@, s) != SystemKind::Exclusive implies #[trigger]
                mf.count(s) == m0.count(s) by {
                if tmp_exclusive@.to_multiset().count(s) > 0 {
                    vstd::seq_lib::to_multiset_contains(tmp_exclusive@, s);
                    let k = choose|k: int| 0 <= k < tmp_exclusive@.len() && tmp_exclusive@[k] == s;
                    assert(kind_of(self.systems@, tmp_exclusive@[k]) == SystemKind::Exclusive);
                }
            }
        }
    }

    /// Orders exclusive before shared access: walking the layers in order, every layer is
    /// marked in the tracker; when shared and exclusive access to a resource meet in a layer,
    /// the shared systems move to a new layer before it, which the exclusive systems depend
    /// on, and the rest of the layer is marked again. No system leaves the layers. A conflict
    /// that this cannot resolve is returned; it names systems of the schedule. When marking
    /// every layer in order meets no conflict at all, the layers stay as they are, the call
    /// succeeds, and the dependent layers are those that the marking leaves.
    #[verifier::rlimit(60)]
    fn resolve_resource_conflicts(
        &self,
        layers: &mut Vec<Vec<SystemId>>,
        dependent_layers: &mut Vec<Layer>,
    ) -> (r: Result<(), ResourceConflict>)
        requires
            self.systems@.len() == self.access@.len(),
            ids_below(system_layers_view(old(layers)@), old(dependent_layers)@.len() as nat),
            old(dependent_layers)@.len() <= self.systems@.len(),
        ensures
            final(dependent_layers)@.len() == old(dependent_layers)@.len(),
            ids_below(system_layers_view(final(layers)@), old(dependent_layers)@.len() as nat),
            r is Ok ==> final(layers)@.len() >= old(layers)@.len(),
            forall|s: SystemId|
                scheduled(system_layers_view(old(layers)@), s) ==> #[trigger] scheduled(
                    system_layers_view(final(layers)@),
                    s,
                ),
            r matches Err(c) ==> conflict_ids_below(c, old(dependent_layers)@.len() as nat),
            layers_run(
                (Seq::<EntryView>::empty(), old(dependent_layers)@),
                self.access@,
                system_layers_view(old(layers)@),
                old(layers)@.len() as nat,
            ) matches Some(fin) ==> {
                &&& r is Ok
                &&& system_layers_view(final(layers)@) == system_layers_view(old(layers)@)
                &&& final(dependent_layers)@ == fin.1
            },
            resolve_walk(
                self.access@,
                system_layers_view(old(layers)@),
                (Seq::<EntryView>::empty(), old(dependent_layers)@),
                0,
            ) matches Some(res) ==> {
                &&& r is Ok
                &&& system_layers_view(final(layers)@) == res.0
                &&& final(dependent_layers)@ == res.1
            },
            resolve_walk(
                self.access@,
                system_layers_view(old(layers)@),
                (Seq::<EntryView>::empty(), old(dependent_layers)@),
                0,
            ) is None ==> r is Err,
    {
        let ghost n = dependent_layers@.len() as nat;
        let ghost old_view = system_layers_view(layers@);
        let ghost init: TrackState = (Seq::<EntryView>::empty(), dependent_layers@);
        let ghost clean = layers_run(init, self.access@, old_view, old_view.len()) is Some;
        let ghost wres = resolve_walk(self.access@, old_view, init, 0);
        let mut resource_tracker = ResourceMutTracker::new();
        let mut layer_index: usize = 0;
        while layer_index < layers.len()
            invariant
                0 <= layer_index <= layers@.len(),
                dependent_layers@.len() == n,
                n <= self.systems@.len(),
                self.systems@.len() == self.access@.len(),
                ids_below(system_layers_view(layers@), n),
                n == old(dependent_layers)@.len(),
                layers@.len() >= old(layers)@.len(),
                layer_index > 0 ==> tracker_ready(
                    resource_tracker.entries(),
                    Layer((layer_index - 1) as usize),
                    n,
                ),
                layer_index == 0 ==> resource_tracker.entries().len() == 0,
                forall|s: SystemId|
                    scheduled(system_layers_view(old(layers)@), s) ==> #[trigger] scheduled(
                        system_layers_view(layers@),
                        s,
                    ),
                old_view == system_layers_view(old(layers)@),
                init == (Seq::<EntryView>::empty(), old(dependent_layers)@),
                clean == layers_run(init, self.access@, old_view, old_view.len()) is Some,
                clean ==> system_layers_view(layers@) == old_view && layers_run(
                    init,
                    self.access@,
                    old_view,
                    layer_index as nat,
                ) == Some((resource_tracker.entries(), dependent_layers@)),
                wres == resolve_walk(self.access@, old_view, init, 0),
                wres == resolve_walk(
                    self.access@,
                    system_layers_view(layers@),
                    (resource_tracker.entries(), dependent_layers@),
                    layer_index as nat,
                ),
            decreases layers@.len() - layer_index, (if layer_index < layers@.len() {
                layers@[layer_index as int]@.len() as int
            } else {
                0int
            }),
        {
            let cur = Layer(layer_index);
            let ghost lv0 = system_layers_view(layers@);
            proof {
                let es = resource_tracker.entries();
                assert(tracker_ready(es, cur, n));
                assert(recent_shared_in(es, cur, Set::<SystemId>::empty())) by {
                    assert forall|q: int| 0 <= q < es.len() implies (#[trigger] es[q]).1 != cur by {
                        assert(tracker_ready(es, Layer((layer_index - 1) as usize), n));
                    }
                }
            }
            let mut layer_systems: Vec<SystemId> = Vec::new();
            std::mem::swap(&mut layer_systems, &mut layers[layer_index]);
            let ghost x0 = layer_systems@;
            let ghost ls = layers@;
            proof {
                assert(lv0[layer_index as int] == x0);
                assert forall|k: int| 0 <= k < x0.len() implies (#[trigger] x0[k]).0 < n by {
                    assert(lv0[layer_index as int][k] == x0[k]);
                }
                assert(system_layers_view(ls) =~= lv0.update(
                    layer_index as int,
                    Seq::<SystemId>::empty(),
                ));
            }
            let mut tmp_exclusive: Vec<SystemId> = Vec::new();
            let mut tmp_shared: Vec<SystemId> = Vec::new();
            let ghost mut marked_set: Set<SystemId> = Set::empty();
            let ghost st_layer: TrackState = (resource_tracker.entries(), dependent_layers@);
            proof {
                if clean {
                    lemma_layers_run_prefix(
                        init,
                        self.access@,
                        old_view,
                        (layer_index + 1) as nat,
                        old_view.len(),
                    );
                    assert(layers_run(init, self.access@, old_view, (layer_index + 1) as nat)
                        == layer_run(st_layer, self.access@, x0, cur, x0.len()));
                }
            }
            let mut k: usize = 0;
            while k < layer_systems.len()
                invariant
                    0 <= k <= layer_systems@.len(),
                    layer_systems@ == x0,
                    0 <= layer_index < layers@.len(),
                    cur == Layer(layer_index),
                    dependent_layers@.len() == n,
                    n <= self.systems@.len(),
                    self.systems@.len() == self.access@.len(),
                    forall|j: int| 0 <= j < x0.len() ==> (#[trigger] x0[j]).0 < n,
                    tracker_ready(resource_tracker.entries(), cur, n),
                    recent_shared_in(resource_tracker.entries(), cur, marked_set),
                    forall|s: SystemId| #[trigger] marked_set.contains(s) ==> x0.contains(s),
                    forall|j: int| 0 <= j < tmp_shared@.len() ==> (#[trigger] tmp_shared@[j]).0 < n,
                    forall|j: int|
                        0 <= j < tmp_exclusive@.len() ==> (#[trigger] tmp_exclusive@[j]).0 < n,
                    tmp_shared@.len() > 0 ==> exists|j: int|
                        0 <= j < tmp_shared@.len() && x0.contains(tmp_shared@[j]),
                    ids_below(lv0, n),
                    layers@ == ls,
                    system_layers_view(ls) == lv0.update(
                        layer_index as int,
                        Seq::<SystemId>::empty(),
                    ),
                    layers@.len() == lv0.len(),
                    layer_index < usize::MAX,
                    n == old(dependent_layers)@.len(),
                    lv0[layer_index as int] == x0,
                    forall|s: SystemId|
                        scheduled(system_layers_view(old(layers)@), s) ==> #[trigger] scheduled(
                            lv0,
                            s,
                        ),
                    old_view == system_layers_view(old(layers)@),
                    clean == layers_run(init, self.access@, old_view, old_view.len()) is Some,
                    init == (Seq::<EntryView>::empty(), old(dependent_layers)@),
                    clean ==> layer_run(st_layer, self.access@, x0, cur, x0.len()) is Some,
                    clean ==> layer_run(st_layer, self.access@, x0, cur, k as nat) == Some(
                        (resource_tracker.entries(), dependent_layers@),
                    ) && tmp_shared@.len() == 0,
                    wres == resolve_walk(self.access@, old_view, init, 0),
                    wres == resolve_walk(self.access@, lv0, st_layer, layer_index as nat),
                    layer_walk(st_layer, self.access@, x0, cur, k as nat) == Some(
                        (
                            (resource_tracker.entries(), dependent_layers@),
                            tmp_exclusive@,
                            tmp_shared@,
                        ),
                    ),
                decreases x0.len() - k,
            {
                let system_id = layer_systems[k];
                let access = &self.access[system_id.0];
                let ghost st0 = (resource_tracker.entries(), dependent_layers@);
                let res = resource_tracker.mark_access(
                    access,
                    cur,
                    system_id,
                    dependent_layers,
                );
                proof {
                    lemma_recent_marked(
                        st0,
                        crate::schedule::resource_tracker::access_ops(
                            crate::schedule::resource_tracker::sorted_items(access.exclusive@),
                            crate::schedule::resource_tracker::sorted_items(access.shared@),
                        ),
                        system_id,
                        cur,
                        res,
                        (resource_tracker.entries(), dependent_layers@),
                        marked_set,
                    );
                    assert(x0.contains(system_id)) by {
                        assert(x0[k as int] == system_id);
                    }
                    assert(system_ops(self.access@, system_id)
                        == crate::schedule::resource_tracker::access_ops(
                        crate::schedule::resource_tracker::sorted_items(access.exclusive@),
                        crate::schedule::resource_tracker::sorted_items(access.shared@),
                    ));
                    lemma_marked_outcome(
                        st0,
                        system_ops(self.access@, system_id),
                        system_id,
                        cur,
                        res,
                        (resource_tracker.entries(), dependent_layers@),
                    );
                    assert(x0[k as int] == system_id);
                    if clean {
                        let ops = system_ops(self.access@, system_id);
                        assert(ops == crate::schedule::resource_tracker::access_ops(
                            crate::schedule::resource_tracker::sorted_items(access.exclusive@),
                            crate::schedule::resource_tracker::sorted_items(access.shared@),
                        ));
                        lemma_layer_run_prefix(
                            st_layer,
                            self.access@,
                            x0,
                            cur,
                            (k + 1) as nat,
                            x0.len(),
                        );
                        assert(x0[k as int] == system_id);
                        assert(system_clean(st0, self.access@, system_id, cur));
                        if res is Err {
                            let j = choose|j: int|
                                0 <= j < ops.len() && (forall|i: int|
                                    0 <= i < j ==> !op_fails(
                                        #[trigger] state_after(st0, ops, system_id, cur, i),
                                        ops[i],
                                        cur,
                                    )) && op_fails(
                                    #[trigger] state_after(st0, ops, system_id, cur, j),
                                    ops[j],
                                    cur,
                                ) && op_conflict(
                                    res->Err_0,
                                    state_after(st0, ops, system_id, cur, j),
                                    ops[j],
                                    system_id,
                                    cur,
                                ) && (resource_tracker.entries(), dependent_layers@)
                                    == state_after(st0, ops, system_id, cur, j + 1);
                            assert(false);
                        }
                        assert(layer_run(st_layer, self.access@, x0, cur, (k + 1) as nat) == Some(
                            (resource_tracker.entries(), dependent_layers@),
                        ));
                    }
                }
                match res {
                    Ok(()) => {},
                    Err(ResourceConflict::SharedExclusive { system_shared, system_exclusive, .. }) => {
                        let mut system_shared = system_shared;
                        let ghost ts0 = tmp_shared@;
                        let ghost ss = system_shared@;
                        tmp_exclusive.push(system_exclusive);
                        tmp_shared.append(&mut system_shared);
                        proof {
                            assert(tmp_shared@ == ts0 + ss);
                            if ts0.len() > 0 {
                                let j = choose|j: int| 0 <= j < ts0.len() && x0.contains(ts0[j]);
                                assert(tmp_shared@[j] == ts0[j]);
                            } else if ss.len() > 0 {
                                let j = choose|j: int|
                                    0 <= j < ss.len() && marked_set.insert(system_id).contains(
                                        ss[j],
                                    );
                                assert(tmp_shared@[j] == ss[j]);
                                assert(x0.contains(ss[j]));
                            }
                            assert forall|j: int| 0 <= j < tmp_shared@.len() implies (
                            #[trigger] tmp_shared@[j]).0 < n by {
                                if j >= ts0.len() {
                                    assert(tmp_shared@[j] == ss[j - ts0.len()]);
                                }
                            }
                        }
                    },
                    Err(e) => {
                        layers.set(layer_index, layer_systems);
                        proof {
                            let lvn = system_layers_view(layers@);
                            assert forall|i: int| 0 <= i < lvn.len() implies lvn[i] == lv0[i] by {
                                if i != layer_index {
                                    assert(lvn[i] == system_layers_view(ls)[i]);
                                }
                            }
                            assert(lvn =~= lv0);
                            assert(layer_walk(st_layer, self.access@, x0, cur, (k + 1) as nat)
                                is None);
                            lemma_layer_walk_none(
                                st_layer,
                                self.access@,
                                x0,
                                cur,
                                (k + 1) as nat,
                                x0.len(),
                            );
                            assert(wres is None);
                        }
                        return Err(e);
                    },
                }
                proof {
                    marked_set = marked_set.insert(system_id);
                }
                k += 1;
            }
            let ghost te_all = tmp_exclusive@;
            let ghost ts_all = tmp_shared@;
            let ghost st1: TrackState = (resource_tracker.entries(), dependent_layers@);
            proof {
                assert(layer_walk(st_layer, self.access@, x0, cur, x0.len()) == Some(
                    (st1, te_all, ts_all),
                ));
            }
            if tmp_shared.len() > 0 {
                let mut q: usize = 0;
                while q < tmp_exclusive.len()
                    invariant
                        0 <= q <= tmp_exclusive@.len(),
                        tmp_exclusive@ == te_all,
                        tmp_shared@ == ts_all,
                        ts_all.len() > 0,
                        forall|j: int| 0 <= j < q ==> !ts_all.contains(#[trigger] te_all[j]),
                        wres == resolve_walk(self.access@, old_view, init, 0),
                        wres == resolve_walk(self.access@, lv0, st_layer, layer_index as nat),
                        layer_walk(st_layer, self.access@, x0, cur, x0.len()) == Some(
                            (st1, te_all, ts_all),
                        ),
                        cur == Layer(layer_index),
                        resource_tracker.entries() == st1.0,
                        dependent_layers@ == st1.1,
                        tracker_ready(resource_tracker.entries(), cur, n),
                        tmp_shared@.len() > 0 ==> exists|j: int|
                            0 <= j < tmp_shared@.len() && x0.contains(tmp_shared@[j]),
                        layer_systems@ == x0,
                        0 <= layer_index < layers@.len(),
                        ids_below(lv0, n),
                        layers@ == ls,
                        system_layers_view(ls) == lv0.update(
                            layer_index as int,
                            Seq::<SystemId>::empty(),
                        ),
                        lv0[layer_index as int] == x0,
                        layers@.len() == lv0.len(),
                        n == old(dependent_layers)@.len(),
                        dependent_layers@.len() == n,
                        forall|s: SystemId|
                            scheduled(system_layers_view(old(layers)@), s) ==> #[trigger] scheduled(
                                lv0,
                                s,
                            ),
                        forall|j: int|
                            0 <= j < tmp_shared@.len() ==> (#[trigger] tmp_shared@[j]).0 < n,
                        forall|j: int|
                            0 <= j < tmp_exclusive@.len() ==> (#[trigger] tmp_exclusive@[j]).0 < n,
                        old_view == system_layers_view(old(layers)@),
                        init == (Seq::<EntryView>::empty(), old(dependent_layers)@),
                        clean == layers_run(init, self.access@, old_view, old_view.len()) is Some,
                        !clean,
                    decreases tmp_exclusive@.len() - q,
                {
                    let e = tmp_exclusive[q];
                    if contains_system(&tmp_shared, e) {
                        layers.set(layer_index, layer_systems);
                        proof {
                            let lvn = system_layers_view(layers@);
                            assert forall|i: int| 0 <= i < lvn.len() implies lvn[i] == lv0[i] by {
                                if i != layer_index {
                                    assert(lvn[i] == system_layers_view(ls)[i]);
                                }
                            }
                            assert(lvn =~= lv0);
                            assert(ts_all.contains(te_all[q as int]));
                            assert(resolve_step(lv0, st1.1, layer_index as int, te_all, ts_all)
                                is None);
                            assert(wres is None);
                        }
                        return Err(
                            ResourceConflict::SharedExclusive {
                                resource: 0,
                                system_shared: tmp_shared,
                                system_exclusive: e,
                                layer: layer_index,
                            },
                        );
                    }
                    q += 1;
                }
                let kept = without_systems(&layer_systems, &tmp_shared);
                let ghost lv1 = system_layers_view(layers@);
                let ghost ts = tmp_shared@;
                layers.set(layer_index, kept);
                layers.insert(layer_index, tmp_shared);
                shift_values(dependent_layers, layer_index + 1, 1);
                let ghost shifted_dep = dependent_layers@;
                let dep_len = dependent_layers.len();
                proof {
                    assert(shifted_dep =~= shifted(st1.1, (layer_index + 1) as usize));
                    assert(shifted_dep =~= lowered_excl(
                        shifted_dep,
                        te_all.take(0),
                        (layer_index + 1) as usize,
                    ));
                }
                let mut q: usize = 0;
                while q < tmp_exclusive.len()
                    invariant
                        0 <= q <= tmp_exclusive@.len(),
                        dependent_layers@.len() == n,
                        forall|j: int|
                            0 <= j < tmp_exclusive@.len() ==> (#[trigger] tmp_exclusive@[j]).0 < n,
                        layer_index < usize::MAX,
                        tmp_exclusive@ == te_all,
                        shifted_dep.len() == n,
                        n == dep_len,
                        dependent_layers@ == lowered_excl(
                            shifted_dep,
                            te_all.take(q as int),
                            (layer_index + 1) as usize,
                        ),
                    decreases tmp_exclusive@.len() - q,
                {
                    let e = tmp_exclusive[q];
                    let ghost d0 = dependent_layers@;
                    if dependent_layers[e.0].0 > layer_index + 1 {
                        dependent_layers.set(e.0, Layer(layer_index + 1));
                    }
                    proof {
                        let b = (layer_index + 1) as usize;
                        assert(te_all.take(q + 1) =~= te_all.take(q as int).push(e));
                        let lo0 = te_all.take(q as int);
                        let lo1 = te_all.take(q + 1);
                        assert forall|t: int| 0 <= t < n implies #[trigger] dependent_layers@[t]
                            == lowered_excl(shifted_dep, lo1, b)[t] by {
                            let id = SystemId(t as usize);
                            assert(lo1.contains(id) <==> (lo0.contains(id) || e == id)) by {
                                if lo1.contains(id) {
                                    let j = choose|j: int| 0 <= j < q + 1 && #[trigger] lo1[j] == id;
                                    assert(lo1[j] == te_all[j]);
                                    if j < q {
                                        assert(lo0[j] == te_all[j]);
                                    } else {
                                        assert(te_all[j] == e);
                                    }
                                }
                                if lo0.contains(id) {
                                    let j = choose|j: int| 0 <= j < q && #[trigger] lo0[j] == id;
                                    assert(lo0[j] == te_all[j]);
                                    assert(lo1[j] == te_all[j]);
                                }
                                if e == id {
                                    assert(lo1[q as int] == e);
                                }
                            }
                            assert(d0[t] == lowered_excl(shifted_dep, lo0, b)[t]);
                            if t == e.0 {
                                assert(e == id);
                            } else {
                                assert(id.0 == t);
                                assert(e != id);
                            }
                        }
                        assert(dependent_layers@ =~= lowered_excl(shifted_dep, te_all.take(q + 1), b));
                    }
                    q += 1;
                }
                proof {
                    assert(te_all.take(te_all.len() as int) =~= te_all);
                }
                proof {
                    let lvn = system_layers_view(layers@);
                    assert(lvn =~= lv0.update(layer_index as int, kept@).insert(
                        layer_index as int,
                        ts,
                    ));
                    assert forall|i: int, j: int|
                        0 <= i < lvn.len() && 0 <= j < lvn[i].len() implies (#[trigger] lvn[i][j]).0
                            < n by {
                        if i < layer_index {
                            assert(lvn[i] == lv0[i]);
                        } else if i == layer_index {
                            assert(lvn[i] == ts);
                        } else if i == layer_index + 1 {
                            assert(lvn[i] == kept@);
                            assert(x0.contains(kept@[j]));
                            let t = choose|t: int| 0 <= t < x0.len() && x0[t] == kept@[j];
                        } else {
                            assert(lvn[i] == lv0[i - 1]);
                        }
                    }
                    assert(layers@[layer_index + 1]@ == kept@);
                    assert(exists|j: int| 0 <= j < ts_all.len() && x0.contains(ts_all[j]));
                    lemma_walk_split(
                        self.access@,
                        lv0,
                        st_layer,
                        layer_index as nat,
                        st1,
                        te_all,
                        ts_all,
                    );
                    assert(lvn == lv0.update(layer_index as int, without_spec(x0, ts_all)).insert(
                        layer_index as int,
                        ts_all,
                    ));
                    assert forall|s: SystemId| #[trigger] scheduled(lv0, s) implies scheduled(
                        lvn,
                        s,
                    ) by {
                        let i = choose|i: int| 0 <= i < lv0.len() && #[trigger] lv0[i].contains(s);
                        if i < layer_index {
                            assert(lvn[i] == lv0[i]);
                        } else if i > layer_index {
                            assert(lvn[i + 1] == lv0[i]);
                        } else if ts.contains(s) {
                            assert(lvn[i] == ts);
                        } else {
                            let t = choose|t: int| 0 <= t < x0.len() && x0[t] == s;
                            assert(kept@.contains(x0[t]));
                            assert(lvn[i + 1] == kept@);
                        }
                    }
                }
            } else {
                layers.set(layer_index, layer_systems);
                proof {
                    let lvn = system_layers_view(layers@);
                    assert(lvn =~= lv0);
                    assert(ts_all =~= Seq::<SystemId>::empty());
                    lemma_walk_keep(self.access@, lv0, st_layer, layer_index as nat, st1, te_all);
                }
            }
            proof {
                assert forall|s: SystemId|
                    scheduled(system_layers_view(old(layers)@), s) implies #[trigger] scheduled(
                    system_layers_view(layers@),
                    s,
                ) by {
                    assert(scheduled(lv0, s));
                }
            }
            layer_index += 1;
        }
        Ok(())
    }

    /// Builds the layers: sorts the dependency graph, gives exclusive systems layers of
    /// their own, orders exclusive before shared resource access, and moves systems that
    /// must run on the schedule's thread to the end of their layers. Every system of a node
    /// that does not run alone stands in some layer. Each system's dependent layer is the
    /// first layer with a system that must wait for it, by the graph or by conflicting
    /// accesses: a run must have finished the system by then. On an error the last layers
    /// are kept.
    #[verifier::rlimit(80)]
    pub fn rebuild(&mut self) -> (r: Result<(), ScheduleError>)
        requires
            old(self).wf(),
        ensures
            final(self).wf(),
            final(self).systems() == old(self).systems(),
            final(self).accesses() == old(self).accesses(),
            final(self).labels() == old(self).labels(),
            final(self).graph() == old(self).graph(),
            final(self).version() == old(self).version(),
            final(self).atom() == old(self).atom(),
            (r matches Err(ScheduleError::GraphError(_))) == !schedulable(
                old(self).graph().nodes(),
            ),
            r is Err ==> final(self).layers() == old(self).layers(),
            r is Err ==> final(self).dependent_layers() == old(self).dependent_layers(),
            r is Ok ==> {
                &&& final(self).dependent_layers().len() == systems_len_of(
                    old(self).graph().nodes(),
                    old(self).graph().nodes().len() as int,
                )
                &&& ids_below(final(self).layers(), final(self).dependent_layers().len() as nat)
                &&& forall|i: int|
                    0 <= i < final(self).layers().len() ==> unsend_last(
                        final(self).systems(),
                        #[trigger] final(self).layers()[i],
                    )
                &&& forall|m: int|
                    0 <= m < old(self).graph().nodes().len() && old(self).graph().nodes()[m].system.0
                        != usize::MAX && kind_of(
                        old(self).systems(),
                        old(self).graph().nodes()[m].system,
                    ) != SystemKind::Exclusive ==> #[trigger] scheduled(
                        final(self).layers(),
                        old(self).graph().nodes()[m].system,
                    )
            },
            r is Ok ==> forall|s: int, j: int, k: int|
                0 <= s < final(self).dependent_layers().len() && 0 <= j < final(self).layers().len()
                    && 0 <= k < final(self).layers()[j].len() && #[trigger] graph_waits(
                    old(self).graph().nodes(),
                    s as usize,
                    final(self).layers()[j][k].0,
                ) ==> final(self).dependent_layers()[s].0 <= j,
            r matches Err(ScheduleError::ResourceConflict(c)) ==> conflict_ids_below(
                c,
                systems_len_of(old(self).graph().nodes(), old(self).graph().nodes().len() as int)
                    as nat,
            ),
            (r is Ok || (r matches Err(ScheduleError::ResourceConflict(_)))) ==> exists|
                sorted: Seq<Seq<SystemId>>,
                dsorted: Seq<Layer>,
                split: Seq<Seq<SystemId>>,
                dsplit: Seq<Layer>,
            |
                #[trigger] built_from(
                    old(self).graph().nodes(),
                    old(self).systems(),
                    old(self).accesses(),
                    sorted,
                    dsorted,
                    split,
                    dsplit,
                    r is Ok,
                    final(self).layers(),
                    final(self).dependent_layers(),
                ),
            no_exclusive_access(old(self).accesses(), old(self).systems().len() as int) ==> {
                &&& (r is Ok <==> schedulable(old(self).graph().nodes()))
                &&& r is Ok ==> forall|i: int|
                    0 <= i < final(self).layers().len() ==> homogeneous(
                        final(self).systems(),
                        #[trigger] final(self).layers()[i],
                    )
            },
    {
        let wg = self.graph.work_graph();
        let sorted = wg.systems_topological_order_with_dependent_layers();
        let (mut layers, mut dependent_layer) = match sorted {
            Ok(p) => p,
            Err(e) => {
                return Err(ScheduleError::GraphError(e));
            },
        };
        proof {
            let nodes = self.graph.nodes();
            assert(both_sorted(nodes, system_layers_view(layers@), dependent_layer@));
            let ls = choose|ls: Seq<Seq<NodeId>>|
                is_layering(nodes, ls) && #[trigger] sorts_systems(
                    nodes,
                    ls,
                    system_layers_view(layers@),
                ) && dependent_layers_of(nodes, ls, dependent_layer@);
            assert forall|m: int| 0 <= m < nodes.len() implies (#[trigger] nodes[m]).system.0
                == usize::MAX || nodes[m].system.0 < self.systems@.len() by {}
            lemma_system_layers_bounded(nodes, ls, self.systems@.len() as int);
        }
        let ghost sorted_view = system_layers_view(layers@);
        let ghost dsplit_sorted = dependent_layer@;
        let node_count = self.graph.len();
        proof {
            let nodes = self.graph.nodes();
            let ls = choose|ls: Seq<Seq<NodeId>>|
                is_layering(nodes, ls) && #[trigger] sorts_systems(
                    nodes,
                    ls,
                    system_layers_view(layers@),
                ) && dependent_layers_of(nodes, ls, dependent_layer@);
            assert forall|m: int|
                0 <= m < nodes.len() && nodes[m].system.0 != usize::MAX implies #[trigger] scheduled(
                sorted_view,
                nodes[m].system,
            ) && nodes[m].system.0 < dependent_layer@.len() by {
                assert(m < node_count);
                assert((m as usize) as int == m);
                assert(crate::schedule::graph::has_system(nodes, m as usize));
                lemma_node_system_in_layers(nodes, ls, m as usize);
                let i = choose|i: int|
                    0 <= i < system_layers_of(nodes, ls).len() && #[trigger] system_layers_of(
                        nodes,
                        ls,
                    )[i].contains(nodes[m].system);
                assert(sorted_view[i].contains(nodes[m].system));
                let k = choose|k: int| 0 <= k < sorted_view[i].len() && sorted_view[i][k] == nodes[m].system;
                assert(system_layers_of(nodes, ls)[i][k] == nodes[m].system);
            }
        }
        self.split_exclusive(&mut layers, &mut dependent_layer);
        proof {
            let nodes = self.graph.nodes();
            let split_view = system_layers_view(layers@);
            assert forall|m: int|
                0 <= m < nodes.len() && nodes[m].system.0 != usize::MAX && kind_of(
                    self.systems@,
                    nodes[m].system,
                ) != SystemKind::Exclusive implies #[trigger] scheduled(
                split_view,
                nodes[m].system,
            ) by {
                let s = nodes[m].system;
                assert(scheduled(sorted_view, s));
                lemma_layers_ms_scheduled(sorted_view, s);
                lemma_layers_ms_scheduled(split_view, s);
                assert(layers_ms(split_view).count(s) == layers_ms(sorted_view).count(s));
            }
        }
        let ghost split_view = system_layers_view(layers@);
        let ghost dsplit = dependent_layer@;
        let split_count = layers.len();
        proof {
            if no_exclusive_access(self.access@, self.systems@.len() as int) {
                assert forall|a: int, j: int|
                    0 <= a < split_view.len() && 0 <= j < split_view[a].len() implies self.access@[(
                    #[trigger] split_view[a][j]).0 as int].exclusive@ == Set::<usize>::empty() by {
                    assert(split_view[a][j].0 < dependent_layer@.len());
                }
                assert(no_exclusive_marks(Seq::<EntryView>::empty()));
                lemma_shared_layers_run(
                    (Seq::<EntryView>::empty(), dependent_layer@),
                    self.access@,
                    split_view,
                    split_count as nat,
                );
            }
        }
        let ghost layers_before = self.layers();
        let ghost dep_before = self.dependent_layers();
        match self.resolve_resource_conflicts(&mut layers, &mut dependent_layer) {
            Ok(()) => {},
            Err(e) => {
                let result: Result<(), ScheduleError> = Err(ScheduleError::ResourceConflict(e));
                proof {
                    assert(built_from(
                        self.graph.nodes(),
                        self.systems@,
                        self.access@,
                        sorted_view,
                        dsplit_sorted,
                        split_view,
                        dsplit,
                        result is Ok,
                        self.layers(),
                        self.dependent_layers(),
                    ));
                    assert(built_from(
                        old(self).graph().nodes(),
                        old(self).systems(),
                        old(self).accesses(),
                        sorted_view,
                        dsplit_sorted,
                        split_view,
                        dsplit,
                        result is Ok,
                        self.layers(),
                        self.dependent_layers(),
                    ));
                }
                return result;
            },
        }
        let ghost resolved_dep = dependent_layer@;
        proof {
            let lv = system_layers_view(layers@);
            assert forall|i: int, k: int| 0 <= i < lv.len() && 0 <= k < lv[i].len() implies (
            #[trigger] lv[i][k]).0 < self.systems@.len() by {}
            assert(lv == layers@.map_values(|l: Vec<SystemId>| l@));
        }
        let ghost before_move = system_layers_view(layers@);
        let ghost old_layers_at_move = layers@;
        proof {
            let nodes = self.graph.nodes();
            assert forall|m: int|
                0 <= m < nodes.len() && nodes[m].system.0 != usize::MAX && kind_of(
                    self.systems@,
                    nodes[m].system,
                ) != SystemKind::Exclusive implies #[trigger] scheduled(
                before_move,
                nodes[m].system,
            ) by {
                assert(scheduled(split_view, nodes[m].system));
            }
        }
        self.move_nonsent_to_end_of_layers(&mut layers);
        proof {
            let lv = system_layers_view(layers@);
            assert forall|i: int, k: int| 0 <= i < lv.len() && 0 <= k < lv[i].len() implies (
            #[trigger] lv[i][k]).0 < dependent_layer@.len() by {
                assert(lv[i][k] == layers@[i]@[k]);
                assert(before_move[i].contains(lv[i][k]));
                let j = choose|j: int| 0 <= j < before_move[i].len() && before_move[i][j] == lv[i][k];
            }
        }
        let waits = self.wait_layers(&layers);
        self.ordered_layers = layers;
        self.system_dependent_layers = waits;
        proof {
            assert(self.layers() == system_layers_view(self.ordered_layers@));
            assert forall|i: int| 0 <= i < self.layers().len() implies unsend_last(
                self.systems(),
                #[trigger] self.layers()[i],
            ) by {
                assert(self.layers()[i] == self.ordered_layers@[i]@);
            }
            let nodes = self.graph.nodes();
            assert forall|m: int|
                0 <= m < nodes.len() && nodes[m].system.0 != usize::MAX && kind_of(
                    self.systems@,
                    nodes[m].system,
                ) != SystemKind::Exclusive implies #[trigger] scheduled(
                self.layers(),
                nodes[m].system,
            ) by {
                let s = nodes[m].system;
                assert(scheduled(before_move, s));
                let i = choose|i: int| 0 <= i < before_move.len() && #[trigger] before_move[i].contains(s);
                assert(before_move[i] == old_layers_at_move[i]@);
                vstd::seq_lib::to_multiset_contains(before_move[i], s);
                vstd::seq_lib::to_multiset_contains(self.layers()[i], s);
                assert(self.layers()[i] == self.ordered_layers@[i]@);
                assert(self.layers()[i].contains(s));
            }
            assert forall|i: int| 0 <= i < self.layers().len() implies (
            #[trigger] self.layers()[i]).to_multiset() == before_move[i].to_multiset() by {
                assert(self.layers()[i] == self.ordered_layers@[i]@);
                assert(before_move[i] == old_layers_at_move[i]@);
            }
            assert forall|i: int| 0 <= i < self.layers().len() implies #[trigger] self.layers()[i]
                == unsend_moved_layers(self.systems@, before_move)[i] by {
                assert(self.layers()[i] == self.ordered_layers@[i]@);
                assert(before_move[i] == old_layers_at_move[i]@);
            }
            assert(self.layers() =~= unsend_moved_layers(self.systems@, before_move));
            assert(built_from(
                self.graph.nodes(),
                self.systems@,
                self.access@,
                sorted_view,
                dsplit_sorted,
                split_view,
                dsplit,
                Ok::<(), ScheduleError>(()) is Ok,
                self.layers(),
                self.dependent_layers(),
            ));
            assert(built_from(
                old(self).graph().nodes(),
                old(self).systems(),
                old(self).accesses(),
                sorted_view,
                dsplit_sorted,
                split_view,
                dsplit,
                Ok::<(), ScheduleError>(()) is Ok,
                self.layers(),
                self.dependent_layers(),
            ));
            if no_exclusive_access(self.access@, self.systems@.len() as int) {
                assert(before_move == split_view);
                assert forall|i: int| 0 <= i < self.layers().len() implies homogeneous(
                    self.systems(),
                    #[trigger] self.layers()[i],
                ) by {
                    assert(self.layers()[i] == self.ordered_layers@[i]@);
                    assert(before_move[i] == old_layers_at_move[i]@);
                    assert(homogeneous(self.systems@, split_view[i]));
                    lemma_homogeneous_permuted(self.systems@, before_move[i], self.layers()[i]);
                }
            }
        }
        proof {
            let nodes = self.graph.nodes();
            let lv = self.layers();
            let dep = self.dependent_layers();
            assert(wait_layers_of(nodes, self.access@, lv, dep));
            assert forall|s: int, j: int, k: int|
                0 <= s < dep.len() && 0 <= j < lv.len() && 0 <= k < lv[j].len() && #[trigger] graph_waits(
                    nodes,
                    s as usize,
                    lv[j][k].0,
                ) implies dep[s].0 <= j by {
                assert(is_wait_layer(nodes, self.access@, lv, s as usize, dep[s]));
                assert(wait_at(nodes, self.access@, lv, s as usize, j, k));
            }
        }
        Ok(())
    }

    /// Prepares a run with the resources of container `resources_atom`, whose version is
    /// `resources_version`: the schedule takes the container's identity when it has none,
    /// and returns whether its systems must be initialized and the schedule rebuilt, which is
    /// when the container's version was dirty or the schedule's differs from it.
    pub fn begin_init(&mut self, resources_atom: Atom, resources_version: &mut DirtyVersion) -> (r:
        bool)
        requires
            old(self).atom().0 == 0 || old(self).atom() == resources_atom,
            old(resources_version).can_reset(),
        ensures
            final(self).atom() == resources_atom,
            final(resources_version).0 == DirtyVersion::spec_reset_value(
                old(resources_version).0 as int,
            ),
            final(self).version().0 == final(resources_version).0,
            r == (old(resources_version).spec_is_dirty() || old(self).version().0 != old(
                resources_version,
            ).0),
            final(self).systems() == old(self).systems(),
            final(self).accesses() == old(self).accesses(),
            final(self).labels() == old(self).labels(),
            final(self).graph() == old(self).graph(),
            final(self).layers() == old(self).layers(),
            final(self).dependent_layers() == old(self).dependent_layers(),
            old(self).wf() ==> final(self).wf(),
    {
        if self.atom != resources_atom {
            self.atom = resources_atom;
        }
        self.version.check_and_reset(resources_version)
    }

    /// Whether the schedule may be initialized with the container `resources_atom`: it was
    /// not initialized yet, or with that container.
    pub fn accepts_resources(&self, resources_atom: Atom) -> (r: bool)
        ensures
            r == (self.atom().0 == 0 || self.atom() == resources_atom),
    {
        self.atom.0 == 0 || self.atom == resources_atom
    }

    /// The access of `system`, for its system to update.
    pub fn access_mut(&mut self, system: SystemId) -> (r: &mut ResourceAccess)
        requires
            system.0 < old(self).accesses().len(),
        ensures
            *r == old(self).accesses()[system.0 as int],
            final(self).accesses() == old(self).accesses().update(system.0 as int, *final(r)),
            final(self).systems() == old(self).systems(),
            final(self).labels() == old(self).labels(),
            final(self).graph() == old(self).graph(),
            final(self).layers() == old(self).layers(),
            final(self).dependent_layers() == old(self).dependent_layers(),
            final(self).version() == old(self).version(),
            final(self).atom() == old(self).atom(),
    {
        &mut self.access[system.0]
    }

    /// The layers of the last build.
    pub fn ordered_layers(&self) -> (r: &Vec<Vec<SystemId>>)
        ensures
            system_layers_view(r@) == self.layers(),
    {
        &self.ordered_layers
    }

    /// The dependent layer of each system, as of the last build.
    pub fn system_dependent_layers(&self) -> (r: &Vec<Layer>)
        ensures
            r@ == self.dependent_layers(),
    {
        &self.system_dependent_layers
    }

    /// The kind of each system.
    pub fn system_kinds(&self) -> (r: &Vec<SystemKind>)
        ensures
            r@ == self.systems(),
    {
        &self.systems
    }

    /// Lowers to layer `j` the entry of `dep` of every system in a layer before `j` whose
    /// accesses conflict with those of system `t`, where the entry is later.
    fn lower_conflicts(&self, dep: &mut Vec<Layer>, layers: &Vec<Vec<SystemId>>, t: SystemId, j: usize)
        requires
            j <= layers@.len(),
            t.0 < self.access@.len(),
            ids_below(system_layers_view(layers@), old(dep)@.len() as nat),
            old(dep)@.len() <= self.access@.len(),
        ensures
            final(dep)@.len() == old(dep)@.len(),
            forall|s: int|
                0 <= s < old(dep)@.len() ==> #[trigger] final(dep)@[s] == (if conflict_before(
                    self.access@,
                    system_layers_view(layers@),
                    s as usize,
                    t.0,
                    j as int,
                ) && old(dep)@[s].0 > j {
                    Layer(j)
                } else {
                    old(dep)@[s]
                }),
    {
        let ghost d0 = dep@;
        let ghost lv = system_layers_view(layers@);
        let ghost acc = self.access@;
        let dlen = dep.len();
        let mut i: usize = 0;
        while i < j
            invariant
                d0.len() == dlen,
                0 <= i <= j,
                j <= layers@.len(),
                lv == system_layers_view(layers@),
                acc == self.access@,
                t.0 < acc.len(),
                ids_below(lv, d0.len() as nat),
                d0.len() <= acc.len(),
                dep@.len() == d0.len(),
                forall|s: int|
                    0 <= s < d0.len() ==> #[trigger] dep@[s] == (if conflict_before(
                        acc,
                        lv,
                        s as usize,
                        t.0,
                        i as int,
                    ) && d0[s].0 > j {
                        Layer(j)
                    } else {
                        d0[s]
                    }),
            decreases j - i,
        {
            let mut q: usize = 0;
            while q < layers[i].len()
                invariant
                    d0.len() == dlen,
                    0 <= i < j,
                    j <= layers@.len(),
                    lv == system_layers_view(layers@),
                    acc == self.access@,
                    t.0 < acc.len(),
                    ids_below(lv, d0.len() as nat),
                    d0.len() <= acc.len(),
                    dep@.len() == d0.len(),
                    0 <= q <= lv[i as int].len(),
                    forall|s: int|
                        0 <= s < d0.len() ==> #[trigger] dep@[s] == (if (conflict_before(
                            acc,
                            lv,
                            s as usize,
                            t.0,
                            i as int,
                        ) || exists|qq: int|
                            0 <= qq < q && lv[i as int][qq] == SystemId(s as usize)
                                && !acc[s].compatible(&acc[t.0 as int])) && d0[s].0 > j {
                            Layer(j)
                        } else {
                            d0[s]
                        }),
                decreases lv[i as int].len() - q,
            {
                let sid = layers[i][q];
                proof {
                    assert(lv[i as int][q as int] == sid);
                }
                let ghost before = dep@;
                if !self.access[sid.0].is_compatible(&self.access[t.0]) && dep[sid.0].0 > j {
                    dep.set(sid.0, Layer(j));
                }
                proof {
                    assert forall|s: int| 0 <= s < d0.len() implies #[trigger] dep@[s] == (if (conflict_before(
                        acc,
                        lv,
                        s as usize,
                        t.0,
                        i as int,
                    ) || exists|qq: int|
                        0 <= qq < q + 1 && lv[i as int][qq] == SystemId(s as usize)
                            && !acc[s].compatible(&acc[t.0 as int])) && d0[s].0 > j {
                        Layer(j)
                    } else {
                        d0[s]
                    }) by {
                        let old_e = exists|qq: int|
                            0 <= qq < q && lv[i as int][qq] == SystemId(s as usize)
                                && !acc[s].compatible(&acc[t.0 as int]);
                        let new_e = exists|qq: int|
                            0 <= qq < q + 1 && lv[i as int][qq] == SystemId(s as usize)
                                && !acc[s].compatible(&acc[t.0 as int]);
                        if old_e {
                            let qq = choose|qq: int|
                                0 <= qq < q && lv[i as int][qq] == SystemId(s as usize)
                                    && !acc[s].compatible(&acc[t.0 as int]);
                            assert(0 <= qq < q + 1);
                        }
                        if sid.0 as int == s && !acc[s].compatible(&acc[t.0 as int]) {
                            assert(lv[i as int][q as int] == SystemId(s as usize));
                            assert(new_e);
                        } else {
                            assert(dep@[s] == before[s]);
                            if new_e {
                                let qq = choose|qq: int|
                                    0 <= qq < q + 1 && lv[i as int][qq] == SystemId(s as usize)
                                        && !acc[s].compatible(&acc[t.0 as int]);
                                if qq == q {
                                    assert(sid.0 as int == s);
                                }
                                assert(old_e);
                            }
                        }
                    }
                }
                q += 1;
            }
            proof {
                assert forall|s: int| 0 <= s < d0.len() implies #[trigger] conflict_before(
                    acc,
                    lv,
                    s as usize,
                    t.0,
                    i + 1,
                ) == (conflict_before(acc, lv, s as usize, t.0, i as int) || exists|qq: int|
                    0 <= qq < lv[i as int].len() && lv[i as int][qq] == SystemId(s as usize)
                        && !acc[s].compatible(&acc[t.0 as int])) by {
                    if conflict_before(acc, lv, s as usize, t.0, i + 1) {
                        let (a, b) = choose|a: int, b: int|
                            0 <= a < i + 1 && 0 <= b < lv[a].len() && #[trigger] lv[a][b] == SystemId(s as usize)
                                && !acc[s].compatible(&acc[t.0 as int]);
                        if a < i {
                            assert(conflict_before(acc, lv, s as usize, t.0, i as int));
                        }
                    }
                    if conflict_before(acc, lv, s as usize, t.0, i as int) {
                        let (a, b) = choose|a: int, b: int|
                            0 <= a < i && 0 <= b < lv[a].len() && #[trigger] lv[a][b] == SystemId(s as usize)
                                && !acc[s].compatible(&acc[t.0 as int]);
                        assert(0 <= a < i + 1);
                    }
                    if exists|qq: int|
                        0 <= qq < lv[i as int].len() && lv[i as int][qq] == SystemId(s as usize)
                            && !acc[s].compatible(&acc[t.0 as int]) {
                        let qq = choose|qq: int|
                            0 <= qq < lv[i as int].len() && lv[i as int][qq] == SystemId(s as usize)
                                && !acc[s].compatible(&acc[t.0 as int]);
                        assert(lv[i as int][qq] == SystemId(s as usize));
                    }
                }
            }
            i += 1;
        }
    }

    /// For each system of the graph, the layer by which it must have run: the first of
    /// `layers` with a system that waits for it by the graph, or that runs after it with
    /// accesses in conflict with its own; undefined when there is none.
    fn wait_layers(&self, layers: &Vec<Vec<SystemId>>) -> (r: Vec<Layer>)
        requires
            self.wf(),
            ids_below(
                system_layers_view(layers@),
                systems_len_of(self.graph.nodes(), self.graph.nodes().len() as int) as nat,
            ),
        ensures
            wait_layers_of(self.graph.nodes(), self.access@, system_layers_view(layers@), r@),
    {
        let ghost nodes = self.graph.nodes();
        let ghost lv = system_layers_view(layers@);
        let ghost acc = self.access@;
        let n = self.graph.systems_len();
        proof {
            assert forall|m: int| 0 <= m < nodes.len() implies (#[trigger] nodes[m]).system.0
                == usize::MAX || nodes[m].system.0 < self.systems@.len() by {}
            crate::schedule::graph::lemma_systems_len_le_pub(nodes, self.systems@.len() as int);
        }
        let mut dep: Vec<Layer> = Vec::new();
        let mut z: usize = 0;
        while z < n
            invariant
                0 <= z <= n,
                dep@.len() == z,
                forall|s: int| 0 <= s < z ==> (#[trigger] dep@[s]).0 == usize::MAX,
            decreases n - z,
        {
            dep.push(Layer(usize::MAX));
            z += 1;
        }
        let mut j: usize = 0;
        while j < layers.len()
            invariant
                nodes == self.graph.nodes(),
                lv == system_layers_view(layers@),
                acc == self.access@,
                self.wf(),
                n == systems_len_of(nodes, nodes.len() as int),
                n <= acc.len(),
                ids_below(lv, n as nat),
                dep@.len() == n,
                0 <= j <= layers@.len(),
                forall|s: int|
                    0 <= s < n ==> wait_layer_upto(nodes, acc, lv, s as usize, #[trigger] dep@[s], j as int, 0),
            decreases layers@.len() - j,
        {
            let mut k: usize = 0;
            while k < layers[j].len()
                invariant
                    nodes == self.graph.nodes(),
                    lv == system_layers_view(layers@),
                    acc == self.access@,
                    self.wf(),
                    n == systems_len_of(nodes, nodes.len() as int),
                    n <= acc.len(),
                    ids_below(lv, n as nat),
                    dep@.len() == n,
                    0 <= j < layers@.len(),
                    0 <= k <= lv[j as int].len(),
                    forall|s: int|
                        0 <= s < n ==> wait_layer_upto(nodes, acc, lv, s as usize, #[trigger] dep@[s], j as int, k as int),
                decreases lv[j as int].len() - k,
            {
                let t = layers[j][k];
                proof {
                    assert(lv[j as int][k as int] == t);
                    assert(t.0 < n);
                }
                let ghost before = dep@;
                self.graph.lower_graph_waits(&mut dep, t.0, j);
                let ghost mid = dep@;
                self.lower_conflicts(&mut dep, layers, t, j);
                proof {
                    assert forall|s: int| 0 <= s < n implies wait_layer_upto(
                        nodes,
                        acc,
                        lv,
                        s as usize,
                        #[trigger] dep@[s],
                        j as int,
                        k + 1,
                    ) by {
                        let w = waits_for(nodes, acc, lv, s as usize, t.0, j as int);
                        assert(wait_at(nodes, acc, lv, s as usize, j as int, k as int) == w);
                        assert(dep@[s] == (if w && before[s].0 > j {
                            Layer(j)
                        } else {
                            before[s]
                        }));
                        assert(wait_layer_upto(nodes, acc, lv, s as usize, before[s], j as int, k as int));
                        assert forall|jj: int, kk: int|
                            place_before(jj, kk, j as int, k + 1) && #[trigger] wait_at(
                                nodes,
                                acc,
                                lv,
                                s as usize,
                                jj,
                                kk,
                            ) implies dep@[s].0 <= jj by {
                            if place_before(jj, kk, j as int, k as int) {
                            } else {
                                assert(jj == j && kk == k);
                            }
                        }
                        if dep@[s].0 != usize::MAX {
                            if w && before[s].0 > j {
                                assert(place_before(j as int, k as int, j as int, k + 1));
                                assert(wait_at(nodes, acc, lv, s as usize, j as int, k as int));
                            } else {
                                let (jj, kk) = choose|jj: int, kk: int|
                                    place_before(jj, kk, j as int, k as int) && #[trigger] wait_at(
                                        nodes,
                                        acc,
                                        lv,
                                        s as usize,
                                        jj,
                                        kk,
                                    ) && before[s].0 == jj;
                                assert(place_before(jj, kk, j as int, k + 1));
                            }
                        }
                    }
                }
                k += 1;
            }
            proof {
                assert forall|s: int| 0 <= s < n implies wait_layer_upto(
                    nodes,
                    acc,
                    lv,
                    s as usize,
                    #[trigger] dep@[s],
                    j + 1,
                    0,
                ) by {
                    assert(wait_layer_upto(nodes, acc, lv, s as usize, dep@[s], j as int, lv[j as int].len() as int));
                    assert forall|jj: int, kk: int|
                        place_before(jj, kk, j + 1, 0) && #[trigger] wait_at(nodes, acc, lv, s as usize, jj, kk)
                        implies dep@[s].0 <= jj by {
                        assert(place_before(jj, kk, j as int, lv[j as int].len() as int));
                    }
                    if dep@[s].0 != usize::MAX {
                        let (jj, kk) = choose|jj: int, kk: int|
                            place_before(jj, kk, j as int, lv[j as int].len() as int) && #[trigger] wait_at(
                                nodes,
                                acc,
                                lv,
                                s as usize,
                                jj,
                                kk,
                            ) && dep@[s].0 == jj;
                        assert(place_before(jj, kk, j + 1, 0));
                    }
                }
            }
            j += 1;
        }
        proof {
            assert forall|s: int| 0 <= s < dep@.len() implies is_wait_layer(
                nodes,
                acc,
                lv,
                s as usize,
                #[trigger] dep@[s],
            ) by {
                assert(wait_layer_upto(nodes, acc, lv, s as usize, dep@[s], lv.len() as int, 0));
                assert forall|jj: int, kk: int| #[trigger] wait_at(nodes, acc, lv, s as usize, jj, kk)
                    implies dep@[s].0 <= jj by {
                    assert(place_before(jj, kk, lv.len() as int, 0));
                }
            }
        }
        dep
    }

    /// Moves the systems of `layer` that must run on the schedule's thread to its end.
    fn move_nonsent_in_layer(&self, layer: &mut Vec<SystemId>)
        requires
            forall|k: int|
                0 <= k < old(layer)@.len() ==> (#[trigger] old(layer)@[k]).0
                    < self.systems@.len(),
        ensures
            final(layer)@.to_multiset() == old(layer)@.to_multiset(),
            final(layer)@.len() == old(layer)@.len(),
            forall|k: int|
                0 <= k < final(layer)@.len() ==> (#[trigger] final(layer)@[k]).0
                    < self.systems@.len() && old(layer)@.contains(final(layer)@[k]),
            unsend_last(self.systems@, final(layer)@),
            final(layer)@ == unsend_moved(self.systems@, old(layer)@),
    {
        broadcast use vstd::seq_lib::to_multiset_update;

        let len = layer.len();
        if len == 0 {
            return ;
        }
        let mut e: usize = len - 1;
        let mut i: usize = 0;
        while i < e
            invariant
                0 <= i <= e < len,
                len == layer@.len(),
                layer@.to_multiset() == old(layer)@.to_multiset(),
                forall|k: int| 0 <= k < len ==> (#[trigger] layer@[k]).0 < self.systems@.len(),
                forall|k: int|
                    0 <= k < i ==> kind_of(self.systems@, #[trigger] layer@[k])
                        != SystemKind::Unsend,
                forall|k: int|
                    e < k < len ==> kind_of(self.systems@, #[trigger] layer@[k])
                        == SystemKind::Unsend,
                unsend_walk(self.systems@, layer@, i as int, e as int) == unsend_walk(
                    self.systems@,
                    old(layer)@,
                    0,
                    len - 1,
                ),
            decreases e - i,
        {
            let system_id = layer[i];
            let ghost lw = layer@;
            proof {
                assert forall|k: int| 0 <= k < len implies old(layer)@.contains(
                    #[trigger] layer@[k],
                ) by {
                    vstd::seq_lib::to_multiset_contains(layer@, layer@[k]);
                    vstd::seq_lib::to_multiset_contains(old(layer)@, layer@[k]);
                    assert(layer@.contains(layer@[k]));
                }
            }
            match self.systems[system_id.0] {
                SystemKind::Unsend => {
                    let other = layer[e];
                    let ghost l0 = layer@;
                    layer.set(i, other);
                    let ghost l1 = layer@;
                    layer.set(e, system_id);
                    proof {
                        assert(l1 == l0.update(i as int, other));
                        vstd::seq_lib::to_multiset_update(l0, i as int, other);
                        assert(layer@ == l1.update(e as int, system_id));
                        vstd::seq_lib::to_multiset_update(l1, e as int, system_id);
                        assert(l1[e as int] == other);
                        assert(layer@.to_multiset() =~= l0.to_multiset()) by {
                            broadcast use vstd::multiset::group_multiset_axioms;

                            vstd::seq_lib::to_multiset_contains(l0, system_id);
                            vstd::seq_lib::to_multiset_contains(l0, other);
                            assert(l0.contains(system_id));
                            assert(l0[e as int] == other);
                            assert(l0.contains(other));
                        }
                        assert(layer@ == lw.update(i as int, lw[e as int]).update(
                            e as int,
                            lw[i as int],
                        ));
                        assert(unsend_walk(self.systems@, lw, i as int, e as int) == unsend_walk(
                            self.systems@,
                            layer@,
                            i as int,
                            e - 1,
                        ));
                    }
                    e -= 1;
                },
                _ => {
                    proof {
                        assert(unsend_walk(self.systems@, lw, i as int, e as int) == unsend_walk(
                            self.systems@,
                            lw,
                            i + 1,
                            e as int,
                        ));
                    }
                    i += 1;
                },
            }
        }
        proof {
            assert forall|k: int| 0 <= k < len implies old(layer)@.contains(#[trigger] layer@[k]) by {
                vstd::seq_lib::to_multiset_contains(layer@, layer@[k]);
                vstd::seq_lib::to_multiset_contains(old(layer)@, layer@[k]);
                assert(layer@.contains(layer@[k]));
            }
        }
    }

    /// Moves the systems that must run on the schedule's thread to the end of their layer.
    fn move_nonsent_to_end_of_layers(&self, layers: &mut Vec<Vec<SystemId>>)
        requires
            ids_below(old(layers)@.map_values(|l: Vec<SystemId>| l@), self.systems@.len()),
        ensures
            final(layers)@.len() == old(layers)@.len(),
            forall|i: int|
                0 <= i < final(layers)@.len() ==> (#[trigger] final(layers)@[i])@.to_multiset()
                    == old(layers)@[i]@.to_multiset() && final(layers)@[i]@.len() == old(
                    layers,
                )@[i]@.len() && unsend_last(self.systems@, final(layers)@[i]@) && forall|k: int|
                    0 <= k < final(layers)@[i]@.len() ==> old(layers)@[i]@.contains(
                        #[trigger] final(layers)@[i]@[k],
                    ),
            ids_below(final(layers)@.map_values(|l: Vec<SystemId>| l@), self.systems@.len()),
            forall|i: int|
                0 <= i < final(layers)@.len() ==> (#[trigger] final(layers)@[i])@ == unsend_moved(
                    self.systems@,
                    old(layers)@[i]@,
                ),
    {
        let mut i: usize = 0;
        while i < layers.len()
            invariant
                0 <= i <= layers@.len(),
                layers@.len() == old(layers)@.len(),
                ids_below(old(layers)@.map_values(|l: Vec<SystemId>| l@), self.systems@.len()),
                forall|j: int|
                    0 <= j < i ==> (#[trigger] layers@[j])@.to_multiset()
                        == old(layers)@[j]@.to_multiset() && layers@[j]@.len() == old(
                        layers,
                    )@[j]@.len() && unsend_last(self.systems@, layers@[j]@) && forall|k: int|
                        0 <= k < layers@[j]@.len() ==> (#[trigger] layers@[j]@[k]).0
                            < self.systems@.len() && old(layers)@[j]@.contains(layers@[j]@[k]),
                forall|j: int| i <= j < layers@.len() ==> #[trigger] layers@[j] == old(layers)@[j],
                forall|j: int|
                    0 <= j < i ==> (#[trigger] layers@[j])@ == unsend_moved(
                        self.systems@,
                        old(layers)@[j]@,
                    ),
            decreases layers@.len() - i,
        {
            proof {
                assert forall|k: int| 0 <= k < layers@[i as int]@.len() implies (
                #[trigger] layers@[i as int]@[k]).0 < self.systems@.len() by {
                    let m = old(layers)@.map_values(|l: Vec<SystemId>| l@);
                    assert(m[i as int][k] == layers@[i as int]@[k]);
                }
            }
            self.move_nonsent_in_layer(&mut layers[i]);
            i += 1;
        }
        proof {
            let m = layers@.map_values(|l: Vec<SystemId>| l@);
            assert forall|a: int, k: int| 0 <= a < m.len() && 0 <= k < m[a].len() implies (
            #[trigger] m[a][k]).0 < self.systems@.len() by {
                assert(m[a] == layers@[a]@);
            }
        }
    }

    /// Makes the system set `dependent` depend on the system set `dependency`.
    pub fn add_dependency(&mut self, dependency: SystemSetId, dependent: SystemSetId)
        requires
            old(self).wf(),
        ensures
            final(self).wf(),
            grows(*old(self), *final(self)),
            final(self).version().spec_is_dirty(),
            final(self).labels().contains_key(dependency.key()),
            final(self).labels().contains_key(dependent.key()),
            final(self).graph().nodes()[label_node(*final(self), dependent).0 as int].deps().contains(
                label_node(*final(self), dependency),
            ),
    {
        self.version.dirty();
        let ghost s0 = *self;
        let dependency_node_id = self.get_or_set_label(dependency, SystemId(usize::MAX));
        proof {
            Self::lemma_label_grows(s0, *self, dependency, SystemId(usize::MAX), dependency_node_id);
        }
        let ghost s1 = *self;
        let dependent_node_id = self.get_or_set_label(dependent, SystemId(usize::MAX));
        proof {
            Self::lemma_label_grows(s1, *self, dependent, SystemId(usize::MAX), dependent_node_id);
        }
        self.add_graph_dependency(dependency_node_id, dependent_node_id);
    }
}

/// Every system id in `layers` is below `n`.
pub open spec fn ids_below(layers: Seq<Seq<SystemId>>, n: nat) -> bool {
    forall|i: int, k: int|
        0 <= i < layers.len() && 0 <= k < layers[i].len() ==> (#[trigger] layers[i][k]).0 < n
}

/// The kind of system `s`.
pub open spec fn kind_of(kinds: Seq<SystemKind>, s: SystemId) -> SystemKind {
    kinds[s.0 as int]
}

/// No system that must run on the schedule's thread stands before one that need not.
pub open spec fn unsend_last(kinds: Seq<SystemKind>, layer: Seq<SystemId>) -> bool {
    forall|a: int, b: int|
        0 <= a < b < layer.len() && kind_of(kinds, #[trigger] layer[a]) == SystemKind::Unsend
            ==> kind_of(kinds, #[trigger] layer[b]) == SystemKind::Unsend
}

/// All the systems of `layers`, counted with their multiplicity.
pub open spec fn layers_ms(layers: Seq<Seq<SystemId>>) -> Multiset<SystemId>
    decreases layers.len(),
{
    if layers.len() == 0 {
        Multiset::empty()
    } else {
        layers_ms(layers.drop_last()).add(layers.last().to_multiset())
    }
}

/// Either every system of `layer` runs alone, or none does.
pub open spec fn homogeneous(kinds: Seq<SystemKind>, layer: Seq<SystemId>) -> bool {
    ||| forall|k: int|
        0 <= k < layer.len() ==> kind_of(kinds, #[trigger] layer[k]) == SystemKind::Exclusive
    ||| forall|k: int|
        0 <= k < layer.len() ==> kind_of(kinds, #[trigger] layer[k]) != SystemKind::Exclusive
}

proof fn lemma_layers_ms_update(layers: Seq<Seq<SystemId>>, i: int, l: Seq<SystemId>)
    requires
        0 <= i < layers.len(),
    ensures
        layers_ms(layers.update(i, l)).add(layers[i].to_multiset()) =~= layers_ms(layers).add(
            l.to_multiset(),
        ),
    decreases layers.len(),
{
    broadcast use vstd::multiset::group_multiset_axioms;

    let u = layers.update(i, l);
    assert(layers_ms(u) == layers_ms(u.drop_last()).add(u.last().to_multiset()));
    assert(layers_ms(layers) == layers_ms(layers.drop_last()).add(layers.last().to_multiset()));
    if i == layers.len() - 1 {
        assert(u.drop_last() =~= layers.drop_last());
        assert(u.last() == l);
        assert(layers.last() == layers[i]);
    } else {
        assert(u.drop_last() =~= layers.drop_last().update(i, l));
        assert(u.last() == layers.last());
        lemma_layers_ms_update(layers.drop_last(), i, l);
        assert(layers.drop_last()[i] == layers[i]);
    }
    assert forall|x: SystemId|
        #[trigger] layers_ms(u).add(layers[i].to_multiset()).count(x) == layers_ms(layers).add(
            l.to_multiset(),
        ).count(x) by {
        if i != layers.len() - 1 {
            assert(layers_ms(u.drop_last()).add(layers[i].to_multiset()).count(x) == layers_ms(
                layers.drop_last(),
            ).add(l.to_multiset()).count(x));
        }
    }
}

proof fn lemma_layers_ms_insert(layers: Seq<Seq<SystemId>>, i: int, l: Seq<SystemId>)
    requires
        0 <= i <= layers.len(),
    ensures
        layers_ms(layers.insert(i, l)) =~= layers_ms(layers).add(l.to_multiset()),
    decreases layers.len(),
{
    broadcast use vstd::multiset::group_multiset_axioms;

    let u = layers.insert(i, l);
    assert(layers_ms(u) == layers_ms(u.drop_last()).add(u.last().to_multiset()));
    if i == layers.len() {
        assert(u.drop_last() =~= layers);
        assert(u.last() == l);
    } else {
        assert(layers_ms(layers) == layers_ms(layers.drop_last()).add(
            layers.last().to_multiset(),
        ));
        assert(u.drop_last() =~= layers.drop_last().insert(i, l));
        assert(u.last() == layers.last());
        lemma_layers_ms_insert(layers.drop_last(), i, l);
    }
}

/// The accesses that marking system `s` walks through: its exclusive resources, then its
/// shared ones, each ascending.
pub open spec fn system_ops(accesses: Seq<ResourceAccess>, s: SystemId) -> Seq<(bool, usize)> {
    access_ops(
        sorted_items(accesses[s.0 as int].exclusive@),
        sorted_items(accesses[s.0 as int].shared@),
    )
}

/// Marking the accesses of `s` in layer `cur` from state `st` meets no conflict.
pub open spec fn system_clean(
    st: TrackState,
    accesses: Seq<ResourceAccess>,
    s: SystemId,
    cur: Layer,
) -> bool {
    let ops = system_ops(accesses, s);
    forall|k: int|
        0 <= k < ops.len() ==> !op_fails(#[trigger] state_after(st, ops, s, cur, k), ops[k], cur)
}

/// Marking the first `k` systems of `layer`, as layer `cur`, from state `st`: the state it
/// ends in, or `None` when one of them meets a conflict.
pub open spec fn layer_run(
    st: TrackState,
    accesses: Seq<ResourceAccess>,
    layer: Seq<SystemId>,
    cur: Layer,
    k: nat,
) -> Option<TrackState>
    decreases k,
{
    if k == 0 {
        Some(st)
    } else {
        match layer_run(st, accesses, layer, cur, (k - 1) as nat) {
            None => None,
            Some(st1) => {
                let s = layer[k - 1];
                if system_clean(st1, accesses, s, cur) {
                    Some(state_after(st1, system_ops(accesses, s), s, cur, system_ops(accesses, s).len() as int))
                } else {
                    None
                }
            },
        }
    }
}

/// Marking the first `i` layers in order, each as its own index, from state `st`: the
/// state it ends in, or `None` when some system meets a conflict.
pub open spec fn layers_run(
    st: TrackState,
    accesses: Seq<ResourceAccess>,
    layers: Seq<Seq<SystemId>>,
    i: nat,
) -> Option<TrackState>
    decreases i,
{
    if i == 0 {
        Some(st)
    } else {
        match layers_run(st, accesses, layers, (i - 1) as nat) {
            None => None,
            Some(st1) => layer_run(
                st1,
                accesses,
                layers[i - 1],
                Layer((i - 1) as usize),
                layers[i - 1].len(),
            ),
        }
    }
}

/// A run that meets no conflict up to `i` meets none before.
proof fn lemma_layers_run_prefix(
    st: TrackState,
    accesses: Seq<ResourceAccess>,
    layers: Seq<Seq<SystemId>>,
    j: nat,
    i: nat,
)
    requires
        j <= i,
        layers_run(st, accesses, layers, i) is Some,
    ensures
        layers_run(st, accesses, layers, j) is Some,
    decreases i - j,
{
    if j < i {
        lemma_layers_run_prefix(st, accesses, layers, (j + 1) as nat, i);
    }
}

/// A layer run that meets no conflict up to `k` meets none before.
proof fn lemma_layer_run_prefix(
    st: TrackState,
    accesses: Seq<ResourceAccess>,
    layer: Seq<SystemId>,
    cur: Layer,
    j: nat,
    k: nat,
)
    requires
        j <= k,
        layer_run(st, accesses, layer, cur, k) is Some,
    ensures
        layer_run(st, accesses, layer, cur, j) is Some,
    decreases k - j,
{
    if j < k {
        lemma_layer_run_prefix(st, accesses, layer, cur, (j + 1) as nat, k);
    }
}

/// No system below `n` asks for exclusive access to any resource.
pub open spec fn no_exclusive_access(accesses: Seq<ResourceAccess>, n: int) -> bool {
    forall|s: int| 0 <= s < n ==> (#[trigger] accesses[s]).exclusive@ == Set::<usize>::empty()
}

/// No record holds an exclusive access.
spec fn no_exclusive_marks(entries: Seq<EntryView>) -> bool {
    forall|q: int| 0 <= q < entries.len() ==> (#[trigger] entries[q]).0.0 == usize::MAX
}

/// A system without exclusive accesses walks through shared accesses only.
proof fn lemma_shared_ops_only(accesses: Seq<ResourceAccess>, s: SystemId)
    requires
        accesses[s.0 as int].exclusive@ == Set::<usize>::empty(),
    ensures
        forall|k: int|
            0 <= k < system_ops(accesses, s).len() ==> !(#[trigger] system_ops(accesses, s)[k]).0,
{
    let xs = sorted_items(accesses[s.0 as int].exclusive@);
    assert(crate::schedule::resource_tracker::ascending_of(
        Seq::<usize>::empty(),
        Set::<usize>::empty(),
    )) by {
        assert(Seq::<usize>::empty().to_set() =~= Set::<usize>::empty());
    }
    if xs.len() > 0 {
        assert(xs.to_set().contains(xs[0]));
    }
    let sh = sorted_items(accesses[s.0 as int].shared@);
    let ops = system_ops(accesses, s);
    assert forall|k: int| 0 <= k < ops.len() implies !(#[trigger] ops[k]).0 by {
        assert(ops[k] == sh.map_values(|x: usize| (false, x))[k - xs.len()]);
    }
}

/// Shared accesses alone never conflict, and leave no exclusive record.
proof fn lemma_shared_run(
    st: TrackState,
    ops: Seq<(bool, usize)>,
    s: SystemId,
    cur: Layer,
    k: int,
)
    requires
        no_exclusive_marks(st.0),
        cur.0 != usize::MAX,
        0 <= k <= ops.len(),
        forall|j: int| 0 <= j < ops.len() ==> !(#[trigger] ops[j]).0,
    ensures
        no_exclusive_marks(state_after(st, ops, s, cur, k).0),
        forall|j: int|
            0 <= j < k ==> !op_fails(#[trigger] state_after(st, ops, s, cur, j), ops[j], cur),
    decreases k,
{
    if k > 0 {
        lemma_shared_run(st, ops, s, cur, k - 1);
        let prev = state_after(st, ops, s, cur, k - 1);
        let op = ops[k - 1];
        let p = crate::schedule::resource_tracker::padded(prev.0, op.1 as int);
        assert forall|q: int| 0 <= q < p.len() implies (#[trigger] p[q]).0.0 == usize::MAX by {
            if q >= prev.0.len() {
                assert(p[q] == crate::schedule::resource_tracker::undefined_entry());
            } else {
                assert(p[q] == prev.0[q]);
            }
        }
        let e = crate::schedule::resource_tracker::entry_at(prev.0, op.1 as int);
        assert(e.0.0 == usize::MAX);
        assert(!op_fails(prev, op, cur));
        let fin = state_after(st, ops, s, cur, k).0;
        assert forall|q: int| 0 <= q < fin.len() implies (#[trigger] fin[q]).0.0 == usize::MAX by {
            assert(p[op.1 as int] == e) by {
                if op.1 < prev.0.len() {
                    assert(p[op.1 as int] == prev.0[op.1 as int]);
                }
            }
        }
    }
}

/// Marking the first `k` systems of a layer, none of which asks for exclusive access, meets
/// no conflict and leaves no exclusive record.
proof fn lemma_shared_layer_run(
    st: TrackState,
    accesses: Seq<ResourceAccess>,
    layer: Seq<SystemId>,
    cur: Layer,
    k: nat,
)
    requires
        no_exclusive_marks(st.0),
        cur.0 != usize::MAX,
        k <= layer.len(),
        forall|j: int|
            0 <= j < layer.len() ==> accesses[(#[trigger] layer[j]).0 as int].exclusive@ == Set::<
                usize,
            >::empty(),
    ensures
        layer_run(st, accesses, layer, cur, k) matches Some(fin) && no_exclusive_marks(fin.0),
    decreases k,
{
    if k > 0 {
        lemma_shared_layer_run(st, accesses, layer, cur, (k - 1) as nat);
        let st1 = layer_run(st, accesses, layer, cur, (k - 1) as nat)->Some_0;
        let sys = layer[k - 1];
        let ops = system_ops(accesses, sys);
        lemma_shared_ops_only(accesses, sys);
        lemma_shared_run(st1, ops, sys, cur, ops.len() as int);
        assert(system_clean(st1, accesses, sys, cur));
    }
}

/// Marking the first `i` layers, in which no system asks for exclusive access, meets no
/// conflict.
proof fn lemma_shared_layers_run(
    st: TrackState,
    accesses: Seq<ResourceAccess>,
    layers: Seq<Seq<SystemId>>,
    i: nat,
)
    requires
        no_exclusive_marks(st.0),
        i <= layers.len() <= usize::MAX,
        forall|a: int, j: int|
            0 <= a < layers.len() && 0 <= j < layers[a].len() ==> accesses[(
            #[trigger] layers[a][j]).0 as int].exclusive@ == Set::<usize>::empty(),
    ensures
        layers_run(st, accesses, layers, i) matches Some(fin) && no_exclusive_marks(fin.0),
    decreases i,
{
    if i > 0 {
        lemma_shared_layers_run(st, accesses, layers, (i - 1) as nat);
        let st1 = layers_run(st, accesses, layers, (i - 1) as nat)->Some_0;
        assert forall|j: int| 0 <= j < layers[i - 1].len() implies accesses[(
        #[trigger] layers[i - 1][j]).0 as int].exclusive@ == Set::<usize>::empty() by {}
        lemma_shared_layer_run(st1, accesses, layers[i - 1], Layer((i - 1) as usize), layers[i - 1].len());
    }
}

/// Resolving from layer `li`, where marking met no conflict between shared and exclusive
/// access, goes on with the next layer.
proof fn lemma_walk_keep(
    accesses: Seq<ResourceAccess>,
    layers: Seq<Seq<SystemId>>,
    st: TrackState,
    li: nat,
    st1: TrackState,
    te: Seq<SystemId>,
)
    requires
        li < layers.len(),
        li < usize::MAX,
        layer_walk(st, accesses, layers[li as int], Layer(li as usize), layers[li as int].len())
            == Some((st1, te, Seq::<SystemId>::empty())),
    ensures
        resolve_walk(accesses, layers, st, li) == resolve_walk(accesses, layers, st1, li + 1),
{
}

/// Resolving from layer `li`, where the shared systems `ts` met exclusive ones `te` and none
/// of those is among them, goes on with the rest of the layer after the new layer of `ts`.
proof fn lemma_walk_split(
    accesses: Seq<ResourceAccess>,
    layers: Seq<Seq<SystemId>>,
    st: TrackState,
    li: nat,
    st1: TrackState,
    te: Seq<SystemId>,
    ts: Seq<SystemId>,
)
    requires
        li < layers.len(),
        li < usize::MAX,
        layer_walk(st, accesses, layers[li as int], Layer(li as usize), layers[li as int].len())
            == Some((st1, te, ts)),
        ts.len() > 0,
        forall|k: int| 0 <= k < te.len() ==> !ts.contains(#[trigger] te[k]),
        without_spec(layers[li as int], ts).len() < layers[li as int].len(),
    ensures
        resolve_walk(accesses, layers, st, li) == resolve_walk(
            accesses,
            layers.update(li as int, without_spec(layers[li as int], ts)).insert(li as int, ts),
            (st1.0, lowered_excl(shifted(st1.1, (li + 1) as usize), te, (li + 1) as usize)),
            li + 1,
        ),
{
    let l2 = layers.update(li as int, without_spec(layers[li as int], ts)).insert(li as int, ts);
    assert(l2[li + 1int] == without_spec(layers[li as int], ts));
}

/// A layer walk that fails by `j` fails by every later `k`.
proof fn lemma_layer_walk_none(
    st: TrackState,
    accesses: Seq<ResourceAccess>,
    layer: Seq<SystemId>,
    cur: Layer,
    j: nat,
    k: nat,
)
    requires
        j <= k,
        layer_walk(st, accesses, layer, cur, j) is None,
    ensures
        layer_walk(st, accesses, layer, cur, k) is None,
    decreases k - j,
{
    if j < k {
        lemma_layer_walk_none(st, accesses, layer, cur, j, (k - 1) as nat);
    }
}

/// How a build of the layers went: `sorted` are the systems of the layers of the sort of
/// `nodes` and `dsorted`, for each system, the layer of its latest dependency, by which the
/// split decides; `split` and `dsplit` are what the split of the exclusive systems makes of
/// them (so each layer is all-exclusive or exclusive-free, in the order of `sorted`, with no
/// system added and no system that does not run alone lost). Resolving the conflicts of
/// `split` fails exactly when the build did not succeed (`ok`); when it succeeds, `layers`
/// are the resolved layers with the systems that run on the schedule's thread moved to the
/// end of each, and `dep` holds, for each system, the first of those layers with a system
/// that must wait for it, by the graph or by conflicting accesses.
pub open spec fn built_from(
    nodes: Seq<Node>,
    kinds: Seq<SystemKind>,
    accesses: Seq<ResourceAccess>,
    sorted: Seq<Seq<SystemId>>,
    dsorted: Seq<Layer>,
    split: Seq<Seq<SystemId>>,
    dsplit: Seq<Layer>,
    ok: bool,
    layers: Seq<Seq<SystemId>>,
    dep: Seq<Layer>,
) -> bool {
    &&& both_sorted(nodes, sorted, dsorted)
    &&& (split, dsplit) == split_result(kinds, sorted, dsorted)
    &&& forall|i: int| 0 <= i < split.len() ==> homogeneous(kinds, #[trigger] split[i])
    &&& forall|s: SystemId| #[trigger] layers_ms(split).count(s) <= layers_ms(sorted).count(s)
    &&& forall|s: SystemId|
        s.0 < dsplit.len() && kind_of(kinds, s) != SystemKind::Exclusive ==> #[trigger] layers_ms(
            split,
        ).count(s) == layers_ms(sorted).count(s)
    &&& split_in_order(kinds, sorted, split)
    &&& dsplit.len() == systems_len_of(nodes, nodes.len() as int)
    &&& match resolve_walk(accesses, split, (Seq::<EntryView>::empty(), dsplit), 0) {
        None => !ok,
        Some(res) => ok && layers == unsend_moved_layers(kinds, res.0) && wait_layers_of(
            nodes,
            accesses,
            layers,
            dep,
        ),
    }
}

/// `f` maps each layer of `split` to a layer of `sorted`, never going back, and the systems
/// of a layer of `split` that do not run alone come from the layer of `sorted` it maps to.
pub open spec fn follows_layers(
    kinds: Seq<SystemKind>,
    sorted: Seq<Seq<SystemId>>,
    split: Seq<Seq<SystemId>>,
    f: Seq<int>,
) -> bool {
    &&& f.len() == split.len()
    &&& forall|i: int, j: int| 0 <= i <= j < f.len() ==> #[trigger] f[i] <= #[trigger] f[j]
    &&& forall|i: int| 0 <= i < f.len() ==> 0 <= #[trigger] f[i] < sorted.len()
    &&& forall|i: int, k: int|
        0 <= i < split.len() && 0 <= k < split[i].len() && kind_of(kinds, #[trigger] split[i][k])
            != SystemKind::Exclusive ==> sorted[f[i]].contains(split[i][k])
}

/// The layers of `split` keep the order of the layers of `sorted`: the systems that do not
/// run alone stand in layers that follow the layers of `sorted` they came from, in order.
pub open spec fn split_in_order(
    kinds: Seq<SystemKind>,
    sorted: Seq<Seq<SystemId>>,
    split: Seq<Seq<SystemId>>,
) -> bool {
    exists|f: Seq<int>| #[trigger] follows_layers(kinds, sorted, split, f)
}

/// System `s` stands in a layer before layer `j` and its accesses conflict with those of
/// system `t`.
pub open spec fn conflict_before(
    accesses: Seq<ResourceAccess>,
    layers: Seq<Seq<SystemId>>,
    s: usize,
    t: usize,
    j: int,
) -> bool {
    exists|i: int, q: int|
        0 <= i < j && 0 <= q < layers[i].len() && #[trigger] layers[i][q] == SystemId(s)
            && !accesses[s as int].compatible(&accesses[t as int])
}

/// System `t`, in layer `j`, must wait for system `s`: by the graph, or because `s` runs in
/// an earlier layer with accesses that conflict with those of `t`.
pub open spec fn waits_for(
    nodes: Seq<Node>,
    accesses: Seq<ResourceAccess>,
    layers: Seq<Seq<SystemId>>,
    s: usize,
    t: usize,
    j: int,
) -> bool {
    graph_waits(nodes, s, t) || conflict_before(accesses, layers, s, t, j)
}

/// The system at place `k` of layer `j` must wait for system `s`.
pub open spec fn wait_at(
    nodes: Seq<Node>,
    accesses: Seq<ResourceAccess>,
    layers: Seq<Seq<SystemId>>,
    s: usize,
    j: int,
    k: int,
) -> bool {
    &&& 0 <= j < layers.len()
    &&& 0 <= k < layers[j].len()
    &&& waits_for(nodes, accesses, layers, s, layers[j][k].0, j)
}

/// `v` is the first layer with a system that must wait for system `s`, or undefined when no
/// system must: the layer by which `s` must have run.
pub open spec fn is_wait_layer(
    nodes: Seq<Node>,
    accesses: Seq<ResourceAccess>,
    layers: Seq<Seq<SystemId>>,
    s: usize,
    v: Layer,
) -> bool {
    &&& forall|j: int, k: int| #[trigger] wait_at(nodes, accesses, layers, s, j, k) ==> v.0 <= j
    &&& v.0 != usize::MAX ==> exists|j: int, k: int|
        #[trigger] wait_at(nodes, accesses, layers, s, j, k) && v.0 == j
}

/// `dep` holds, for each system of `nodes`, the layer by which it must have run.
pub open spec fn wait_layers_of(
    nodes: Seq<Node>,
    accesses: Seq<ResourceAccess>,
    layers: Seq<Seq<SystemId>>,
    dep: Seq<Layer>,
) -> bool {
    &&& dep.len() == systems_len_of(nodes, nodes.len() as int)
    &&& forall|s: int|
        0 <= s < dep.len() ==> is_wait_layer(nodes, accesses, layers, s as usize, #[trigger] dep[s])
}

/// The place (`j`, `k`) comes before (`jj`, `kk`), layer by layer.
pub open spec fn place_before(j: int, k: int, jj: int, kk: int) -> bool {
    j < jj || (j == jj && k < kk)
}

/// `v` is the first layer with a system that must wait for system `s`, among the places before
/// (`jj`, `kk`), or undefined.
pub open spec fn wait_layer_upto(
    nodes: Seq<Node>,
    accesses: Seq<ResourceAccess>,
    layers: Seq<Seq<SystemId>>,
    s: usize,
    v: Layer,
    jj: int,
    kk: int,
) -> bool {
    &&& forall|j: int, k: int|
        place_before(j, k, jj, kk) && #[trigger] wait_at(nodes, accesses, layers, s, j, k) ==> v.0 <= j
    &&& v.0 != usize::MAX ==> exists|j: int, k: int|
        place_before(j, k, jj, kk) && #[trigger] wait_at(nodes, accesses, layers, s, j, k) && v.0 == j
}

/// Moving the systems of `layer` that run on the schedule's thread to its end, as the build
/// does, from position `i` with the end at `e`: such a system trades places with the system
/// at `e`, which is looked at next, and the end moves down by one; any other system stays.
pub open spec fn unsend_walk(kinds: Seq<SystemKind>, layer: Seq<SystemId>, i: int, e: int) -> Seq<
    SystemId,
>
    decreases e - i,
{
    if i < 0 || i >= e || e >= layer.len() {
        layer
    } else if kind_of(kinds, layer[i]) == SystemKind::Unsend {
        unsend_walk(kinds, layer.update(i, layer[e]).update(e, layer[i]), i, e - 1)
    } else {
        unsend_walk(kinds, layer, i + 1, e)
    }
}

/// `layer` with its systems that run on the schedule's thread moved to its end.
pub open spec fn unsend_moved(kinds: Seq<SystemKind>, layer: Seq<SystemId>) -> Seq<SystemId> {
    if layer.len() == 0 {
        layer
    } else {
        unsend_walk(kinds, layer, 0, layer.len() - 1)
    }
}

/// Every layer with its systems that run on the schedule's thread moved to its end.
pub open spec fn unsend_moved_layers(kinds: Seq<SystemKind>, layers: Seq<Seq<SystemId>>) -> Seq<
    Seq<SystemId>,
> {
    Seq::new(layers.len(), |i: int| unsend_moved(kinds, layers[i]))
}

/// Taking the exclusive systems out of `layer` from position `i` on, as the split does: an
/// exclusive system goes to the end of `tmp` and the last system of the layer takes its
/// place; past any other system, `max` grows to that system's dependent layer. Gives the
/// layer left, the exclusive systems taken and the largest dependent layer seen.
pub open spec fn take_walk(
    kinds: Seq<SystemKind>,
    dep: Seq<Layer>,
    layer: Seq<SystemId>,
    tmp: Seq<SystemId>,
    max: usize,
    i: int,
) -> (Seq<SystemId>, Seq<SystemId>, usize)
    decreases layer.len() - i,
{
    if i < 0 || i >= layer.len() {
        (layer, tmp, max)
    } else {
        let s = layer[i];
        if kind_of(kinds, s) == SystemKind::Exclusive {
            take_walk(kinds, dep, layer.update(i, layer.last()).drop_last(), tmp.push(s), max, i)
        } else {
            let d = dep[s.0 as int].0;
            take_walk(
                kinds,
                dep,
                layer,
                tmp,
                if max < d {
                    d
                } else {
                    max
                },
                i + 1,
            )
        }
    }
}

/// The state of the split: the layers, the dependent layers, the layer until which shared
/// systems are waiting, the exclusive systems held back, and the layer reached.
pub type SplitState = (Seq<Seq<SystemId>>, Seq<Layer>, usize, Seq<SystemId>, int);

/// The split of the layer that `st` has reached. A layer of more than one system gives up
/// its exclusive systems: when it had nothing else, the exclusive systems (with those held
/// back) stay as its own; when no shared system of an earlier layer waits past it, all the
/// exclusive systems held go into a new layer before it and the dependent layers from it on
/// move one on; otherwise they stay held back. The layer's other systems set how long shared
/// systems wait from then on.
pub open spec fn split_step(kinds: Seq<SystemKind>, st: SplitState) -> SplitState {
    let (ls, dep, waiting, tmp, idx) = st;
    let x = ls[idx];
    if x.len() > 1 {
        let (x1, t1, smax) = take_walk(kinds, dep, x, tmp, waiting, 0);
        if t1.len() > 0 && x1.len() == 0 {
            (ls.update(idx, t1), dep, smax, Seq::empty(), idx + 1)
        } else if t1.len() > 0 && waiting <= idx {
            (
                ls.update(idx, x1).insert(idx, t1),
                shifted(dep, idx as usize),
                smax,
                Seq::empty(),
                idx + 1,
            )
        } else {
            (ls.update(idx, x1), dep, smax, t1, idx + 1)
        }
    } else {
        (ls, dep, waiting, tmp, idx + 1)
    }
}

/// The split from state `st` on, one layer at a time, for at most `fuel` steps.
pub open spec fn split_walk(kinds: Seq<SystemKind>, st: SplitState, fuel: nat) -> SplitState
    decreases fuel,
{
    if fuel == 0 || st.4 < 0 || st.4 >= st.0.len() {
        st
    } else {
        split_walk(kinds, split_step(kinds, st), (fuel - 1) as nat)
    }
}

/// The layers and the dependent layers that the split of `sorted`, whose dependent layers
/// are `dep`, gives (it never takes more than `2 * sorted.len() + 1` steps).
pub open spec fn split_result(
    kinds: Seq<SystemKind>,
    sorted: Seq<Seq<SystemId>>,
    dep: Seq<Layer>,
) -> (Seq<Seq<SystemId>>, Seq<Layer>) {
    let w = split_walk(
        kinds,
        (sorted, dep, 0usize, Seq::<SystemId>::empty(), 0int),
        (2 * sorted.len() + 1) as nat,
    );
    (w.0, w.1)
}

/// The first access of `ops`, from the `k`-th on, that conflicts when they are marked in
/// turn from state `st`.
pub open spec fn first_fail(
    st: TrackState,
    ops: Seq<(bool, usize)>,
    sys: SystemId,
    cur: Layer,
    k: int,
) -> Option<int>
    decreases ops.len() - k,
{
    if k < 0 || k >= ops.len() {
        None
    } else if op_fails(state_after(st, ops, sys, cur, k), ops[k], cur) {
        Some(k)
    } else {
        first_fail(st, ops, sys, cur, k + 1)
    }
}

/// The conflicting access `k` of `ops` clashes with an exclusive access of the same layer.
pub open spec fn fail_is_exclusive_pair(
    st: TrackState,
    ops: Seq<(bool, usize)>,
    sys: SystemId,
    cur: Layer,
    k: int,
) -> bool {
    ops[k].0 && crate::schedule::resource_tracker::entry_at(
        state_after(st, ops, sys, cur, k).0,
        ops[k].1 as int,
    ).0 == cur
}

/// The shared systems that the conflicting access `k` of `ops` names.
pub open spec fn fail_shared(
    st: TrackState,
    ops: Seq<(bool, usize)>,
    sys: SystemId,
    cur: Layer,
    k: int,
) -> Seq<SystemId> {
    if ops[k].0 {
        crate::schedule::resource_tracker::entry_at(
            state_after(st, ops, sys, cur, k).0,
            ops[k].1 as int,
        ).2
    } else {
        seq![sys]
    }
}

/// The exclusive system that the conflicting access `k` of `ops` names.
pub open spec fn fail_exclusive(
    st: TrackState,
    ops: Seq<(bool, usize)>,
    sys: SystemId,
    cur: Layer,
    k: int,
) -> SystemId {
    if ops[k].0 {
        sys
    } else {
        crate::schedule::resource_tracker::entry_at(
            state_after(st, ops, sys, cur, k).0,
            ops[k].1 as int,
        ).2[0]
    }
}

/// `first_fail` finds the first conflicting access.
proof fn lemma_first_fail(st: TrackState, ops: Seq<(bool, usize)>, sys: SystemId, cur: Layer, k: int)
    requires
        0 <= k <= ops.len(),
        forall|j: int| 0 <= j < k ==> !op_fails(#[trigger] state_after(st, ops, sys, cur, j), ops[j], cur),
    ensures
        match first_fail(st, ops, sys, cur, k) {
            None => forall|j: int|
                0 <= j < ops.len() ==> !op_fails(#[trigger] state_after(st, ops, sys, cur, j), ops[j], cur),
            Some(f) => k <= f < ops.len() && op_fails(state_after(st, ops, sys, cur, f), ops[f], cur)
                && forall|j: int|
                0 <= j < f ==> !op_fails(#[trigger] state_after(st, ops, sys, cur, j), ops[j], cur),
        },
    decreases ops.len() - k,
{
    if k < ops.len() && !op_fails(state_after(st, ops, sys, cur, k), ops[k], cur) {
        lemma_first_fail(st, ops, sys, cur, k + 1);
    }
}

/// What marking `ops` does is decided by its first conflicting access: none, and every
/// access is marked; one, and the marking stops after it with its conflict.
proof fn lemma_marked_outcome(
    st: TrackState,
    ops: Seq<(bool, usize)>,
    sys: SystemId,
    cur: Layer,
    r: Result<(), ResourceConflict>,
    fin: TrackState,
)
    requires
        crate::schedule::resource_tracker::marked(st, ops, sys, cur, r, fin),
    ensures
        match first_fail(st, ops, sys, cur, 0) {
            None => r is Ok && fin == state_after(st, ops, sys, cur, ops.len() as int),
            Some(f) => {
                &&& 0 <= f < ops.len()
                &&& r is Err
                &&& fin == state_after(st, ops, sys, cur, f + 1)
                &&& (r->Err_0 is ExclusiveExclusive <==> fail_is_exclusive_pair(st, ops, sys, cur, f))
                &&& (r->Err_0 matches ResourceConflict::SharedExclusive { system_shared, system_exclusive, .. }
                    ==> system_shared@ == fail_shared(st, ops, sys, cur, f) && system_exclusive
                    == fail_exclusive(st, ops, sys, cur, f))
            },
        },
{
    lemma_first_fail(st, ops, sys, cur, 0);
    match r {
        Ok(()) => {},
        Err(c) => {
            let k = choose|k: int|
                0 <= k < ops.len() && (forall|j: int|
                    0 <= j < k ==> !op_fails(#[trigger] state_after(st, ops, sys, cur, j), ops[j], cur))
                    && op_fails(#[trigger] state_after(st, ops, sys, cur, k), ops[k], cur)
                    && op_conflict(c, state_after(st, ops, sys, cur, k), ops[k], sys, cur) && fin
                    == state_after(st, ops, sys, cur, k + 1);
            match first_fail(st, ops, sys, cur, 0) {
                None => {
                    assert(!op_fails(state_after(st, ops, sys, cur, k), ops[k], cur));
                },
                Some(f) => {
                    if f < k {
                        assert(!op_fails(state_after(st, ops, sys, cur, f), ops[f], cur));
                    }
                    if k < f {
                        assert(!op_fails(state_after(st, ops, sys, cur, k), ops[k], cur));
                    }
                    assert(f == k);
                },
            }
        },
    }
}

/// The systems of `systems` that are not among `remove`, in their order.
pub open spec fn without_spec(systems: Seq<SystemId>, remove: Seq<SystemId>) -> Seq<SystemId>
    decreases systems.len(),
{
    if systems.len() == 0 {
        systems
    } else {
        let rest = without_spec(systems.drop_last(), remove);
        if remove.contains(systems.last()) {
            rest
        } else {
            rest.push(systems.last())
        }
    }
}

/// The dependent layers with every entry from `from` on moved one layer on, as the
/// insertion of a layer at `from` does (wrapping as `shift_values` does).
pub open spec fn shifted(dep: Seq<Layer>, from: usize) -> Seq<Layer> {
    Seq::new(
        dep.len(),
        |t: int|
            if dep[t].0 >= from {
                Layer(dep[t].0.wrapping_add_signed(1isize))
            } else {
                dep[t]
            },
    )
}

/// The dependent layers with that of each system of `exclusive` lowered to `bound` where
/// it is later.
pub open spec fn lowered_excl(dep: Seq<Layer>, exclusive: Seq<SystemId>, bound: usize) -> Seq<Layer> {
    Seq::new(
        dep.len(),
        |t: int|
            if exclusive.contains(SystemId(t as usize)) && dep[t].0 > bound {
                Layer(bound)
            } else {
                dep[t]
            },
    )
}

/// Marking the first `k` systems of `layer` as layer `cur`, from state `st`, collecting the
/// conflicts between shared and exclusive access: the state reached, the exclusive systems
/// and the shared systems that the conflicts named. `None` when two exclusive accesses
/// clash.
pub open spec fn layer_walk(
    st: TrackState,
    accesses: Seq<ResourceAccess>,
    layer: Seq<SystemId>,
    cur: Layer,
    k: nat,
) -> Option<(TrackState, Seq<SystemId>, Seq<SystemId>)>
    decreases k,
{
    if k == 0 {
        Some((st, Seq::empty(), Seq::empty()))
    } else {
        match layer_walk(st, accesses, layer, cur, (k - 1) as nat) {
            None => None,
            Some((st1, te, ts)) => {
                let sys = layer[k - 1];
                let ops = system_ops(accesses, sys);
                match first_fail(st1, ops, sys, cur, 0) {
                    None => Some((state_after(st1, ops, sys, cur, ops.len() as int), te, ts)),
                    Some(f) => if fail_is_exclusive_pair(st1, ops, sys, cur, f) {
                        None
                    } else {
                        Some(
                            (
                                state_after(st1, ops, sys, cur, f + 1),
                                te.push(fail_exclusive(st1, ops, sys, cur, f)),
                                ts + fail_shared(st1, ops, sys, cur, f),
                            ),
                        )
                    },
                }
            },
        }
    }
}

/// The resolution of layer `li` after marking it collected the exclusive systems `te` and
/// the shared systems `ts`: with no shared system, nothing changes; an exclusive system
/// among the shared ones cannot be resolved (`None`); otherwise the shared systems move to
/// a new layer at `li`, the rest of the layer follows at `li + 1`, the dependent layers from
/// `li + 1` on move one on, and each exclusive system must run by layer `li + 1`.
pub open spec fn resolve_step(
    layers: Seq<Seq<SystemId>>,
    dep: Seq<Layer>,
    li: int,
    te: Seq<SystemId>,
    ts: Seq<SystemId>,
) -> Option<(Seq<Seq<SystemId>>, Seq<Layer>)> {
    if ts.len() == 0 {
        Some((layers, dep))
    } else if exists|k: int| 0 <= k < te.len() && ts.contains(#[trigger] te[k]) {
        None
    } else {
        Some(
            (
                layers.update(li, without_spec(layers[li], ts)).insert(li, ts),
                lowered_excl(shifted(dep, (li + 1) as usize), te, (li + 1) as usize),
            ),
        )
    }
}

/// Resolving the layers from `li` on, with the tracker in state `st`: the final layers and
/// dependent layers, or `None` when a conflict cannot be resolved. After a resolution, the
/// rest of the layer, which follows at `li + 1`, is marked again.
pub open spec fn resolve_walk(
    accesses: Seq<ResourceAccess>,
    layers: Seq<Seq<SystemId>>,
    st: TrackState,
    li: nat,
) -> Option<(Seq<Seq<SystemId>>, Seq<Layer>)>
    decreases layers.len() - li, (if li < layers.len() {
        layers[li as int].len() as int
    } else {
        0int
    }),
{
    if li >= layers.len() {
        Some((layers, st.1))
    } else {
        match layer_walk(st, accesses, layers[li as int], Layer(li as usize), layers[li as int].len()) {
            None => None,
            Some((st1, te, ts)) => match resolve_step(layers, st1.1, li as int, te, ts) {
                None => None,
                Some((l2, d2)) => if ts.len() > 0 && l2[li + 1int].len() >= layers[li as int].len() {
                    None
                } else {
                    resolve_walk(accesses, l2, (st1.0, d2), li + 1)
                },
            },
        }
    }
}

/// A layer with the same systems as a homogeneous one is homogeneous.
proof fn lemma_homogeneous_permuted(kinds: Seq<SystemKind>, a: Seq<SystemId>, b: Seq<SystemId>)
    requires
        homogeneous(kinds, a),
        a.to_multiset() == b.to_multiset(),
    ensures
        homogeneous(kinds, b),
{
    assert forall|k: int| 0 <= k < b.len() implies a.contains(#[trigger] b[k]) by {
        vstd::seq_lib::to_multiset_contains(b, b[k]);
        assert(b.contains(b[k]));
        vstd::seq_lib::to_multiset_contains(a, b[k]);
    }
    if forall|k: int| 0 <= k < a.len() ==> kind_of(kinds, #[trigger] a[k]) == SystemKind::Exclusive {
        assert forall|k: int| 0 <= k < b.len() implies kind_of(kinds, #[trigger] b[k])
            == SystemKind::Exclusive by {
            let j = choose|j: int| 0 <= j < a.len() && a[j] == b[k];
        }
    } else {
        assert forall|k: int| 0 <= k < b.len() implies kind_of(kinds, #[trigger] b[k])
            != SystemKind::Exclusive by {
            let j = choose|j: int| 0 <= j < a.len() && a[j] == b[k];
        }
    }
}

/// System `s` stands in some layer of `layers`.
pub open spec fn scheduled(layers: Seq<Seq<SystemId>>, s: SystemId) -> bool {
    exists|i: int| 0 <= i < layers.len() && #[trigger] layers[i].contains(s)
}

/// A system stands in the layers exactly when it counts in their multiset.
proof fn lemma_layers_ms_scheduled(layers: Seq<Seq<SystemId>>, s: SystemId)
    ensures
        layers_ms(layers).count(s) > 0 <==> scheduled(layers, s),
    decreases layers.len(),
{
    broadcast use vstd::multiset::group_multiset_axioms;

    if layers.len() > 0 {
        let rest = layers.drop_last();
        lemma_layers_ms_scheduled(rest, s);
        vstd::seq_lib::to_multiset_contains(layers.last(), s);
        if layers.last().contains(s) {
            assert(layers[layers.len() - 1] == layers.last());
        }
        if scheduled(rest, s) {
            let i = choose|i: int| 0 <= i < rest.len() && #[trigger] rest[i].contains(s);
            assert(layers[i] == rest[i]);
        }
        if scheduled(layers, s) {
            let i = choose|i: int| 0 <= i < layers.len() && #[trigger] layers[i].contains(s);
            if i < layers.len() - 1 {
                assert(rest[i] == layers[i]);
            }
        }
    }
}

proof fn lemma_empty_ms()
    ensures
        Seq::<SystemId>::empty().to_multiset() =~= Multiset::<SystemId>::empty(),
{
    broadcast use vstd::multiset::group_multiset_axioms;

    assert forall|a: SystemId|
        Seq::<SystemId>::empty().to_multiset().count(a) == Multiset::<SystemId>::empty().count(
            a,
        ) by {
        vstd::seq_lib::to_multiset_contains(Seq::<SystemId>::empty(), a);
    }
}

proof fn lemma_swap_remove_ms(s: Seq<SystemId>, i: int)
    requires
        0 <= i < s.len(),
    ensures
        s.update(i, s.last()).drop_last().to_multiset().insert(s[i]) =~= s.to_multiset(),
{
    broadcast use vstd::multiset::group_multiset_axioms;

    let t = s.update(i, s.last());
    vstd::seq_lib::to_multiset_update(s, i, s.last());
    assert(t.drop_last() == t.remove(t.len() - 1));
    vstd::seq_lib::to_multiset_remove(t, t.len() - 1);
    assert(t[t.len() - 1] == s.last());
    vstd::seq_lib::to_multiset_contains(s, s[i]);
    assert(s.contains(s[i]));
    vstd::seq_lib::to_multiset_contains(s, s.last());
    assert(s.contains(s.last()));
}

/// Whether `s` is among `systems`.
fn contains_system(systems: &Vec<SystemId>, s: SystemId) -> (r: bool)
    ensures
        r == systems@.contains(s),
{
    let mut i: usize = 0;
    while i < systems.len()
        invariant
            0 <= i <= systems@.len(),
            forall|j: int| 0 <= j < i ==> systems@[j] != s,
        decreases systems@.len() - i,
    {
        if systems[i] == s {
            assert(systems@[i as int] == s);
            return true;
        }
        i += 1;
    }
    false
}

/// The systems of `systems` that are not among `remove`, in their order.
fn without_systems(systems: &Vec<SystemId>, remove: &Vec<SystemId>) -> (r: Vec<SystemId>)
    ensures
        r@ == without_spec(systems@, remove@),
        r@.len() <= systems@.len(),
        (exists|j: int| 0 <= j < remove@.len() && systems@.contains(remove@[j])) ==> r@.len()
            < systems@.len(),
        forall|k: int|
            0 <= k < r@.len() ==> systems@.contains(#[trigger] r@[k]) && !remove@.contains(
                r@[k],
            ),
        forall|k: int|
            0 <= k < systems@.len() && !remove@.contains(#[trigger] systems@[k]) ==> r@.contains(
                systems@[k],
            ),
{
    let mut r: Vec<SystemId> = Vec::new();
    let mut i: usize = 0;
    let ghost mut dropped = false;
    while i < systems.len()
        invariant
            0 <= i <= systems@.len(),
            r@.len() <= i,
            r@ == without_spec(systems@.take(i as int), remove@),
            dropped ==> r@.len() < i,
            !dropped ==> forall|k: int| 0 <= k < i ==> !remove@.contains(#[trigger] systems@[k]),
            forall|k: int|
                0 <= k < r@.len() ==> systems@.contains(#[trigger] r@[k]) && !remove@.contains(
                    r@[k],
                ),
            forall|k: int|
                0 <= k < i && !remove@.contains(#[trigger] systems@[k]) ==> r@.contains(
                    systems@[k],
                ),
        decreases systems@.len() - i,
    {
        let s = systems[i];
        proof {
            assert(systems@.take(i + 1).drop_last() =~= systems@.take(i as int));
            assert(systems@.take(i + 1).last() == s);
        }
        if !contains_system(remove, s) {
            let ghost r0 = r@;
            r.push(s);
            proof {
                assert(systems@.contains(s)) by {
                    assert(systems@[i as int] == s);
                }
                assert forall|k: int|
                    0 <= k < i + 1 && !remove@.contains(#[trigger] systems@[k]) implies r@.contains(
                    systems@[k],
                ) by {
                    if k == i {
                        assert(r@[r0.len() as int] == s);
                    } else {
                        let j = choose|j: int| 0 <= j < r0.len() && r0[j] == systems@[k];
                        assert(r@[j] == systems@[k]);
                    }
                }
            }
        } else {
            proof {
                dropped = true;
            }
        }
        i += 1;
    }
    proof {
        assert(systems@.take(systems@.len() as int) =~= systems@);
        if exists|j: int| 0 <= j < remove@.len() && systems@.contains(remove@[j]) {
            if !dropped {
                let j = choose|j: int| 0 <= j < remove@.len() && systems@.contains(remove@[j]);
                let k = choose|k: int| 0 <= k < systems@.len() && systems@[k] == remove@[j];
                assert(remove@.contains(systems@[k]));
            }
        }
    }
    r
}

/// Adds `shift` to every entry that is at least `from`, wrapping around at the ends of
/// `usize` as two's complement arithmetic does; a zero shift changes nothing.
fn shift_values(entries: &mut Vec<Layer>, from: usize, shift: isize)
    ensures
        final(entries)@.len() == old(entries)@.len(),
        forall|i: int|
            0 <= i < old(entries)@.len() ==> #[trigger] final(entries)@[i] == (if old(
                entries,
            )@[i].0 >= from && shift != 0 {
                Layer(old(entries)@[i].0.wrapping_add_signed(shift))
            } else {
                old(entries)@[i]
            }),
{
    if shift == 0 {
        return ;
    }
    let mut i: usize = 0;
    while i < entries.len()
        invariant
            0 <= i <= entries@.len(),
            shift != 0,
            entries@.len() == old(entries)@.len(),
            forall|j: int|
                0 <= j < i ==> #[trigger] entries@[j] == (if old(entries)@[j].0 >= from {
                    Layer(old(entries)@[j].0.wrapping_add_signed(shift))
                } else {
                    old(entries)@[j]
                }),
            forall|j: int| i <= j < entries@.len() ==> #[trigger] entries@[j] == old(entries)@[j],
        decreases entries@.len() - i,
    {
        let e = entries[i].0;
        if e >= from {
            entries.set(i, Layer(e.wrapping_add_signed(shift)));
        }
        i += 1;
    }
}

/// `after` keeps everything of `before` but for what adding labels and dependencies
/// changes: labels keep their nodes, nodes keep their systems and parents and gain
/// dependencies only.
pub open spec fn grows(before: Schedule, after: Schedule) -> bool {
    &&& after.systems() == before.systems()
    &&& after.accesses() == before.accesses()
    &&& after.layers() == before.layers()
    &&& after.dependent_layers() == before.dependent_layers()
    &&& after.atom() == before.atom()
    &&& forall|k: u16| #[trigger]
        before.labels().contains_key(k) ==> after.labels().contains_key(k)
            && after.labels()[k] == before.labels()[k]
    &&& after.graph().nodes().len() >= before.graph().nodes().len()
    &&& forall|n: int|
        0 <= n < before.graph().nodes().len() ==> {
            &&& (#[trigger] after.graph().nodes()[n]).system == before.graph().nodes()[n].system
            &&& after.graph().nodes()[n].parent == before.graph().nodes()[n].parent
            &&& before.graph().nodes()[n].deps().to_set().subset_of(
                after.graph().nodes()[n].deps().to_set(),
            )
        }
}

/// The node of `label` in `s`.
pub open spec fn label_node(s: Schedule, label: SystemSetId) -> NodeId {
    s.labels()[label.key()]
}

/// Looking up `label` in `before` gave node `r` and left `after`: an existing node keeps
/// its id and takes a defined system id as its system; a new label gets a new node at the
/// end of the graph, with `system_id` as its system.
pub open spec fn label_outcome(
    before: Schedule,
    after: Schedule,
    label: SystemSetId,
    system_id: SystemId,
    r: NodeId,
) -> bool {
    &&& after.systems() == before.systems()
    &&& after.accesses() == before.accesses()
    &&& after.version() == before.version()
    &&& after.layers() == before.layers()
    &&& after.dependent_layers() == before.dependent_layers()
    &&& after.atom() == before.atom()
    &&& if before.labels().contains_key(label.key()) {
        &&& r == before.labels()[label.key()]
        &&& after.labels() == before.labels()
        &&& if system_id.0 != usize::MAX {
            after.graph().nodes() == before.graph().nodes().update(
                r.0 as int,
                Node { system: system_id, ..before.graph().nodes()[r.0 as int] },
            )
        } else {
            after.graph().nodes() == before.graph().nodes()
        }
    } else {
        &&& r.0 == before.graph().nodes().len()
        &&& after.labels() == before.labels().insert(label.key(), r)
        &&& after.graph().nodes().len() == before.graph().nodes().len() + 1
        &&& after.graph().nodes().take(before.graph().nodes().len() as int)
            == before.graph().nodes()
        &&& after.graph().nodes()[r.0 as int].system == system_id
        &&& after.graph().nodes()[r.0 as int].parent.0 == usize::MAX
        &&& after.graph().nodes()[r.0 as int].deps() == Seq::<NodeId>::empty()
    }
}

/// One step of running the layers of a schedule.
#[derive(Debug, PartialEq, Eq, Structural)]
pub enum LayerRun {
    /// The layers `from..to`, none of which is exclusive, run side by side on a pool.
    Shared { from: usize, to: usize },
    /// The exclusive layer runs alone on the schedule's thread.
    Exclusive(usize),
}

/// A layer is exclusive when its first system runs alone.
pub open spec fn exclusive_layer(kinds: Seq<SystemKind>, layer: Seq<SystemId>) -> bool {
    layer.len() > 0 && kind_of(kinds, layer[0]) == SystemKind::Exclusive
}

/// The steps for the first `k` layers, and the first layer not yet covered by a step: each
/// exclusive layer closes the run of shared layers before it, if any, and runs alone.
pub open spec fn plan_state(kinds: Seq<SystemKind>, layers: Seq<Seq<SystemId>>, k: int) -> (
    Seq<LayerRun>,
    usize,
)
    decreases k,
{
    if k <= 0 {
        (Seq::empty(), 0)
    } else {
        let (runs, from) = plan_state(kinds, layers, k - 1);
        if exclusive_layer(kinds, layers[k - 1]) {
            (
                if from < k - 1 {
                    runs.push(LayerRun::Shared { from, to: (k - 1) as usize })
                } else {
                    runs
                }.push(LayerRun::Exclusive((k - 1) as usize)),
                k as usize,
            )
        } else {
            (runs, from)
        }
    }
}

/// The steps that run all layers: those of [`plan_state`], and the remaining shared layers.
pub open spec fn run_plan_of(kinds: Seq<SystemKind>, layers: Seq<Seq<SystemId>>) -> Seq<LayerRun> {
    let (runs, from) = plan_state(kinds, layers, layers.len() as int);
    if from < layers.len() {
        runs.push(LayerRun::Shared { from, to: layers.len() as usize })
    } else {
        runs
    }
}

impl Schedule {
    /// Whether the first system of `layer` runs alone; an empty layer has nothing to run.
    pub fn is_exclusive_layer(&self, layer: &Vec<SystemId>) -> (r: bool)
        requires
            layer@.len() > 0 ==> layer@[0].0 < self.systems().len(),
        ensures
            r == exclusive_layer(self.systems(), layer@),
    {
        if layer.len() == 0 {
            return false;
        }
        self.systems[layer[0].0].is_exclusive()
    }

    /// The steps of a run of the layers: runs of shared layers go to a pool, each exclusive
    /// layer runs alone in between.
    pub fn run_plan(&self) -> (r: Vec<LayerRun>)
        requires
            ids_below(self.layers(), self.systems().len()),
        ensures
            r@ == run_plan_of(self.systems(), self.layers()),
    {
        let ghost kinds = self.systems();
        let ghost layers = self.layers();
        let mut runs: Vec<LayerRun> = Vec::new();
        let mut from: usize = 0;
        let mut layer_index: usize = 0;
        while layer_index < self.ordered_layers.len()
            invariant
                0 <= layer_index <= self.ordered_layers@.len(),
                kinds == self.systems(),
                layers == self.layers(),
                layers.len() == self.ordered_layers@.len(),
                ids_below(layers, kinds.len()),
                (runs@, from) == plan_state(kinds, layers, layer_index as int),
                from <= layer_index,
            decreases self.ordered_layers@.len() - layer_index,
        {
            let layer = &self.ordered_layers[layer_index];
            proof {
                assert(layers[layer_index as int] == layer@);
                if layer@.len() > 0 {
                    assert(layers[layer_index as int][0].0 < kinds.len());
                }
            }
            if self.is_exclusive_layer(layer) {
                if from < layer_index {
                    runs.push(LayerRun::Shared { from, to: layer_index });
                }
                runs.push(LayerRun::Exclusive(layer_index));
                from = layer_index + 1;
            }
            layer_index += 1;
        }
        if from < self.ordered_layers.len() {
            runs.push(LayerRun::Shared { from, to: self.ordered_layers.len() });
        }
        runs
    }

    /// Whether any layer is exclusive: a schedule run as one shared system refuses those.
    pub fn has_exclusive_layer(&self) -> (r: bool)
        requires
            ids_below(self.layers(), self.systems().len()),
        ensures
            r == exists|i: int|
                0 <= i < self.layers().len() && #[trigger] exclusive_layer(self.systems(), self.layers()[i]),
    {
        let ghost layers = self.layers();
        let mut i: usize = 0;
        while i < self.ordered_layers.len()
            invariant
                0 <= i <= self.ordered_layers@.len(),
                layers == self.layers(),
                layers.len() == self.ordered_layers@.len(),
                ids_below(layers, self.systems().len()),
                forall|j: int| 0 <= j < i ==> !#[trigger] exclusive_layer(self.systems(), layers[j]),
            decreases self.ordered_layers@.len() - i,
        {
            let layer = &self.ordered_layers[i];
            proof {
                assert(layers[i as int] == layer@);
                if layer@.len() > 0 {
                    assert(layers[i as int][0].0 < self.systems().len());
                }
            }
            if self.is_exclusive_layer(layer) {
                return true;
            }
            i += 1;
        }
        false
    }
}

/// The layers a step runs, in order.
pub open spec fn run_layers(run: LayerRun) -> Seq<usize> {
    match run {
        LayerRun::Shared { from, to } => Seq::new((to - from) as nat, |i: int| (from + i) as usize),
        LayerRun::Exclusive(i) => seq![i],
    }
}

/// The layers the steps run, step after step.
pub open spec fn runs_layers(runs: Seq<LayerRun>) -> Seq<usize>
    decreases runs.len(),
{
    if runs.len() == 0 {
        Seq::empty()
    } else {
        runs_layers(runs.drop_last()) + run_layers(runs.last())
    }
}

/// A step is sound: a shared step runs at least one layer and no exclusive one; an exclusive
/// step runs an exclusive layer.
pub open spec fn run_sound(kinds: Seq<SystemKind>, layers: Seq<Seq<SystemId>>, run: LayerRun) -> bool {
    match run {
        LayerRun::Shared { from, to } => from < to <= layers.len() && forall|i: int|
            from <= i < to ==> !#[trigger] exclusive_layer(kinds, layers[i]),
        LayerRun::Exclusive(i) => i < layers.len() && exclusive_layer(kinds, layers[i as int]),
    }
}

/// The layers `0..n`.
pub open spec fn layer_range(n: int) -> Seq<usize> {
    Seq::new(n as nat, |i: int| i as usize)
}

proof fn lemma_plan_state(kinds: Seq<SystemKind>, layers: Seq<Seq<SystemId>>, k: int)
    requires
        0 <= k <= layers.len(),
        layers.len() <= usize::MAX,
    ensures
        ({
            let (runs, from) = plan_state(kinds, layers, k);
            &&& from <= k
            &&& runs_layers(runs) == layer_range(from as int)
            &&& forall|i: int| 0 <= i < runs.len() ==> run_sound(kinds, layers, #[trigger] runs[i])
            &&& forall|i: int| from <= i < k ==> !#[trigger] exclusive_layer(kinds, layers[i])
        }),
    decreases k,
{
    if k > 0 {
        lemma_plan_state(kinds, layers, k - 1);
        let (runs, from) = plan_state(kinds, layers, k - 1);
        if exclusive_layer(kinds, layers[k - 1]) {
            let r1 = if from < k - 1 {
                runs.push(LayerRun::Shared { from, to: (k - 1) as usize })
            } else {
                runs
            };
            if from < k - 1 {
                assert(r1.drop_last() == runs);
                assert(runs_layers(r1) =~= layer_range(k - 1));
            } else {
                assert(runs_layers(r1) =~= layer_range(k - 1));
            }
            let r2 = r1.push(LayerRun::Exclusive((k - 1) as usize));
            assert(r2.drop_last() == r1);
            assert(runs_layers(r2) =~= layer_range(k));
            assert forall|i: int| 0 <= i < r2.len() implies run_sound(kinds, layers, #[trigger] r2[i]) by {
                if i < runs.len() {
                    assert(r2[i] == runs[i]);
                } else if i < r1.len() {
                    assert(r2[i] == r1[i]);
                }
            }
        }
    }
}

/// Running the steps of a schedule's plan runs every layer once, in order; shared steps hold
/// no exclusive layer, and exclusive steps hold exclusive layers.
pub proof fn lemma_run_plan_covers(kinds: Seq<SystemKind>, layers: Seq<Seq<SystemId>>)
    requires
        layers.len() <= usize::MAX,
    ensures
        runs_layers(run_plan_of(kinds, layers)) == layer_range(layers.len() as int),
        forall|i: int|
            0 <= i < run_plan_of(kinds, layers).len() ==> run_sound(
                kinds,
                layers,
                #[trigger] run_plan_of(kinds, layers)[i],
            ),
{
    lemma_plan_state(kinds, layers, layers.len() as int);
    let (runs, from) = plan_state(kinds, layers, layers.len() as int);
    if from < layers.len() {
        let r = runs.push(LayerRun::Shared { from, to: layers.len() as usize });
        assert(r.drop_last() == runs);
        assert(runs_layers(r) =~= layer_range(layers.len() as int));
        assert forall|i: int| 0 <= i < r.len() implies run_sound(kinds, layers, #[trigger] r[i]) by {
            if i < runs.len() {
                assert(r[i] == runs[i]);
            }
        }
    } else {
        assert(from == layers.len());
    }
}

} // verus!
