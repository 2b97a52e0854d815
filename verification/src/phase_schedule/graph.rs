//! The dependency graph of phases and systems, and its sorting into groups of nodes.
//!
//! Every node has dependencies (nodes that must be completed before it starts), sub-nodes
//! (nodes that must be completed before it is completed), an optional parent (which must be
//! started before it starts) and the systems that belong to it. The first and the last phase
//! are the nodes [`FIRST_NODE_INDEX`] and [`LAST_NODE_INDEX`].

use vstd::prelude::*;
use std::collections::BTreeMap;
use crate::bitset::BitSet;
use crate::label::SystemSetId;
use crate::phase_schedule::{FIRST_NODE_INDEX, LAST_NODE_INDEX};

verus! {

broadcast use vstd::std_specs::btree::group_btree_axioms;

/// A node of the dependency graph: a phase, or a system that has dependencies of its own.
pub struct DependencyNode {
    /// The node's index in the graph.
    pub index: usize,
    /// The index of the parent phase, or `usize::MAX` when there is none.
    pub parent: usize,
    /// The nodes that must be completed before this node starts.
    pub dependencies: BitSet,
    /// The nodes that must be completed before this node is completed.
    pub sub_nodes: BitSet,
    /// The systems that run as part of this node, in ascending order.
    pub systems: Vec<usize>,
}

impl DependencyNode {
    /// A node at `index`, without parent, dependencies, sub-nodes or systems.
    pub fn new(index: usize) -> (r: Self)
        ensures
            r.index == index,
            r.parent == usize::MAX,
            r.dependencies@ == Set::<usize>::empty(),
            r.sub_nodes@ == Set::<usize>::empty(),
            r.systems@ == Seq::<usize>::empty(),
    {
        DependencyNode {
            index,
            parent: usize::MAX,
            dependencies: BitSet::new(),
            sub_nodes: BitSet::new(),
            systems: Vec::new(),
        }
    }
}

/// `node` is a fresh node at `index`.
pub open spec fn fresh_node(node: DependencyNode, index: int) -> bool {
    &&& node.index == index
    &&& node.parent == usize::MAX
    &&& node.dependencies@ == Set::<usize>::empty()
    &&& node.sub_nodes@ == Set::<usize>::empty()
    &&& node.systems@ == Seq::<usize>::empty()
}

/// Every node knows its index, and every parent, dependency and sub-node is a node.
pub open spec fn nodes_wf(nodes: Seq<DependencyNode>) -> bool {
    &&& nodes.len() < usize::MAX
    &&& forall|i: int|
        0 <= i < nodes.len() ==> {
            let node = #[trigger] nodes[i];
            &&& node.index == i
            &&& node.parent == usize::MAX || node.parent < nodes.len()
            &&& forall|d: usize| node.dependencies@.contains(d) ==> d < nodes.len()
            &&& forall|s: usize| node.sub_nodes@.contains(s) ==> s < nodes.len()
        }
}

/// The graph of phases and systems, with the node of each phase label.
pub struct DependencyGraph {
    nodes: Vec<DependencyNode>,
    phase_labels: BTreeMap<u16, usize>,
}

impl DependencyGraph {
    /// The nodes, by index.
    pub closed spec fn nodes(&self) -> Seq<DependencyNode> {
        self.nodes@
    }

    /// The node of each phase label, by the label's key.
    pub closed spec fn labels(&self) -> Map<u16, usize> {
        self.phase_labels@
    }

    /// The nodes are well formed and every label names a node.
    pub open spec fn wf(&self) -> bool {
        &&& nodes_wf(self.nodes())
        &&& forall|k: u16| #[trigger] self.labels().contains_key(k) ==> self.labels()[k] < self.nodes().len()
    }

    /// A graph without nodes or labels.
    pub fn new() -> (r: Self)
        ensures
            r.wf(),
            r.nodes() == Seq::<DependencyNode>::empty(),
            r.labels() == Map::<u16, usize>::empty(),
    {
        DependencyGraph { nodes: Vec::new(), phase_labels: BTreeMap::new() }
    }

    /// The number of nodes.
    pub fn len(&self) -> (r: usize)
        ensures
            r == self.nodes().len(),
    {
        self.nodes.len()
    }

    /// The node at `index`.
    pub fn node(&self, index: usize) -> (r: &DependencyNode)
        requires
            index < self.nodes().len(),
        ensures
            *r == self.nodes()[index as int],
    {
        &self.nodes[index]
    }

    /// Adds a fresh node and returns its index.
    pub fn insert_new(&mut self) -> (r: usize)
        requires
            old(self).wf(),
            old(self).nodes().len() + 1 < usize::MAX,
        ensures
            final(self).wf(),
            r == old(self).nodes().len(),
            final(self).nodes().len() == old(self).nodes().len() + 1,
            final(self).nodes().take(r as int) == old(self).nodes(),
            fresh_node(final(self).nodes()[r as int], r as int),
            final(self).labels() == old(self).labels(),
    {
        let i = self.nodes.len();
        self.nodes.push(DependencyNode::new(i));
        proof {
            assert(self.nodes@.take(i as int) =~= old(self).nodes@);
            assert forall|k: u16| #[trigger] self.labels().contains_key(k) implies self.labels()[k]
                < self.nodes().len() by {
                assert(old(self).labels().contains_key(k));
            }
        }
        i
    }

    /// The node of the phase `label`, added as a fresh node when the label has none yet.
    pub fn insert_phase(&mut self, label: SystemSetId) -> (r: usize)
        requires
            old(self).wf(),
            old(self).nodes().len() + 1 < usize::MAX,
        ensures
            final(self).wf(),
            final(self).labels().contains_key(label.key()),
            r == final(self).labels()[label.key()],
            old(self).labels().contains_key(label.key()) ==> final(self).nodes() == old(
                self,
            ).nodes() && final(self).labels() == old(self).labels(),
            !old(self).labels().contains_key(label.key()) ==> {
                &&& r == old(self).nodes().len()
                &&& final(self).nodes().len() == old(self).nodes().len() + 1
                &&& final(self).nodes().take(r as int) == old(self).nodes()
                &&& fresh_node(final(self).nodes()[r as int], r as int)
                &&& final(self).labels() == old(self).labels().insert(label.key(), r)
            },
    {
        match self.phase_labels.get(&label.0.0) {
            Some(i) => *i,
            None => {
                let i = self.nodes.len();
                self.phase_labels.insert(label.0.0, i);
                self.nodes.push(DependencyNode::new(i));
                proof {
                    assert(self.nodes@.take(i as int) =~= old(self).nodes@);
                    assert forall|k: u16| #[trigger]
                        self.labels().contains_key(k) implies self.labels()[k]
                        < self.nodes().len() by {
                        if k != label.0.0 {
                            assert(old(self).labels().contains_key(k));
                        }
                    }
                }
                i
            },
        }
    }

    /// Makes node `node` wait for node `dependency` to be completed before it starts.
    pub fn add_dependency(&mut self, node: usize, dependency: usize)
        requires
            old(self).wf(),
            node < old(self).nodes().len(),
            dependency < old(self).nodes().len(),
        ensures
            final(self).wf(),
            final(self).labels() == old(self).labels(),
            final(self).nodes().len() == old(self).nodes().len(),
            forall|i: int|
                0 <= i < old(self).nodes().len() && i != node ==> final(self).nodes()[i] == old(
                    self,
                ).nodes()[i],
            final(self).nodes()[node as int].dependencies@ == old(
                self,
            ).nodes()[node as int].dependencies@.insert(dependency),
            final(self).nodes()[node as int].sub_nodes == old(self).nodes()[node as int].sub_nodes,
            final(self).nodes()[node as int].parent == old(self).nodes()[node as int].parent,
            final(self).nodes()[node as int].index == old(self).nodes()[node as int].index,
            final(self).nodes()[node as int].systems == old(self).nodes()[node as int].systems,
    {
        self.nodes[node].dependencies.insert(dependency);
        proof {
            assert(self.nodes()[node as int].dependencies@ == old(self).nodes()[node as int].dependencies@.insert(dependency));
            assert forall|i: int| 0 <= i < self.nodes().len() implies {
                let n = #[trigger] self.nodes()[i];
                &&& n.index == i
                &&& n.parent == usize::MAX || n.parent < self.nodes().len()
                &&& forall|d: usize| n.dependencies@.contains(d) ==> d < self.nodes().len()
                &&& forall|s: usize| n.sub_nodes@.contains(s) ==> s < self.nodes().len()
            } by {
                assert(old(self).nodes()[i] == old(self).nodes@[i]);
                assert(nodes_wf(old(self).nodes()));
                assert(old(self).nodes()[i].index == i);
            }
            assert forall|k: u16| #[trigger] self.labels().contains_key(k) implies self.labels()[k]
                < self.nodes().len() by {
                assert(old(self).labels().contains_key(k));
            }
        }
    }

    /// Makes node `node` wait for node `sub_node` to be completed before it is completed.
    pub fn add_sub_node(&mut self, node: usize, sub_node: usize)
        requires
            old(self).wf(),
            node < old(self).nodes().len(),
            sub_node < old(self).nodes().len(),
        ensures
            final(self).wf(),
            final(self).labels() == old(self).labels(),
            final(self).nodes().len() == old(self).nodes().len(),
            forall|i: int|
                0 <= i < old(self).nodes().len() && i != node ==> final(self).nodes()[i] == old(
                    self,
                ).nodes()[i],
            final(self).nodes()[node as int].sub_nodes@ == old(
                self,
            ).nodes()[node as int].sub_nodes@.insert(sub_node),
            final(self).nodes()[node as int].dependencies == old(
                self,
            ).nodes()[node as int].dependencies,
            final(self).nodes()[node as int].parent == old(self).nodes()[node as int].parent,
            final(self).nodes()[node as int].index == old(self).nodes()[node as int].index,
            final(self).nodes()[node as int].systems == old(self).nodes()[node as int].systems,
    {
        self.nodes[node].sub_nodes.insert(sub_node);
        proof {
            assert(self.nodes()[node as int].sub_nodes@ == old(self).nodes()[node as int].sub_nodes@.insert(sub_node));
            assert forall|i: int| 0 <= i < self.nodes().len() implies {
                let n = #[trigger] self.nodes()[i];
                &&& n.index == i
                &&& n.parent == usize::MAX || n.parent < self.nodes().len()
                &&& forall|d: usize| n.dependencies@.contains(d) ==> d < self.nodes().len()
                &&& forall|s: usize| n.sub_nodes@.contains(s) ==> s < self.nodes().len()
            } by {
                assert(old(self).nodes()[i] == old(self).nodes@[i]);
                assert(nodes_wf(old(self).nodes()));
                assert(old(self).nodes()[i].index == i);
            }
            assert forall|k: u16| #[trigger] self.labels().contains_key(k) implies self.labels()[k]
                < self.nodes().len() by {
                assert(old(self).labels().contains_key(k));
            }
        }
    }

    /// Makes `parent` the parent of node `node`.
    pub fn set_parent(&mut self, node: usize, parent: usize)
        requires
            old(self).wf(),
            node < old(self).nodes().len(),
            parent < old(self).nodes().len(),
        ensures
            final(self).wf(),
            final(self).labels() == old(self).labels(),
            final(self).nodes().len() == old(self).nodes().len(),
            forall|i: int|
                0 <= i < old(self).nodes().len() && i != node ==> final(self).nodes()[i] == old(
                    self,
                ).nodes()[i],
            final(self).nodes()[node as int].parent == parent,
            final(self).nodes()[node as int].dependencies == old(
                self,
            ).nodes()[node as int].dependencies,
            final(self).nodes()[node as int].sub_nodes == old(self).nodes()[node as int].sub_nodes,
            final(self).nodes()[node as int].index == old(self).nodes()[node as int].index,
            final(self).nodes()[node as int].systems == old(self).nodes()[node as int].systems,
    {
        self.nodes[node].parent = parent;
        proof {
            assert forall|i: int| 0 <= i < self.nodes().len() implies {
                let n = #[trigger] self.nodes()[i];
                &&& n.index == i
                &&& n.parent == usize::MAX || n.parent < self.nodes().len()
                &&& forall|d: usize| n.dependencies@.contains(d) ==> d < self.nodes().len()
                &&& forall|s: usize| n.sub_nodes@.contains(s) ==> s < self.nodes().len()
            } by {
                assert(old(self).nodes()[i] == old(self).nodes@[i]);
                assert(nodes_wf(old(self).nodes()));
                assert(old(self).nodes()[i].index == i);
            }
            assert forall|k: u16| #[trigger] self.labels().contains_key(k) implies self.labels()[k]
                < self.nodes().len() by {
                assert(old(self).labels().contains_key(k));
            }
        }
    }

    /// Appends `system` to the systems of node `node`.
    pub fn push_system(&mut self, node: usize, system: usize)
        requires
            old(self).wf(),
            node < old(self).nodes().len(),
        ensures
            final(self).wf(),
            final(self).labels() == old(self).labels(),
            final(self).nodes().len() == old(self).nodes().len(),
            forall|i: int|
                0 <= i < old(self).nodes().len() && i != node ==> final(self).nodes()[i] == old(
                    self,
                ).nodes()[i],
            final(self).nodes()[node as int].systems@ == old(
                self,
            ).nodes()[node as int].systems@.push(system),
            final(self).nodes()[node as int].dependencies == old(
                self,
            ).nodes()[node as int].dependencies,
            final(self).nodes()[node as int].sub_nodes == old(self).nodes()[node as int].sub_nodes,
            final(self).nodes()[node as int].parent == old(self).nodes()[node as int].parent,
            final(self).nodes()[node as int].index == old(self).nodes()[node as int].index,
    {
        self.nodes[node].systems.push(system);
        proof {
            assert forall|i: int| 0 <= i < self.nodes().len() implies {
                let n = #[trigger] self.nodes()[i];
                &&& n.index == i
                &&& n.parent == usize::MAX || n.parent < self.nodes().len()
                &&& forall|d: usize| n.dependencies@.contains(d) ==> d < self.nodes().len()
                &&& forall|s: usize| n.sub_nodes@.contains(s) ==> s < self.nodes().len()
            } by {
                assert(old(self).nodes()[i] == old(self).nodes@[i]);
                assert(nodes_wf(old(self).nodes()));
                assert(old(self).nodes()[i].index == i);
            }
            assert forall|k: u16| #[trigger] self.labels().contains_key(k) implies self.labels()[k]
                < self.nodes().len() by {
                assert(old(self).labels().contains_key(k));
            }
        }
    }

    /// Files `system` among the systems of node `node`, keeping them strictly ascending.
    pub fn insert_system_sorted(&mut self, node: usize, system: usize)
        requires
            old(self).wf(),
            node < old(self).nodes().len(),
            strictly_ascending(old(self).nodes()[node as int].systems@),
        ensures
            final(self).wf(),
            final(self).labels() == old(self).labels(),
            final(self).nodes().len() == old(self).nodes().len(),
            forall|i: int|
                0 <= i < old(self).nodes().len() && i != node ==> final(self).nodes()[i] == old(
                    self,
                ).nodes()[i],
            strictly_ascending(final(self).nodes()[node as int].systems@),
            final(self).nodes()[node as int].systems@.to_set() == old(
                self,
            ).nodes()[node as int].systems@.to_set().insert(system),
            final(self).nodes()[node as int].dependencies == old(
                self,
            ).nodes()[node as int].dependencies,
            final(self).nodes()[node as int].sub_nodes == old(self).nodes()[node as int].sub_nodes,
            final(self).nodes()[node as int].parent == old(self).nodes()[node as int].parent,
            final(self).nodes()[node as int].index == old(self).nodes()[node as int].index,
    {
        insert_sorted(&mut self.nodes[node].systems, system);
        proof {
            assert forall|i: int| 0 <= i < self.nodes().len() implies {
                let n = #[trigger] self.nodes()[i];
                &&& n.index == i
                &&& n.parent == usize::MAX || n.parent < self.nodes().len()
                &&& forall|d: usize| n.dependencies@.contains(d) ==> d < self.nodes().len()
                &&& forall|s: usize| n.sub_nodes@.contains(s) ==> s < self.nodes().len()
            } by {
                assert(old(self).nodes()[i] == old(self).nodes@[i]);
                assert(nodes_wf(old(self).nodes()));
                assert(old(self).nodes()[i].index == i);
            }
            assert forall|k: u16| #[trigger] self.labels().contains_key(k) implies self.labels()[k]
                < self.nodes().len() by {
                assert(old(self).labels().contains_key(k));
            }
        }
    }
}

/// Each element is smaller than the next.
pub open spec fn strictly_ascending(s: Seq<usize>) -> bool {
    forall|i: int, j: int| 0 <= i < j < s.len() ==> s[i] < s[j]
}

/// Inserts `value` into the strictly ascending `vec` at its place, unless it is already
/// there. A strictly ascending sequence is determined by its set of elements, so the result
/// is pinned down by the two clauses.
pub fn insert_sorted(vec: &mut Vec<usize>, value: usize)
    requires
        strictly_ascending(old(vec)@),
    ensures
        strictly_ascending(final(vec)@),
        final(vec)@.to_set() == old(vec)@.to_set().insert(value),
{
    let mut lo: usize = 0;
    let mut hi: usize = vec.len();
    while lo < hi
        invariant
            0 <= lo <= hi <= vec@.len(),
            vec@ == old(vec)@,
            strictly_ascending(vec@),
            forall|k: int| 0 <= k < lo ==> vec@[k] < value,
            forall|k: int| hi <= k < vec@.len() ==> vec@[k] > value,
        decreases hi - lo,
    {
        let mid = lo + (hi - lo) / 2;
        let v = vec[mid];
        if v < value {
            lo = mid + 1;
        } else if v == value {
            proof {
                assert(vec@[mid as int] == value);
                assert(vec@.to_set().insert(value) =~= vec@.to_set());
            }
            return;
        } else {
            hi = mid;
        }
    }
    let ghost before = vec@;
    vec.insert(lo, value);
    proof {
        assert forall|x: usize| vec@.to_set().contains(x) == before.to_set().insert(value).contains(
            x,
        ) by {
            if vec@.to_set().contains(x) {
                let k = choose|k: int| 0 <= k < vec@.len() && vec@[k] == x;
                if k < lo {
                    assert(before[k] == x);
                } else if k > lo {
                    assert(before[k - 1] == x);
                }
            }
            if before.to_set().contains(x) {
                let k = choose|k: int| 0 <= k < before.len() && before[k] == x;
                if k < lo {
                    assert(vec@[k] == x);
                } else {
                    assert(vec@[k + 1] == x);
                }
            }
            if x == value {
                assert(vec@[lo as int] == x);
            }
        }
        assert(vec@.to_set() =~= before.to_set().insert(value));
        assert forall|i: int, j: int| 0 <= i < j < vec@.len() implies vec@[i] < vec@[j] by {
            if j < lo {
                assert(vec@[i] == before[i] && vec@[j] == before[j]);
            } else if j == lo {
                assert(vec@[i] == before[i]);
            } else if i < lo {
                assert(vec@[i] == before[i] && vec@[j] == before[j - 1]);
            } else if i == lo {
                assert(vec@[j] == before[j - 1]);
            } else {
                assert(vec@[i] == before[i - 1] && vec@[j] == before[j - 1]);
            }
        }
    }
}

} // verus!
