//! The dependency graph of a schedule and its sorting into layers.
//!
//! Every node stands for a system or, when its system is undefined, for a set of systems
//! (a "virtual" node). A node can depend on other nodes, and it can have a parent: a node
//! becomes *ready* when its parent is ready and all its dependencies are *completed*; a node
//! is completed when it is ready and all its children are completed.

use vstd::prelude::*;
use crate::bitset::BitSet;
use crate::schedule::{Layer, SystemId};
use std::collections::HashMap;

verus! {

/// The index of a node in a [`Graph`].
#[derive(Copy, Clone, Debug, PartialEq, Eq, Structural, PartialOrd, Ord, Hash)]
pub struct NodeId(pub usize);

impl NodeId {
    /// The sentinel for "no node".
    pub fn undefined() -> (r: Self)
        ensures
            r.0 == usize::MAX,
    {
        NodeId(usize::MAX)
    }

    /// Whether this is the sentinel of an unassigned node.
    pub fn is_undefined(&self) -> (r: bool)
        ensures
            r == (self.0 == usize::MAX),
    {
        self.0 == usize::MAX
    }

    /// Whether this names a node.
    pub fn is_defined(&self) -> (r: bool)
        ensures
            r == (self.0 != usize::MAX),
    {
        self.0 != usize::MAX
    }
}

/// The ids are strictly ascending.
pub open spec fn ids_sorted(ids: Seq<NodeId>) -> bool {
    forall|i: int, j: int| 0 <= i < j < ids.len() ==> ids[i].0 < ids[j].0
}

/// A node of the dependency graph.
#[derive(Debug, Clone)]
pub struct Node {
    pub dependencies: Vec<NodeId>,
    pub parent: NodeId,
    pub system: SystemId,
}

impl Node {
    /// The nodes this node depends on, in ascending order.
    pub open spec fn deps(&self) -> Seq<NodeId> {
        self.dependencies@
    }

    /// The dependencies are kept strictly ascending.
    pub open spec fn wf(&self) -> bool {
        ids_sorted(self.dependencies@)
    }

    /// A node for `system`, without parent and without dependencies.
    pub fn new(system: SystemId) -> (r: Self)
        ensures
            r.deps() == Seq::<NodeId>::empty(),
            r.parent.0 == usize::MAX,
            r.system == system,
            r.wf(),
    {
        Node { dependencies: Vec::new(), parent: NodeId(usize::MAX), system }
    }

    /// The nodes this node depends on, in ascending order.
    pub fn dependencies(&self) -> (r: &Vec<NodeId>)
        ensures
            r@ == self.deps(),
    {
        &self.dependencies
    }

    /// Adds `dependency` to the dependencies, unless it is already there.
    pub fn add_dependency(&mut self, dependency: NodeId)
        requires
            old(self).wf(),
        ensures
            final(self).wf(),
            final(self).deps().to_set() == old(self).deps().to_set().insert(dependency),
            final(self).parent == old(self).parent,
            final(self).system == old(self).system,
    {
        insert_sorted(&mut self.dependencies, dependency);
    }
}

/// Inserts `value` into the strictly ascending `vec` at its place, unless it is already
/// there. A strictly ascending sequence is determined by its set of elements, so the result
/// is pinned down by the two clauses.
pub fn insert_sorted(vec: &mut Vec<NodeId>, value: NodeId)
    requires
        ids_sorted(old(vec)@),
    ensures
        ids_sorted(final(vec)@),
        final(vec)@.to_set() == old(vec)@.to_set().insert(value),
{
    let mut lo: usize = 0;
    let mut hi: usize = vec.len();
    while lo < hi
        invariant
            0 <= lo <= hi <= vec@.len(),
            vec@ == old(vec)@,
            ids_sorted(vec@),
            forall|k: int| 0 <= k < lo ==> vec@[k].0 < value.0,
            forall|k: int| hi <= k < vec@.len() ==> vec@[k].0 > value.0,
        decreases hi - lo,
    {
        let mid = lo + (hi - lo) / 2;
        let v = vec[mid].0;
        if v < value.0 {
            lo = mid + 1;
        } else if v == value.0 {
            proof {
                assert(vec@[mid as int] == value);
                assert(vec@.to_set().insert(value) =~= vec@.to_set());
            }
            return;
        } else {
            hi = mid;
        }
    }
    let ghost before = vec@;
    vec.insert(lo, value);
    proof {
        assert forall|x: NodeId| vec@.to_set().contains(x) == before.to_set().insert(value).contains(x) by {
            if vec@.to_set().contains(x) {
                let k = choose|k: int| 0 <= k < vec@.len() && vec@[k] == x;
                if k < lo {
                    assert(before[k] == x);
                } else if k > lo {
                    assert(before[k - 1] == x);
                }
            }
            if before.to_set().contains(x) {
                let k = choose|k: int| 0 <= k < before.len() && before[k] == x;
                if k < lo {
                    assert(vec@[k] == x);
                } else {
                    assert(vec@[k + 1] == x);
                }
            }
            if x == value {
                assert(vec@[lo as int] == x);
            }
        }
        assert(vec@.to_set() =~= before.to_set().insert(value));
    }
}

/// A strictly ascending sequence of ids is determined by its set of ids: the contract of
/// [`insert_sorted`] pins its result down.
pub proof fn lemma_sorted_ids_unique(a: Seq<NodeId>, b: Seq<NodeId>)
    requires
        ids_sorted(a),
        ids_sorted(b),
        a.to_set() == b.to_set(),
    ensures
        a == b,
    decreases a.len(),
{
    if a.len() == 0 || b.len() == 0 {
        if a.len() > 0 {
            assert(a.to_set().contains(a[0]));
            assert(b.contains(a[0]));
        }
        if b.len() > 0 {
            assert(b.to_set().contains(b[0]));
            assert(a.contains(b[0]));
        }
        assert(a =~= b);
    } else {
        assert(a.contains(a[0]));
        assert(a.to_set().contains(a[0]));
        assert(b.to_set().contains(a[0]));
        assert(b.contains(a[0]));
        assert(b.contains(b[0]));
        assert(b.to_set().contains(b[0]));
        assert(a.to_set().contains(b[0]));
        assert(a.contains(b[0]));
        let i = choose|i: int| 0 <= i < b.len() && b[i] == a[0];
        let j = choose|j: int| 0 <= j < a.len() && a[j] == b[0];
        assert(a[0] == b[0]) by {
            if i > 0 {
                assert(b[0].0 < b[i].0);
            }
            if j > 0 {
                assert(a[0].0 < a[j].0);
            }
        }
        let a1 = a.drop_first();
        let b1 = b.drop_first();
        assert forall|x: NodeId| a1.contains(x) <==> b1.contains(x) by {
            if a1.contains(x) {
                let k = choose|k: int| 0 <= k < a1.len() && a1[k] == x;
                assert(a[k + 1] == x && a[0].0 < a[k + 1].0);
                assert(b.to_set().contains(x));
                let m = choose|m: int| 0 <= m < b.len() && b[m] == x;
                assert(m != 0);
                assert(b1[m - 1] == x);
            }
            if b1.contains(x) {
                let k = choose|k: int| 0 <= k < b1.len() && b1[k] == x;
                assert(b[k + 1] == x && b[0].0 < b[k + 1].0);
                assert(a.to_set().contains(x));
                let m = choose|m: int| 0 <= m < a.len() && a[m] == x;
                assert(m != 0);
                assert(a1[m - 1] == x);
            }
        }
        assert(a1.to_set() =~= b1.to_set());
        lemma_sorted_ids_unique(a1, b1);
        assert forall|k: int| 0 <= k < a.len() implies a[k] == b[k] by {
            if k > 0 {
                assert(a[k] == a1[k - 1] && b[k] == b1[k - 1]);
            }
        }
        assert(a =~= b);
    }
}

/// Inserting an id that is already there changes nothing.
pub proof fn lemma_insert_sorted_present(before: Seq<NodeId>, after: Seq<NodeId>, value: NodeId)
    requires
        ids_sorted(before),
        before.contains(value),
        ids_sorted(after),
        after.to_set() == before.to_set().insert(value),
    ensures
        after == before,
{
    assert(before.to_set().insert(value) =~= before.to_set());
    lemma_sorted_ids_unique(after, before);
}

/// The nodes of a schedule and their relations.
#[derive(Clone)]
pub struct Graph {
    nodes: Vec<Node>,
}

impl Graph {
    /// The nodes, indexed by `NodeId`.
    pub closed spec fn nodes(&self) -> Seq<Node> {
        self.nodes@
    }

    /// Every node keeps its dependencies ascending.
    pub open spec fn wf(&self) -> bool {
        forall|i: int| 0 <= i < self.nodes().len() ==> #[trigger] self.nodes()[i].wf()
    }

    /// Creates an empty graph.
    pub fn new() -> (r: Self)
        ensures
            r.nodes() == Seq::<Node>::empty(),
            r.wf(),
    {
        Graph { nodes: Vec::new() }
    }

    /// The number of nodes.
    pub fn len(&self) -> (r: usize)
        ensures
            r == self.nodes().len(),
    {
        self.nodes.len()
    }

    /// The node `node_id`, if the graph has one.
    pub fn get(&self, node_id: NodeId) -> (r: Option<&Node>)
        ensures
            r == (if node_id.0 < self.nodes().len() {
                Some(&self.nodes()[node_id.0 as int])
            } else {
                None::<&Node>
            }),
    {
        if node_id.0 < self.nodes.len() {
            Some(&self.nodes[node_id.0])
        } else {
            None
        }
    }

    /// The node `node_id` for changing, if the graph has one.
    pub fn get_mut(&mut self, node_id: NodeId) -> (r: Option<&mut Node>)
        ensures
            node_id.0 < old(self).nodes().len() ==> {
                &&& r is Some
                &&& *r->0 == old(self).nodes()[node_id.0 as int]
                &&& final(self).nodes() == old(self).nodes().update(node_id.0 as int, *final(r->0))
            },
            node_id.0 >= old(self).nodes().len() ==> r is None && final(self).nodes() == old(
                self,
            ).nodes(),
    {
        if node_id.0 < self.nodes.len() {
            Some(&mut self.nodes[node_id.0])
        } else {
            None
        }
    }

    /// Adds a node for `system_id`, without parent and dependencies; returns its id and the
    /// node for changing.
    pub fn insert(&mut self, system_id: SystemId) -> (r: (NodeId, &mut Node))
        ensures
            r.0.0 == old(self).nodes().len(),
            r.0.0 < usize::MAX,
            r.1.deps() == Seq::<NodeId>::empty(),
            r.1.parent.0 == usize::MAX,
            r.1.system == system_id,
            final(self).nodes() == old(self).nodes().push(*final(r.1)),
    {
        let index = self.nodes.len();
        self.nodes.push(Node::new(system_id));
        let _count = self.nodes.len();
        (NodeId(index), &mut self.nodes[index])
    }

    /// Makes `dependent` depend on `dependency`.
    pub fn add_dependency(&mut self, dependency: NodeId, dependent: NodeId)
        requires
            old(self).wf(),
            dependent.0 < old(self).nodes().len(),
        ensures
            final(self).wf(),
            final(self).nodes().len() == old(self).nodes().len(),
            forall|i: int|
                0 <= i < old(self).nodes().len() && i != dependent.0 ==> final(self).nodes()[i]
                    == old(self).nodes()[i],
            final(self).nodes()[dependent.0 as int].deps().to_set() == old(
                self,
            ).nodes()[dependent.0 as int].deps().to_set().insert(dependency),
            final(self).nodes()[dependent.0 as int].parent == old(
                self,
            ).nodes()[dependent.0 as int].parent,
            final(self).nodes()[dependent.0 as int].system == old(
                self,
            ).nodes()[dependent.0 as int].system,
    {
        let ghost i = dependent.0 as int;
        assert(self.nodes@[i].wf());
        self.nodes[dependent.0].add_dependency(dependency);
    }
}


/// One more than the largest defined system id among the first `n` nodes, or 0 if they have
/// none.
pub open spec fn systems_len_of(nodes: Seq<Node>, n: int) -> int
    decreases n,
{
    if n <= 0 {
        0
    } else {
        let rest = systems_len_of(nodes, n - 1);
        let s = nodes[n - 1].system.0;
        if s != usize::MAX && s + 1 > rest {
            s + 1
        } else {
            rest
        }
    }
}

/// The ids of the nodes among the first `n` whose parent is `parent`, in ascending order.
pub open spec fn children_of(nodes: Seq<Node>, parent: usize, n: int) -> Seq<NodeId>
    decreases n,
{
    if n <= 0 {
        Seq::empty()
    } else if nodes[n - 1].parent.0 == parent {
        children_of(nodes, parent, n - 1).push(NodeId((n - 1) as usize))
    } else {
        children_of(nodes, parent, n - 1)
    }
}

/// `children_of` lists exactly the nodes below `n` with parent `parent`.
proof fn lemma_children_of(nodes: Seq<Node>, parent: usize, n: int)
    requires
        0 <= n <= nodes.len(),
        n <= usize::MAX,
    ensures
        forall|k: int|
            0 <= k < children_of(nodes, parent, n).len() ==> {
                let c = #[trigger] children_of(nodes, parent, n)[k].0;
                &&& c < n
                &&& nodes[c as int].parent.0 == parent
            },
        forall|m: int|
            0 <= m < n && #[trigger] nodes[m].parent.0 == parent ==> children_of(
                nodes,
                parent,
                n,
            ).contains(NodeId(m as usize)),
    decreases n,
{
    if n > 0 {
        lemma_children_of(nodes, parent, n - 1);
        let prev = children_of(nodes, parent, n - 1);
        if nodes[n - 1].parent.0 == parent {
            assert forall|m: int|
                0 <= m < n && #[trigger] nodes[m].parent.0 == parent implies children_of(
                nodes,
                parent,
                n,
            ).contains(NodeId(m as usize)) by {
                if m == n - 1 {
                    assert(children_of(nodes, parent, n)[prev.len() as int] == NodeId(
                        m as usize,
                    ));
                } else {
                    let k = choose|k: int| 0 <= k < prev.len() && prev[k] == NodeId(m as usize);
                    assert(children_of(nodes, parent, n)[k] == NodeId(m as usize));
                }
            }
        }
    }
}

impl Graph {
    /// Makes `parent` the parent of `child`.
    pub fn set_parent(&mut self, parent: NodeId, child: NodeId)
        requires
            child.0 < old(self).nodes().len(),
        ensures
            final(self).nodes().len() == old(self).nodes().len(),
            forall|i: int|
                0 <= i < old(self).nodes().len() && i != child.0 ==> final(self).nodes()[i]
                    == old(self).nodes()[i],
            final(self).nodes()[child.0 as int].parent == parent,
            final(self).nodes()[child.0 as int].deps() == old(
                self,
            ).nodes()[child.0 as int].deps(),
            final(self).nodes()[child.0 as int].system == old(
                self,
            ).nodes()[child.0 as int].system,
    {
        self.nodes[child.0].parent = parent;
    }

    /// Every parent is undefined or the id of a node of the graph.
    pub open spec fn parents_in_range(&self) -> bool {
        forall|i: int|
            0 <= i < self.nodes().len() ==> {
                let p = #[trigger] self.nodes()[i].parent.0;
                p == usize::MAX || p < self.nodes().len()
            }
    }

    /// The graph together with the children of each node, ready for sorting.
    pub fn work_graph(&self) -> (r: WorkGraph<'_>)
        requires
            self.parents_in_range(),
        ensures
            r.base() == *self,
            r.wf(),
    {
        WorkGraph::new(self)
    }

    /// One more than the largest system id of the nodes, or 0 when no node has a system.
    pub fn systems_len(&self) -> (r: usize)
        ensures
            r == systems_len_of(self.nodes(), self.nodes().len() as int),
    {
        let mut result: usize = 0;
        let mut i: usize = 0;
        while i < self.nodes.len()
            invariant
                0 <= i <= self.nodes@.len(),
                result == systems_len_of(self.nodes@, i as int),
            decreases self.nodes@.len() - i,
        {
            let s = self.nodes[i].system.0;
            if s != usize::MAX && s + 1 > result {
                result = s + 1;
            }
            i += 1;
        }
        result
    }
}

/// A graph together with the children of each of its nodes.
pub struct WorkGraph<'a> {
    pub graph: &'a Graph,
    children: Vec<Vec<NodeId>>,
}

impl<'a> WorkGraph<'a> {
    /// The graph that is sorted.
    pub closed spec fn base(&self) -> Graph {
        *self.graph
    }

    /// The children lists are those of the graph.
    pub closed spec fn wf(&self) -> bool {
        &&& self.children@.len() == self.graph.nodes().len()
        &&& forall|p: int|
            0 <= p < self.children@.len() ==> #[trigger] self.children@[p]@ == children_of(
                self.graph.nodes(),
                p as usize,
                self.graph.nodes().len() as int,
            )
    }

    /// Collects the children of every node of `graph`.
    pub fn new(graph: &'a Graph) -> (r: Self)
        requires
            graph.parents_in_range(),
        ensures
            r.base() == *graph,
            r.wf(),
    {
        let len = graph.nodes.len();
        let mut children: Vec<Vec<NodeId>> = Vec::new();
        let mut j: usize = 0;
        while j < len
            invariant
                0 <= j <= len,
                len == graph.nodes@.len(),
                children@.len() == j,
                forall|p: int| 0 <= p < j ==> #[trigger] children@[p]@ == Seq::<NodeId>::empty(),
            decreases len - j,
        {
            children.push(Vec::new());
            j += 1;
        }
        let mut i: usize = 0;
        while i < len
            invariant
                0 <= i <= len,
                len == graph.nodes@.len(),
                graph.parents_in_range(),
                children@.len() == len,
                forall|p: int|
                    0 <= p < len ==> #[trigger] children@[p]@ == children_of(
                        graph.nodes@,
                        p as usize,
                        i as int,
                    ),
            decreases len - i,
        {
            let parent = graph.nodes[i].parent.0;
            let ghost before = children@;
            if parent != usize::MAX {
                assert(graph.nodes()[i as int].parent.0 == parent);
                children[parent].push(NodeId(i));
            }
            proof {
                assert forall|p: int| 0 <= p < len implies #[trigger] children@[p]@ == children_of(
                    graph.nodes@,
                    p as usize,
                    i + 1,
                ) by {
                    assert(before[p]@ == children_of(graph.nodes@, p as usize, i as int));
                    if parent != usize::MAX && p == parent {
                        assert(children@[p]@ == before[p]@.push(NodeId(i)));
                    } else {
                        assert(children@[p] == before[p]);
                    }
                }
            }
            i += 1;
        }
        WorkGraph { graph, children }
    }

    /// The children of `node_id`, in ascending order; none for an id beyond the graph.
    pub fn get_children(&self, node_id: NodeId) -> (r: &[NodeId])
        requires
            self.wf(),
        ensures
            node_id.0 < self.base().nodes().len() ==> r@ == children_of(
                self.base().nodes(),
                node_id.0,
                self.base().nodes().len() as int,
            ),
            node_id.0 >= self.base().nodes().len() ==> r@ == Seq::<NodeId>::empty(),
    {
        if node_id.0 < self.children.len() {
            self.children[node_id.0].as_slice()
        } else {
            &[]
        }
    }
}


/// The parent of node `n` is undefined or in `ready`.
pub open spec fn parent_ready(nodes: Seq<Node>, n: int, ready: Set<usize>) -> bool {
    nodes[n].parent.0 == usize::MAX || ready.contains(nodes[n].parent.0)
}

/// Every dependency of node `n` is in `completed`.
pub open spec fn deps_completed(nodes: Seq<Node>, n: int, completed: Set<usize>) -> bool {
    forall|k: int|
        0 <= k < nodes[n].dependencies@.len() ==> completed.contains(
            #[trigger] nodes[n].dependencies@[k].0,
        )
}

/// Every child of node `n` is in `completed`.
pub open spec fn children_completed(nodes: Seq<Node>, n: int, completed: Set<usize>) -> bool {
    forall|m: int|
        0 <= m < nodes.len() && #[trigger] nodes[m].parent.0 == n ==> completed.contains(
            m as usize,
        )
}

/// The rule by which a node becomes ready: its parent is ready and all its dependencies are
/// completed.
pub open spec fn may_become_ready(
    nodes: Seq<Node>,
    n: int,
    ready: Set<usize>,
    completed: Set<usize>,
) -> bool {
    parent_ready(nodes, n, ready) && deps_completed(nodes, n, completed)
}

/// `ready` and `completed` are closed under the two rules: a node that may become ready is
/// ready, and a ready node whose children are all completed is completed.
pub open spec fn closed_under_rules(
    nodes: Seq<Node>,
    ready: Set<usize>,
    completed: Set<usize>,
) -> bool {
    &&& forall|n: int|
        0 <= n < nodes.len() && #[trigger] may_become_ready(nodes, n, ready, completed)
            ==> ready.contains(n as usize)
    &&& forall|n: int|
        0 <= n < nodes.len() && ready.contains(n as usize) && #[trigger] children_completed(
            nodes,
            n,
            completed,
        ) ==> completed.contains(n as usize)
}

/// The nodes that the rules make ready: those that every closed pair of sets holds as ready.
pub open spec fn rule_ready(nodes: Seq<Node>) -> Set<usize> {
    Set::new(
        |n: usize|
            n < nodes.len() && forall|r: Set<usize>, c: Set<usize>|
                #[trigger] closed_under_rules(nodes, r, c) ==> r.contains(n),
    )
}

/// The rules make every node ready: the graph can be sorted into layers.
pub open spec fn schedulable(nodes: Seq<Node>) -> bool {
    forall|n: usize| n < nodes.len() ==> #[trigger] rule_ready(nodes).contains(n)
}

/// Node `n` stands for a system.
pub open spec fn has_system(nodes: Seq<Node>, n: usize) -> bool {
    nodes[n as int].system.0 != usize::MAX
}

/// `layers` sorts the systems of `nodes`: each layer is non-empty, each node with a system
/// stands in exactly one layer and once there, no other node stands anywhere, the
/// dependencies of a node in a layer are nodes of the graph, a node's
/// dependencies with a system stand in earlier layers, and its parent, when it has a
/// system, stands in the same or an earlier layer.
pub open spec fn is_layering(nodes: Seq<Node>, layers: Seq<Seq<NodeId>>) -> bool {
    &&& forall|i: int| 0 <= i < layers.len() ==> #[trigger] layers[i].len() > 0
    &&& forall|i: int, k: int|
        0 <= i < layers.len() && 0 <= k < layers[i].len() ==> {
            let n = #[trigger] layers[i][k].0;
            &&& n < nodes.len()
            &&& has_system(nodes, n)
            &&& forall|q: int|
                0 <= q < nodes[n as int].dependencies@.len() ==> (
                #[trigger] nodes[n as int].dependencies@[q]).0 < nodes.len()
        }
    &&& forall|n: usize|
        n < nodes.len() && #[trigger] has_system(nodes, n) ==> exists|i: int, k: int|
            0 <= i < layers.len() && 0 <= k < layers[i].len() && #[trigger] layers[i][k] == NodeId(
                n,
            )
    &&& forall|i: int, k: int, j: int, l: int|
        0 <= i < layers.len() && 0 <= k < layers[i].len() && 0 <= j < layers.len() && 0 <= l
            < layers[j].len() && #[trigger] layers[i][k] == #[trigger] layers[j][l] ==> i == j
            && k == l
    &&& forall|i: int, k: int, j: int, l: int|
        0 <= i < layers.len() && 0 <= k < layers[i].len() && 0 <= j < layers.len() && 0 <= l
            < layers[j].len() && nodes[#[trigger] layers[i][k].0 as int].dependencies@.contains(
            #[trigger] layers[j][l],
        ) ==> j < i
    &&& forall|i: int, k: int, j: int, l: int|
        0 <= i < layers.len() && 0 <= k < layers[i].len() && 0 <= j < layers.len() && 0 <= l
            < layers[j].len() && nodes[#[trigger] layers[i][k].0 as int].parent == #[trigger] layers[j][l]
            ==> j <= i
}

/// `e` and `c` hold `e0` and `c0` and are closed under the rules of the first part of a
/// round: a node that may become ready is ready, and a ready node without a system whose
/// children are all completed is completed.
pub open spec fn ready_part_closed(
    nodes: Seq<Node>,
    e0: Set<usize>,
    c0: Set<usize>,
    e: Set<usize>,
    c: Set<usize>,
) -> bool {
    &&& e0.subset_of(e)
    &&& c0.subset_of(c)
    &&& forall|n: int|
        0 <= n < nodes.len() && #[trigger] may_become_ready(nodes, n, e, c) ==> e.contains(
            n as usize,
        )
    &&& forall|n: int|
        0 <= n < nodes.len() && e.contains(n as usize) && !has_system(nodes, n as usize)
            && #[trigger] children_completed(nodes, n, c) ==> c.contains(n as usize)
}

/// The nodes ever made ready and the completed nodes after the first part of a round that
/// starts from `e0` and `c0`: the least pair closed under its rules.
pub open spec fn ready_part(nodes: Seq<Node>, e0: Set<usize>, c0: Set<usize>) -> (
    Set<usize>,
    Set<usize>,
) {
    (
        Set::new(
            |n: usize|
                forall|e: Set<usize>, c: Set<usize>| #[trigger]
                    ready_part_closed(nodes, e0, c0, e, c) ==> e.contains(n),
        ),
        Set::new(
            |n: usize|
                forall|e: Set<usize>, c: Set<usize>| #[trigger]
                    ready_part_closed(nodes, e0, c0, e, c) ==> c.contains(n),
        ),
    )
}

/// `c` holds `c0` and every node of `e` whose children are all in `c`.
pub open spec fn complete_part_closed(
    nodes: Seq<Node>,
    e: Set<usize>,
    c0: Set<usize>,
    c: Set<usize>,
) -> bool {
    &&& c0.subset_of(c)
    &&& forall|n: int|
        0 <= n < nodes.len() && e.contains(n as usize) && #[trigger] children_completed(
            nodes,
            n,
            c,
        ) ==> c.contains(n as usize)
}

/// The completed nodes after the second part of a round, in which the nodes of `e` are
/// completed from `c0` as their children are: the least set closed under that rule.
pub open spec fn complete_part(nodes: Seq<Node>, e: Set<usize>, c0: Set<usize>) -> Set<usize> {
    Set::new(
        |n: usize|
            forall|c: Set<usize>| #[trigger] complete_part_closed(nodes, e, c0, c) ==> c.contains(
                n,
            ),
    )
}

/// The nodes ever made ready and the completed nodes after `k` rounds of the sort.
pub open spec fn sort_round(nodes: Seq<Node>, k: nat) -> (Set<usize>, Set<usize>)
    decreases k,
{
    if k == 0 {
        (Set::empty(), Set::empty())
    } else {
        let (e, c) = sort_round(nodes, (k - 1) as nat);
        let (e1, c1) = ready_part(nodes, e, c);
        (e1, complete_part(nodes, e1, c1))
    }
}

/// The nodes with a system that become ready in round `k` (from 1).
pub open spec fn round_layer(nodes: Seq<Node>, k: int) -> Set<usize> {
    Set::new(
        |n: usize|
            sort_round(nodes, k as nat).0.contains(n) && !sort_round(
                nodes,
                (k - 1) as nat,
            ).0.contains(n) && has_system(nodes, n),
    )
}

/// The layers of the first `k` rounds: each round that makes a node with a system ready
/// adds the layer of those nodes.
pub open spec fn layer_sets(nodes: Seq<Node>, k: nat) -> Seq<Set<usize>>
    decreases k,
{
    if k == 0 {
        Seq::empty()
    } else {
        let prev = layer_sets(nodes, (k - 1) as nat);
        let s = round_layer(nodes, k as int);
        if s.is_empty() {
            prev
        } else {
            prev.push(s)
        }
    }
}

/// Each of `layers` holds exactly the nodes of the set at its place in `sets`.
pub open spec fn layers_hold(layers: Seq<Seq<NodeId>>, sets: Seq<Set<usize>>) -> bool {
    &&& layers.len() == sets.len()
    &&& forall|i: int, n: usize|
        #![trigger layers[i].contains(NodeId(n))]
        #![trigger sets[i].contains(n)]
        0 <= i < layers.len() ==> (layers[i].contains(NodeId(n)) <==> sets[i].contains(n))
}

/// `layers` are the layers of the rounds of the sort: each holds exactly the nodes with a
/// system that became ready in its round. (No more rounds than nodes are needed.)
pub open spec fn layers_by_round(nodes: Seq<Node>, layers: Seq<Seq<NodeId>>) -> bool {
    layers_hold(layers, layer_sets(nodes, nodes.len() as nat))
}

/// Visiting node `i` in a pass of the first part of a round, with the ready nodes `st.0`,
/// the completed nodes `st.1` and the layer `st.2` built so far: a node not completed that
/// may become ready does, and joins the layer when it has a system; a ready node without a
/// system whose children are all completed is completed.
pub open spec fn visit_node(
    nodes: Seq<Node>,
    st: (Set<usize>, Set<usize>, Seq<NodeId>),
    i: int,
) -> (Set<usize>, Set<usize>, Seq<NodeId>) {
    let (r, c, cur) = st;
    if c.contains(i as usize) {
        st
    } else {
        let becomes = !r.contains(i as usize) && may_become_ready(nodes, i, r, c);
        let r1 = if becomes {
            r.insert(i as usize)
        } else {
            r
        };
        let cur1 = if becomes && has_system(nodes, i as usize) {
            cur.push(NodeId(i as usize))
        } else {
            cur
        };
        if r1.contains(i as usize) && !has_system(nodes, i as usize) && children_completed(
            nodes,
            i,
            c,
        ) {
            (r1.remove(i as usize), c.insert(i as usize), cur1)
        } else {
            (r1, c, cur1)
        }
    }
}

/// A pass over the first `k` nodes, in index order.
pub open spec fn pass_upto(
    nodes: Seq<Node>,
    st: (Set<usize>, Set<usize>, Seq<NodeId>),
    k: nat,
) -> (Set<usize>, Set<usize>, Seq<NodeId>)
    decreases k,
{
    if k == 0 {
        st
    } else {
        visit_node(nodes, pass_upto(nodes, st, (k - 1) as nat), k - 1)
    }
}

/// Passes over all nodes until one changes nothing (at most `fuel` more after the first).
pub open spec fn passes(
    nodes: Seq<Node>,
    st: (Set<usize>, Set<usize>, Seq<NodeId>),
    fuel: nat,
) -> (Set<usize>, Set<usize>, Seq<NodeId>)
    decreases fuel,
{
    let st2 = pass_upto(nodes, st, nodes.len());
    if fuel == 0 || (st2.0 == st.0 && st2.1 == st.1) {
        st2
    } else {
        passes(nodes, st2, (fuel - 1) as nat)
    }
}

/// The ready nodes, the completed nodes and the layers after `k` rounds of the sort: the
/// first part of a round makes its passes from the ready and completed nodes, and the nodes
/// with a system that became ready, in the order in which they did, form its layer when
/// there are any; the second part completes what it reaches, and the completed nodes leave
/// the ready ones.
pub open spec fn ordered_round(nodes: Seq<Node>, k: nat) -> (
    Set<usize>,
    Set<usize>,
    Seq<Seq<NodeId>>,
)
    decreases k,
{
    if k == 0 {
        (Set::empty(), Set::empty(), Seq::empty())
    } else {
        let (r, c, ls) = ordered_round(nodes, (k - 1) as nat);
        let (ra, ca, cur) = passes(nodes, (r, c, Seq::empty()), 2 * nodes.len() + 1);
        let cb = complete_part(nodes, ra.union(ca), ca);
        (
            ra.difference(cb),
            cb,
            if cur.len() > 0 {
                ls.push(cur)
            } else {
                ls
            },
        )
    }
}

/// The layers of the sort, in the order in which the sort builds them: rounds as
/// `ordered_round`, as many as there are nodes (no more are ever needed).
pub open spec fn ordered_layers(nodes: Seq<Node>) -> Seq<Seq<NodeId>> {
    ordered_round(nodes, nodes.len() as nat).2
}

/// The ways sorting a graph can fail.
#[derive(Debug)]
pub enum GraphError {
    /// The rules leave the given number of nodes never ready: a cycle of dependencies, or
    /// of parents and dependencies.
    CycleDetected(usize),
}

/// The outcome of sorting `nodes`: layers exactly when the graph is schedulable, the layers
/// of the rounds of the sort, and otherwise the number of nodes that the rules never make
/// ready.
pub open spec fn sorted_outcome(
    nodes: Seq<Node>,
    r: Result<Seq<Seq<NodeId>>, GraphError>,
) -> bool {
    match r {
        Ok(layers) => schedulable(nodes) && is_layering(nodes, layers) && layers_by_round(
            nodes,
            layers,
        ),
        Err(GraphError::CycleDetected(n)) => {
            &&& !schedulable(nodes)
            &&& rule_ready(nodes).finite()
            &&& n == nodes.len() - rule_ready(nodes).len()
            &&& n > 0
        },
    }
}

impl Node {
    /// Whether the parent is undefined or in `ready_set`.
    pub fn is_parent_ready(&self, ready_set: &BitSet) -> (r: bool)
        ensures
            r == (self.parent.0 == usize::MAX || ready_set.view().contains(self.parent.0)),
    {
        self.parent.is_undefined() || ready_set.contains(self.parent.0)
    }

    /// Whether every dependency is in `completed_set`.
    pub fn are_dependencies_complete(&self, completed_set: &BitSet) -> (r: bool)
        ensures
            r == (forall|k: int|
                0 <= k < self.dependencies@.len() ==> completed_set.view().contains(
                    #[trigger] self.dependencies@[k].0,
                )),
    {
        let mut k: usize = 0;
        while k < self.dependencies.len()
            invariant
                0 <= k <= self.dependencies@.len(),
                forall|j: int|
                    0 <= j < k ==> completed_set.view().contains(
                        #[trigger] self.dependencies@[j].0,
                    ),
            decreases self.dependencies@.len() - k,
        {
            if !completed_set.contains(self.dependencies[k].0) {
                return false;
            }
            k += 1;
        }
        true
    }
}

impl<'a> WorkGraph<'a> {
    /// Whether every child of `index` is in `completed_set`.
    fn are_children_complete(&self, index: NodeId, completed_set: &BitSet) -> (r: bool)
        requires
            self.wf(),
            index.0 < self.base().nodes().len(),
        ensures
            r == children_completed(self.base().nodes(), index.0 as int, completed_set.view()),
    {
        let children = self.get_children(index);
        let _len = self.graph.nodes.len();
        let ghost nodes = self.graph.nodes();
        proof {
            lemma_children_of(nodes, index.0, nodes.len() as int);
        }
        let mut k: usize = 0;
        assert forall|j: int|
            0 <= j < children@.len() implies (#[trigger] children@[j]).0 < nodes.len()
                && nodes[children@[j].0 as int].parent.0 == index.0 by {
            assert(children_of(nodes, index.0, nodes.len() as int)[j].0 == children@[j].0);
        }
        while k < children.len()
            invariant
                0 <= k <= children@.len(),
                nodes == self.base().nodes(),
                children@ == children_of(nodes, index.0, nodes.len() as int),
                forall|j: int|
                    0 <= j < children@.len() ==> (#[trigger] children@[j]).0 < nodes.len()
                        && nodes[children@[j].0 as int].parent.0 == index.0,
                forall|j: int|
                    0 <= j < k ==> completed_set.view().contains(#[trigger] children@[j].0),
            decreases children@.len() - k,
        {
            if !completed_set.contains(children[k].0) {
                proof {
                    let c = children@[k as int].0;
                    assert(nodes[c as int].parent.0 == index.0);
                    assert(!completed_set.view().contains(c));
                    assert(0 <= c as int && (c as int) < nodes.len());
                    assert(nodes[c as int].parent.0 == index.0 as int);
                    assert(!children_completed(nodes, index.0 as int, completed_set.view()));
                    assert(nodes == self.base().nodes());
                }
                return false;
            }
            k += 1;
        }
        proof {
            assert forall|m: int|
                0 <= m < nodes.len() && #[trigger] nodes[m].parent.0 == index.0 as int implies completed_set.view().contains(
                m as usize,
            ) by {
                assert(nodes[m].parent.0 == index.0);
                assert(children@.contains(NodeId(m as usize)));
                let j = choose|j: int| 0 <= j < children@.len() && children@[j] == NodeId(m as usize);
                assert(completed_set.view().contains(children@[j].0));
            }
        }
        true
    }
}


/// The indices below `n`.
pub open spec fn indices_below(n: int) -> Set<usize> {
    Set::new(|x: usize| x < n)
}

proof fn lemma_indices_below(n: int)
    requires
        0 <= n <= usize::MAX + 1,
    ensures
        indices_below(n).finite(),
        indices_below(n).len() == n,
    decreases n,
{
    if n == 0 {
        assert(indices_below(n) =~= Set::<usize>::empty());
    } else {
        lemma_indices_below(n - 1);
        assert(indices_below(n) =~= indices_below(n - 1).insert((n - 1) as usize));
    }
}

/// A set of indices of `nodes` is finite and no larger than the graph.
proof fn lemma_within_finite(nodes: Seq<Node>, s: Set<usize>)
    requires
        within(nodes, s),
        nodes.len() <= usize::MAX,
    ensures
        s.finite(),
        s.len() <= nodes.len(),
{
    lemma_indices_below(nodes.len() as int);
    vstd::set_lib::lemma_len_subset(s, indices_below(nodes.len() as int));
}

/// A subset of indices of `nodes` holds indices of `nodes`.
proof fn lemma_within_subset(nodes: Seq<Node>, a: Set<usize>, b: Set<usize>)
    requires
        within(nodes, a),
        b.subset_of(a),
    ensures
        within(nodes, b),
{
}

/// Every index in `s` is a node of `nodes`.
spec fn within(nodes: Seq<Node>, s: Set<usize>) -> bool {
    forall|x: usize| s.contains(x) ==> x < nodes.len()
}

/// `ever` and `completed` lie inside every pair of sets closed under the rules.
spec fn below_closed(nodes: Seq<Node>, ever: Set<usize>, completed: Set<usize>) -> bool {
    forall|r: Set<usize>, c: Set<usize>|
        #[trigger] closed_under_rules(nodes, r, c) ==> ever.subset_of(r) && completed.subset_of(c)
}

/// The children of a completed node are completed.
spec fn parents_close_children(nodes: Seq<Node>, completed: Set<usize>) -> bool {
    forall|m: int|
        0 <= m < nodes.len() && #[trigger] completed.contains(nodes[m].parent.0) ==> completed.contains(
            m as usize,
        )
}

/// What holds throughout the sort of the sets of ready and of completed nodes.
spec fn core_inv(nodes: Seq<Node>, ready: Set<usize>, completed: Set<usize>) -> bool {
    let ever = ready.union(completed);
    &&& nodes.len() <= usize::MAX
    &&& within(nodes, ever)
    &&& below_closed(nodes, ever, completed)
    &&& parents_close_children(nodes, completed)
    &&& forall|n: usize| #[trigger] ever.contains(n) ==> deps_completed(nodes, n as int, completed)
    &&& forall|n: usize|
        #[trigger] ever.contains(n) && nodes[n as int].parent.0 != usize::MAX ==> ever.contains(
            nodes[n as int].parent.0,
        )
}

/// What holds of the layers built so far (`res`) and of the layer under construction (`cur`).
spec fn layer_inv(
    nodes: Seq<Node>,
    ever: Set<usize>,
    completed: Set<usize>,
    layer_of: Map<usize, int>,
    res: Seq<Seq<NodeId>>,
    cur: Seq<NodeId>,
) -> bool {
    &&& forall|i: int, k: int|
        0 <= i < res.len() && 0 <= k < res[i].len() ==> {
            let n = #[trigger] res[i][k].0;
            &&& ever.contains(n)
            &&& has_system(nodes, n)
            &&& layer_of.contains_key(n)
            &&& layer_of[n] == i
        }
    &&& forall|k: int|
        0 <= k < cur.len() ==> {
            let n = #[trigger] cur[k].0;
            &&& ever.contains(n)
            &&& has_system(nodes, n)
            &&& layer_of.contains_key(n)
            &&& layer_of[n] == res.len()
        }
    &&& forall|n: usize|
        #[trigger] ever.contains(n) && has_system(nodes, n) ==> {
            &&& layer_of.contains_key(n)
            &&& 0 <= layer_of[n] <= res.len()
            &&& layer_of[n] < res.len() ==> res[layer_of[n]].contains(NodeId(n))
            &&& layer_of[n] == res.len() ==> cur.contains(NodeId(n))
        }
    &&& forall|n: usize|
        #[trigger] completed.contains(n) && has_system(nodes, n) ==> layer_of[n] < res.len()
    &&& forall|i: int, k1: int, k2: int|
        0 <= i < res.len() && 0 <= k1 < k2 < res[i].len() ==> #[trigger] res[i][k1]
            != #[trigger] res[i][k2]
    &&& forall|k1: int, k2: int| 0 <= k1 < k2 < cur.len() ==> #[trigger] cur[k1] != #[trigger] cur[k2]
    &&& forall|i: int| 0 <= i < res.len() ==> #[trigger] res[i].len() > 0
    &&& forall|n: usize, k: int|
        #![trigger ever.contains(n), nodes[n as int].dependencies@[k]]
        ever.contains(n) && has_system(nodes, n) && 0 <= k < nodes[n as int].dependencies@.len()
            && nodes[n as int].dependencies@[k].0 < nodes.len() && has_system(
            nodes,
            nodes[n as int].dependencies@[k].0,
        ) ==> layer_of[nodes[n as int].dependencies@[k].0] < layer_of[n]
    &&& forall|n: usize|
        #[trigger] ever.contains(n) && has_system(nodes, n) && nodes[n as int].parent.0 != usize::MAX
            && has_system(nodes, nodes[n as int].parent.0) ==> layer_of[nodes[n as int].parent.0]
            <= layer_of[n]
}

/// At the start of a round, no ready node is completed, and no ready node has all its
/// children completed.
spec fn round_start(nodes: Seq<Node>, ready: Set<usize>, completed: Set<usize>) -> bool {
    &&& ready.disjoint(completed)
    &&& forall|n: usize| #[trigger] ready.contains(n) ==> !children_completed(nodes, n as int, completed)
}

/// Node `n` cannot become ready, and cannot be completed as a ready node without a system.
spec fn pass_fact(nodes: Seq<Node>, n: int, ready: Set<usize>, completed: Set<usize>) -> bool {
    &&& (completed.contains(n as usize) || ready.contains(n as usize) || !may_become_ready(
        nodes,
        n,
        ready,
        completed,
    ))
    &&& !(ready.contains(n as usize) && !has_system(nodes, n as usize) && children_completed(
        nodes,
        n,
        completed,
    ))
}

/// No node can become ready, and no ready node without a system can be completed.
spec fn ready_stuck(nodes: Seq<Node>, ready: Set<usize>, completed: Set<usize>) -> bool {
    forall|n: int| 0 <= n < nodes.len() ==> #[trigger] pass_fact(nodes, n, ready, completed)
}


/// The ever-ready nodes `e` and the completed nodes `c` hold where the first part of a round
/// from `e0` and `c0` started, and lie within what it reaches.
spec fn below_ready_part(
    nodes: Seq<Node>,
    e0: Set<usize>,
    c0: Set<usize>,
    e: Set<usize>,
    c: Set<usize>,
) -> bool {
    &&& e0.subset_of(e)
    &&& c0.subset_of(c)
    &&& e.subset_of(ready_part(nodes, e0, c0).0)
    &&& c.subset_of(ready_part(nodes, e0, c0).1)
}

/// The first part of a round reaches where it starts.
proof fn lemma_ready_part_base(nodes: Seq<Node>, e0: Set<usize>, c0: Set<usize>)
    ensures
        below_ready_part(nodes, e0, c0, e0, c0),
{
    assert forall|x: usize| e0.contains(x) implies ready_part(nodes, e0, c0).0.contains(x) by {
        assert forall|e: Set<usize>, c: Set<usize>| #[trigger]
            ready_part_closed(nodes, e0, c0, e, c) implies e.contains(x) by {}
    }
    assert forall|x: usize| c0.contains(x) implies ready_part(nodes, e0, c0).1.contains(x) by {
        assert forall|e: Set<usize>, c: Set<usize>| #[trigger]
            ready_part_closed(nodes, e0, c0, e, c) implies c.contains(x) by {}
    }
}

/// Making ready a node that may become ready stays within what the first part reaches.
proof fn lemma_ready_part_ready(
    nodes: Seq<Node>,
    e0: Set<usize>,
    c0: Set<usize>,
    ready: Set<usize>,
    completed: Set<usize>,
    n: usize,
)
    requires
        below_ready_part(nodes, e0, c0, ready.union(completed), completed),
        n < nodes.len(),
        may_become_ready(nodes, n as int, ready, completed),
    ensures
        below_ready_part(nodes, e0, c0, ready.insert(n).union(completed), completed),
{
    let rp = ready_part(nodes, e0, c0);
    assert forall|e: Set<usize>, c: Set<usize>| #[trigger]
        ready_part_closed(nodes, e0, c0, e, c) implies e.contains(n) by {
        assert forall|x: usize| ready.contains(x) implies e.contains(x) by {
            assert(rp.0.contains(x));
        }
        assert forall|x: usize| completed.contains(x) implies c.contains(x) by {
            assert(rp.1.contains(x));
        }
        assert(may_become_ready(nodes, n as int, e, c));
    }
    assert(rp.0.contains(n));
}

/// Completing a ready node without a system whose children are completed stays within what
/// the first part reaches.
proof fn lemma_ready_part_complete(
    nodes: Seq<Node>,
    e0: Set<usize>,
    c0: Set<usize>,
    ready: Set<usize>,
    completed: Set<usize>,
    n: usize,
)
    requires
        below_ready_part(nodes, e0, c0, ready.union(completed), completed),
        n < nodes.len(),
        ready.contains(n),
        !has_system(nodes, n),
        children_completed(nodes, n as int, completed),
    ensures
        below_ready_part(
            nodes,
            e0,
            c0,
            ready.remove(n).union(completed.insert(n)),
            completed.insert(n),
        ),
{
    let rp = ready_part(nodes, e0, c0);
    assert(ready.remove(n).union(completed.insert(n)) =~= ready.union(completed));
    assert forall|e: Set<usize>, c: Set<usize>| #[trigger]
        ready_part_closed(nodes, e0, c0, e, c) implies c.contains(n) by {
        assert(rp.0.contains(n));
        assert forall|m: int|
            0 <= m < nodes.len() && #[trigger] nodes[m].parent.0 == n as int implies c.contains(
            m as usize,
        ) by {
            assert(completed.contains(m as usize));
            assert(rp.1.contains(m as usize));
        }
        assert(children_completed(nodes, n as int, c));
    }
    assert(rp.1.contains(n));
}

/// When no node can become ready and no ready node without a system can be completed, the
/// first part of the round has reached all it reaches.
proof fn lemma_ready_part_stuck(
    nodes: Seq<Node>,
    e0: Set<usize>,
    c0: Set<usize>,
    ready: Set<usize>,
    completed: Set<usize>,
)
    requires
        below_ready_part(nodes, e0, c0, ready.union(completed), completed),
        core_inv(nodes, ready, completed),
        ready_stuck(nodes, ready, completed),
    ensures
        ready_part(nodes, e0, c0) == (ready.union(completed), completed),
{
    let ever = ready.union(completed);
    assert forall|n: int|
        0 <= n < nodes.len() && #[trigger] may_become_ready(
            nodes,
            n,
            ever,
            completed,
        ) implies ever.contains(n as usize) by {
        if !ever.contains(n as usize) {
            assert(pass_fact(nodes, n, ready, completed));
            let p = nodes[n].parent.0;
            if p != usize::MAX {
                if completed.contains(p) {
                    assert(completed.contains(nodes[n].parent.0));
                    assert(completed.contains(n as usize));
                }
                assert(ready.contains(p));
            }
            assert(may_become_ready(nodes, n, ready, completed));
        }
    }
    assert forall|n: int|
        0 <= n < nodes.len() && ever.contains(n as usize) && !has_system(nodes, n as usize)
            && #[trigger] children_completed(nodes, n, completed) implies completed.contains(
        n as usize,
    ) by {
        assert(pass_fact(nodes, n, ready, completed));
    }
    assert(ready_part_closed(nodes, e0, c0, ever, completed));
    assert(ready_part(nodes, e0, c0).0 =~= ever);
    assert(ready_part(nodes, e0, c0).1 =~= completed);
}

/// The completed nodes `c` hold `c0` and lie within what completing the nodes of `e` from
/// `c0` reaches.
spec fn below_complete_part(nodes: Seq<Node>, e: Set<usize>, c0: Set<usize>, c: Set<usize>) -> bool {
    &&& c0.subset_of(c)
    &&& c.subset_of(complete_part(nodes, e, c0))
}

/// The second part of a round reaches where it starts.
proof fn lemma_complete_part_base(nodes: Seq<Node>, e: Set<usize>, c0: Set<usize>)
    ensures
        below_complete_part(nodes, e, c0, c0),
{
    assert forall|x: usize| c0.contains(x) implies complete_part(nodes, e, c0).contains(x) by {
        assert forall|c: Set<usize>| #[trigger] complete_part_closed(nodes, e, c0, c) implies c.contains(
            x,
        ) by {}
    }
}

/// Completing a node of `e` whose children are completed stays within what the second
/// part reaches.
proof fn lemma_complete_part_step(
    nodes: Seq<Node>,
    e: Set<usize>,
    c0: Set<usize>,
    completed: Set<usize>,
    n: usize,
)
    requires
        below_complete_part(nodes, e, c0, completed),
        n < nodes.len(),
        e.contains(n),
        children_completed(nodes, n as int, completed),
    ensures
        below_complete_part(nodes, e, c0, completed.insert(n)),
{
    let cp = complete_part(nodes, e, c0);
    assert forall|c: Set<usize>| #[trigger] complete_part_closed(nodes, e, c0, c) implies c.contains(
        n,
    ) by {
        assert forall|m: int|
            0 <= m < nodes.len() && #[trigger] nodes[m].parent.0 == n as int implies c.contains(
            m as usize,
        ) by {
            assert(completed.contains(m as usize));
            assert(cp.contains(m as usize));
        }
        assert(children_completed(nodes, n as int, c));
    }
    assert(cp.contains(n));
}

/// When no ready node can be completed, the second part of the round has reached all it
/// reaches.
proof fn lemma_complete_part_stuck(
    nodes: Seq<Node>,
    ready: Set<usize>,
    c0: Set<usize>,
    completed: Set<usize>,
)
    requires
        below_complete_part(nodes, ready.union(completed), c0, completed),
        forall|n: usize| #[trigger] ready.contains(n) ==> complete_fact(nodes, n, completed),
        nodes.len() <= usize::MAX,
    ensures
        complete_part(nodes, ready.union(completed), c0) == completed,
{
    let e = ready.union(completed);
    assert forall|n: int|
        0 <= n < nodes.len() && e.contains(n as usize) && #[trigger] children_completed(
            nodes,
            n,
            completed,
        ) implies completed.contains(n as usize) by {
        assert((n as usize) as int == n);
        if ready.contains(n as usize) {
            assert(complete_fact(nodes, n as usize, completed));
        }
    }
    assert(complete_part_closed(nodes, e, c0, completed));
    assert(complete_part(nodes, e, c0) =~= completed);
}

/// Once every node has been ready, later rounds change nothing and add no layer.
proof fn lemma_rounds_settle(nodes: Seq<Node>, k: nat, j: nat)
    requires
        sort_round(nodes, k).0 == indices_below(nodes.len() as int),
        sort_round(nodes, k).1.subset_of(indices_below(nodes.len() as int)),
        k <= j,
    ensures
        sort_round(nodes, j).0 == indices_below(nodes.len() as int),
        sort_round(nodes, j).1.subset_of(indices_below(nodes.len() as int)),
        layer_sets(nodes, j) == layer_sets(nodes, k),
    decreases j - k,
{
    if j > k {
        let all = indices_below(nodes.len() as int);
        lemma_rounds_settle(nodes, k, (j - 1) as nat);
        let (e, c) = sort_round(nodes, (j - 1) as nat);
        let (e1, c1) = ready_part(nodes, e, c);
        assert(ready_part_closed(nodes, e, c, all, all));
        lemma_ready_part_base(nodes, e, c);
        assert(e1 =~= all);
        assert(c1.subset_of(all));
        assert(complete_part_closed(nodes, e1, c1, all));
        assert(complete_part(nodes, e1, c1).subset_of(all));
        assert(sort_round(nodes, j) == (e1, complete_part(nodes, e1, c1)));
        assert(round_layer(nodes, j as int) =~= Set::<usize>::empty());
    }
}

/// The current layer holds exactly the nodes with a system that became ready in this round.
spec fn cur_is_round_layer(
    nodes: Seq<Node>,
    round_ever: Set<usize>,
    ever: Set<usize>,
    cur: Seq<NodeId>,
) -> bool {
    &&& forall|k: int| 0 <= k < cur.len() ==> !round_ever.contains(#[trigger] cur[k].0)
    &&& forall|n: usize|
        #[trigger] ever.contains(n) && !round_ever.contains(n) && has_system(nodes, n)
            ==> cur.contains(NodeId(n))
}

/// A node that becomes ready in this round joins the current layer when it has a system.
proof fn lemma_cur_after_ready(
    nodes: Seq<Node>,
    round_ever: Set<usize>,
    ever: Set<usize>,
    cur: Seq<NodeId>,
    n: usize,
)
    requires
        cur_is_round_layer(nodes, round_ever, ever, cur),
        round_ever.subset_of(ever),
        !ever.contains(n),
    ensures
        cur_is_round_layer(
            nodes,
            round_ever,
            ever.insert(n),
            if has_system(nodes, n) {
                cur.push(NodeId(n))
            } else {
                cur
            },
        ),
{
    let cur2 = if has_system(nodes, n) {
        cur.push(NodeId(n))
    } else {
        cur
    };
    assert forall|k: int| 0 <= k < cur2.len() implies !round_ever.contains(#[trigger] cur2[k].0) by {
        if k < cur.len() {
            assert(cur2[k] == cur[k]);
        }
    }
    assert forall|m: usize|
        #[trigger] ever.insert(n).contains(m) && !round_ever.contains(m) && has_system(nodes, m)
            implies cur2.contains(NodeId(m)) by {
        if m == n {
            assert(cur2[cur.len() as int] == NodeId(n));
        } else {
            assert(ever.contains(m));
            let k = choose|k: int| 0 <= k < cur.len() && cur[k] == NodeId(m);
            assert(cur2[k] == NodeId(m));
        }
    }
}

/// Making a node ready that may become ready keeps the invariants; a node with a system
/// joins the current layer.
proof fn lemma_make_ready(
    nodes: Seq<Node>,
    ready: Set<usize>,
    completed: Set<usize>,
    layer_of: Map<usize, int>,
    res: Seq<Seq<NodeId>>,
    cur: Seq<NodeId>,
    n: usize,
)
    requires
        core_inv(nodes, ready, completed),
        layer_inv(nodes, ready.union(completed), completed, layer_of, res, cur),
        n < nodes.len(),
        !ready.contains(n),
        !completed.contains(n),
        may_become_ready(nodes, n as int, ready, completed),
    ensures
        core_inv(nodes, ready.insert(n), completed),
        layer_inv(
            nodes,
            ready.insert(n).union(completed),
            completed,
            if has_system(nodes, n) {
                layer_of.insert(n, res.len() as int)
            } else {
                layer_of
            },
            res,
            if has_system(nodes, n) {
                cur.push(NodeId(n))
            } else {
                cur
            },
        ),
{
    let ever = ready.union(completed);
    let ever2 = ready.insert(n).union(completed);
    assert(ever2 =~= ever.insert(n));
    assert forall|r: Set<usize>, c: Set<usize>| #[trigger]
        closed_under_rules(nodes, r, c) implies ever2.subset_of(r) && completed.subset_of(c) by {
        assert(ever.subset_of(r) && completed.subset_of(c));
        assert(may_become_ready(nodes, n as int, r, c));
        assert(r.contains(n));
    }
    let lo2 = if has_system(nodes, n) { layer_of.insert(n, res.len() as int) } else { layer_of };
    let cur2 = if has_system(nodes, n) { cur.push(NodeId(n)) } else { cur };
    assert forall|i: int, k: int| 0 <= i < res.len() && 0 <= k < res[i].len() implies {
        let m = #[trigger] res[i][k].0;
        &&& ever2.contains(m)
        &&& has_system(nodes, m)
        &&& lo2.contains_key(m)
        &&& lo2[m] == i
    } by {
        assert(ever.contains(res[i][k].0));
    }
    assert forall|k: int| 0 <= k < cur2.len() implies {
        let m = #[trigger] cur2[k].0;
        &&& ever2.contains(m)
        &&& has_system(nodes, m)
        &&& lo2.contains_key(m)
        &&& lo2[m] == res.len()
    } by {
        if k < cur.len() {
            assert(cur2[k] == cur[k]);
            assert(ever.contains(cur[k].0));
        }
    }
    assert forall|m: usize| #[trigger] ever2.contains(m) && has_system(nodes, m) implies {
        &&& lo2.contains_key(m)
        &&& 0 <= lo2[m] <= res.len()
        &&& lo2[m] < res.len() ==> res[lo2[m]].contains(NodeId(m))
        &&& lo2[m] == res.len() ==> cur2.contains(NodeId(m))
    } by {
        if m == n {
            assert(cur2[cur.len() as int] == NodeId(n));
        } else {
            assert(ever.contains(m));
            if layer_of[m] == res.len() {
                let k = choose|k: int| 0 <= k < cur.len() && cur[k] == NodeId(m);
                assert(cur2[k] == NodeId(m));
            }
        }
    }
    assert forall|k1: int, k2: int| 0 <= k1 < k2 < cur2.len() implies #[trigger] cur2[k1]
        != #[trigger] cur2[k2] by {
        if k2 == cur.len() && has_system(nodes, n) {
            assert(ever.contains(cur[k1].0));
        } else {
            assert(cur2[k1] == cur[k1] && cur2[k2] == cur[k2]);
        }
    }
    assert forall|m: usize, k: int|
        #![trigger ever2.contains(m), nodes[m as int].dependencies@[k]]
        ever2.contains(m) && has_system(nodes, m) && 0 <= k < nodes[m as int].dependencies@.len()
            && nodes[m as int].dependencies@[k].0 < nodes.len() && has_system(
            nodes,
            nodes[m as int].dependencies@[k].0,
        ) implies lo2[nodes[m as int].dependencies@[k].0] < lo2[m] by {
        let d = nodes[m as int].dependencies@[k].0;
        if m == n {
            assert(completed.contains(d));
            assert(ever.contains(d));
        } else {
            assert(ever.contains(m));
            assert(deps_completed(nodes, m as int, completed));
            assert(completed.contains(d));
            assert(ever.contains(d));
        }
    }
    assert forall|m: usize|
        #[trigger] ever2.contains(m) && has_system(nodes, m) && nodes[m as int].parent.0 != usize::MAX
            && has_system(nodes, nodes[m as int].parent.0) implies lo2[nodes[m as int].parent.0]
        <= lo2[m] by {
        let p = nodes[m as int].parent.0;
        if m == n {
            assert(ready.contains(p));
            assert(ever.contains(p));
        } else {
            assert(ever.contains(m));
            assert(ever.contains(p));
        }
    }
    assert forall|m: usize| #[trigger] ever2.contains(m) implies deps_completed(
        nodes,
        m as int,
        completed,
    ) by {
        if m != n {
            assert(ever.contains(m));
        }
    }
    assert forall|m: usize|
        #[trigger] ever2.contains(m) && nodes[m as int].parent.0 != usize::MAX implies ever2.contains(
        nodes[m as int].parent.0,
    ) by {
        if m != n {
            assert(ever.contains(m));
        }
    }
}

/// Completing a ready node whose children are completed keeps the invariants, as long as a
/// node with a system already has its layer.
proof fn lemma_complete(
    nodes: Seq<Node>,
    ready: Set<usize>,
    completed: Set<usize>,
    layer_of: Map<usize, int>,
    res: Seq<Seq<NodeId>>,
    cur: Seq<NodeId>,
    n: usize,
)
    requires
        core_inv(nodes, ready, completed),
        layer_inv(nodes, ready.union(completed), completed, layer_of, res, cur),
        ready.contains(n),
        children_completed(nodes, n as int, completed),
        has_system(nodes, n) ==> layer_of[n] < res.len(),
    ensures
        core_inv(nodes, ready, completed.insert(n)),
        core_inv(nodes, ready.remove(n), completed.insert(n)),
        ready.union(completed.insert(n)) == ready.union(completed),
        ready.remove(n).union(completed.insert(n)) == ready.union(completed),
        layer_inv(nodes, ready.union(completed), completed.insert(n), layer_of, res, cur),
{
    let ever = ready.union(completed);
    let c2 = completed.insert(n);
    assert(ready.union(c2) =~= ever);
    assert(ready.remove(n).union(c2) =~= ever);
    assert forall|r: Set<usize>, c: Set<usize>| #[trigger]
        closed_under_rules(nodes, r, c) implies ever.subset_of(r) && c2.subset_of(c) by {
        assert(ever.subset_of(r) && completed.subset_of(c));
        assert forall|m: int| 0 <= m < nodes.len() && #[trigger] nodes[m].parent.0 == n as int implies c.contains(
            m as usize,
        ) by {
            assert(completed.contains(m as usize));
        }
        assert(children_completed(nodes, n as int, c));
        assert(ever.contains(n));
        assert(n < nodes.len());
        assert(r.contains(n));
        assert(c.contains(n));
    }
    assert forall|m: int|
        0 <= m < nodes.len() && #[trigger] c2.contains(nodes[m].parent.0) implies c2.contains(
        m as usize,
    ) by {
        if nodes[m].parent.0 == n {
            assert(completed.contains(m as usize));
        } else {
            assert(completed.contains(nodes[m].parent.0));
        }
    }
    assert forall|m: usize| #[trigger] ever.contains(m) implies deps_completed(
        nodes,
        m as int,
        c2,
    ) by {
        assert(deps_completed(nodes, m as int, completed));
    }
}


/// What holds of a round in progress: it started from `round_ready` and `round_completed`,
/// `count` nodes became ready since, and as long as none did, nothing changed.
spec fn round_inv(
    nodes: Seq<Node>,
    ready: Set<usize>,
    completed: Set<usize>,
    count: int,
    round_ready: Set<usize>,
    round_completed: Set<usize>,
) -> bool {
    let ever = ready.union(completed);
    let round_ever = round_ready.union(round_completed);
    &&& round_start(nodes, round_ready, round_completed)
    &&& round_ever.subset_of(ever)
    &&& round_completed.subset_of(completed)
    &&& count == ever.len() - round_ever.len()
    &&& count == 0 ==> ready == round_ready && completed == round_completed
}

impl<'a> WorkGraph<'a> {
    /// One pass over all nodes in index order: each node that may become ready becomes
    /// ready (and joins the current layer when it has a system), and each ready node without
    /// a system whose children are all completed is completed. Returns whether anything
    /// changed.
    fn ready_pass(
        &self,
        ready: &mut BitSet,
        completed: &mut BitSet,
        current_layer: &mut Vec<NodeId>,
        count_new_ready: &mut usize,
        Ghost(layer_of): Ghost<Map<usize, int>>,
        Ghost(res): Ghost<Seq<Seq<NodeId>>>,
        Ghost(round_ready): Ghost<Set<usize>>,
        Ghost(round_completed): Ghost<Set<usize>>,
    ) -> (r: (bool, Ghost<Map<usize, int>>))
        requires
            self.wf(),
            core_inv(self.base().nodes(), old(ready).view(), old(completed).view()),
            old(ready).view().disjoint(old(completed).view()),
            layer_inv(
                self.base().nodes(),
                old(ready).view().union(old(completed).view()),
                old(completed).view(),
                layer_of,
                res,
                old(current_layer)@,
            ),
            round_inv(
                self.base().nodes(),
                old(ready).view(),
                old(completed).view(),
                *old(count_new_ready) as int,
                round_ready,
                round_completed,
            ),
            below_ready_part(
                self.base().nodes(),
                round_ready.union(round_completed),
                round_completed,
                old(ready).view().union(old(completed).view()),
                old(completed).view(),
            ),
            cur_is_round_layer(
                self.base().nodes(),
                round_ready.union(round_completed),
                old(ready).view().union(old(completed).view()),
                old(current_layer)@,
            ),
        ensures
            (final(ready).view(), final(completed).view(), final(current_layer)@) == pass_upto(
                self.base().nodes(),
                (old(ready).view(), old(completed).view(), old(current_layer)@),
                self.base().nodes().len(),
            ),
            below_ready_part(
                self.base().nodes(),
                round_ready.union(round_completed),
                round_completed,
                final(ready).view().union(final(completed).view()),
                final(completed).view(),
            ),
            cur_is_round_layer(
                self.base().nodes(),
                round_ready.union(round_completed),
                final(ready).view().union(final(completed).view()),
                final(current_layer)@,
            ),
            core_inv(self.base().nodes(), final(ready).view(), final(completed).view()),
            final(ready).view().disjoint(final(completed).view()),
            layer_inv(
                self.base().nodes(),
                final(ready).view().union(final(completed).view()),
                final(completed).view(),
                r.1@,
                res,
                final(current_layer)@,
            ),
            round_inv(
                self.base().nodes(),
                final(ready).view(),
                final(completed).view(),
                *final(count_new_ready) as int,
                round_ready,
                round_completed,
            ),
            old(ready).view().union(old(completed).view()).subset_of(
                final(ready).view().union(final(completed).view()),
            ),
            old(completed).view().subset_of(final(completed).view()),
            r.0 ==> final(ready).view().union(final(completed).view()).len()
                + final(completed).view().len() > old(ready).view().union(
                old(completed).view(),
            ).len() + old(completed).view().len(),
            !r.0 ==> {
                &&& final(ready).view() == old(ready).view()
                &&& final(completed).view() == old(completed).view()
                &&& final(current_layer)@ == old(current_layer)@
                &&& *final(count_new_ready) == *old(count_new_ready)
                &&& r.1@ == layer_of
                &&& ready_stuck(self.base().nodes(), final(ready).view(), final(completed).view())
            },
    {
        let len = self.graph.nodes.len();
        let ghost nodes = self.base().nodes();
        let ghost ready0 = ready.view();
        let ghost completed0 = completed.view();
        let ghost cur0 = current_layer@;
        let ghost count0 = *count_new_ready;
        let ghost mut lo = layer_of;
        let mut changed = false;
        let mut i: usize = 0;
        while i < len
            invariant
                0 <= i <= len,
                len == nodes.len(),
                nodes == self.base().nodes(),
                self.wf(),
                core_inv(nodes, ready.view(), completed.view()),
                ready.view().disjoint(completed.view()),
                layer_inv(
                    nodes,
                    ready.view().union(completed.view()),
                    completed.view(),
                    lo,
                    res,
                    current_layer@,
                ),
                round_inv(
                    nodes,
                    ready.view(),
                    completed.view(),
                    *count_new_ready as int,
                    round_ready,
                    round_completed,
                ),
                ready0.union(completed0).subset_of(ready.view().union(completed.view())),
                completed0.subset_of(completed.view()),
                (ready.view(), completed.view(), current_layer@) == pass_upto(
                    nodes,
                    (ready0, completed0, cur0),
                    i as nat,
                ),
                below_ready_part(
                    nodes,
                    round_ready.union(round_completed),
                    round_completed,
                    ready.view().union(completed.view()),
                    completed.view(),
                ),
                cur_is_round_layer(
                    nodes,
                    round_ready.union(round_completed),
                    ready.view().union(completed.view()),
                    current_layer@,
                ),
                changed ==> ready.view().union(completed.view()).len() + completed.view().len()
                    > ready0.union(completed0).len() + completed0.len(),
                !changed ==> {
                    &&& ready.view() == ready0
                    &&& completed.view() == completed0
                    &&& current_layer@ == cur0
                    &&& *count_new_ready == count0
                    &&& lo == layer_of
                },
                !changed ==> forall|j: int|
                    0 <= j < i ==> #[trigger] pass_fact(nodes, j, ready.view(), completed.view()),
            decreases len - i,
        {
            let ghost ever = ready.view().union(completed.view());
            let ghost prev = (ready.view(), completed.view(), current_layer@);
            proof {
                lemma_within_finite(nodes, ever);
                lemma_within_subset(nodes, ever, completed.view());
                lemma_within_finite(nodes, completed.view());
                lemma_within_subset(nodes, ever, ready0.union(completed0));
                lemma_within_finite(nodes, ready0.union(completed0));
                lemma_within_subset(nodes, ever, completed0);
                lemma_within_finite(nodes, completed0);
                lemma_within_subset(nodes, ever, round_ready.union(round_completed));
                lemma_within_finite(nodes, round_ready.union(round_completed));
            }
            if !completed.contains(i) {
                let node = &self.graph.nodes[i];
                proof {
                    assert(nodes[i as int] == *node);
                }
                let mut is_ready = ready.contains(i);
                let becomes_ready = !is_ready && node.is_parent_ready(ready)
                    && node.are_dependencies_complete(completed);
                if becomes_ready {
                    let ghost r_before = ready.view();
                    let ghost cur_before = current_layer@;
                    proof {
                        assert(nodes[i as int] == *node);
                        assert(may_become_ready(nodes, i as int, r_before, completed.view()));
                        lemma_make_ready(
                            nodes,
                            r_before,
                            completed.view(),
                            lo,
                            res,
                            cur_before,
                            i,
                        );
                        assert(r_before.insert(i).union(completed.view()) =~= ever.insert(i));
                        lemma_within_finite(nodes, ever.insert(i));
                        lemma_ready_part_ready(
                            nodes,
                            round_ready.union(round_completed),
                            round_completed,
                            r_before,
                            completed.view(),
                            i,
                        );
                        lemma_cur_after_ready(
                            nodes,
                            round_ready.union(round_completed),
                            ever,
                            cur_before,
                            i,
                        );
                    }
                    ready.insert(i);
                    *count_new_ready = *count_new_ready + 1;
                    is_ready = true;
                    changed = true;
                    if node.system.is_defined() {
                        current_layer.push(NodeId(i));
                        proof {
                            lo = lo.insert(i, res.len() as int);
                        }
                    }
                }
                let completes = is_ready && node.system.is_undefined()
                    && self.are_children_complete(NodeId(i), completed);
                if completes {
                    let ghost c_before = completed.view();
                    let ghost r_before = ready.view();
                    proof {
                        assert(nodes[i as int] == *node);
                        lemma_complete(nodes, r_before, c_before, lo, res, current_layer@, i);
                        lemma_ready_part_complete(
                            nodes,
                            round_ready.union(round_completed),
                            round_completed,
                            r_before,
                            c_before,
                            i,
                        );
                        if *count_new_ready == 0 {
                            assert(r_before == round_ready);
                            assert(!children_completed(nodes, i as int, c_before));
                        }
                    }
                    completed.insert(i);
                    ready.remove(i);
                    changed = true;
                }
                proof {
                    if !changed {
                        assert(pass_fact(nodes, i as int, ready.view(), completed.view()));
                    }
                }
            } else {
                proof {
                    assert(!ready.view().contains(i));
                    assert(pass_fact(nodes, i as int, ready.view(), completed.view()));
                }
            }
            proof {
                assert((ready.view(), completed.view(), current_layer@) == visit_node(
                    nodes,
                    prev,
                    i as int,
                ));
            }
            i += 1;
        }
        proof {
            if !changed {
                assert forall|n: int| 0 <= n < nodes.len() implies #[trigger] pass_fact(
                    nodes,
                    n,
                    ready.view(),
                    completed.view(),
                ) by {
                    assert(0 <= n < i);
                }
            }
        }
        (changed, Ghost(lo))
    }
}


/// A ready node is completed or has a child that is not completed.
spec fn complete_fact(nodes: Seq<Node>, n: usize, completed: Set<usize>) -> bool {
    completed.contains(n) || !children_completed(nodes, n as int, completed)
}

impl<'a> WorkGraph<'a> {
    /// One pass over the ready nodes in ascending order: each one whose children are all
    /// completed is completed. Returns whether anything changed.
    fn complete_pass(
        &self,
        ready: &BitSet,
        completed: &mut BitSet,
        Ghost(layer_of): Ghost<Map<usize, int>>,
        Ghost(res): Ghost<Seq<Seq<NodeId>>>,
        Ghost(base): Ghost<Set<usize>>,
    ) -> (changed: bool)
        requires
            self.wf(),
            core_inv(self.base().nodes(), ready.view(), old(completed).view()),
            below_complete_part(
                self.base().nodes(),
                ready.view().union(old(completed).view()),
                base,
                old(completed).view(),
            ),
            layer_inv(
                self.base().nodes(),
                ready.view().union(old(completed).view()),
                old(completed).view(),
                layer_of,
                res,
                Seq::<NodeId>::empty(),
            ),
        ensures
            core_inv(self.base().nodes(), ready.view(), final(completed).view()),
            below_complete_part(
                self.base().nodes(),
                ready.view().union(old(completed).view()),
                base,
                final(completed).view(),
            ),
            layer_inv(
                self.base().nodes(),
                ready.view().union(final(completed).view()),
                final(completed).view(),
                layer_of,
                res,
                Seq::<NodeId>::empty(),
            ),
            ready.view().union(final(completed).view()) == ready.view().union(
                old(completed).view(),
            ),
            old(completed).view().subset_of(final(completed).view()),
            changed ==> final(completed).view().len() > old(completed).view().len(),
            !changed ==> final(completed).view() == old(completed).view() && forall|n: usize|
                #[trigger] ready.view().contains(n) ==> complete_fact(
                    self.base().nodes(),
                    n,
                    final(completed).view(),
                ),
    {
        let ghost nodes = self.base().nodes();
        let _len = self.graph.nodes.len();
        let ghost ever = ready.view().union(completed.view());
        let ghost completed0 = completed.view();
        let items = ready.items();
        let mut changed = false;
        let mut k: usize = 0;
        while k < items.len()
            invariant
                0 <= k <= items@.len(),
                items@.to_set() == ready.view(),
                nodes == self.base().nodes(),
                self.wf(),
                core_inv(nodes, ready.view(), completed.view()),
                layer_inv(nodes, ever, completed.view(), layer_of, res, Seq::<NodeId>::empty()),
                ready.view().union(completed.view()) == ever,
                completed0.subset_of(completed.view()),
                below_complete_part(nodes, ever, base, completed.view()),
                changed ==> completed.view().len() > completed0.len(),
                !changed ==> completed.view() == completed0,
                !changed ==> forall|j: int|
                    0 <= j < k ==> #[trigger] complete_fact(nodes, items@[j], completed.view()),
            decreases items@.len() - k,
        {
            let i = items[k];
            proof {
                assert(items@.to_set().contains(items@[k as int]));
                assert(ever.contains(i));
                lemma_within_subset(nodes, ever, completed.view());
                lemma_within_finite(nodes, completed.view());
                lemma_within_subset(nodes, ever, completed0);
                lemma_within_finite(nodes, completed0);
            }
            let completes = !completed.contains(i) && self.are_children_complete(
                NodeId(i),
                completed,
            );
            if completes {
                proof {
                    if has_system(nodes, i) {
                        assert(layer_of[i] < res.len()) by {
                            assert(ever.contains(i));
                            if layer_of[i] == res.len() {
                                assert(Seq::<NodeId>::empty().contains(NodeId(i)));
                            }
                        }
                    }
                    lemma_complete(
                        nodes,
                        ready.view(),
                        completed.view(),
                        layer_of,
                        res,
                        Seq::<NodeId>::empty(),
                        i,
                    );
                    lemma_complete_part_step(nodes, ever, base, completed.view(), i);
                }
                completed.insert(i);
                changed = true;
            }
            proof {
                if !changed {
                    assert(complete_fact(nodes, i, completed.view()));
                }
            }
            k += 1;
        }
        proof {
            if !changed {
                assert forall|n: usize| #[trigger] ready.view().contains(n) implies complete_fact(
                    nodes,
                    n,
                    completed.view(),
                ) by {
                    assert(items@.to_set().contains(n));
                    let j = choose|j: int| 0 <= j < items@.len() && items@[j] == n;
                    assert(complete_fact(nodes, items@[j], completed.view()));
                }
            }
        }
        changed
    }
}


/// When no node can become ready at the start of a round, the ready and completed nodes are
/// closed under the rules, and they are exactly the nodes that the rules make ready.
proof fn lemma_stuck(nodes: Seq<Node>, ready: Set<usize>, completed: Set<usize>)
    requires
        core_inv(nodes, ready, completed),
        ready_stuck(nodes, ready, completed),
        round_start(nodes, ready, completed),
    ensures
        closed_under_rules(nodes, ready.union(completed), completed),
        rule_ready(nodes) == ready.union(completed),
{
    let ever = ready.union(completed);
    assert forall|n: int|
        0 <= n < nodes.len() && #[trigger] may_become_ready(
            nodes,
            n,
            ever,
            completed,
        ) implies ever.contains(n as usize) by {
        if !ever.contains(n as usize) {
            assert(pass_fact(nodes, n, ready, completed));
            let p = nodes[n].parent.0;
            if p != usize::MAX {
                if completed.contains(p) {
                    assert(completed.contains(nodes[n].parent.0));
                    assert(completed.contains(n as usize));
                }
                assert(ready.contains(p));
            }
            assert(may_become_ready(nodes, n, ready, completed));
        }
    }
    assert forall|n: int|
        0 <= n < nodes.len() && ever.contains(n as usize) && #[trigger] children_completed(
            nodes,
            n,
            completed,
        ) implies completed.contains(n as usize) by {
        if ready.contains(n as usize) {
            assert(!children_completed(nodes, (n as usize) as int, completed));
        }
    }
    assert(closed_under_rules(nodes, ever, completed));
    assert forall|x: usize| rule_ready(nodes).contains(x) == ever.contains(x) by {
        if ever.contains(x) {
            assert forall|r: Set<usize>, c: Set<usize>| #[trigger]
                closed_under_rules(nodes, r, c) implies r.contains(x) by {
                assert(ever.subset_of(r));
            }
        }
    }
    assert(rule_ready(nodes) =~= ever);
}

/// When every node is ready or completed, the graph is schedulable.
proof fn lemma_all_ready(nodes: Seq<Node>, ready: Set<usize>, completed: Set<usize>)
    requires
        core_inv(nodes, ready, completed),
        ready.union(completed).finite(),
        ready.union(completed).len() == nodes.len(),
    ensures
        ready.union(completed) == indices_below(nodes.len() as int),
        schedulable(nodes),
{
    let ever = ready.union(completed);
    lemma_indices_below(nodes.len() as int);
    assert(ever.subset_of(indices_below(nodes.len() as int)));
    vstd::set_lib::lemma_subset_equality(ever, indices_below(nodes.len() as int));
    assert forall|n: usize| n < nodes.len() implies #[trigger] rule_ready(nodes).contains(n) by {
        assert(ever.contains(n));
        assert forall|r: Set<usize>, c: Set<usize>| #[trigger]
            closed_under_rules(nodes, r, c) implies r.contains(n) by {
            assert(ever.subset_of(r));
        }
    }
}

/// Closing the current layer: it becomes the last of the built layers.
proof fn lemma_push_layer(
    nodes: Seq<Node>,
    ever: Set<usize>,
    completed: Set<usize>,
    layer_of: Map<usize, int>,
    res: Seq<Seq<NodeId>>,
    cur: Seq<NodeId>,
)
    requires
        layer_inv(nodes, ever, completed, layer_of, res, cur),
        cur.len() > 0,
    ensures
        layer_inv(nodes, ever, completed, layer_of, res.push(cur), Seq::<NodeId>::empty()),
{
    let res2 = res.push(cur);
    assert forall|i: int, k: int| 0 <= i < res2.len() && 0 <= k < res2[i].len() implies {
        let n = #[trigger] res2[i][k].0;
        &&& ever.contains(n)
        &&& has_system(nodes, n)
        &&& layer_of.contains_key(n)
        &&& layer_of[n] == i
    } by {
        if i < res.len() {
            assert(res2[i] == res[i]);
        } else {
            assert(res2[i] == cur);
        }
    }
    assert forall|n: usize| #[trigger] ever.contains(n) && has_system(nodes, n) implies {
        &&& layer_of.contains_key(n)
        &&& 0 <= layer_of[n] <= res2.len()
        &&& layer_of[n] < res2.len() ==> res2[layer_of[n]].contains(NodeId(n))
        &&& layer_of[n] == res2.len() ==> Seq::<NodeId>::empty().contains(NodeId(n))
    } by {
        if layer_of[n] < res.len() {
            assert(res2[layer_of[n]] == res[layer_of[n]]);
        } else {
            assert(res2[layer_of[n]] == cur);
        }
    }
    assert forall|i: int, k1: int, k2: int|
        0 <= i < res2.len() && 0 <= k1 < k2 < res2[i].len() implies #[trigger] res2[i][k1]
        != #[trigger] res2[i][k2] by {
        if i < res.len() {
            assert(res2[i] == res[i]);
        } else {
            assert(res2[i] == cur);
        }
    }
    assert forall|i: int| 0 <= i < res2.len() implies #[trigger] res2[i].len() > 0 by {
        if i < res.len() {
            assert(res2[i] == res[i]);
        }
    }
}

/// With every node ready and no layer under construction, the built layers sort the graph.
proof fn lemma_layering(
    nodes: Seq<Node>,
    completed: Set<usize>,
    layer_of: Map<usize, int>,
    res: Seq<Seq<NodeId>>,
)
    requires
        layer_inv(
            nodes,
            indices_below(nodes.len() as int),
            completed,
            layer_of,
            res,
            Seq::<NodeId>::empty(),
        ),
        nodes.len() <= usize::MAX,
        within(nodes, completed),
        forall|n: usize|
            #[trigger] indices_below(nodes.len() as int).contains(n) ==> deps_completed(
                nodes,
                n as int,
                completed,
            ),
    ensures
        is_layering(nodes, res),
{
    let ever = indices_below(nodes.len() as int);
    assert forall|i: int, k: int| 0 <= i < res.len() && 0 <= k < res[i].len() implies {
        let n = #[trigger] res[i][k].0;
        &&& n < nodes.len()
        &&& has_system(nodes, n)
        &&& forall|q: int|
            0 <= q < nodes[n as int].dependencies@.len() ==> (
            #[trigger] nodes[n as int].dependencies@[q]).0 < nodes.len()
    } by {
        let n = res[i][k].0;
        assert(ever.contains(n));
        assert(deps_completed(nodes, n as int, completed));
    }
    assert forall|n: usize| n < nodes.len() && #[trigger] has_system(nodes, n) implies exists|
        i: int,
        k: int,
    |
        0 <= i < res.len() && 0 <= k < res[i].len() && #[trigger] res[i][k] == NodeId(n) by {
        assert(ever.contains(n));
        if layer_of[n] == res.len() {
            assert(Seq::<NodeId>::empty().contains(NodeId(n)));
        }
        let i = layer_of[n];
        assert(res[i].contains(NodeId(n)));
        let k = choose|k: int| 0 <= k < res[i].len() && res[i][k] == NodeId(n);
        assert(res[i][k] == NodeId(n));
    }
    assert forall|i: int, k: int, j: int, l: int|
        0 <= i < res.len() && 0 <= k < res[i].len() && 0 <= j < res.len() && 0 <= l < res[j].len()
            && #[trigger] res[i][k] == #[trigger] res[j][l] implies i == j && k == l by {
        assert(layer_of[res[i][k].0] == i);
        assert(layer_of[res[j][l].0] == j);
        if k < l {
            assert(res[i][k] != res[i][l]);
        } else if l < k {
            assert(res[i][l] != res[i][k]);
        }
    }
    assert forall|i: int, k: int, j: int, l: int|
        0 <= i < res.len() && 0 <= k < res[i].len() && 0 <= j < res.len() && 0 <= l < res[j].len()
            && nodes[#[trigger] res[i][k].0 as int].dependencies@.contains(
            #[trigger] res[j][l],
        ) implies j < i by {
        let n = res[i][k].0;
        let d = res[j][l];
        let q = choose|q: int| 0 <= q < nodes[n as int].dependencies@.len() && nodes[n as int].dependencies@[q] == d;
        assert(ever.contains(n));
        assert(ever.contains(d.0));
        assert(nodes[n as int].dependencies@[q].0 == d.0);
        assert(layer_of[nodes[n as int].dependencies@[q].0] < layer_of[n]);
    }
    assert forall|i: int, k: int, j: int, l: int|
        0 <= i < res.len() && 0 <= k < res[i].len() && 0 <= j < res.len() && 0 <= l < res[j].len()
            && nodes[#[trigger] res[i][k].0 as int].parent == #[trigger] res[j][l] implies j <= i by {
        let n = res[i][k].0;
        let p = res[j][l].0;
        assert(ever.contains(n));
        assert(ever.contains(p));
        assert(p < nodes.len());
        assert(nodes[n as int].parent.0 == p);
        assert(has_system(nodes, p));
        assert(layer_of[p] == j);
        assert(layer_of[n] == i);
    }
}


/// The layers of a vector of layers.
pub open spec fn layers_view(layers: Seq<Vec<NodeId>>) -> Seq<Seq<NodeId>> {
    layers.map_values(|layer: Vec<NodeId>| layer@)
}

/// The outcome of a sort, with its layers as sequences.
pub open spec fn outcome_view(r: Result<Vec<Vec<NodeId>>, GraphError>) -> Result<
    Seq<Seq<NodeId>>,
    GraphError,
> {
    match r {
        Ok(layers) => Ok(layers_view(layers@)),
        Err(e) => Err(e),
    }
}

/// A sort of a graph has one outcome: two outcomes that meet what `topological_order_layers`
/// ensures of one graph are equal, so a second call gives what the first gave.
pub proof fn lemma_sort_outcome_unique(
    nodes: Seq<Node>,
    a: Result<Seq<Seq<NodeId>>, GraphError>,
    b: Result<Seq<Seq<NodeId>>, GraphError>,
)
    requires
        sorted_outcome(nodes, a),
        sorted_outcome(nodes, b),
        a matches Ok(layers) ==> layers == ordered_layers(nodes),
        b matches Ok(layers) ==> layers == ordered_layers(nodes),
    ensures
        a == b,
{
}

/// The dependent layers that one call gives agree with the layers that another call gives:
/// the dependent layer of each system is the latest of those layers holding one of its
/// dependencies.
pub proof fn lemma_dependents_agree(
    nodes: Seq<Node>,
    layers: Seq<Seq<NodeId>>,
    dependent: Seq<Layer>,
)
    requires
        sorted_outcome(nodes, Ok(layers)),
        layers == ordered_layers(nodes),
        dependents_sorted(nodes, dependent),
    ensures
        dependent_layers_of(nodes, layers, dependent),
{
}

impl<'a> WorkGraph<'a> {
    /// Sorts the nodes into layers, in the manner of Kahn's algorithm with parents: nodes
    /// become ready and completed by the rules, and each round makes a layer of the nodes
    /// with a system that became ready in it, in the order in which they did. Nodes without
    /// a system complete within the round, so they add no layer. The layers are those of
    /// `ordered_layers`, so every call on the same graph gives the same result.
    pub fn topological_order_layers(&self) -> (r: Result<Vec<Vec<NodeId>>, GraphError>)
        requires
            self.wf(),
        ensures
            sorted_outcome(self.base().nodes(), outcome_view(r)),
            r matches Ok(layers) ==> layers_view(layers@) == ordered_layers(self.base().nodes()),
    {
        self.build_topological_order_layers()
    }

    fn build_topological_order_layers(&self) -> (r: Result<Vec<Vec<NodeId>>, GraphError>)
        requires
            self.wf(),
        ensures
            sorted_outcome(self.base().nodes(), outcome_view(r)),
            r matches Ok(layers) ==> layers_view(layers@) == ordered_layers(self.base().nodes()),
    {
        let mut result_layers: Vec<Vec<NodeId>> = Vec::new();
        let len: usize = self.graph.nodes.len();
        let ghost nodes = self.base().nodes();
        if len == 0 {
            proof {
                assert(layers_view(result_layers@) =~= Seq::<Seq<NodeId>>::empty());
                assert forall|n: usize| n < nodes.len() implies #[trigger] rule_ready(nodes).contains(n) by {}
                assert(ordered_layers(nodes) == ordered_round(nodes, 0).2);
            }
            return Ok(result_layers);
        }
        let mut completed = BitSet::with_capacity(len);
        let mut ready = BitSet::with_capacity(len);
        let mut todo = len;
        let ghost mut layer_of: Map<usize, int> = Map::empty();
        let ghost mut res: Seq<Seq<NodeId>> = Seq::empty();
        let ghost mut rounds: nat = 0;
        proof {
            assert(ready.view().union(completed.view()) =~= Set::<usize>::empty());
            assert(layers_view(result_layers@) =~= res);
            assert(sort_round(nodes, 0) == (
                ready.view().union(completed.view()),
                completed.view(),
            ));
        }
        loop
            invariant
                nodes == self.base().nodes(),
                self.wf(),
                len == nodes.len(),
                len > 0,
                core_inv(nodes, ready.view(), completed.view()),
                round_start(nodes, ready.view(), completed.view()),
                layer_inv(
                    nodes,
                    ready.view().union(completed.view()),
                    completed.view(),
                    layer_of,
                    res,
                    Seq::<NodeId>::empty(),
                ),
                layers_view(result_layers@) == res,
                ready.view().union(completed.view()).finite(),
                todo == len - ready.view().union(completed.view()).len(),
                todo > 0,
                rounds <= ready.view().union(completed.view()).len(),
                sort_round(nodes, rounds) == (
                    ready.view().union(completed.view()),
                    completed.view(),
                ),
                layers_hold(res, layer_sets(nodes, rounds)),
                ordered_round(nodes, rounds).0 == ready.view(),
                ordered_round(nodes, rounds).1 == completed.view(),
                ordered_round(nodes, rounds).2 == res,
            decreases todo,
        {
            let mut count_new_ready: usize = 0;
            let mut current_layer: Vec<NodeId> = Vec::new();
            let ghost round_ready = ready.view();
            let ghost round_completed = completed.view();
            let ghost round_ever = round_ready.union(round_completed);
            proof {
                lemma_within_finite(nodes, round_ever);
                lemma_within_subset(nodes, round_ever, completed.view());
                lemma_within_finite(nodes, completed.view());
                assert(current_layer@ =~= Seq::<NodeId>::empty());
                lemma_ready_part_base(nodes, round_ever, round_completed);
            }
            let mut changed = true;
            let ghost pstart = (round_ready, round_completed, Seq::<NodeId>::empty());
            let ghost mut pfuel: nat = (2 * len + 1) as nat;
            proof {
                assert((ready.view(), completed.view(), current_layer@) == pstart);
            }
            while changed
                invariant
                    pstart == (round_ready, round_completed, Seq::<NodeId>::empty()),
                    changed ==> passes(nodes, pstart, (2 * len + 1) as nat) == passes(
                        nodes,
                        (ready.view(), completed.view(), current_layer@),
                        pfuel,
                    ),
                    !changed ==> passes(nodes, pstart, (2 * len + 1) as nat) == (
                        ready.view(),
                        completed.view(),
                        current_layer@,
                    ),
                    pfuel + ready.view().union(completed.view()).len() + completed.view().len()
                        >= 2 * len + 1,
                    nodes == self.base().nodes(),
                    self.wf(),
                    len == nodes.len(),
                    core_inv(nodes, ready.view(), completed.view()),
                    ready.view().disjoint(completed.view()),
                    layer_inv(
                        nodes,
                        ready.view().union(completed.view()),
                        completed.view(),
                        layer_of,
                        res,
                        current_layer@,
                    ),
                    round_inv(
                        nodes,
                        ready.view(),
                        completed.view(),
                        count_new_ready as int,
                        round_ready,
                        round_completed,
                    ),
                    layers_view(result_layers@) == res,
                    round_ever.finite(),
                    round_ever == round_ready.union(round_completed),
                    todo == len - round_ever.len(),
                    todo > 0,
                    ready.view().union(completed.view()).finite(),
                    completed.view().finite(),
                    ready.view().union(completed.view()).len() <= len,
                    completed.view().len() <= len,
                    !changed ==> ready_stuck(nodes, ready.view(), completed.view()),
                    below_ready_part(
                        nodes,
                        round_ever,
                        round_completed,
                        ready.view().union(completed.view()),
                        completed.view(),
                    ),
                    cur_is_round_layer(
                        nodes,
                        round_ever,
                        ready.view().union(completed.view()),
                        current_layer@,
                    ),
                decreases 2 * len - ready.view().union(completed.view()).len()
                    - completed.view().len() + (if changed {
                    1int
                } else {
                    0int
                }),
            {
                let ghost before = (ready.view(), completed.view(), current_layer@);
                let (c, Ghost(lo)) = self.ready_pass(
                    &mut ready,
                    &mut completed,
                    &mut current_layer,
                    &mut count_new_ready,
                    Ghost(layer_of),
                    Ghost(res),
                    Ghost(round_ready),
                    Ghost(round_completed),
                );
                proof {
                    layer_of = lo;
                    let ever = ready.view().union(completed.view());
                    lemma_within_finite(nodes, ever);
                    lemma_within_subset(nodes, ever, completed.view());
                    lemma_within_finite(nodes, completed.view());
                    let after = (ready.view(), completed.view(), current_layer@);
                    assert(after == pass_upto(nodes, before, nodes.len()));
                    if c {
                        assert(!(after.0 == before.0 && after.1 == before.1));
                        assert(pfuel > 0);
                        assert(passes(nodes, before, pfuel) == passes(
                            nodes,
                            after,
                            (pfuel - 1) as nat,
                        ));
                        pfuel = (pfuel - 1) as nat;
                    } else {
                        assert(passes(nodes, before, pfuel) == after);
                    }
                }
                changed = c;
            }
            let ghost pa = (ready.view(), completed.view(), current_layer@);
            if count_new_ready == 0 {
                proof {
                    lemma_stuck(nodes, ready.view(), completed.view());
                    let ever = ready.view().union(completed.view());
                    lemma_indices_below(len as int);
                    if indices_below(len as int).subset_of(ever) {
                        vstd::set_lib::lemma_len_subset(indices_below(len as int), ever);
                    }
                    let n = choose|n: usize| indices_below(len as int).contains(n) && !ever.contains(n);
                    assert(!rule_ready(nodes).contains(n));
                }
                return Err(GraphError::CycleDetected(todo));
            }
            proof {
                lemma_ready_part_stuck(
                    nodes,
                    round_ever,
                    round_completed,
                    ready.view(),
                    completed.view(),
                );
                lemma_round_layer(
                    nodes,
                    rounds,
                    round_ever,
                    round_completed,
                    ready.view().union(completed.view()),
                    completed.view(),
                    current_layer@,
                    res,
                );
            }
            if current_layer.len() > 0 {
                proof {
                    lemma_push_layer(
                        nodes,
                        ready.view().union(completed.view()),
                        completed.view(),
                        layer_of,
                        res,
                        current_layer@,
                    );
                }
                result_layers.push(current_layer);
                proof {
                    res = res.push(current_layer@);
                    assert(layers_view(result_layers@) =~= res);
                }
            }
            proof {
                assert(layer_inv(
                    nodes,
                    ready.view().union(completed.view()),
                    completed.view(),
                    layer_of,
                    res,
                    Seq::<NodeId>::empty(),
                )) by {
                    if current_layer@.len() == 0 {
                        assert(current_layer@ =~= Seq::<NodeId>::empty());
                    }
                }
            }
            todo = todo - count_new_ready;
            if todo == 0 {
                proof {
                    lemma_all_ready(nodes, ready.view(), completed.view());
                    lemma_within_subset(
                        nodes,
                        ready.view().union(completed.view()),
                        completed.view(),
                    );
                    lemma_layering(nodes, completed.view(), layer_of, res);
                    let all = indices_below(len as int);
                    assert(complete_part_closed(nodes, all, completed.view(), all));
                    assert(complete_part(nodes, all, completed.view()).subset_of(all));
                    lemma_rounds_settle(nodes, rounds + 1, len as nat);
                    let (ra, ca, cur) = pa;
                    let cb = complete_part(nodes, ra.union(ca), ca);
                    assert(ordered_round(nodes, rounds + 1).2 == res);
                    assert forall|n: usize| n < nodes.len() implies #[trigger] ra.difference(
                        cb,
                    ).contains(n) || cb.contains(n) by {
                        assert(all.contains(n));
                        if ca.contains(n) {
                            assert forall|c: Set<usize>| #[trigger]
                                complete_part_closed(nodes, ra.union(ca), ca, c) implies c.contains(
                                n,
                            ) by {}
                        }
                    }
                    assert(covered(
                        nodes,
                        ordered_round(nodes, rounds + 1).0,
                        ordered_round(nodes, rounds + 1).1,
                    ));
                    lemma_ordered_settle(nodes, rounds + 1, len as nat);
                }
                return Ok(result_layers);
            }
            let mut changed2 = true;
            let ghost ever = ready.view().union(completed.view());
            let ghost phase_completed = completed.view();
            proof {
                lemma_complete_part_base(nodes, ever, phase_completed);
            }
            while changed2
                invariant
                    nodes == self.base().nodes(),
                    self.wf(),
                    len == nodes.len(),
                    core_inv(nodes, ready.view(), completed.view()),
                    layer_inv(nodes, ever, completed.view(), layer_of, res, Seq::<NodeId>::empty()),
                    ready.view().union(completed.view()) == ever,
                    ever.finite(),
                    layers_view(result_layers@) == res,
                    todo == len - ever.len(),
                    todo > 0,
                    completed.view().finite(),
                    completed.view().len() <= len,
                    !changed2 ==> forall|n: usize| #[trigger]
                        ready.view().contains(n) ==> complete_fact(nodes, n, completed.view()),
                    below_complete_part(nodes, ever, phase_completed, completed.view()),
                decreases len - completed.view().len() + (if changed2 {
                    1int
                } else {
                    0int
                }),
            {
                changed2 = self.complete_pass(
                    &ready,
                    &mut completed,
                    Ghost(layer_of),
                    Ghost(res),
                    Ghost(phase_completed),
                );
                proof {
                    lemma_within_subset(nodes, ever, completed.view());
                    lemma_within_finite(nodes, completed.view());
                }
            }
            proof {
                lemma_complete_part_stuck(nodes, ready.view(), phase_completed, completed.view());
            }
            let ghost ready_before = ready.view();
            ready.difference_with(&completed);
            proof {
                assert(ordered_round(nodes, rounds + 1).0 == ready.view());
                assert(ordered_round(nodes, rounds + 1).1 == completed.view());
                assert(ordered_round(nodes, rounds + 1).2 == res);
                rounds = rounds + 1;
                assert(ready.view().union(completed.view()) =~= ready_before.union(completed.view()));
                assert forall|n: usize| #[trigger] ready.view().contains(n) implies !children_completed(
                    nodes,
                    n as int,
                    completed.view(),
                ) by {
                    assert(ready_before.contains(n));
                    assert(complete_fact(nodes, n, completed.view()));
                }
                assert(ready.view().disjoint(completed.view()));
            }
        }
    }
}


/// Every node is ready or completed.
spec fn covered(nodes: Seq<Node>, ready: Set<usize>, completed: Set<usize>) -> bool {
    forall|n: usize| n < nodes.len() ==> #[trigger] ready.contains(n) || completed.contains(n)
}

/// A pass over nodes that are all ready or completed makes no node ready: the layer stays
/// as it is, and every node stays ready or completed.
proof fn lemma_pass_covered(nodes: Seq<Node>, st: (Set<usize>, Set<usize>, Seq<NodeId>), k: nat)
    requires
        covered(nodes, st.0, st.1),
        k <= nodes.len(),
    ensures
        pass_upto(nodes, st, k).2 == st.2,
        covered(nodes, pass_upto(nodes, st, k).0, pass_upto(nodes, st, k).1),
    decreases k,
{
    if k > 0 {
        lemma_pass_covered(nodes, st, (k - 1) as nat);
        let p = pass_upto(nodes, st, (k - 1) as nat);
        let q = visit_node(nodes, p, k - 1);
        assert(p.0.contains((k - 1) as usize) || p.1.contains((k - 1) as usize));
        assert forall|n: usize| n < nodes.len() implies #[trigger] q.0.contains(n) || q.1.contains(
            n,
        ) by {
            assert(p.0.contains(n) || p.1.contains(n));
        }
    }
}

/// Passes over nodes that are all ready or completed leave the layer as it is.
proof fn lemma_passes_covered(
    nodes: Seq<Node>,
    st: (Set<usize>, Set<usize>, Seq<NodeId>),
    fuel: nat,
)
    requires
        covered(nodes, st.0, st.1),
    ensures
        passes(nodes, st, fuel).2 == st.2,
        covered(nodes, passes(nodes, st, fuel).0, passes(nodes, st, fuel).1),
    decreases fuel,
{
    lemma_pass_covered(nodes, st, nodes.len());
    let st2 = pass_upto(nodes, st, nodes.len());
    if !(fuel == 0 || (st2.0 == st.0 && st2.1 == st.1)) {
        lemma_passes_covered(nodes, st2, (fuel - 1) as nat);
    }
}

/// Once every node is ready or completed, later rounds add no layer.
proof fn lemma_ordered_settle(nodes: Seq<Node>, k: nat, j: nat)
    requires
        k <= j,
        covered(nodes, ordered_round(nodes, k).0, ordered_round(nodes, k).1),
    ensures
        ordered_round(nodes, j).2 == ordered_round(nodes, k).2,
        covered(nodes, ordered_round(nodes, j).0, ordered_round(nodes, j).1),
    decreases j,
{
    if j > k {
        lemma_ordered_settle(nodes, k, (j - 1) as nat);
        let (r, c, ls) = ordered_round(nodes, (j - 1) as nat);
        lemma_passes_covered(nodes, (r, c, Seq::empty()), 2 * nodes.len() + 1);
        let (ra, ca, cur) = passes(nodes, (r, c, Seq::empty()), 2 * nodes.len() + 1);
        let cb = complete_part(nodes, ra.union(ca), ca);
        assert(cur.len() == 0);
        assert forall|n: usize| n < nodes.len() implies #[trigger] ra.difference(cb).contains(n)
            || cb.contains(n) by {
            if ca.contains(n) {
                assert forall|c: Set<usize>| #[trigger]
                    complete_part_closed(nodes, ra.union(ca), ca, c) implies c.contains(n) by {}
            }
        }
    }
}

/// The layer built in a round holds exactly the round's nodes with a system; it is added
/// when not empty, as the round adds its layer to the layers of the earlier rounds.
proof fn lemma_round_layer(
    nodes: Seq<Node>,
    rounds: nat,
    round_ever: Set<usize>,
    round_completed: Set<usize>,
    ever: Set<usize>,
    completed: Set<usize>,
    cur: Seq<NodeId>,
    res: Seq<Seq<NodeId>>,
)
    requires
        sort_round(nodes, rounds) == (round_ever, round_completed),
        ready_part(nodes, round_ever, round_completed) == (ever, completed),
        cur_is_round_layer(nodes, round_ever, ever, cur),
        forall|k: int|
            0 <= k < cur.len() ==> ever.contains(#[trigger] cur[k].0) && has_system(
                nodes,
                cur[k].0,
            ),
        layers_hold(res, layer_sets(nodes, rounds)),
    ensures
        sort_round(nodes, rounds + 1).0 == ever,
        sort_round(nodes, rounds + 1) == (ever, complete_part(nodes, ever, completed)),
        layers_hold(
            if cur.len() > 0 {
                res.push(cur)
            } else {
                res
            },
            layer_sets(nodes, rounds + 1),
        ),
{
    let rl = round_layer(nodes, rounds + 1 as int);
    assert(sort_round(nodes, rounds + 1) == (ever, complete_part(nodes, ever, completed)));
    assert forall|n: usize| #[trigger] rl.contains(n) <==> cur.contains(NodeId(n)) by {
        if cur.contains(NodeId(n)) {
            let k = choose|k: int| 0 <= k < cur.len() && cur[k] == NodeId(n);
            assert(cur[k].0 == n);
        }
    }
    let prev = layer_sets(nodes, rounds);
    if cur.len() > 0 {
        assert(rl.contains(cur[0].0));
        assert(layer_sets(nodes, rounds + 1) == prev.push(rl));
        let all = res.push(cur);
        assert forall|i: int, n: usize|
            #![trigger all[i].contains(NodeId(n))]
            #![trigger prev.push(rl)[i].contains(n)]
            0 <= i < all.len() implies (all[i].contains(NodeId(n)) <==> prev.push(rl)[i].contains(
            n,
        )) by {
            if i < res.len() {
                assert(all[i] == res[i]);
                assert(prev.push(rl)[i] == prev[i]);
                assert(res[i].contains(NodeId(n)) <==> prev[i].contains(n));
            } else {
                assert(all[i] == cur);
                assert(prev.push(rl)[i] == rl);
            }
        }
    } else {
        assert(rl =~= Set::<usize>::empty());
        assert(layer_sets(nodes, rounds + 1) == prev);
    }
}

/// The systems of the nodes of `layer` that have one, in order.
pub open spec fn systems_of(nodes: Seq<Node>, layer: Seq<NodeId>) -> Seq<SystemId>
    decreases layer.len(),
{
    if layer.len() == 0 {
        Seq::empty()
    } else {
        let rest = systems_of(nodes, layer.drop_last());
        let s = nodes[layer.last().0 as int].system;
        if s.0 != usize::MAX {
            rest.push(s)
        } else {
            rest
        }
    }
}

/// The systems of each layer.
pub open spec fn system_layers_of(nodes: Seq<Node>, layers: Seq<Seq<NodeId>>) -> Seq<
    Seq<SystemId>,
> {
    layers.map_values(|layer: Seq<NodeId>| systems_of(nodes, layer))
}

/// Each node stands at most once in `layers`.
pub open spec fn placed_once(layers: Seq<Seq<NodeId>>) -> bool {
    forall|i: int, k: int, j: int, l: int|
        0 <= i < layers.len() && 0 <= k < layers[i].len() && 0 <= j < layers.len() && 0 <= l
            < layers[j].len() && #[trigger] layers[i][k] == #[trigger] layers[j][l] ==> i == j
            && k == l
}

/// Every node in `layers` is a node of `nodes`, and so are its dependencies.
pub open spec fn layers_in_graph(nodes: Seq<Node>, layers: Seq<Seq<NodeId>>) -> bool {
    forall|i: int, k: int|
        0 <= i < layers.len() && 0 <= k < layers[i].len() ==> {
            let n = #[trigger] layers[i][k].0;
            &&& n < nodes.len()
            &&& forall|q: int|
                0 <= q < nodes[n as int].dependencies@.len() ==> (
                #[trigger] nodes[n as int].dependencies@[q]).0 < nodes.len()
        }
}

/// Position `(i, k)` of `layers` holds a node with system `s`, whose dependency `q` has a
/// system and stands in layer `j`.
pub open spec fn dep_at(
    nodes: Seq<Node>,
    layers: Seq<Seq<NodeId>>,
    s: usize,
    j: int,
    i: int,
    k: int,
    q: int,
) -> bool {
    &&& 0 <= i < layers.len()
    &&& 0 <= k < layers[i].len()
    &&& layers[i][k].0 < nodes.len()
    &&& s != usize::MAX
    &&& nodes[layers[i][k].0 as int].system.0 == s
    &&& 0 <= q < nodes[layers[i][k].0 as int].dependencies@.len()
    &&& nodes[layers[i][k].0 as int].dependencies@[q].0 < nodes.len()
    &&& has_system(nodes, nodes[layers[i][k].0 as int].dependencies@[q].0)
    &&& 0 <= j < layers.len()
    &&& layers[j].contains(nodes[layers[i][k].0 as int].dependencies@[q])
}

/// Layer `j` holds a dependency with a system of a node of `layers` with system `s`.
pub open spec fn dependency_layer(nodes: Seq<Node>, layers: Seq<Seq<NodeId>>, s: usize, j: int) -> bool {
    exists|i: int, k: int, q: int| #[trigger] dep_at(nodes, layers, s, j, i, k, q)
}

/// `v` is the latest layer that holds a dependency with a system of a node with system `s`,
/// or undefined (`usize::MAX`) when no layer holds one.
pub open spec fn is_latest_dependency_layer(
    nodes: Seq<Node>,
    layers: Seq<Seq<NodeId>>,
    s: usize,
    v: usize,
) -> bool {
    ||| (v == usize::MAX && forall|j: int| !#[trigger] dependency_layer(nodes, layers, s, j))
    ||| (dependency_layer(nodes, layers, s, v as int) && forall|j: int|
        #[trigger] dependency_layer(nodes, layers, s, j) ==> j <= v)
}

/// Like `dependency_layer`, counting only the positions `(i, k, q)` before `(i0, k0, q0)`.
spec fn dep_before(
    nodes: Seq<Node>,
    layers: Seq<Seq<NodeId>>,
    s: usize,
    j: int,
    i0: int,
    k0: int,
    q0: int,
) -> bool {
    exists|i: int, k: int, q: int|
        #[trigger] dep_at(nodes, layers, s, j, i, k, q) && (i < i0 || (i == i0 && (k < k0 || (k
            == k0 && q < q0))))
}

/// The latest dependency layer of system `s` so far is `v`: undefined when there is none.
spec fn latest_dep(
    nodes: Seq<Node>,
    layers: Seq<Seq<NodeId>>,
    s: usize,
    v: usize,
    i0: int,
    k0: int,
    q0: int,
) -> bool {
    ||| (v == usize::MAX && forall|j: int| !#[trigger] dep_before(nodes, layers, s, j, i0, k0, q0))
    ||| (dep_before(nodes, layers, s, v as int, i0, k0, q0) && forall|j: int|
        #[trigger] dep_before(nodes, layers, s, j, i0, k0, q0) ==> j <= v)
}

proof fn lemma_dep_step(
    nodes: Seq<Node>,
    layers: Seq<Seq<NodeId>>,
    s: usize,
    j: int,
    i0: int,
    k0: int,
    q0: int,
)
    ensures
        dep_before(nodes, layers, s, j, i0, k0, q0 + 1) == (dep_before(
            nodes,
            layers,
            s,
            j,
            i0,
            k0,
            q0,
        ) || dep_at(nodes, layers, s, j, i0, k0, q0)),
{
    if dep_before(nodes, layers, s, j, i0, k0, q0 + 1) {
        let (i, k, q) = choose|i: int, k: int, q: int|
            #[trigger] dep_at(nodes, layers, s, j, i, k, q) && (i < i0 || (i == i0 && (k < k0 || (k
                == k0 && q < q0 + 1))));
        if !(i == i0 && k == k0 && q == q0) {
            assert(dep_at(nodes, layers, s, j, i, k, q));
        }
    }
    if dep_before(nodes, layers, s, j, i0, k0, q0) {
        let (i, k, q) = choose|i: int, k: int, q: int|
            #[trigger] dep_at(nodes, layers, s, j, i, k, q) && (i < i0 || (i == i0 && (k < k0 || (k
                == k0 && q < q0))));
        assert(dep_at(nodes, layers, s, j, i, k, q));
    }
    if dep_at(nodes, layers, s, j, i0, k0, q0) {
        assert(dep_at(nodes, layers, s, j, i0, k0, q0));
    }
}

proof fn lemma_dep_next_node(
    nodes: Seq<Node>,
    layers: Seq<Seq<NodeId>>,
    s: usize,
    j: int,
    i0: int,
    k0: int,
    q0: int,
)
    requires
        forall|q: int| q >= q0 ==> !#[trigger] dep_at(nodes, layers, s, j, i0, k0, q),
    ensures
        dep_before(nodes, layers, s, j, i0, k0 + 1, 0) == dep_before(
            nodes,
            layers,
            s,
            j,
            i0,
            k0,
            q0,
        ),
{
    if dep_before(nodes, layers, s, j, i0, k0 + 1, 0) {
        let (i, k, q) = choose|i: int, k: int, q: int|
            #[trigger] dep_at(nodes, layers, s, j, i, k, q) && (i < i0 || (i == i0 && (k < k0 + 1
                || (k == k0 + 1 && q < 0))));
        assert(dep_at(nodes, layers, s, j, i, k, q));
    }
    if dep_before(nodes, layers, s, j, i0, k0, q0) {
        let (i, k, q) = choose|i: int, k: int, q: int|
            #[trigger] dep_at(nodes, layers, s, j, i, k, q) && (i < i0 || (i == i0 && (k < k0 || (k
                == k0 && q < q0))));
        assert(dep_at(nodes, layers, s, j, i, k, q));
    }
}

proof fn lemma_dep_next_layer(
    nodes: Seq<Node>,
    layers: Seq<Seq<NodeId>>,
    s: usize,
    j: int,
    i0: int,
    k0: int,
)
    requires
        0 <= i0 < layers.len(),
        k0 >= layers[i0].len(),
    ensures
        dep_before(nodes, layers, s, j, i0 + 1, 0, 0) == dep_before(
            nodes,
            layers,
            s,
            j,
            i0,
            k0,
            0,
        ),
{
    if dep_before(nodes, layers, s, j, i0 + 1, 0, 0) {
        let (i, k, q) = choose|i: int, k: int, q: int|
            #[trigger] dep_at(nodes, layers, s, j, i, k, q) && (i < i0 + 1 || (i == i0 + 1 && (k < 0
                || (k == 0 && q < 0))));
        assert(dep_at(nodes, layers, s, j, i, k, q));
    }
    if dep_before(nodes, layers, s, j, i0, k0, 0) {
        let (i, k, q) = choose|i: int, k: int, q: int|
            #[trigger] dep_at(nodes, layers, s, j, i, k, q) && (i < i0 || (i == i0 && (k < k0 || (k
                == k0 && q < 0))));
        assert(dep_at(nodes, layers, s, j, i, k, q));
    }
}

/// One dependency `(i, k, q)` looked at: the latest layer becomes `w`.
proof fn lemma_latest_step(
    nodes: Seq<Node>,
    layers: Seq<Seq<NodeId>>,
    s: usize,
    v: usize,
    w: usize,
    i: int,
    k: int,
    q: int,
    dl: int,
)
    requires
        layers.len() <= usize::MAX,
        latest_dep(nodes, layers, s, v, i, k, q),
        forall|j: int| #[trigger] dep_at(nodes, layers, s, j, i, k, q) ==> j == dl,
        dep_at(nodes, layers, s, dl, i, k, q) ==> w == (if v == usize::MAX || dl > v {
            dl
        } else {
            v as int
        }),
        !dep_at(nodes, layers, s, dl, i, k, q) ==> w == v,
    ensures
        latest_dep(nodes, layers, s, w, i, k, q + 1),
{
    assert forall|j: int|
        #[trigger] dep_before(nodes, layers, s, j, i, k, q + 1) == (dep_before(
            nodes,
            layers,
            s,
            j,
            i,
            k,
            q,
        ) || dep_at(nodes, layers, s, j, i, k, q)) by {
        lemma_dep_step(nodes, layers, s, j, i, k, q);
    }
    if dep_at(nodes, layers, s, dl, i, k, q) {
        assert(dep_before(nodes, layers, s, dl, i, k, q + 1));
        if v != usize::MAX {
            assert(dep_before(nodes, layers, s, v as int, i, k, q + 1));
        }
    } else {
        if v != usize::MAX {
            assert(dep_before(nodes, layers, s, v as int, i, k, q + 1));
        }
    }
}

/// The node `(i, k)` has no dependency left from `q0` on: move on to the next node.
proof fn lemma_latest_next_node(
    nodes: Seq<Node>,
    layers: Seq<Seq<NodeId>>,
    s: usize,
    v: usize,
    i: int,
    k: int,
    q0: int,
)
    requires
        latest_dep(nodes, layers, s, v, i, k, q0),
        forall|j: int, q: int| q >= q0 ==> !#[trigger] dep_at(nodes, layers, s, j, i, k, q),
    ensures
        latest_dep(nodes, layers, s, v, i, k + 1, 0),
{
    assert forall|j: int|
        #[trigger] dep_before(nodes, layers, s, j, i, k + 1, 0) == dep_before(
            nodes,
            layers,
            s,
            j,
            i,
            k,
            q0,
        ) by {
        lemma_dep_next_node(nodes, layers, s, j, i, k, q0);
    }
    if v != usize::MAX {
        assert(dep_before(nodes, layers, s, v as int, i, k + 1, 0));
    }
}

/// The layer `i` is done: move on to the next layer.
proof fn lemma_latest_next_layer(
    nodes: Seq<Node>,
    layers: Seq<Seq<NodeId>>,
    s: usize,
    v: usize,
    i: int,
    k: int,
)
    requires
        0 <= i < layers.len(),
        k >= layers[i].len(),
        latest_dep(nodes, layers, s, v, i, k, 0),
    ensures
        latest_dep(nodes, layers, s, v, i + 1, 0, 0),
{
    assert forall|j: int|
        #[trigger] dep_before(nodes, layers, s, j, i + 1, 0, 0) == dep_before(
            nodes,
            layers,
            s,
            j,
            i,
            k,
            0,
        ) by {
        lemma_dep_next_layer(nodes, layers, s, j, i, k);
    }
    if v != usize::MAX {
        assert(dep_before(nodes, layers, s, v as int, i + 1, 0, 0));
    }
}

/// All layers done: the latest layer so far is the latest dependency layer.
proof fn lemma_latest_final(nodes: Seq<Node>, layers: Seq<Seq<NodeId>>, s: usize, v: usize)
    requires
        latest_dep(nodes, layers, s, v, layers.len() as int, 0, 0),
    ensures
        is_latest_dependency_layer(nodes, layers, s, v),
{
    assert forall|j: int|
        #[trigger] dependency_layer(nodes, layers, s, j) == dep_before(
            nodes,
            layers,
            s,
            j,
            layers.len() as int,
            0,
            0,
        ) by {
        if dependency_layer(nodes, layers, s, j) {
            let (i, k, q) = choose|i: int, k: int, q: int| #[trigger]
                dep_at(nodes, layers, s, j, i, k, q);
            assert(dep_at(nodes, layers, s, j, i, k, q));
        }
        if dep_before(nodes, layers, s, j, layers.len() as int, 0, 0) {
            let (i, k, q) = choose|i: int, k: int, q: int|
                #[trigger] dep_at(nodes, layers, s, j, i, k, q) && (i < layers.len() || (i
                    == layers.len() && (k < 0 || (k == 0 && q < 0))));
            assert(dep_at(nodes, layers, s, j, i, k, q));
        }
    }
    if v != usize::MAX {
        assert(dependency_layer(nodes, layers, s, v as int));
    }
}

/// Each system of `systems_of` is the defined system of a node of the layer.
proof fn lemma_systems_of_from_nodes(nodes: Seq<Node>, layer: Seq<NodeId>)
    requires
        forall|j: int| 0 <= j < layer.len() ==> (#[trigger] layer[j]).0 < nodes.len(),
    ensures
        forall|k: int|
            0 <= k < systems_of(nodes, layer).len() ==> exists|j: int|
                0 <= j < layer.len() && #[trigger] systems_of(nodes, layer)[k] == nodes[layer[j].0 as int].system
                    && nodes[layer[j].0 as int].system.0 != usize::MAX,
    decreases layer.len(),
{
    if layer.len() > 0 {
        let rest = layer.drop_last();
        lemma_systems_of_from_nodes(nodes, rest);
        assert forall|k: int| 0 <= k < systems_of(nodes, layer).len() implies exists|j: int|
            0 <= j < layer.len() && #[trigger] systems_of(nodes, layer)[k] == nodes[layer[j].0 as int].system
                && nodes[layer[j].0 as int].system.0 != usize::MAX by {
            let sr = systems_of(nodes, rest);
            if k < sr.len() {
                let j = choose|j: int|
                    0 <= j < rest.len() && sr[k] == nodes[rest[j].0 as int].system && nodes[rest[j].0 as int].system.0
                        != usize::MAX;
                assert(systems_of(nodes, layer)[k] == sr[k]);
                assert(rest[j] == layer[j]);
            } else {
                assert(systems_of(nodes, layer)[k] == nodes[layer.last().0 as int].system);
                assert(layer.last() == layer[layer.len() - 1]);
            }
        }
    }
}

/// The defined system of a node of the layer is among the layer's systems.
proof fn lemma_systems_of_contains(nodes: Seq<Node>, layer: Seq<NodeId>, j: int)
    requires
        0 <= j < layer.len(),
        nodes[layer[j].0 as int].system.0 != usize::MAX,
    ensures
        systems_of(nodes, layer).contains(nodes[layer[j].0 as int].system),
    decreases layer.len(),
{
    let rest = layer.drop_last();
    let s = nodes[layer[j].0 as int].system;
    if j < layer.len() - 1 {
        assert(rest[j] == layer[j]);
        lemma_systems_of_contains(nodes, rest, j);
        let k = choose|k: int| 0 <= k < systems_of(nodes, rest).len() && systems_of(nodes, rest)[k] == s;
        let l = nodes[layer.last().0 as int].system;
        if l.0 != usize::MAX {
            assert(systems_of(nodes, layer) == systems_of(nodes, rest).push(l));
            assert(systems_of(nodes, layer)[k] == s);
        } else {
            assert(systems_of(nodes, layer) == systems_of(nodes, rest));
        }
    } else {
        assert(layer.last() == layer[j]);
        assert(systems_of(nodes, layer) == systems_of(nodes, rest).push(s));
        assert(systems_of(nodes, layer)[systems_of(nodes, rest).len() as int] == s);
    }
}

/// In a layering, the system of every node that has one stands in some layer of systems.
pub proof fn lemma_node_system_in_layers(nodes: Seq<Node>, layers: Seq<Seq<NodeId>>, m: usize)
    requires
        is_layering(nodes, layers),
        m < nodes.len(),
        has_system(nodes, m),
    ensures
        exists|i: int|
            0 <= i < system_layers_of(nodes, layers).len() && #[trigger] system_layers_of(
                nodes,
                layers,
            )[i].contains(nodes[m as int].system),
{
    let (i, k) = choose|i: int, k: int|
        0 <= i < layers.len() && 0 <= k < layers[i].len() && #[trigger] layers[i][k] == NodeId(m);
    lemma_systems_of_contains(nodes, layers[i], k);
    assert(system_layers_of(nodes, layers)[i] == systems_of(nodes, layers[i]));
}

proof fn lemma_systems_len_le(nodes: Seq<Node>, n: int, b: int)
    requires
        0 <= n <= nodes.len(),
        0 <= b,
        forall|m: int|
            0 <= m < nodes.len() ==> (#[trigger] nodes[m]).system.0 == usize::MAX || nodes[m].system.0
                < b,
    ensures
        systems_len_of(nodes, n) <= b,
    decreases n,
{
    if n > 0 {
        lemma_systems_len_le(nodes, n - 1, b);
        assert(nodes[n - 1].system.0 == usize::MAX || nodes[n - 1].system.0 < b);
    }
}

/// The systems of the layers of a layering are systems of nodes: below `systems_len_of`,
/// and below every bound `b` of the node's systems, which bounds `systems_len_of` too.
pub proof fn lemma_system_layers_bounded(nodes: Seq<Node>, layers: Seq<Seq<NodeId>>, b: int)
    requires
        is_layering(nodes, layers),
        0 <= b,
        forall|m: int|
            0 <= m < nodes.len() ==> (#[trigger] nodes[m]).system.0 == usize::MAX || nodes[m].system.0
                < b,
    ensures
        systems_len_of(nodes, nodes.len() as int) <= b,
        forall|i: int, k: int|
            0 <= i < system_layers_of(nodes, layers).len() && 0 <= k < system_layers_of(
                nodes,
                layers,
            )[i].len() ==> (#[trigger] system_layers_of(nodes, layers)[i][k]).0 < systems_len_of(
                nodes,
                nodes.len() as int,
            ) && system_layers_of(nodes, layers)[i][k].0 < b,
{
    lemma_systems_len_le(nodes, nodes.len() as int, b);
    let sl = system_layers_of(nodes, layers);
    assert forall|i: int, k: int| 0 <= i < sl.len() && 0 <= k < sl[i].len() implies (
    #[trigger] sl[i][k]).0 < systems_len_of(nodes, nodes.len() as int) && sl[i][k].0 < b by {
        assert forall|j: int| 0 <= j < layers[i].len() implies (#[trigger] layers[i][j]).0
            < nodes.len() by {
            assert(layers[i][j].0 < nodes.len());
        }
        lemma_systems_of_from_nodes(nodes, layers[i]);
        assert(sl[i] == systems_of(nodes, layers[i]));
        let j = choose|j: int|
            0 <= j < layers[i].len() && #[trigger] systems_of(nodes, layers[i])[k] == nodes[layers[i][j].0 as int].system
                && nodes[layers[i][j].0 as int].system.0 != usize::MAX;
        let m = layers[i][j].0 as int;
        lemma_systems_len(nodes, nodes.len() as int, m);
        assert(nodes[m].system.0 == usize::MAX || nodes[m].system.0 < b);
    }
}

/// A defined system id is below `systems_len_of`.
proof fn lemma_systems_len(nodes: Seq<Node>, n: int, m: int)
    requires
        0 <= m < n <= nodes.len(),
        nodes[m].system.0 != usize::MAX,
    ensures
        nodes[m].system.0 < systems_len_of(nodes, n),
    decreases n,
{
    if m < n - 1 {
        lemma_systems_len(nodes, n - 1, m);
    }
}

proof fn lemma_systems_len_bound(nodes: Seq<Node>, n: int)
    requires
        0 <= n <= nodes.len(),
    ensures
        0 <= systems_len_of(nodes, n) <= usize::MAX,
    decreases n,
{
    if n > 0 {
        lemma_systems_len_bound(nodes, n - 1);
    }
}

/// The layers of system ids of a vector of layers.
pub open spec fn system_layers_view(layers: Seq<Vec<SystemId>>) -> Seq<Seq<SystemId>> {
    layers.map_values(|layer: Vec<SystemId>| layer@)
}

/// `systems` holds the systems of each layer of `layers`.
pub open spec fn sorts_systems(
    nodes: Seq<Node>,
    layers: Seq<Seq<NodeId>>,
    systems: Seq<Seq<SystemId>>,
) -> bool {
    systems == system_layers_of(nodes, layers)
}

/// `dependent` holds, for each system, the latest layer of `layers` with a dependency of it.
pub open spec fn dependent_layers_of(
    nodes: Seq<Node>,
    layers: Seq<Seq<NodeId>>,
    dependent: Seq<Layer>,
) -> bool {
    &&& dependent.len() == systems_len_of(nodes, nodes.len() as int)
    &&& forall|s: int|
        0 <= s < dependent.len() ==> is_latest_dependency_layer(
            nodes,
            layers,
            s as usize,
            (#[trigger] dependent[s]).0,
        )
}

/// `systems` holds the systems of each layer of the layering that the sort of `nodes` gives
/// (a layering by the rounds of the sort, each layer in the order of the sort).
pub open spec fn systems_sorted(nodes: Seq<Node>, systems: Seq<Seq<SystemId>>) -> bool {
    exists|layers: Seq<Seq<NodeId>>|
        is_layering(nodes, layers) && layers_by_round(nodes, layers) && layers == ordered_layers(
            nodes,
        ) && #[trigger] sorts_systems(nodes, layers, systems)
}

/// `dependent` holds the dependent layer of each system in the layering that the sort of
/// `nodes` gives.
pub open spec fn dependents_sorted(nodes: Seq<Node>, dependent: Seq<Layer>) -> bool {
    exists|layers: Seq<Seq<NodeId>>|
        is_layering(nodes, layers) && layers_by_round(nodes, layers) && layers == ordered_layers(
            nodes,
        ) && #[trigger] dependent_layers_of(nodes, layers, dependent)
}

/// `systems` and `dependent` hold the systems of each layer and the dependent layer of each
/// system in the layering that the sort of `nodes` gives.
pub open spec fn both_sorted(
    nodes: Seq<Node>,
    systems: Seq<Seq<SystemId>>,
    dependent: Seq<Layer>,
) -> bool {
    exists|layers: Seq<Seq<NodeId>>|
        is_layering(nodes, layers) && layers_by_round(nodes, layers) && layers == ordered_layers(
            nodes,
        ) && #[trigger] sorts_systems(nodes, layers, systems) && dependent_layers_of(
            nodes,
            layers,
            dependent,
        )
}

impl<'a> WorkGraph<'a> {
    /// The systems of the nodes of each layer (nodes without a system are left out).
    fn build_systems_topological_order_layers(
        &self,
        topological_order_layers: &Vec<Vec<NodeId>>,
    ) -> (r: Vec<Vec<SystemId>>)
        requires
            layers_in_graph(self.base().nodes(), layers_view(topological_order_layers@)),
        ensures
            r@.len() == topological_order_layers@.len(),
            forall|i: int|
                0 <= i < r@.len() ==> #[trigger] r@[i]@ == systems_of(
                    self.base().nodes(),
                    topological_order_layers@[i]@,
                ),
    {
        let ghost nodes = self.base().nodes();
        let ghost layers = layers_view(topological_order_layers@);
        let mut result: Vec<Vec<SystemId>> = Vec::new();
        let mut i: usize = 0;
        while i < topological_order_layers.len()
            invariant
                0 <= i <= topological_order_layers@.len(),
                nodes == self.base().nodes(),
                layers == layers_view(topological_order_layers@),
                layers_in_graph(nodes, layers),
                result@.len() == i,
                forall|j: int|
                    0 <= j < i ==> #[trigger] result@[j]@ == systems_of(
                        nodes,
                        topological_order_layers@[j]@,
                    ),
            decreases topological_order_layers@.len() - i,
        {
            let layer = &topological_order_layers[i];
            let mut systems: Vec<SystemId> = Vec::new();
            let mut k: usize = 0;
            while k < layer.len()
                invariant
                    0 <= k <= layer@.len(),
                    nodes == self.base().nodes(),
                    layers == layers_view(topological_order_layers@),
                    layers_in_graph(nodes, layers),
                    0 <= i < topological_order_layers@.len(),
                    *layer == topological_order_layers@[i as int],
                    systems@ == systems_of(nodes, layer@.take(k as int)),
                decreases layer@.len() - k,
            {
                let node_id = layer[k];
                proof {
                    assert(layers[i as int] == layer@);
                    assert(layers[i as int][k as int] == node_id);
                }
                let node = &self.graph.nodes[node_id.0];
                if node.system.is_defined() {
                    systems.push(node.system);
                }
                proof {
                    assert(layer@.take(k + 1).drop_last() =~= layer@.take(k as int));
                }
                k += 1;
            }
            proof {
                assert(layer@.take(layer@.len() as int) =~= layer@);
            }
            result.push(systems);
            i += 1;
        }
        result
    }

    /// For each system: the latest layer that holds a dependency with a system of a node
    /// of that system, or [`Layer::undefined`] when there is none.
    fn build_systems_dependent_layers(
        &self,
        topological_order_layers: &Vec<Vec<NodeId>>,
    ) -> (r: Vec<Layer>)
        requires
            layers_in_graph(self.base().nodes(), layers_view(topological_order_layers@)),
            placed_once(layers_view(topological_order_layers@)),
        ensures
            r@.len() == systems_len_of(self.base().nodes(), self.base().nodes().len() as int),
            forall|s: int|
                0 <= s < r@.len() ==> is_latest_dependency_layer(
                    self.base().nodes(),
                    layers_view(topological_order_layers@),
                    s as usize,
                    (#[trigger] r@[s]).0,
                ),
    {
        broadcast use vstd::std_specs::hash::group_hash_axioms;

        let ghost nodes = self.base().nodes();
        let ghost layers = layers_view(topological_order_layers@);
        let n_systems = self.graph.systems_len();
        proof {
            lemma_systems_len_bound(nodes, nodes.len() as int);
        }
        let mut result: Vec<Layer> = Vec::new();
        let mut s: usize = 0;
        while s < n_systems
            invariant
                0 <= s <= n_systems,
                result@.len() == s,
                forall|t: int| 0 <= t < s ==> (#[trigger] result@[t]).0 == usize::MAX,
            decreases n_systems - s,
        {
            result.push(Layer::undefined());
            s += 1;
        }

        // where each node stands
        let mut node_to_layer: HashMap<usize, usize> = HashMap::new();
        let mut li: usize = 0;
        while li < topological_order_layers.len()
            invariant
                0 <= li <= topological_order_layers@.len(),
                layers == layers_view(topological_order_layers@),
                placed_once(layers),
                forall|d: usize|
                    #[trigger] node_to_layer@.contains_key(d) ==> node_to_layer@[d] < li
                        && layers[node_to_layer@[d] as int].contains(NodeId(d)),
                forall|j: int, l: int|
                    0 <= j < li && 0 <= l < layers[j].len() ==> node_to_layer@.contains_key(
                        (#[trigger] layers[j][l]).0,
                    ) && node_to_layer@[layers[j][l].0] == j,
            decreases topological_order_layers@.len() - li,
        {
            let layer = &topological_order_layers[li];
            let mut k: usize = 0;
            while k < layer.len()
                invariant
                    0 <= k <= layer@.len(),
                    0 <= li < topological_order_layers@.len(),
                    *layer == topological_order_layers@[li as int],
                    layers == layers_view(topological_order_layers@),
                    placed_once(layers),
                    forall|d: usize|
                        #[trigger] node_to_layer@.contains_key(d) ==> node_to_layer@[d] <= li
                            && layers[node_to_layer@[d] as int].contains(NodeId(d)),
                    forall|j: int, l: int|
                        (0 <= j < li && 0 <= l < layers[j].len()) || (j == li && 0 <= l < k)
                            ==> node_to_layer@.contains_key((#[trigger] layers[j][l]).0)
                            && node_to_layer@[layers[j][l].0] == j,
                    forall|d: usize|
                        #[trigger] node_to_layer@.contains_key(d) && node_to_layer@[d] == li
                            ==> exists|l: int| 0 <= l < k && layer@[l] == NodeId(d),
                decreases layer@.len() - k,
            {
                let node_id = layer[k];
                proof {
                    assert(layers[li as int] == layer@);
                    assert(layers[li as int][k as int] == node_id);
                }
                node_to_layer.insert(node_id.0, li);
                proof {
                    assert forall|j: int, l: int|
                        (0 <= j < li && 0 <= l < layers[j].len()) || (j == li && 0 <= l < k + 1)
                            implies node_to_layer@.contains_key((#[trigger] layers[j][l]).0)
                            && node_to_layer@[layers[j][l].0] == j by {
                        if layers[j][l].0 == node_id.0 {
                            assert(layers[j][l] == layers[li as int][k as int]);
                        }
                    }
                    assert forall|d: usize|
                        #[trigger] node_to_layer@.contains_key(d) && node_to_layer@[d] == li
                            implies exists|l: int| 0 <= l < k + 1 && layer@[l] == NodeId(d) by {
                        if d == node_id.0 {
                            assert(layer@[k as int] == NodeId(d));
                        }
                    }
                }
                k += 1;
            }
            proof {
                assert forall|d: usize|
                    #[trigger] node_to_layer@.contains_key(d) implies node_to_layer@[d] < li + 1
                        && layers[node_to_layer@[d] as int].contains(NodeId(d)) by {}
            }
            li += 1;
        }
        proof {
            assert forall|d: usize, j: int|
                0 <= j < layers.len() && #[trigger] layers[j].contains(NodeId(d)) implies
                node_to_layer@.contains_key(d) && node_to_layer@[d] == j by {
                let l = choose|l: int| 0 <= l < layers[j].len() && layers[j][l] == NodeId(d);
                assert(layers[j][l].0 == d);
            }
        }

        // for each system, the latest layer of a dependency with a system
        let mut i: usize = 0;
        while i < topological_order_layers.len()
            invariant
                0 <= i <= topological_order_layers@.len(),
                nodes == self.base().nodes(),
                layers.len() <= usize::MAX,
                layers == layers_view(topological_order_layers@),
                layers_in_graph(nodes, layers),
                result@.len() == n_systems,
                n_systems == systems_len_of(nodes, nodes.len() as int),
                forall|d: usize, j: int|
                    0 <= j < layers.len() && #[trigger] layers[j].contains(NodeId(d))
                        ==> node_to_layer@.contains_key(d) && node_to_layer@[d] == j,
                forall|d: usize|
                    #[trigger] node_to_layer@.contains_key(d) ==> node_to_layer@[d]
                        < layers.len() && layers[node_to_layer@[d] as int].contains(NodeId(d)),
                forall|t: int|
                    0 <= t < n_systems ==> latest_dep(
                        nodes,
                        layers,
                        t as usize,
                        (#[trigger] result@[t]).0,
                        i as int,
                        0,
                        0,
                    ),
            decreases topological_order_layers@.len() - i,
        {
            let layer = &topological_order_layers[i];
            let mut k: usize = 0;
            while k < layer.len()
                invariant
                    0 <= k <= layer@.len(),
                    0 <= i < topological_order_layers@.len(),
                    *layer == topological_order_layers@[i as int],
                    nodes == self.base().nodes(),
                    layers.len() <= usize::MAX,
                    layers == layers_view(topological_order_layers@),
                    layers_in_graph(nodes, layers),
                    result@.len() == n_systems,
                    n_systems == systems_len_of(nodes, nodes.len() as int),
                    forall|d: usize, j: int|
                        0 <= j < layers.len() && #[trigger] layers[j].contains(NodeId(d))
                            ==> node_to_layer@.contains_key(d) && node_to_layer@[d] == j,
                    forall|d: usize|
                        #[trigger] node_to_layer@.contains_key(d) ==> node_to_layer@[d]
                            < layers.len() && layers[node_to_layer@[d] as int].contains(NodeId(d)),
                    forall|t: int|
                        0 <= t < n_systems ==> latest_dep(
                            nodes,
                            layers,
                            t as usize,
                            (#[trigger] result@[t]).0,
                            i as int,
                            k as int,
                            0,
                        ),
                decreases layer@.len() - k,
            {
                let node_id = layer[k];
                proof {
                    assert(layers[i as int] == layer@);
                    assert(layers[i as int][k as int] == node_id);
                }
                let node = &self.graph.nodes[node_id.0];
                if node.system.is_defined() {
                    let sys = node.system.0;
                    proof {
                        lemma_systems_len(nodes, nodes.len() as int, node_id.0 as int);
                    }
                    let mut q: usize = 0;
                    while q < node.dependencies.len()
                        invariant
                            0 <= q <= node.dependencies@.len(),
                            0 <= k < layer@.len(),
                            0 <= i < topological_order_layers@.len(),
                            *layer == topological_order_layers@[i as int],
                            node_id == layers[i as int][k as int],
                            node_id.0 < nodes.len(),
                            *node == nodes[node_id.0 as int],
                            sys == node.system.0,
                            sys != usize::MAX,
                            sys < n_systems,
                            nodes == self.base().nodes(),
                            layers.len() <= usize::MAX,
                            layers == layers_view(topological_order_layers@),
                            layers_in_graph(nodes, layers),
                            result@.len() == n_systems,
                            forall|d: usize, j: int|
                                0 <= j < layers.len() && #[trigger] layers[j].contains(NodeId(d))
                                    ==> node_to_layer@.contains_key(d) && node_to_layer@[d] == j,
                            forall|d: usize|
                                #[trigger] node_to_layer@.contains_key(d) ==> node_to_layer@[d]
                                    < layers.len() && layers[node_to_layer@[d] as int].contains(
                                    NodeId(d),
                                ),
                            forall|t: int|
                                0 <= t < n_systems ==> latest_dep(
                                    nodes,
                                    layers,
                                    t as usize,
                                    (#[trigger] result@[t]).0,
                                    i as int,
                                    k as int,
                                    q as int,
                                ),
                        decreases node.dependencies@.len() - q,
                    {
                        let dep = node.dependencies[q];
                        proof {
                            assert(nodes[node_id.0 as int].dependencies@[q as int] == dep);
                        }
                        let dep_node = &self.graph.nodes[dep.0];
                        let ghost old_result = result@;
                        let ghost mut dl: int = 0;
                        if dep_node.system.is_defined() {
                            match node_to_layer.get(&dep.0) {
                                Some(dep_layer) => {
                                    let dep_layer: usize = *dep_layer;
                                    proof {
                                        dl = dep_layer as int;
                                    }
                                    let entry: usize = result[sys].0;
                                    if entry == usize::MAX || dep_layer > entry {
                                        result.set(sys, Layer(dep_layer));
                                    }
                                },
                                None => {},
                            }
                        }
                        proof {
                            assert forall|t: int| 0 <= t < n_systems implies latest_dep(
                                nodes,
                                layers,
                                t as usize,
                                (#[trigger] result@[t]).0,
                                i as int,
                                k as int,
                                q + 1,
                            ) by {
                                if t == sys {
                                    assert forall|j: int|
                                        #[trigger] dep_at(
                                            nodes,
                                            layers,
                                            t as usize,
                                            j,
                                            i as int,
                                            k as int,
                                            q as int,
                                        ) implies j == dl by {
                                        assert(layers[j].contains(dep));
                                    }
                                } else {
                                    assert forall|j: int|
                                        #[trigger] dep_at(
                                            nodes,
                                            layers,
                                            t as usize,
                                            j,
                                            i as int,
                                            k as int,
                                            q as int,
                                        ) implies j == dl by {}
                                }
                                lemma_latest_step(
                                    nodes,
                                    layers,
                                    t as usize,
                                    old_result[t].0,
                                    result@[t].0,
                                    i as int,
                                    k as int,
                                    q as int,
                                    dl,
                                );
                            }
                        }
                        q += 1;
                    }
                    proof {
                        assert forall|t: int| 0 <= t < n_systems implies latest_dep(
                            nodes,
                            layers,
                            t as usize,
                            (#[trigger] result@[t]).0,
                            i as int,
                            k + 1,
                            0,
                        ) by {
                            lemma_latest_next_node(
                                nodes,
                                layers,
                                t as usize,
                                result@[t].0,
                                i as int,
                                k as int,
                                q as int,
                            );
                        }
                    }
                } else {
                    proof {
                        assert forall|t: int| 0 <= t < n_systems implies latest_dep(
                            nodes,
                            layers,
                            t as usize,
                            (#[trigger] result@[t]).0,
                            i as int,
                            k + 1,
                            0,
                        ) by {
                            lemma_latest_next_node(
                                nodes,
                                layers,
                                t as usize,
                                result@[t].0,
                                i as int,
                                k as int,
                                0,
                            );
                        }
                    }
                }
                k += 1;
            }
            proof {
                assert forall|t: int| 0 <= t < n_systems implies latest_dep(
                    nodes,
                    layers,
                    t as usize,
                    (#[trigger] result@[t]).0,
                    i + 1,
                    0,
                    0,
                ) by {
                    lemma_latest_next_layer(
                        nodes,
                        layers,
                        t as usize,
                        result@[t].0,
                        i as int,
                        k as int,
                    );
                }
            }
            i += 1;
        }
        proof {
            assert forall|t: int| 0 <= t < result@.len() implies is_latest_dependency_layer(
                nodes,
                layers,
                t as usize,
                (#[trigger] result@[t]).0,
            ) by {
                lemma_latest_final(nodes, layers, t as usize, result@[t].0);
            }
        }
        result
    }

    /// The systems of each layer of a sorting of the graph.
    pub fn systems_topological_order_layers(&self) -> (r: Result<Vec<Vec<SystemId>>, GraphError>)
        requires
            self.wf(),
        ensures
            (r is Ok) == schedulable(self.base().nodes()),
            r matches Ok(sl) ==> systems_sorted(self.base().nodes(), system_layers_view(sl@)),
            r matches Err(e) ==> sorted_outcome(self.base().nodes(), Err(e)),
    {
        match self.topological_order_layers() {
            Ok(layers) => {
                let sl = self.build_systems_topological_order_layers(&layers);
                proof {
                    self.lemma_sorts_systems(&layers, &sl);
                    assert(outcome_view(Ok::<Vec<Vec<NodeId>>, GraphError>(layers)) == Ok::<
                        Seq<Seq<NodeId>>,
                        GraphError,
                    >(layers_view(layers@)));
                    assert(is_layering(self.base().nodes(), layers_view(layers@)));
                    assert(systems_sorted(self.base().nodes(), system_layers_view(sl@)));
                }
                Ok(sl)
            },
            Err(e) => Err(e),
        }
    }

    proof fn lemma_sorts_systems(&self, layers: &Vec<Vec<NodeId>>, sl: &Vec<Vec<SystemId>>)
        requires
            sl@.len() == layers@.len(),
            forall|i: int|
                0 <= i < sl@.len() ==> #[trigger] sl@[i]@ == systems_of(
                    self.base().nodes(),
                    layers@[i]@,
                ),
        ensures
            sorts_systems(self.base().nodes(), layers_view(layers@), system_layers_view(sl@)),
    {
        assert(system_layers_view(sl@) =~= system_layers_of(
            self.base().nodes(),
            layers_view(layers@),
        ));
    }

    /// For each system, the latest layer of a sorting of the graph that holds a dependency
    /// of it, or [`Layer::undefined`] when none does.
    pub fn systems_dependent_layers(&self) -> (r: Result<Vec<Layer>, GraphError>)
        requires
            self.wf(),
        ensures
            (r is Ok) == schedulable(self.base().nodes()),
            r matches Ok(dl) ==> dependents_sorted(self.base().nodes(), dl@),
            r matches Err(e) ==> sorted_outcome(self.base().nodes(), Err(e)),
    {
        match self.topological_order_layers() {
            Ok(layers) => {
                let dl = self.build_systems_dependent_layers(&layers);
                proof {
                    assert(outcome_view(Ok::<Vec<Vec<NodeId>>, GraphError>(layers)) == Ok::<
                        Seq<Seq<NodeId>>,
                        GraphError,
                    >(layers_view(layers@)));
                    assert(is_layering(self.base().nodes(), layers_view(layers@)));
                    assert(dependent_layers_of(self.base().nodes(), layers_view(layers@), dl@));
                    assert(dependents_sorted(self.base().nodes(), dl@));
                }
                Ok(dl)
            },
            Err(e) => Err(e),
        }
    }

    /// The systems of each layer and the dependent layer of each system, both of one and
    /// the same sorting of the graph.
    pub fn systems_topological_order_with_dependent_layers(&self) -> (r: Result<
        (Vec<Vec<SystemId>>, Vec<Layer>),
        GraphError,
    >)
        requires
            self.wf(),
        ensures
            (r is Ok) == schedulable(self.base().nodes()),
            r matches Ok(p) ==> both_sorted(self.base().nodes(), system_layers_view(p.0@), p.1@),
            r matches Err(e) ==> sorted_outcome(self.base().nodes(), Err(e)),
    {
        match self.topological_order_layers() {
            Ok(layers) => {
                let sl = self.build_systems_topological_order_layers(&layers);
                let dl = self.build_systems_dependent_layers(&layers);
                proof {
                    self.lemma_sorts_systems(&layers, &sl);
                    assert(outcome_view(Ok::<Vec<Vec<NodeId>>, GraphError>(layers)) == Ok::<
                        Seq<Seq<NodeId>>,
                        GraphError,
                    >(layers_view(layers@)));
                    assert(is_layering(self.base().nodes(), layers_view(layers@)));
                    assert(dependent_layers_of(self.base().nodes(), layers_view(layers@), dl@));
                    assert(both_sorted(self.base().nodes(), system_layers_view(sl@), dl@));
                }
                Ok((sl, dl))
            },
            Err(e) => Err(e),
        }
    }
}

/// The pair that the first part of a round reaches is closed under its rules.
proof fn lemma_ready_part_closed(nodes: Seq<Node>, e0: Set<usize>, c0: Set<usize>)
    ensures
        ready_part_closed(nodes, e0, c0, ready_part(nodes, e0, c0).0, ready_part(nodes, e0, c0).1),
{
    let (e1, c1) = ready_part(nodes, e0, c0);
    lemma_ready_part_base(nodes, e0, c0);
    assert forall|n: int|
        0 <= n < nodes.len() && #[trigger] may_become_ready(nodes, n, e1, c1) implies e1.contains(
        n as usize,
    ) by {
        assert forall|e: Set<usize>, c: Set<usize>| #[trigger]
            ready_part_closed(nodes, e0, c0, e, c) implies e.contains(n as usize) by {
            assert(e1.subset_of(e));
            assert(c1.subset_of(c));
            assert forall|k: int| 0 <= k < nodes[n].dependencies@.len() implies c.contains(
                #[trigger] nodes[n].dependencies@[k].0,
            ) by {
                assert(c1.contains(nodes[n].dependencies@[k].0));
            }
            assert(may_become_ready(nodes, n, e, c));
        }
    }
    assert forall|n: int|
        0 <= n < nodes.len() && e1.contains(n as usize) && !has_system(nodes, n as usize)
            && #[trigger] children_completed(nodes, n, c1) implies c1.contains(n as usize) by {
        assert forall|e: Set<usize>, c: Set<usize>| #[trigger]
            ready_part_closed(nodes, e0, c0, e, c) implies c.contains(n as usize) by {
            assert(e1.subset_of(e));
            assert(c1.subset_of(c));
            assert forall|m: int|
                0 <= m < nodes.len() && #[trigger] nodes[m].parent.0 == n implies c.contains(
                m as usize,
            ) by {
                assert(c1.contains(m as usize));
            }
            assert(children_completed(nodes, n, c));
        }
    }
}

/// What the first part of a round adds: each node made ready may become ready (so its
/// dependencies are completed by the end of the part), and each node completed is a ready
/// node without a system.
proof fn lemma_ready_part_members(nodes: Seq<Node>, e0: Set<usize>, c0: Set<usize>)
    requires
        nodes.len() <= usize::MAX,
    ensures
        e0.subset_of(ready_part(nodes, e0, c0).0),
        c0.subset_of(ready_part(nodes, e0, c0).1),
        forall|n: usize|
            #[trigger] ready_part(nodes, e0, c0).0.contains(n) && !e0.contains(n) ==> n
                < nodes.len() && deps_completed(nodes, n as int, ready_part(nodes, e0, c0).1)
                && parent_ready(nodes, n as int, ready_part(nodes, e0, c0).0),
        forall|n: usize|
            #[trigger] ready_part(nodes, e0, c0).1.contains(n) && !c0.contains(n) ==> ready_part(
                nodes,
                e0,
                c0,
            ).0.contains(n) && n < nodes.len() && !has_system(nodes, n) && children_completed(
                nodes,
                n as int,
                ready_part(nodes, e0, c0).1,
            ),
{
    let (e1, c1) = ready_part(nodes, e0, c0);
    lemma_ready_part_base(nodes, e0, c0);
    lemma_ready_part_closed(nodes, e0, c0);
    let e2 = e0.union(
        Set::new(
            |n: usize| n < nodes.len() && e1.contains(n) && may_become_ready(nodes, n as int, e1, c1),
        ),
    );
    let c2 = c0.union(
        Set::new(
            |n: usize|
                n < nodes.len() && c1.contains(n) && e1.contains(n) && !has_system(nodes, n)
                    && children_completed(nodes, n as int, c1),
        ),
    );
    assert(e2.subset_of(e1));
    assert(c2.subset_of(c1));
    assert forall|n: int|
        0 <= n < nodes.len() && #[trigger] may_become_ready(nodes, n, e2, c2) implies e2.contains(
        n as usize,
    ) by {
        assert forall|k: int| 0 <= k < nodes[n].dependencies@.len() implies c1.contains(
            #[trigger] nodes[n].dependencies@[k].0,
        ) by {
            assert(c2.contains(nodes[n].dependencies@[k].0));
        }
        assert(may_become_ready(nodes, n, e1, c1));
        assert(e1.contains(n as usize));
    }
    assert forall|n: int|
        0 <= n < nodes.len() && e2.contains(n as usize) && !has_system(nodes, n as usize)
            && #[trigger] children_completed(nodes, n, c2) implies c2.contains(n as usize) by {
        assert forall|m: int|
            0 <= m < nodes.len() && #[trigger] nodes[m].parent.0 == n implies c1.contains(
            m as usize,
        ) by {
            assert(c2.contains(m as usize));
        }
        assert(children_completed(nodes, n, c1));
        assert(c1.contains(n as usize));
    }
    assert(ready_part_closed(nodes, e0, c0, e2, c2));
    assert forall|n: usize| #[trigger] e1.contains(n) implies e2.contains(n) by {}
    assert forall|n: usize| #[trigger] c1.contains(n) implies c2.contains(n) by {}
}

/// The nodes completed in the second part of a round hold those completed before it and
/// are ready.
proof fn lemma_complete_part_members(nodes: Seq<Node>, e: Set<usize>, c0: Set<usize>)
    ensures
        c0.subset_of(complete_part(nodes, e, c0)),
        complete_part(nodes, e, c0).subset_of(c0.union(e)),
{
    assert forall|n: usize| c0.contains(n) implies #[trigger] complete_part(nodes, e, c0).contains(n) by {
        assert forall|c: Set<usize>| #[trigger] complete_part_closed(nodes, e, c0, c) implies c.contains(
            n,
        ) by {}
    }
    assert(complete_part_closed(nodes, e, c0, c0.union(e)));
}

/// From round to round, nodes only join the nodes ever made ready and the completed nodes,
/// and every completed node was made ready.
proof fn lemma_rounds_grow(nodes: Seq<Node>, k: nat)
    requires
        nodes.len() <= usize::MAX,
    ensures
        sort_round(nodes, k).1.subset_of(sort_round(nodes, k).0),
        k >= 1 ==> sort_round(nodes, (k - 1) as nat).0.subset_of(sort_round(nodes, k).0),
        k >= 1 ==> sort_round(nodes, (k - 1) as nat).1.subset_of(sort_round(nodes, k).1),
    decreases k,
{
    if k >= 1 {
        lemma_rounds_grow(nodes, (k - 1) as nat);
        let (e, c) = sort_round(nodes, (k - 1) as nat);
        let (e1, c1) = ready_part(nodes, e, c);
        lemma_ready_part_members(nodes, e, c);
        lemma_complete_part_members(nodes, e1, c1);
        assert forall|n: usize| c1.contains(n) implies e1.contains(n) by {
            if !c.contains(n) {
            } else {
                assert(e.contains(n));
            }
        }
    }
}

/// The nodes ever made ready and the completed nodes only grow from round `a` to round `b`.
proof fn lemma_rounds_grow_to(nodes: Seq<Node>, a: nat, b: nat)
    requires
        a <= b,
        nodes.len() <= usize::MAX,
    ensures
        sort_round(nodes, a).0.subset_of(sort_round(nodes, b).0),
        sort_round(nodes, a).1.subset_of(sort_round(nodes, b).1),
    decreases b - a,
{
    if a < b {
        lemma_rounds_grow_to(nodes, a, (b - 1) as nat);
        lemma_rounds_grow(nodes, b);
    }
}

/// `p` is a path of dependencies: each node of it is a node of `nodes` and a dependency of
/// the next.
pub open spec fn dependency_path(nodes: Seq<Node>, p: Seq<usize>) -> bool {
    &&& p.len() >= 2
    &&& forall|i: int| 0 <= i < p.len() ==> #[trigger] p[i] < nodes.len()
    &&& forall|i: int|
        0 <= i < p.len() - 1 ==> nodes[p[i + 1] as int].dependencies@.contains(
            NodeId(#[trigger] p[i]),
        )
}

/// When the last node of a dependency path from a node with a system was made ready by round
/// `k`, the first was completed in an earlier round.
proof fn lemma_path_completed(nodes: Seq<Node>, k: nat, p: Seq<usize>)
    requires
        dependency_path(nodes, p),
        has_system(nodes, p[0]),
        sort_round(nodes, k).0.contains(p.last()),
        nodes.len() <= usize::MAX,
    ensures
        k >= 1,
        sort_round(nodes, (k - 1) as nat).1.contains(p[0]),
    decreases k, p.len(),
{
    let x = p.last();
    let y = p[p.len() - 2];
    if k == 0 {
        assert(sort_round(nodes, 0).0 =~= Set::<usize>::empty());
    }
    let (e, c) = sort_round(nodes, (k - 1) as nat);
    let (e1, c1) = ready_part(nodes, e, c);
    lemma_ready_part_members(nodes, e, c);
    lemma_rounds_grow(nodes, k);
    lemma_rounds_grow(nodes, (k - 1) as nat);
    assert(sort_round(nodes, k).0 == e1);
    if e.contains(x) {
        lemma_path_completed(nodes, (k - 1) as nat, p);
        lemma_rounds_grow(nodes, (k - 1) as nat);
    } else {
        assert(deps_completed(nodes, x as int, c1));
        assert(nodes[x as int].dependencies@.contains(NodeId(y)));
        let q = choose|q: int|
            0 <= q < nodes[x as int].dependencies@.len() && nodes[x as int].dependencies@[q]
                == NodeId(y);
        assert(c1.contains(nodes[x as int].dependencies@[q].0));
        assert(c1.contains(y));
        if p.len() == 2 {
            assert(y == p[0]);
            assert(c.contains(y));
        } else {
            let p2 = p.drop_last();
            assert(dependency_path(nodes, p2)) by {
                assert forall|i: int| 0 <= i < p2.len() - 1 implies nodes[p2[i + 1] as int].dependencies@.contains(
                    NodeId(#[trigger] p2[i]),
                ) by {
                    assert(p2[i] == p[i] && p2[i + 1] == p[i + 1]);
                }
            }
            assert(e1.contains(y)) by {
                if c.contains(y) {
                    assert(e.contains(y));
                }
            }
            assert(p2.last() == y);
            lemma_path_completed(nodes, k, p2);
        }
    }
}

/// The layers of the first `k` rounds come from rounds in ascending order.
proof fn lemma_layer_sets_rounds(nodes: Seq<Node>, k: nat) -> (f: Seq<int>)
    ensures
        f.len() == layer_sets(nodes, k).len(),
        forall|i: int| 0 <= i < f.len() ==> 1 <= #[trigger] f[i] <= k,
        forall|i: int, j: int| 0 <= i < j < f.len() ==> #[trigger] f[i] < #[trigger] f[j],
        forall|i: int| 0 <= i < f.len() ==> #[trigger] layer_sets(nodes, k)[i] == round_layer(nodes, f[i]),
        forall|r: int|
            1 <= r <= k && !(#[trigger] round_layer(nodes, r)).is_empty() ==> exists|i: int|
                0 <= i < f.len() && f[i] == r,
    decreases k,
{
    if k == 0 {
        Seq::empty()
    } else {
        let f0 = lemma_layer_sets_rounds(nodes, (k - 1) as nat);
        let s = round_layer(nodes, k as int);
        if s.is_empty() {
            f0
        } else {
            let f = f0.push(k as int);
            assert forall|i: int| 0 <= i < f.len() implies #[trigger] layer_sets(nodes, k)[i]
                == round_layer(nodes, f[i]) by {
                if i < f0.len() {
                    assert(layer_sets(nodes, k)[i] == layer_sets(nodes, (k - 1) as nat)[i]);
                }
            }
            assert forall|r: int|
                1 <= r <= k && !(#[trigger] round_layer(nodes, r)).is_empty() implies exists|i: int|
                0 <= i < f.len() && f[i] == r by {
                if r == k {
                    assert(f[f0.len() as int] == r);
                } else {
                    let i = choose|i: int| 0 <= i < f0.len() && f0[i] == r;
                    assert(f[i] == r);
                }
            }
            f
        }
    }
}

/// Along every path of dependencies between two nodes with a system, through any nodes, the
/// first stands in an earlier layer than the last, in the layers that the sort gives.
pub proof fn lemma_dependency_path_layers(
    nodes: Seq<Node>,
    layers: Seq<Seq<NodeId>>,
    p: Seq<usize>,
    i: int,
    j: int,
)
    requires
        nodes.len() <= usize::MAX,
        sorted_outcome(nodes, Ok(layers)),
        dependency_path(nodes, p),
        has_system(nodes, p[0]),
        0 <= i < layers.len(),
        0 <= j < layers.len(),
        layers[i].contains(NodeId(p[0])),
        layers[j].contains(NodeId(p.last())),
    ensures
        i < j,
{
    let f = lemma_layer_sets_rounds(nodes, nodes.len() as nat);
    let sets = layer_sets(nodes, nodes.len() as nat);
    assert(layers_hold(layers, sets));
    assert(sets[i].contains(p[0]));
    assert(sets[j].contains(p.last()));
    assert(round_layer(nodes, f[j]).contains(p.last()));
    assert(round_layer(nodes, f[i]).contains(p[0]));
    lemma_path_completed(nodes, f[j] as nat, p);
    lemma_rounds_grow(nodes, (f[j] - 1) as nat);
    if i >= j {
        if i > j {
            assert(f[j] < f[i]);
        }
        lemma_rounds_grow_to(nodes, (f[j] - 1) as nat, (f[i] - 1) as nat);
        assert(sort_round(nodes, (f[i] - 1) as nat).0.contains(p[0]));
    }
}

/// The dependencies of the nodes lead around a cycle: a path of dependencies that ends
/// where it starts (a node that depends on itself is one).
pub open spec fn has_dependency_cycle(nodes: Seq<Node>) -> bool {
    exists|p: Seq<usize>| #[trigger] dependency_path(nodes, p) && p[0] == p.last()
}

/// No node has a parent.
pub open spec fn without_parents(nodes: Seq<Node>) -> bool {
    forall|n: int| 0 <= n < nodes.len() ==> (#[trigger] nodes[n]).parent.0 == usize::MAX
}

/// Every dependency of every node is a node of the graph.
pub open spec fn dependencies_in_graph(nodes: Seq<Node>) -> bool {
    forall|n: int, k: int|
        0 <= n < nodes.len() && 0 <= k < nodes[n].dependencies@.len() ==> (
        #[trigger] nodes[n].dependencies@[k]).0 < nodes.len()
}

/// A sequence of more indices than there are below `n`, all below `n`, repeats one.
proof fn lemma_pigeonhole(s: Seq<usize>, n: int)
    requires
        0 <= n <= usize::MAX + 1,
        s.len() > n,
        forall|i: int| 0 <= i < s.len() ==> #[trigger] s[i] < n,
    ensures
        exists|i: int, j: int| 0 <= i < j < s.len() && #[trigger] s[i] == #[trigger] s[j],
{
    if !(exists|i: int, j: int| 0 <= i < j < s.len() && #[trigger] s[i] == #[trigger] s[j]) {
        assert(s.no_duplicates());
        s.unique_seq_to_set();
        lemma_indices_below(n);
        assert(s.to_set().subset_of(indices_below(n)));
        vstd::set_lib::lemma_len_subset(s.to_set(), indices_below(n));
    }
}

/// In a graph without parents, below a node that a closed pair leaves not ready there runs
/// a path of `k` dependencies, through nodes that it all leaves not ready.
proof fn lemma_unready_chain(
    nodes: Seq<Node>,
    r: Set<usize>,
    c: Set<usize>,
    n: usize,
    k: nat,
) -> (p: Seq<usize>)
    requires
        nodes.len() <= usize::MAX,
        without_parents(nodes),
        dependencies_in_graph(nodes),
        closed_under_rules(nodes, r, c),
        n < nodes.len(),
        !r.contains(n),
    ensures
        p.len() == k + 1,
        p.last() == n,
        forall|i: int| 0 <= i < p.len() ==> #[trigger] p[i] < nodes.len() && !r.contains(p[i]),
        forall|i: int|
            0 <= i < p.len() - 1 ==> nodes[p[i + 1] as int].dependencies@.contains(
                NodeId(#[trigger] p[i]),
            ),
    decreases k,
{
    if k == 0 {
        seq![n]
    } else {
        let q = lemma_unready_chain(nodes, r, c, n, (k - 1) as nat);
        let m = q[0];
        assert(!r.contains(m) && m < nodes.len());
        assert(!deps_completed(nodes, m as int, c)) by {
            if deps_completed(nodes, m as int, c) {
                assert(may_become_ready(nodes, m as int, r, c));
            }
        }
        let t = choose|t: int|
            0 <= t < nodes[m as int].dependencies@.len() && !c.contains(
                #[trigger] nodes[m as int].dependencies@[t].0,
            );
        let d = nodes[m as int].dependencies@[t].0;
        assert(d < nodes.len());
        assert(!r.contains(d)) by {
            if r.contains(d) {
                assert(children_completed(nodes, d as int, c));
            }
        }
        let p = seq![d] + q;
        assert forall|i: int| 0 <= i < p.len() - 1 implies nodes[p[i + 1] as int].dependencies@.contains(
            NodeId(#[trigger] p[i]),
        ) by {
            if i == 0 {
                assert(p[1] == m);
                assert(nodes[m as int].dependencies@[t] == NodeId(d));
            } else {
                assert(p[i] == q[i - 1] && p[i + 1] == q[i]);
            }
        }
        assert forall|i: int| 0 <= i < p.len() implies #[trigger] p[i] < nodes.len() && !r.contains(
            p[i],
        ) by {
            if i > 0 {
                assert(p[i] == q[i - 1]);
            }
        }
        p
    }
}

/// In a graph without parents, the rules make every node ready exactly when the
/// dependencies lead around no cycle: a sort fails exactly on a cycle of dependencies.
pub proof fn lemma_schedulable_iff_acyclic(nodes: Seq<Node>)
    requires
        nodes.len() <= usize::MAX,
        without_parents(nodes),
        dependencies_in_graph(nodes),
    ensures
        schedulable(nodes) <==> !has_dependency_cycle(nodes),
{
    if has_dependency_cycle(nodes) {
        let p = choose|p: Seq<usize>| #[trigger] dependency_path(nodes, p) && p[0] == p.last();
        let r = Set::new(|x: usize| !p.contains(x));
        assert(closed_under_rules(nodes, r, r)) by {
            assert forall|x: int|
                0 <= x < nodes.len() && #[trigger] may_become_ready(nodes, x, r, r) implies r.contains(
                x as usize,
            ) by {
                if p.contains(x as usize) {
                    let i = choose|i: int| 0 <= i < p.len() && p[i] == x as usize;
                    let i2 = if i == 0 {
                        p.len() - 1
                    } else {
                        i
                    };
                    assert(p[i2] == x as usize);
                    assert(nodes[p[i2] as int].dependencies@.contains(NodeId(p[i2 - 1])));
                    let t = choose|t: int|
                        0 <= t < nodes[x].dependencies@.len() && nodes[x].dependencies@[t]
                            == NodeId(p[i2 - 1]);
                    assert(r.contains(nodes[x].dependencies@[t].0));
                    assert(p.contains(p[i2 - 1]));
                }
            }
        }
        assert(p[0] < nodes.len());
        assert(!rule_ready(nodes).contains(p[0])) by {
            assert(p.contains(p[0]));
        }
    } else {
        assert forall|n: usize| n < nodes.len() implies #[trigger] rule_ready(nodes).contains(n) by {
            assert forall|r: Set<usize>, c: Set<usize>| #[trigger]
                closed_under_rules(nodes, r, c) implies r.contains(n) by {
                if !r.contains(n) {
                    let p = lemma_unready_chain(nodes, r, c, n, nodes.len() as nat);
                    lemma_pigeonhole(p, nodes.len() as int);
                    let (i, j) = choose|i: int, j: int|
                        0 <= i < j < p.len() && #[trigger] p[i] == #[trigger] p[j];
                    let cyc = p.subrange(i, j + 1);
                    assert(dependency_path(nodes, cyc)) by {
                        assert forall|a: int| 0 <= a < cyc.len() - 1 implies nodes[cyc[a + 1] as int].dependencies@.contains(
                            NodeId(#[trigger] cyc[a]),
                        ) by {
                            assert(cyc[a] == p[i + a] && cyc[a + 1] == p[i + a + 1]);
                        }
                    }
                    assert(cyc[0] == cyc.last());
                    assert(has_dependency_cycle(nodes));
                }
            }
        }
    }
}

/// The inner nodes of `p` have no system.
pub open spec fn virtual_inside(nodes: Seq<Node>, p: Seq<usize>) -> bool {
    forall|i: int| 0 < i < p.len() - 1 ==> !has_system(nodes, #[trigger] p[i])
}

/// Without parents, every node made ready by round `k` is completed in it.
proof fn lemma_ready_completes(nodes: Seq<Node>, k: nat)
    requires
        nodes.len() <= usize::MAX,
        without_parents(nodes),
    ensures
        forall|n: usize|
            n < nodes.len() && #[trigger] sort_round(nodes, k).0.contains(n) ==> sort_round(
                nodes,
                k,
            ).1.contains(n),
{
    if k >= 1 {
        let (e, c) = sort_round(nodes, (k - 1) as nat);
        let (e1, c1) = ready_part(nodes, e, c);
        assert forall|n: usize|
            n < nodes.len() && #[trigger] e1.contains(n) implies complete_part(nodes, e1, c1).contains(
            n,
        ) by {
            assert forall|cc: Set<usize>| #[trigger]
                complete_part_closed(nodes, e1, c1, cc) implies cc.contains(n) by {
                assert(children_completed(nodes, n as int, cc));
            }
        }
    }
}

/// Without parents, the first part of a round completes every node without a system that it
/// makes ready.
proof fn lemma_virtual_ready_completed(nodes: Seq<Node>, e0: Set<usize>, c0: Set<usize>, n: usize)
    requires
        without_parents(nodes),
        n < nodes.len(),
        nodes.len() <= usize::MAX,
        ready_part(nodes, e0, c0).0.contains(n),
        !has_system(nodes, n),
    ensures
        ready_part(nodes, e0, c0).1.contains(n),
{
    lemma_ready_part_closed(nodes, e0, c0);
    assert(children_completed(nodes, n as int, ready_part(nodes, e0, c0).1));
}

/// Without parents, a node not made ready in the first part of a round has a dependency
/// that the part does not complete.
proof fn lemma_unready_dependency(nodes: Seq<Node>, e0: Set<usize>, c0: Set<usize>, n: usize)
    requires
        without_parents(nodes),
        n < nodes.len(),
        nodes.len() <= usize::MAX,
        !ready_part(nodes, e0, c0).0.contains(n),
    ensures
        exists|t: int|
            0 <= t < nodes[n as int].dependencies@.len() && !ready_part(nodes, e0, c0).1.contains(
                #[trigger] nodes[n as int].dependencies@[t].0,
            ),
{
    lemma_ready_part_closed(nodes, e0, c0);
    if deps_completed(nodes, n as int, ready_part(nodes, e0, c0).1) {
        assert(may_become_ready(nodes, n as int, ready_part(nodes, e0, c0).0, ready_part(nodes, e0, c0).1));
    }
}

/// Below a node made ready in round `rr` (and not before) by the path `p`, whose inner nodes
/// and first node have no system but for its last node, there is a path from a node with a
/// system made ready in round `rr - 1` (and not before) whose inner nodes have no system.
proof fn lemma_predecessor_chain(nodes: Seq<Node>, rr: nat, p: Seq<usize>) -> (q: Seq<usize>)
    requires
        nodes.len() <= usize::MAX,
        without_parents(nodes),
        dependencies_in_graph(nodes),
        schedulable(nodes),
        rr >= 2,
        1 <= p.len() <= nodes.len(),
        forall|i: int| 0 <= i < p.len() ==> #[trigger] p[i] < nodes.len(),
        forall|i: int|
            0 <= i < p.len() - 1 ==> nodes[p[i + 1] as int].dependencies@.contains(
                NodeId(#[trigger] p[i]),
            ),
        forall|i: int| 0 <= i < p.len() - 1 ==> !has_system(nodes, #[trigger] p[i]),
        sort_round(nodes, rr).0.contains(p[0]),
        !sort_round(nodes, (rr - 1) as nat).0.contains(p[0]),
    ensures
        dependency_path(nodes, q),
        q.last() == p.last(),
        has_system(nodes, q[0]),
        virtual_inside(nodes, q),
        sort_round(nodes, (rr - 1) as nat).0.contains(q[0]),
        !sort_round(nodes, (rr - 2) as nat).0.contains(q[0]),
    decreases nodes.len() - p.len(),
{
    let x = p[0];
    let (e, c) = sort_round(nodes, (rr - 1) as nat);
    let (e1, c1) = ready_part(nodes, e, c);
    let (ep, cp) = sort_round(nodes, (rr - 2) as nat);
    let (ea, ca) = ready_part(nodes, ep, cp);
    lemma_ready_part_members(nodes, e, c);
    lemma_ready_part_members(nodes, ep, cp);
    lemma_rounds_grow(nodes, rr);
    lemma_rounds_grow(nodes, (rr - 1) as nat);
    assert(sort_round(nodes, rr).0 == e1);
    assert(sort_round(nodes, (rr - 1) as nat).0 == ea);
    assert(c == complete_part(nodes, ea, ca));
    lemma_complete_part_members(nodes, ea, ca);
    assert(!ea.contains(x));
    lemma_unready_dependency(nodes, ep, cp, x);
    let t = choose|t: int|
        0 <= t < nodes[x as int].dependencies@.len() && !ca.contains(
            #[trigger] nodes[x as int].dependencies@[t].0,
        );
    let d = nodes[x as int].dependencies@[t].0;
    assert(d < nodes.len());
    assert(deps_completed(nodes, x as int, c1));
    assert(c1.contains(d));
    let p2 = seq![d] + p;
    assert forall|i: int| 0 <= i < p2.len() - 1 implies nodes[p2[i + 1] as int].dependencies@.contains(
        NodeId(#[trigger] p2[i]),
    ) by {
        if i == 0 {
            assert(p2[1] == x);
            assert(nodes[x as int].dependencies@[t] == NodeId(d));
        } else {
            assert(p2[i] == p[i - 1] && p2[i + 1] == p[i]);
        }
    }
    assert forall|i: int| 0 <= i < p2.len() implies #[trigger] p2[i] < nodes.len() by {
        if i > 0 {
            assert(p2[i] == p[i - 1]);
        }
    }
    if has_system(nodes, d) {
        // a node with a system completed in the first part of round rr was completed before it
        assert(c.contains(d));
        assert(!cp.contains(d)) by {
            assert(ca.contains(d) <== cp.contains(d));
        }
        assert(!ep.contains(d)) by {
            if ep.contains(d) {
                lemma_ready_completes(nodes, (rr - 2) as nat);
            }
        }
        assert(ea.contains(d)) by {
            lemma_rounds_grow(nodes, (rr - 1) as nat);
        }
        assert(dependency_path(nodes, p2));
        assert(virtual_inside(nodes, p2)) by {
            assert forall|i: int| 0 < i < p2.len() - 1 implies !has_system(nodes, #[trigger] p2[i]) by {
                assert(p2[i] == p[i - 1]);
            }
        }
        p2
    } else {
        // a node without a system completed in round rr, but not in the first part of round
        // rr - 1, was made ready in round rr and not before
        assert(!ea.contains(d)) by {
            if ea.contains(d) {
                lemma_virtual_ready_completed(nodes, ep, cp, d);
            }
        }
        assert(e1.contains(d)) by {
            if !e1.contains(d) {
                assert(c.contains(d));
                assert(ea.contains(d) || ca.contains(d));
            }
        }
        if p.len() == nodes.len() {
            lemma_pigeonhole(p2, nodes.len() as int);
            let (i, j) = choose|i: int, j: int| 0 <= i < j < p2.len() && #[trigger] p2[i] == #[trigger] p2[j];
            let cyc = p2.subrange(i, j + 1);
            assert(dependency_path(nodes, cyc)) by {
                assert forall|a: int| 0 <= a < cyc.len() - 1 implies nodes[cyc[a + 1] as int].dependencies@.contains(
                    NodeId(#[trigger] cyc[a]),
                ) by {
                    assert(cyc[a] == p2[i + a] && cyc[a + 1] == p2[i + a + 1]);
                }
            }
            assert(cyc[0] == cyc.last());
            lemma_schedulable_iff_acyclic(nodes);
            assert(has_dependency_cycle(nodes));
        }
        assert forall|i: int| 0 <= i < p2.len() - 1 implies !has_system(nodes, #[trigger] p2[i]) by {
            if i > 0 {
                assert(p2[i] == p[i - 1]);
            }
        }
        lemma_predecessor_chain(nodes, rr, p2)
    }
}

/// Without parents, each node with a system in a layer after the first is reached, by a path
/// of dependencies whose inner nodes have no system, from a node with a system in the layer
/// just before. With the order of layers along paths, the layer of a node is one past the
/// latest layer of a node with a system reaching it so, and the first layer where none does:
/// the layers are as few as the longest chain of dependencies between nodes with a system.
pub proof fn lemma_layer_follows_predecessor(
    nodes: Seq<Node>,
    layers: Seq<Seq<NodeId>>,
    n: usize,
    j: int,
)
    requires
        nodes.len() <= usize::MAX,
        without_parents(nodes),
        dependencies_in_graph(nodes),
        sorted_outcome(nodes, Ok(layers)),
        0 < j < layers.len(),
        layers[j].contains(NodeId(n)),
    ensures
        exists|p: Seq<usize>|
            #[trigger] dependency_path(nodes, p) && p.last() == n && has_system(nodes, p[0])
                && virtual_inside(nodes, p) && layers[j - 1].contains(NodeId(p[0])),
{
    let f = lemma_layer_sets_rounds(nodes, nodes.len() as nat);
    let sets = layer_sets(nodes, nodes.len() as nat);
    assert(layers_hold(layers, sets));
    assert(sets[j].contains(n));
    let rr = f[j];
    assert(f[0] < f[j]);
    assert(round_layer(nodes, rr).contains(n));
    assert(n < nodes.len()) by {
        lemma_rounds_grow(nodes, rr as nat);
        if n >= nodes.len() {
            let (e, c) = sort_round(nodes, (rr - 1) as nat);
            lemma_ready_part_members(nodes, e, c);
        }
    }
    let p0 = seq![n];
    let q = lemma_predecessor_chain(nodes, rr as nat, p0);
    let m = q[0];
    assert(round_layer(nodes, rr - 1).contains(m));
    let i = choose|i: int| 0 <= i < f.len() && f[i] == rr - 1;
    assert(i == j - 1) by {
        if i < j - 1 {
            assert(f[i] < f[j - 1]);
        }
        if i > j - 1 {
            assert(f[j] <= f[i]) by {
                if i > j {
                    assert(f[j] < f[i]);
                }
            }
        }
    }
    assert(sets[j - 1].contains(m));
    assert(layers[j - 1].contains(NodeId(m)));
    assert(dependency_path(nodes, q));
}

/// The rules of what must happen before a node becomes ready, at node `y`: when `y` must
/// be ready, its dependencies must be completed and its parent ready; when `y` must be
/// completed, it must be ready; and when its parent must be completed, so must `y` (a node
/// completes after its children).
pub open spec fn node_needs(nodes: Seq<Node>, y: usize, ready: Set<usize>, done: Set<usize>) -> bool {
    let p = nodes[y as int].parent.0;
    &&& ready.contains(y) ==> forall|k: int|
        0 <= k < nodes[y as int].dependencies@.len() && (#[trigger] nodes[y as int].dependencies@[k]).0
            < nodes.len() ==> done.contains(nodes[y as int].dependencies@[k].0)
    &&& ready.contains(y) && p < nodes.len() ==> ready.contains(p)
    &&& done.contains(y) ==> ready.contains(y)
    &&& p < nodes.len() && done.contains(p) ==> done.contains(y)
}

/// `ready` and `done` hold what must be ready and what must be completed before node `t`
/// becomes ready: `t` itself must be ready, and the rules hold at every node.
pub open spec fn needs_closed(nodes: Seq<Node>, t: usize, ready: Set<usize>, done: Set<usize>) -> bool {
    &&& ready.contains(t)
    &&& forall|y: usize| y < nodes.len() ==> #[trigger] node_needs(nodes, y, ready, done)
}

/// The nodes that must be ready before node `t` becomes ready: those of every closed pair.
pub open spec fn needed_ready(nodes: Seq<Node>, t: usize) -> Set<usize> {
    Set::new(
        |x: usize| forall|r: Set<usize>, d: Set<usize>| #[trigger] needs_closed(nodes, t, r, d) ==> r.contains(x),
    )
}

/// The nodes that must be completed before node `t` becomes ready: what `t` waits for, by
/// its dependencies, those of its parents, and the children of what it waits for.
pub open spec fn waited_for(nodes: Seq<Node>, t: usize) -> Set<usize> {
    Set::new(
        |x: usize| forall|r: Set<usize>, d: Set<usize>| #[trigger] needs_closed(nodes, t, r, d) ==> d.contains(x),
    )
}

/// System `s` must have run before system `t` starts, by the graph: a node of `t` waits for a
/// node of `s`.
pub open spec fn graph_waits(nodes: Seq<Node>, s: usize, t: usize) -> bool {
    exists|nt: usize, ns: usize|
        nt < nodes.len() && ns < nodes.len() && nodes[nt as int].system.0 == t
            && nodes[ns as int].system.0 == s && #[trigger] waited_for(nodes, nt).contains(ns)
}

/// What one visit of node `y` may add is needed.
proof fn lemma_needs_step(nodes: Seq<Node>, t: usize, y: usize)
    requires
        y < nodes.len(),
    ensures
        needed_ready(nodes, t).contains(y) ==> forall|k: int|
            0 <= k < nodes[y as int].dependencies@.len() && (#[trigger] nodes[y as int].dependencies@[k]).0
                < nodes.len() ==> waited_for(nodes, t).contains(nodes[y as int].dependencies@[k].0),
        needed_ready(nodes, t).contains(y) && nodes[y as int].parent.0 < nodes.len() ==> needed_ready(
            nodes,
            t,
        ).contains(nodes[y as int].parent.0),
        waited_for(nodes, t).contains(y) ==> needed_ready(nodes, t).contains(y),
        nodes[y as int].parent.0 < nodes.len() && waited_for(nodes, t).contains(
            nodes[y as int].parent.0,
        ) ==> waited_for(nodes, t).contains(y),
        needed_ready(nodes, t).contains(t),
{
    let p = nodes[y as int].parent.0;
    if needed_ready(nodes, t).contains(y) {
        assert forall|k: int|
            0 <= k < nodes[y as int].dependencies@.len() && (#[trigger] nodes[y as int].dependencies@[k]).0
                < nodes.len() implies waited_for(nodes, t).contains(nodes[y as int].dependencies@[k].0) by {
            assert forall|r: Set<usize>, d: Set<usize>| #[trigger] needs_closed(nodes, t, r, d) implies d.contains(
                nodes[y as int].dependencies@[k].0,
            ) by {
                assert(node_needs(nodes, y, r, d));
            }
        }
        if p < nodes.len() {
            assert forall|r: Set<usize>, d: Set<usize>| #[trigger] needs_closed(nodes, t, r, d) implies r.contains(p) by {
                assert(node_needs(nodes, y, r, d));
            }
        }
    }
    if waited_for(nodes, t).contains(y) {
        assert forall|r: Set<usize>, d: Set<usize>| #[trigger] needs_closed(nodes, t, r, d) implies r.contains(y) by {
            assert(node_needs(nodes, y, r, d));
        }
    }
    if p < nodes.len() && waited_for(nodes, t).contains(p) {
        assert forall|r: Set<usize>, d: Set<usize>| #[trigger] needs_closed(nodes, t, r, d) implies d.contains(y) by {
            assert(node_needs(nodes, y, r, d));
        }
    }
}

impl Graph {
    /// The nodes that node `t` waits for before it can become ready: its dependencies, those
    /// of its parents, and, for each node waited for, what that node waits for and its
    /// children. Found by passes over the nodes until one adds nothing.
    pub fn waited_for_set(&self, t: usize) -> (r: BitSet)
        requires
            t < self.nodes().len(),
        ensures
            r@ == waited_for(self.nodes(), t),
    {
        let ghost nodes = self.nodes();
        let len = self.nodes.len();
        let mut ready = BitSet::with_capacity(len);
        let mut done = BitSet::with_capacity(len);
        ready.insert(t);
        proof {
            lemma_needs_step(nodes, t, t);
            lemma_indices_below(len as int);
            assert(ready@ =~= Set::<usize>::empty().insert(t));
        }
        let mut changed = true;
        while changed
            invariant
                nodes == self.nodes(),
                len == nodes.len(),
                len <= usize::MAX,
                t < len,
                ready@.contains(t),
                ready@.subset_of(needed_ready(nodes, t)),
                done@.subset_of(waited_for(nodes, t)),
                ready@.subset_of(indices_below(len as int)),
                done@.subset_of(indices_below(len as int)),
                indices_below(len as int).finite(),
                indices_below(len as int).len() == len,
                !changed ==> forall|y: usize| y < len ==> #[trigger] node_needs(nodes, y, ready@, done@),
            decreases 2 * len - ready@.len() - done@.len() + (if changed {
                1int
            } else {
                0int
            }),
        {
            proof {
                vstd::set_lib::lemma_len_subset(ready@, indices_below(len as int));
                vstd::set_lib::lemma_len_subset(done@, indices_below(len as int));
            }
            let ghost r0 = ready@;
            let ghost d0 = done@;
            changed = false;
            let mut y: usize = 0;
            while y < len
                invariant
                    nodes == self.nodes(),
                    len == nodes.len(),
                    len <= usize::MAX,
                    0 <= y <= len,
                    ready@.contains(t),
                    ready@.subset_of(needed_ready(nodes, t)),
                    done@.subset_of(waited_for(nodes, t)),
                    ready@.subset_of(indices_below(len as int)),
                    done@.subset_of(indices_below(len as int)),
                    indices_below(len as int).finite(),
                    r0.subset_of(ready@),
                    d0.subset_of(done@),
                    r0.finite(),
                    d0.finite(),
                    !changed ==> ready@ == r0 && done@ == d0,
                    changed ==> ready@.len() + done@.len() > r0.len() + d0.len(),
                    !changed ==> forall|z: usize| z < y ==> #[trigger] node_needs(nodes, z, ready@, done@),
                decreases len - y,
            {
                proof {
                    lemma_needs_step(nodes, t, y);
                    vstd::set_lib::lemma_len_subset(ready@, indices_below(len as int));
                    vstd::set_lib::lemma_len_subset(done@, indices_below(len as int));
                }
                let ghost cb = changed;
                if ready.contains(y) {
                    let deps = &self.nodes[y].dependencies;
                    let mut k: usize = 0;
                    while k < deps.len()
                        invariant
                            nodes == self.nodes(),
                            len == nodes.len(),
                            len <= usize::MAX,
                            y < len,
                            *deps == nodes[y as int].dependencies,
                            0 <= k <= deps@.len(),
                            ready@.contains(y),
                            ready@.contains(t),
                            ready@.subset_of(needed_ready(nodes, t)),
                            done@.subset_of(waited_for(nodes, t)),
                            ready@.subset_of(indices_below(len as int)),
                            done@.subset_of(indices_below(len as int)),
                            indices_below(len as int).finite(),
                            r0.subset_of(ready@),
                            d0.subset_of(done@),
                            r0.finite(),
                            d0.finite(),
                            !changed ==> ready@ == r0 && done@ == d0,
                            changed ==> ready@.len() + done@.len() > r0.len() + d0.len(),
                            !changed ==> forall|z: usize| z < y ==> #[trigger] node_needs(nodes, z, ready@, done@),
                            !changed ==> forall|q: int|
                                0 <= q < k && (#[trigger] nodes[y as int].dependencies@[q]).0 < len
                                    ==> done@.contains(nodes[y as int].dependencies@[q].0),
                            needed_ready(nodes, t).contains(y) ==> forall|q: int|
                                0 <= q < nodes[y as int].dependencies@.len()
                                    && (#[trigger] nodes[y as int].dependencies@[q]).0 < nodes.len()
                                    ==> waited_for(nodes, t).contains(nodes[y as int].dependencies@[q].0),
                        decreases deps@.len() - k,
                    {
                        let d = deps[k].0;
                        if d < len && !done.contains(d) {
                            proof {
                                lemma_len_subset_finite(done@, indices_below(len as int));
                            }
                            done.insert(d);
                            changed = true;
                        }
                        k += 1;
                    }
                    let p = self.nodes[y].parent.0;
                    if p < len && !ready.contains(p) {
                        proof {
                            lemma_len_subset_finite(ready@, indices_below(len as int));
                        }
                        ready.insert(p);
                        changed = true;
                    }
                }
                if done.contains(y) && !ready.contains(y) {
                    proof {
                        lemma_len_subset_finite(ready@, indices_below(len as int));
                    }
                    ready.insert(y);
                    changed = true;
                }
                let p = self.nodes[y].parent.0;
                if p < len && done.contains(p) && !done.contains(y) {
                    proof {
                        lemma_len_subset_finite(done@, indices_below(len as int));
                    }
                    done.insert(y);
                    changed = true;
                }
                proof {
                    if !changed {
                        assert(node_needs(nodes, y, ready@, done@));
                    }
                }
                y += 1;
            }
            proof {
                vstd::set_lib::lemma_len_subset(ready@, indices_below(len as int));
                vstd::set_lib::lemma_len_subset(done@, indices_below(len as int));
            }
        }
        proof {
            assert(needs_closed(nodes, t, ready@, done@));
            assert forall|x: usize| waited_for(nodes, t).contains(x) implies done@.contains(x) by {}
            assert(done@ =~= waited_for(nodes, t));
        }
        done
    }
}

/// A subset of a finite set is finite.
proof fn lemma_len_subset_finite(a: Set<usize>, b: Set<usize>)
    requires
        a.subset_of(b),
        b.finite(),
    ensures
        a.finite(),
        a.len() <= b.len(),
{
    vstd::set_lib::lemma_len_subset(a, b);
}

/// Some node among the first pairs before (`nt`, `ns`), in the order of `nt` then `ns`, shows
/// that system `t` waits for system `s` by the graph.
pub open spec fn graph_waits_before(nodes: Seq<Node>, s: usize, t: usize, nt: int, ns: int) -> bool {
    exists|a: usize, b: usize|
        ((a < nt && b < nodes.len()) || (a == nt && b < ns)) && a < nodes.len()
            && nodes[a as int].system.0 == t && nodes[b as int].system.0 == s
            && #[trigger] waited_for(nodes, a).contains(b)
}

impl Graph {
    /// Lowers to layer `j` the entry of `dep` of every system that system `t` waits for by
    /// the graph, where the entry is later.
    pub fn lower_graph_waits(&self, dep: &mut Vec<Layer>, t: usize, j: usize)
        requires
            old(dep)@.len() == systems_len_of(self.nodes(), self.nodes().len() as int),
        ensures
            final(dep)@.len() == old(dep)@.len(),
            forall|s: int|
                0 <= s < old(dep)@.len() ==> #[trigger] final(dep)@[s] == (if graph_waits(
                    self.nodes(),
                    s as usize,
                    t,
                ) && old(dep)@[s].0 > j {
                    Layer(j)
                } else {
                    old(dep)@[s]
                }),
    {
        let ghost nodes = self.nodes();
        let ghost d0 = dep@;
        let len = self.nodes.len();
        let mut nt: usize = 0;
        while nt < len
            invariant
                nodes == self.nodes(),
                len == nodes.len(),
                len <= usize::MAX,
                0 <= nt <= len,
                d0 == old(dep)@,
                dep@.len() == d0.len(),
                d0.len() == systems_len_of(nodes, len as int),
                forall|s: int|
                    0 <= s < d0.len() ==> #[trigger] dep@[s] == (if graph_waits_before(
                        nodes,
                        s as usize,
                        t,
                        nt as int,
                        0,
                    ) && d0[s].0 > j {
                        Layer(j)
                    } else {
                        d0[s]
                    }),
            decreases len - nt,
        {
            if self.nodes[nt].system.0 == t {
                let w = self.waited_for_set(nt);
                let mut ns: usize = 0;
                while ns < len
                    invariant
                        nodes == self.nodes(),
                        len == nodes.len(),
                        len <= usize::MAX,
                        0 <= nt < len,
                        0 <= ns <= len,
                        nodes[nt as int].system.0 == t,
                        w@ == waited_for(nodes, nt),
                        d0 == old(dep)@,
                        dep@.len() == d0.len(),
                        d0.len() == systems_len_of(nodes, len as int),
                        forall|s: int|
                            0 <= s < d0.len() ==> #[trigger] dep@[s] == (if graph_waits_before(
                                nodes,
                                s as usize,
                                t,
                                nt as int,
                                ns as int,
                            ) && d0[s].0 > j {
                                Layer(j)
                            } else {
                                d0[s]
                            }),
                    decreases len - ns,
                {
                    let sys = self.nodes[ns].system.0;
                    let ghost before = dep@;
                    if w.contains(ns) && sys != usize::MAX {
                        proof {
                            lemma_systems_len(nodes, len as int, ns as int);
                        }
                        if dep[sys].0 > j {
                            dep.set(sys, Layer(j));
                        }
                    }
                    proof {
                        assert forall|s: int| 0 <= s < d0.len() implies #[trigger] dep@[s] == (if graph_waits_before(
                            nodes,
                            s as usize,
                            t,
                            nt as int,
                            ns + 1,
                        ) && d0[s].0 > j {
                            Layer(j)
                        } else {
                            d0[s]
                        }) by {
                            lemma_systems_len_bound(nodes, len as int);
                            let old_w = graph_waits_before(nodes, s as usize, t, nt as int, ns as int);
                            let new_w = graph_waits_before(nodes, s as usize, t, nt as int, ns + 1);
                            if old_w {
                                let (a, b) = choose|a: usize, b: usize|
                                    ((a < nt && b < nodes.len()) || (a == nt && b < ns)) && a < nodes.len()
                                        && nodes[a as int].system.0 == t && nodes[b as int].system.0 == s as usize
                                        && #[trigger] waited_for(nodes, a).contains(b);
                                assert(((a < nt && b < nodes.len()) || (a == nt && b < ns + 1)) && a < nodes.len());
                                assert(new_w);
                            }
                            if w@.contains(ns) && sys == s as usize {
                                assert(nt < nodes.len() && nodes[nt as int].system.0 == t && nodes[ns as int].system.0 == s as usize
                                    && waited_for(nodes, nt).contains(ns));
                                assert(new_w);
                            }
                            if new_w && !old_w {
                                let (a, b) = choose|a: usize, b: usize|
                                    ((a < nt && b < nodes.len()) || (a == nt && b < ns + 1)) && a < nodes.len()
                                        && nodes[a as int].system.0 == t && nodes[b as int].system.0 == s as usize
                                        && #[trigger] waited_for(nodes, a).contains(b);
                                assert(a == nt && b == ns);
                                assert(w@.contains(ns) && sys == s as usize && sys != usize::MAX);
                            }
                            if w@.contains(ns) && sys != usize::MAX && sys as int == s {
                                assert(new_w);
                                assert(dep@[s] == (if before[s].0 > j {
                                    Layer(j)
                                } else {
                                    before[s]
                                }));
                            } else {
                                assert(dep@[s] == before[s]);
                                assert(new_w == old_w);
                            }
                        }
                    }
                    ns += 1;
                }
                proof {
                    assert forall|s: int| 0 <= s < d0.len() implies #[trigger] graph_waits_before(
                        nodes,
                        s as usize,
                        t,
                        nt as int,
                        len as int,
                    ) == graph_waits_before(nodes, s as usize, t, nt + 1, 0) by {
                        if graph_waits_before(nodes, s as usize, t, nt + 1, 0) {
                            let (a, b) = choose|a: usize, b: usize|
                                ((a < nt + 1 && b < nodes.len()) || (a == nt + 1 && b < 0)) && a < nodes.len()
                                    && nodes[a as int].system.0 == t && nodes[b as int].system.0 == s as usize
                                    && #[trigger] waited_for(nodes, a).contains(b);
                            assert(((a < nt && b < nodes.len()) || (a == nt && b < len)));
                        }
                        if graph_waits_before(nodes, s as usize, t, nt as int, len as int) {
                            let (a, b) = choose|a: usize, b: usize|
                                ((a < nt && b < nodes.len()) || (a == nt && b < len)) && a < nodes.len()
                                    && nodes[a as int].system.0 == t && nodes[b as int].system.0 == s as usize
                                    && #[trigger] waited_for(nodes, a).contains(b);
                            assert((a < nt + 1 && b < nodes.len()));
                        }
                    }
                }
            } else {
                proof {
                    assert forall|s: int| 0 <= s < d0.len() implies #[trigger] graph_waits_before(
                        nodes,
                        s as usize,
                        t,
                        nt as int,
                        0,
                    ) == graph_waits_before(nodes, s as usize, t, nt + 1, 0) by {
                        if graph_waits_before(nodes, s as usize, t, nt + 1, 0) {
                            let (a, b) = choose|a: usize, b: usize|
                                ((a < nt + 1 && b < nodes.len()) || (a == nt + 1 && b < 0)) && a < nodes.len()
                                    && nodes[a as int].system.0 == t && nodes[b as int].system.0 == s as usize
                                    && #[trigger] waited_for(nodes, a).contains(b);
                            assert(a != nt);
                            assert(a < nt && b < nodes.len());
                        }
                        if graph_waits_before(nodes, s as usize, t, nt as int, 0) {
                            let (a, b) = choose|a: usize, b: usize|
                                ((a < nt && b < nodes.len()) || (a == nt && b < 0)) && a < nodes.len()
                                    && nodes[a as int].system.0 == t && nodes[b as int].system.0 == s as usize
                                    && #[trigger] waited_for(nodes, a).contains(b);
                            assert(a < nt + 1 && b < nodes.len());
                        }
                    }
                }
            }
            nt += 1;
        }
        proof {
            assert forall|s: int| 0 <= s < d0.len() implies #[trigger] graph_waits_before(
                nodes,
                s as usize,
                t,
                len as int,
                0,
            ) == graph_waits(nodes, s as usize, t) by {
                if graph_waits(nodes, s as usize, t) {
                    let (a, b) = choose|a: usize, b: usize|
                        a < nodes.len() && b < nodes.len() && nodes[a as int].system.0 == t
                            && nodes[b as int].system.0 == s as usize && #[trigger] waited_for(nodes, a).contains(b);
                    assert(a < len && b < nodes.len());
                }
                if graph_waits_before(nodes, s as usize, t, len as int, 0) {
                    let (a, b) = choose|a: usize, b: usize|
                        ((a < len && b < nodes.len()) || (a == len && b < 0)) && a < nodes.len()
                            && nodes[a as int].system.0 == t && nodes[b as int].system.0 == s as usize
                            && #[trigger] waited_for(nodes, a).contains(b);
                }
            }
        }
    }
}

/// When every system of the nodes is below `b`, so is one more than the largest.
pub proof fn lemma_systems_len_le_pub(nodes: Seq<Node>, b: int)
    requires
        0 <= b,
        forall|m: int|
            0 <= m < nodes.len() ==> (#[trigger] nodes[m]).system.0 == usize::MAX || nodes[m].system.0
                < b,
    ensures
        systems_len_of(nodes, nodes.len() as int) <= b,
{
    lemma_systems_len_le(nodes, nodes.len() as int, b);
}

/// The layers of a graph without parents are those of the longest chains: a node with a
/// system stands in a later layer than every node with a system from which a path of
/// dependencies leads to it (through any nodes); in the first layer exactly when there is no
/// such node; and otherwise one layer after some such node reaching it through nodes without
/// a system. So each layer index counts the nodes with a system on the longest chain of
/// dependencies ending there, less one, and no layering of the graph is shorter.
pub proof fn lemma_layer_is_longest_chain(
    nodes: Seq<Node>,
    layers: Seq<Seq<NodeId>>,
    n: usize,
    j: int,
)
    requires
        nodes.len() <= usize::MAX,
        without_parents(nodes),
        dependencies_in_graph(nodes),
        sorted_outcome(nodes, Ok(layers)),
        0 <= j < layers.len(),
        layers[j].contains(NodeId(n)),
    ensures
        forall|p: Seq<usize>, i: int|
            #![trigger dependency_path(nodes, p), layers[i].contains(NodeId(p[0]))]
            dependency_path(nodes, p) && p.last() == n && has_system(nodes, p[0]) && 0 <= i
                < layers.len() && layers[i].contains(NodeId(p[0])) ==> i < j,
        j == 0 <==> !exists|p: Seq<usize>|
            #[trigger] dependency_path(nodes, p) && p.last() == n && has_system(nodes, p[0]),
        j > 0 ==> exists|p: Seq<usize>|
            #[trigger] dependency_path(nodes, p) && p.last() == n && has_system(nodes, p[0])
                && virtual_inside(nodes, p) && layers[j - 1].contains(NodeId(p[0])),
{
    assert forall|p: Seq<usize>, i: int|
        #![trigger dependency_path(nodes, p), layers[i].contains(NodeId(p[0]))]
        dependency_path(nodes, p) && p.last() == n && has_system(nodes, p[0]) && 0 <= i
            < layers.len() && layers[i].contains(NodeId(p[0])) implies i < j by {
        lemma_dependency_path_layers(nodes, layers, p, i, j);
    }
    if j > 0 {
        lemma_layer_follows_predecessor(nodes, layers, n, j);
    }
    if j == 0 {
        if exists|p: Seq<usize>|
            #[trigger] dependency_path(nodes, p) && p.last() == n && has_system(nodes, p[0]) {
            let p = choose|p: Seq<usize>|
                #[trigger] dependency_path(nodes, p) && p.last() == n && has_system(nodes, p[0]);
            assert(p[0] < nodes.len());
            assert(is_layering(nodes, layers));
            let (i, k) = choose|i: int, k: int|
                0 <= i < layers.len() && 0 <= k < layers[i].len() && #[trigger] layers[i][k]
                    == NodeId(p[0]);
            assert(layers[i].contains(NodeId(p[0])));
            lemma_dependency_path_layers(nodes, layers, p, i, j);
        }
    }
}

/// The set that the second part of a round reaches is closed under its rule.
proof fn lemma_complete_part_closed(nodes: Seq<Node>, e: Set<usize>, c0: Set<usize>)
    ensures
        complete_part_closed(nodes, e, c0, complete_part(nodes, e, c0)),
{
    let cp = complete_part(nodes, e, c0);
    lemma_complete_part_members(nodes, e, c0);
    assert forall|n: int|
        0 <= n < nodes.len() && e.contains(n as usize) && #[trigger] children_completed(nodes, n, cp)
            implies cp.contains(n as usize) by {
        assert forall|c: Set<usize>| #[trigger] complete_part_closed(nodes, e, c0, c) implies c.contains(
            n as usize,
        ) by {
            assert forall|m: int| 0 <= m < nodes.len() && #[trigger] nodes[m].parent.0 == n implies c.contains(
                m as usize,
            ) by {
                assert(cp.contains(m as usize));
            }
            assert(children_completed(nodes, n, c));
        }
    }
}

/// Every node completed in the second part of a round, and not before, had its children
/// completed then.
proof fn lemma_complete_part_children(nodes: Seq<Node>, e: Set<usize>, c0: Set<usize>)
    requires
        nodes.len() <= usize::MAX,
    ensures
        forall|n: usize|
            #[trigger] complete_part(nodes, e, c0).contains(n) && !c0.contains(n) ==> n
                < nodes.len() && children_completed(nodes, n as int, complete_part(nodes, e, c0)),
{
    let cp = complete_part(nodes, e, c0);
    lemma_complete_part_closed(nodes, e, c0);
    lemma_complete_part_members(nodes, e, c0);
    let c2 = c0.union(
        Set::new(|n: usize| n < nodes.len() && cp.contains(n) && children_completed(nodes, n as int, cp)),
    );
    assert forall|n: int|
        0 <= n < nodes.len() && e.contains(n as usize) && #[trigger] children_completed(nodes, n, c2)
            implies c2.contains(n as usize) by {
        assert forall|m: int| 0 <= m < nodes.len() && #[trigger] nodes[m].parent.0 == n implies cp.contains(
            m as usize,
        ) by {
            assert(c2.contains(m as usize));
        }
        assert(children_completed(nodes, n, cp));
        assert(cp.contains(n as usize));
    }
    assert(complete_part_closed(nodes, e, c0, c2));
    assert forall|n: usize| #[trigger] cp.contains(n) implies c2.contains(n) by {}
}

/// What is ready or completed by round `k` keeps the rules: a ready node has its dependencies
/// completed by the first part of round `k` and its parent ready; a completed node has its
/// children completed, by the first part of round `k` for the nodes completed by then.
proof fn lemma_round_rules(nodes: Seq<Node>, k: nat)
    requires
        nodes.len() <= usize::MAX,
        k >= 1,
    ensures
        forall|y: usize|
            y < nodes.len() && #[trigger] sort_round(nodes, k).0.contains(y) ==> deps_completed(
                nodes,
                y as int,
                ready_part(nodes, sort_round(nodes, (k - 1) as nat).0, sort_round(nodes, (k - 1) as nat).1).1,
            ) && parent_ready(nodes, y as int, sort_round(nodes, k).0),
        forall|p: usize|
            #[trigger] ready_part(
                nodes,
                sort_round(nodes, (k - 1) as nat).0,
                sort_round(nodes, (k - 1) as nat).1,
            ).1.contains(p) ==> children_completed(
                nodes,
                p as int,
                ready_part(nodes, sort_round(nodes, (k - 1) as nat).0, sort_round(nodes, (k - 1) as nat).1).1,
            ),
        forall|p: usize|
            #[trigger] sort_round(nodes, k).1.contains(p) ==> children_completed(
                nodes,
                p as int,
                sort_round(nodes, k).1,
            ),
    decreases k,
{
    let (e, c) = sort_round(nodes, (k - 1) as nat);
    let (e1, c1) = ready_part(nodes, e, c);
    let ck = complete_part(nodes, e1, c1);
    lemma_ready_part_members(nodes, e, c);
    lemma_complete_part_members(nodes, e1, c1);
    lemma_complete_part_children(nodes, e1, c1);
    lemma_rounds_grow(nodes, k);
    assert(sort_round(nodes, k) == (e1, ck));
    if k >= 2 {
        lemma_round_rules(nodes, (k - 1) as nat);
        let (ep, cpp) = sort_round(nodes, (k - 2) as nat);
        let (ea, ca) = ready_part(nodes, ep, cpp);
        lemma_ready_part_members(nodes, ep, cpp);
        lemma_rounds_grow(nodes, (k - 1) as nat);
        assert(e == ea);
        assert(c == complete_part(nodes, ea, ca));
        lemma_complete_part_members(nodes, ea, ca);
        assert forall|y: usize|
            y < nodes.len() && #[trigger] e1.contains(y) implies deps_completed(nodes, y as int, c1)
                && parent_ready(nodes, y as int, e1) by {
            if e.contains(y) {
                assert(deps_completed(nodes, y as int, ca));
                assert forall|q: int| 0 <= q < nodes[y as int].dependencies@.len() implies c1.contains(
                    #[trigger] nodes[y as int].dependencies@[q].0,
                ) by {
                    assert(ca.contains(nodes[y as int].dependencies@[q].0));
                }
                assert(parent_ready(nodes, y as int, e));
            }
        }
    } else {
        assert(sort_round(nodes, 0).0 =~= Set::<usize>::empty());
        assert(sort_round(nodes, 0).1 =~= Set::<usize>::empty());
    }
    assert forall|p: usize| #[trigger] c1.contains(p) implies children_completed(nodes, p as int, c1) by {
        if c.contains(p) {
            if k >= 2 {
                assert(children_completed(nodes, p as int, c));
                assert forall|m: int| 0 <= m < nodes.len() && #[trigger] nodes[m].parent.0 == p as int
                    implies c1.contains(m as usize) by {
                    assert(c.contains(m as usize));
                }
            }
        }
    }
    assert forall|p: usize| #[trigger] ck.contains(p) implies children_completed(nodes, p as int, ck) by {
        if c1.contains(p) {
            assert(children_completed(nodes, p as int, c1));
            assert forall|m: int| 0 <= m < nodes.len() && #[trigger] nodes[m].parent.0 == p as int
                implies ck.contains(m as usize) by {
                assert(c1.contains(m as usize));
            }
        }
    }
}

/// Whatever a node with a system waits for by the graph, the sort puts in an earlier layer:
/// each layer holds only systems that every system they wait for has run before.
pub proof fn lemma_waited_for_layers(
    nodes: Seq<Node>,
    layers: Seq<Seq<NodeId>>,
    t: usize,
    s: usize,
    i: int,
    j: int,
)
    requires
        nodes.len() <= usize::MAX,
        sorted_outcome(nodes, Ok(layers)),
        waited_for(nodes, t).contains(s),
        has_system(nodes, s),
        0 <= i < layers.len(),
        0 <= j < layers.len(),
        layers[i].contains(NodeId(s)),
        layers[j].contains(NodeId(t)),
    ensures
        i < j,
{
    let f = lemma_layer_sets_rounds(nodes, nodes.len() as nat);
    let sets = layer_sets(nodes, nodes.len() as nat);
    assert(layers_hold(layers, sets));
    assert(sets[i].contains(s));
    assert(sets[j].contains(t));
    let rr = f[j];
    assert(round_layer(nodes, rr).contains(t));
    assert(round_layer(nodes, f[i]).contains(s));
    let (e, c) = sort_round(nodes, (rr - 1) as nat);
    let (e1, c1) = ready_part(nodes, e, c);
    lemma_ready_part_members(nodes, e, c);
    lemma_rounds_grow(nodes, rr as nat);
    lemma_rounds_grow(nodes, (rr - 1) as nat);
    lemma_round_rules(nodes, rr as nat);
    assert(sort_round(nodes, rr as nat).0 == e1);
    // what the first part of round rr reached is a closed pair for t
    assert forall|y: usize| y < nodes.len() implies #[trigger] node_needs(nodes, y, e1, c1) by {
        let p = nodes[y as int].parent.0;
        if e1.contains(y) {
            assert(deps_completed(nodes, y as int, c1));
            assert(parent_ready(nodes, y as int, e1));
        }
        if c1.contains(y) {
            if c.contains(y) {
                assert(e.contains(y));
            }
        }
        if p < nodes.len() && c1.contains(p) {
            assert(children_completed(nodes, p as int, c1));
        }
    }
    assert(needs_closed(nodes, t, e1, c1));
    assert(c1.contains(s));
    assert(c.contains(s));
    assert(e.contains(s));
    if i >= j {
        if i > j {
            assert(f[j] < f[i]);
        }
        lemma_rounds_grow_to(nodes, (f[j] - 1) as nat, (f[i] - 1) as nat);
        assert(sort_round(nodes, (f[i] - 1) as nat).0.contains(s));
    }
}

} // verus!
