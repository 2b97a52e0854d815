use pulz_schedule::bitset::BitSet;
use pulz_schedule::schedule::graph::{Graph, GraphError, Node, NodeId};
use pulz_schedule::schedule::{Layer, SystemId};

// --- Graph basics ---

#[test]
fn graph_new_is_empty() {
    let g = Graph::new();
    assert_eq!(g.len(), 0);
}

#[test]
fn graph_insert_creates_node() {
    let mut g = Graph::new();
    let (id, node) = g.insert(SystemId(0));
    assert!(id.is_defined());
    assert_eq!(node.system, SystemId(0));
    assert_eq!(g.len(), 1);
}

#[test]
fn graph_get_returns_node() {
    let mut g = Graph::new();
    let (id, _) = g.insert(SystemId(42));
    assert_eq!(g.get(id).unwrap().system, SystemId(42));
    assert!(g.get(NodeId(99)).is_none());
}

#[test]
fn graph_add_dependency() {
    let mut g = Graph::new();
    let (a, _) = g.insert(SystemId(0));
    let (b, _) = g.insert(SystemId(1));
    g.add_dependency(a, b);
    assert_eq!(g.get(b).unwrap().dependencies, vec![a]);
}

#[test]
fn graph_set_parent() {
    let mut g = Graph::new();
    let (p, _) = g.insert(SystemId(0));
    let (c, _) = g.insert(SystemId(1));
    g.set_parent(p, c);
    assert_eq!(g.get(c).unwrap().parent, p);
}

#[test]
fn graph_index_operator() {
    let mut g = Graph::new();
    let (id, _) = g.insert(SystemId(0));
    // Should not panic
    let _node = g.get(id).unwrap();
}

// --- WorkGraph: linear DAG ---

#[test]
fn workgraph_linear_dag_single_layer() {
    let mut g = Graph::new();
    let (a, _) = g.insert(SystemId(0));
    let (b, _) = g.insert(SystemId(1));
    let (c, _) = g.insert(SystemId(2));
    g.add_dependency(a, b);
    g.add_dependency(b, c);
    let wg = g.work_graph();
    let layers = wg.topological_order_layers().unwrap();
    // Linear chain: each node in its own layer
    assert_eq!(layers.len(), 3);
    assert_eq!(layers[0], vec![a]);
    assert_eq!(layers[1], vec![b]);
    assert_eq!(layers[2], vec![c]);
}

#[test]
fn workgraph_linear_dag_systems_order() {
    let mut g = Graph::new();
    let (a, _) = g.insert(SystemId(0));
    let (b, _) = g.insert(SystemId(1));
    g.add_dependency(a, b);
    let wg = g.work_graph();
    let systems = wg.systems_topological_order_layers().unwrap();
    assert_eq!(systems.len(), 2);
    assert_eq!(systems[0], vec![SystemId(0)]);
    assert_eq!(systems[1], vec![SystemId(1)]);
}

// --- WorkGraph: diamond dependencies ---

#[test]
fn workgraph_diamond_dependencies() {
    //   A
    //  / \
    // B   C
    //  \ /
    //   D
    let mut g = Graph::new();
    let (a, _) = g.insert(SystemId(0));
    let (b, _) = g.insert(SystemId(1));
    let (c, _) = g.insert(SystemId(2));
    let (d, _) = g.insert(SystemId(3));
    g.add_dependency(a, b);
    g.add_dependency(a, c);
    g.add_dependency(b, d);
    g.add_dependency(c, d);
    let wg = g.work_graph();
    let layers = wg.topological_order_layers().unwrap();
    assert_eq!(layers.len(), 3);
    assert_eq!(layers[0], vec![a]);
    // B and C are in the same layer (both depend only on A)
    assert_eq!(layers[1].len(), 2);
    assert!(layers[1].contains(&b));
    assert!(layers[1].contains(&c));
    assert_eq!(layers[2], vec![d]);
}

// --- WorkGraph: parallel independent nodes ---

#[test]
fn workgraph_independent_nodes_same_layer() {
    let mut g = Graph::new();
    let (a, _) = g.insert(SystemId(0));
    let (b, _) = g.insert(SystemId(1));
    let (c, _) = g.insert(SystemId(2));
    // No dependencies — all independent
    let wg = g.work_graph();
    let layers = wg.topological_order_layers().unwrap();
    assert_eq!(layers.len(), 1);
    assert_eq!(layers[0].len(), 3);
    assert!(layers[0].contains(&a));
    assert!(layers[0].contains(&b));
    assert!(layers[0].contains(&c));
}

// --- WorkGraph: virtual nodes (undefined systems) ---

#[test]
fn workgraph_virtual_nodes_dont_create_layers() {
    // A ──virtual──> B
    // Virtual node should not appear in output layers
    let mut g2 = Graph::new();
    let (a2, _) = g2.insert(SystemId(0));
    let (v, _) = g2.insert(SystemId::undefined());
    let (b2, _) = g2.insert(SystemId(1));
    g2.add_dependency(a2, v);
    g2.add_dependency(v, b2);
    let wg = g2.work_graph();
    let systems = wg.systems_topological_order_layers().unwrap();
    // Virtual node should be collapsed: A in layer 0, B in layer 1
    assert_eq!(systems.len(), 2);
    assert_eq!(systems[0], vec![SystemId(0)]);
    assert_eq!(systems[1], vec![SystemId(1)]);
}

// --- WorkGraph: parent/child constraints ---

#[test]
fn workgraph_parent_child_enforced() {
    let mut g = Graph::new();
    let (p, _) = g.insert(SystemId(0));
    let (c1, _) = g.insert(SystemId(1));
    let (c2, _) = g.insert(SystemId(2));
    // c1 and c2 are children of p — parent/child alone doesn't create ordering
    // without explicit dependency edges. Test that parent/child is tracked.
    g.set_parent(p, c1);
    g.set_parent(p, c2);
    let wg = g.work_graph();
    // All nodes have no dependencies, so they should all be in one layer
    let layers = wg.topological_order_layers().unwrap();
    assert_eq!(layers.len(), 1);
    assert!(layers[0].contains(&p));
    assert!(layers[0].contains(&c1));
    assert!(layers[0].contains(&c2));
}

// --- WorkGraph: cycle detection ---

#[test]
fn workgraph_cycle_detected() {
    let mut g = Graph::new();
    let (a, _) = g.insert(SystemId(0));
    let (b, _) = g.insert(SystemId(1));
    let (c, _) = g.insert(SystemId(2));
    // Create a cycle: a → b → c → a
    g.add_dependency(a, b);
    g.add_dependency(b, c);
    g.add_dependency(c, a);
    let wg = g.work_graph();
    let result = wg.topological_order_layers();
    assert!(result.is_err());
    match result.unwrap_err() {
        GraphError::CycleDetected(count) => {
            // Should report remaining unprocessed nodes
            assert!(count > 0);
        }
    }
}

#[test]
fn workgraph_self_cycle_detected() {
    let mut g = Graph::new();
    let (a, _) = g.insert(SystemId(0));
    // Self-dependency
    g.add_dependency(a, a);
    let wg = g.work_graph();
    assert!(wg.topological_order_layers().is_err());
}

// --- WorkGraph: dependent layers ---

#[test]
fn workgraph_dependent_layers_basic() {
    let mut g = Graph::new();
    let (a, _) = g.insert(SystemId(0));
    let (b, _) = g.insert(SystemId(1));
    g.add_dependency(a, b);
    let wg = g.work_graph();
    let dependent = wg.systems_dependent_layers().unwrap();
    assert_eq!(dependent.len(), 2);
    // A has no dependencies → UNDEFINED
    assert_eq!(dependent[0], Layer::undefined());
    // B depends on A → layer 0
    assert_eq!(dependent[1], Layer(0));
}

// --- WorkGraph: combined output ---

#[test]
fn workgraph_combined_output() {
    let mut g = Graph::new();
    let (a, _) = g.insert(SystemId(0));
    let (b, _) = g.insert(SystemId(1));
    let (c, _) = g.insert(SystemId(2));
    g.add_dependency(a, b);
    g.add_dependency(a, c);

    let wg = g.work_graph();

    let (systems, dependent) = wg
        .systems_topological_order_with_dependent_layers()
        .unwrap();

    // Verify the topological order: a must come before b and c
    assert_eq!(systems.len(), 2);
    assert_eq!(systems[0], vec![SystemId(0)]);
    assert_eq!(systems[1].len(), 2);

    // A has no dependencies, so its dependent layer should be UNDEFINED
    // B and C depend on A, so their dependent layers should be >= 0
    assert!(dependent[1] != Layer::undefined() || dependent[2] != Layer::undefined());
}

// --- WorkGraph: empty graph ---

#[test]
fn workgraph_empty_graph() {
    let g = Graph::new();
    let wg = g.work_graph();
    let layers = wg.topological_order_layers().unwrap();
    assert!(layers.is_empty());
    let systems = wg.systems_topological_order_layers().unwrap();
    assert!(systems.is_empty());
}

// --- WorkGraph: single node ---

#[test]
fn workgraph_single_node() {
    let mut g = Graph::new();
    let (a, _) = g.insert(SystemId(0));
    let wg = g.work_graph();
    let layers = wg.topological_order_layers().unwrap();
    assert_eq!(layers.len(), 1);
    assert_eq!(layers[0], vec![a]);
}

// --- Node helpers ---

#[test]
fn node_is_parent_ready_no_parent() {
    let node = Node::new(SystemId(0));
    let ready = BitSet::new();
    assert!(node.is_parent_ready(&ready));
}

#[test]
fn node_is_parent_ready_with_parent_not_ready() {
    let mut node = Node::new(SystemId(1));
    node.parent = NodeId(0);
    let mut ready = BitSet::new();
    ready.insert(1); // only node 1 is ready, not parent
    assert!(!node.is_parent_ready(&ready));
}

#[test]
fn node_are_dependencies_complete() {
    let mut g = Graph::new();
    let (a, _) = g.insert(SystemId(0));
    let (b, _) = g.insert(SystemId(1));
    g.add_dependency(a, b);
    let mut completed = BitSet::new();
    assert!(!g.get(b).unwrap().are_dependencies_complete(&completed));
    completed.insert(a.0);
    assert!(g.get(b).unwrap().are_dependencies_complete(&completed));
}

// --- NodeId ---

#[test]
fn node_id_undefined() {
    assert!(NodeId::undefined().is_undefined());
    assert!(!NodeId(0).is_undefined());
}

#[test]
fn node_id_defined() {
    assert!(NodeId(0).is_defined());
    assert!(!NodeId::undefined().is_defined());
}

// --- SystemId ---

#[test]
fn system_id_undefined() {
    assert!(SystemId::undefined().is_undefined());
    assert!(!SystemId(0).is_undefined());
}

#[test]
fn system_id_defined() {
    assert!(SystemId(0).is_defined());
    assert!(!SystemId::undefined().is_defined());
}

// --- further cases ---

#[test]
fn insert_sorted_keeps_order_and_skips_duplicates() {
    let mut v = vec![NodeId(1), NodeId(4), NodeId(7)];
    pulz_schedule::schedule::graph::insert_sorted(&mut v, NodeId(5));
    assert_eq!(v, vec![NodeId(1), NodeId(4), NodeId(5), NodeId(7)]);
    pulz_schedule::schedule::graph::insert_sorted(&mut v, NodeId(4));
    assert_eq!(v, vec![NodeId(1), NodeId(4), NodeId(5), NodeId(7)]);
    pulz_schedule::schedule::graph::insert_sorted(&mut v, NodeId(0));
    assert_eq!(v[0], NodeId(0));
}

#[test]
fn cycle_reports_nodes_never_ready() {
    // a and b depend on each other; c is free
    let mut g = Graph::new();
    let (a, _) = g.insert(SystemId(0));
    let (b, _) = g.insert(SystemId(1));
    let (_c, _) = g.insert(SystemId(2));
    g.add_dependency(a, b);
    g.add_dependency(b, a);
    let wg = g.work_graph();
    match wg.topological_order_layers() {
        Err(GraphError::CycleDetected(count)) => assert_eq!(count, 2),
        Ok(_) => panic!("cycle not detected"),
    }
    assert!(wg.systems_dependent_layers().is_err());
}

#[test]
fn parent_waits_for_children_dependencies() {
    // p is the parent of c; c depends on d; a depends on p
    let mut g = Graph::new();
    let (p, _) = g.insert(SystemId::undefined());
    let (c, _) = g.insert(SystemId(0));
    let (d, _) = g.insert(SystemId(1));
    let (a, _) = g.insert(SystemId(2));
    g.set_parent(p, c);
    g.add_dependency(d, c);
    g.add_dependency(p, a);
    let wg = g.work_graph();
    assert_eq!(wg.get_children(p), &[c][..]);
    let systems = wg.systems_topological_order_layers().unwrap();
    assert_eq!(systems, vec![vec![SystemId(1)], vec![SystemId(0)], vec![SystemId(2)]]);
    let dependent = wg.systems_dependent_layers().unwrap();
    assert_eq!(dependent, vec![Layer(0), Layer::undefined(), Layer::undefined()]);
}

#[test]
fn systems_len_is_largest_system_plus_one() {
    let mut g = Graph::new();
    assert_eq!(g.systems_len(), 0);
    g.insert(SystemId(3));
    g.insert(SystemId::undefined());
    g.insert(SystemId(1));
    assert_eq!(g.systems_len(), 4);
}

#[test]
fn workgraph_layer_order_follows_readiness() {
    // a waits for the virtual node v, which completes within the first round, so a
    // becomes ready in a later pass of that round than b
    let mut g = Graph::new();
    let (a, _) = g.insert(SystemId(0));
    let (b, _) = g.insert(SystemId(1));
    let (v, _) = g.insert(SystemId::undefined());
    g.add_dependency(v, a);
    let wg = g.work_graph();
    let layers = wg.topological_order_layers().unwrap();
    assert_eq!(layers, vec![vec![b, a]]);
    assert_eq!(wg.topological_order_layers().unwrap(), layers);
    let systems = wg.systems_topological_order_layers().unwrap();
    assert_eq!(systems, vec![vec![SystemId(1), SystemId(0)]]);
}

#[test]
fn workgraph_layer_is_longest_chain() {
    // b is reached from a through the virtual node v and through c, which follows a: the
    // longest chain a, c, b gives b the third layer
    let mut g = Graph::new();
    let (a, _) = g.insert(SystemId(0));
    let (c, _) = g.insert(SystemId(1));
    let (v, _) = g.insert(SystemId::undefined());
    let (b, _) = g.insert(SystemId(2));
    g.add_dependency(a, c);
    g.add_dependency(a, v);
    g.add_dependency(v, b);
    g.add_dependency(c, b);
    let wg = g.work_graph();
    let layers = wg.topological_order_layers().unwrap();
    assert_eq!(layers, vec![vec![a], vec![c], vec![b]]);
}

#[test]
fn workgraph_cycle_through_virtual_node_detected() {
    // a depends on the virtual node v, which depends on a
    let mut g = Graph::new();
    let (a, _) = g.insert(SystemId(0));
    let (v, _) = g.insert(SystemId::undefined());
    let (_b, _) = g.insert(SystemId(1));
    g.add_dependency(a, v);
    g.add_dependency(v, a);
    let wg = g.work_graph();
    match wg.topological_order_layers() {
        Err(GraphError::CycleDetected(count)) => assert_eq!(count, 2),
        Ok(_) => panic!("cycle not detected"),
    }
}
