use sprouts::graph::{Graph, GraphLoop};

#[test]
fn degree_matches_adjacency_length() {
    let mut g = Graph::new();
    g.add_node(vec![]);
    g.add_node(vec![]);
    assert!(g.has_node(0));
    assert!(g.has_node(1));
    assert!(!g.has_node(2));
    assert_eq!(g.edge_count(0), 0);
    g.add_edge(0, 1);
    assert_eq!(g.edge_count(0), 1);
    assert_eq!(g.edge_count(1), 1);
    assert_eq!(g.neighbours(0), &vec![1]);
    assert_eq!(g.neighbours(1), &vec![0]);
}

#[test]
fn self_loop_counts_as_two() {
    let mut g = Graph::new();
    g.add_node(vec![]);
    g.add_edge(0, 0);
    // one self-loop, stored at both ends of the same list
    assert_eq!(g.edge_count(0), 2);
    assert_eq!(g.neighbours(0), &vec![0, 0]);
}

#[test]
fn add_node_wires_symmetric_edges() {
    let mut g = Graph::new();
    g.add_node(vec![]);
    g.add_node(vec![]);
    let id = g.add_node(vec![0, 1]);
    assert_eq!(id, 2);
    assert_eq!(g.edge_count(0), 1);
    assert_eq!(g.edge_count(1), 1);
    assert_eq!(g.edge_count(2), 2);
    assert_eq!(g.neighbours(2), &vec![0, 1]);
    assert_eq!(g.neighbours(0), &vec![2]);
}

#[test]
fn add_node_with_doubled_neighbour() {
    // the midpoint of a self-loop: joined to the same spot twice
    let mut g = Graph::new();
    g.add_node(vec![]);
    let id = g.add_node(vec![0, 0]);
    assert_eq!(id, 1);
    assert_eq!(g.edge_count(0), 2);
    assert_eq!(g.edge_count(1), 2);
    assert_eq!(g.neighbours(1), &vec![0, 0]);
    assert_eq!(g.neighbours(0), &vec![1, 1]);
}

#[test]
fn iter_nodes_lists_dense_ids() {
    let mut g = Graph::new();
    assert_eq!(g.iter_nodes(), vec![]);
    g.add_node(vec![]);
    g.add_node(vec![]);
    g.add_node(vec![]);
    assert_eq!(g.iter_nodes(), vec![0, 1, 2]);
}

#[test]
fn canonical_identifies_rotations_and_reflections() {
    let readings = [
        vec![0usize, 1, 2],
        vec![1, 2, 0],
        vec![2, 0, 1],
        vec![2, 1, 0],
        vec![1, 0, 2],
        vec![0, 2, 1],
    ];
    let expect = GraphLoop::from(vec![0usize, 1, 2]).canonical();
    for reading in readings {
        assert_eq!(GraphLoop::from(reading).canonical(), expect);
    }
}

#[test]
fn canonical_starts_at_minimum_toward_larger_neighbour() {
    // minimum is 1; its circle neighbours are 7 and 5, so the walk leaves
    // toward 7
    let c = GraphLoop::from(vec![5usize, 1, 7, 3]).canonical();
    assert_eq!(c, vec![1, 7, 3, 5]);
    let d = GraphLoop::from(vec![3usize, 7, 1, 5]).canonical();
    assert_eq!(d, vec![1, 7, 3, 5]);
}

#[test]
fn canonical_separates_different_cycles() {
    let a = GraphLoop::from(vec![0usize, 1, 2]).canonical();
    let b = GraphLoop::from(vec![0usize, 1, 3]).canonical();
    assert_ne!(a, b);
}

#[test]
fn graph_loop_basics() {
    let l = GraphLoop::new();
    assert_eq!(l.len(), 0);
    let l = GraphLoop::from(vec![4usize, 5, 6]);
    assert_eq!(l.len(), 3);
    assert_eq!(l.ids(), &vec![4, 5, 6]);
    assert!(l.contains_id(5));
    assert!(!l.contains_id(7));
}
