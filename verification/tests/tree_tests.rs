use polarcoaster::trace::{Event, Trace};
use polarcoaster::tree::{reconstruct, Reconstruction};

fn tree_of(depths: Vec<usize>) -> Reconstruction {
    let mut events = Vec::new();
    let mut max_depth = 0;
    for d in &depths {
        events.push(Event::Query { term: String::from("q") });
        if *d > max_depth {
            max_depth = *d;
        }
    }
    let trace = Trace::new(max_depth, depths, events).unwrap();
    reconstruct(trace.depths())
}

fn joined(edges: &Vec<(usize, usize)>, a: usize, b: usize) -> bool {
    edges.contains(&(a, b)) || edges.contains(&(b, a))
}

#[test]
fn root_with_two_children_the_second_with_one_child() {
    let tree = tree_of(vec![0, 1, 2, 1, 2]);
    assert_eq!(tree.edges, vec![(0, 1), (1, 2), (0, 3), (3, 4)]);
    assert_eq!(tree.cart_path, vec![0, 1, 2, 1, 0, 3, 4]);
}

#[test]
fn lone_root_has_no_edges() {
    let tree = tree_of(vec![0]);
    assert_eq!(tree.edges, Vec::<(usize, usize)>::new());
    assert_eq!(tree.cart_path, vec![0]);
}

#[test]
fn straight_descent_needs_no_retrace() {
    let tree = tree_of(vec![0, 1, 2, 3]);
    assert_eq!(tree.edges, vec![(0, 1), (1, 2), (2, 3)]);
    assert_eq!(tree.cart_path, vec![0, 1, 2, 3]);
}

#[test]
fn node_at_the_level_of_its_predecessor_hangs_under_it() {
    let tree = tree_of(vec![0, 1, 1]);
    assert_eq!(tree.edges, vec![(0, 1), (1, 2)]);
    assert_eq!(tree.cart_path, vec![0, 1, 2]);
}

#[test]
fn backtrack_over_several_levels_retraces_each() {
    let tree = tree_of(vec![0, 1, 2, 3, 1]);
    assert_eq!(tree.edges, vec![(0, 1), (1, 2), (2, 3), (0, 4)]);
    assert_eq!(tree.cart_path, vec![0, 1, 2, 3, 2, 1, 0, 4]);
}

#[test]
fn backtrack_stops_at_the_parent_of_the_new_node() {
    let tree = tree_of(vec![0, 1, 2, 3, 2]);
    assert_eq!(tree.edges, vec![(0, 1), (1, 2), (2, 3), (1, 4)]);
    assert_eq!(tree.cart_path, vec![0, 1, 2, 3, 2, 1, 4]);
}

#[test]
fn backtrack_passes_the_nodes_of_a_run() {
    let tree = tree_of(vec![0, 1, 1, 2, 1]);
    assert_eq!(tree.edges, vec![(0, 1), (1, 2), (2, 3), (0, 4)]);
    assert_eq!(tree.cart_path, vec![0, 1, 2, 3, 2, 1, 0, 4]);
}

#[test]
fn backtrack_hangs_the_node_under_the_latest_node_one_level_up() {
    let tree = tree_of(vec![0, 1, 2, 1, 2, 2, 3, 2]);
    assert_eq!(tree.edges, vec![(0, 1), (1, 2), (0, 3), (3, 4), (4, 5), (5, 6), (3, 7)]);
    assert_eq!(tree.cart_path, vec![0, 1, 2, 1, 0, 3, 4, 5, 6, 5, 4, 3, 7]);
}

#[test]
fn every_node_but_the_root_has_one_parent() {
    let depths = vec![0, 1, 2, 2, 3, 1, 2, 3, 3, 2, 1, 1, 2];
    let n = depths.len();
    let tree = tree_of(depths);
    assert_eq!(tree.edges.len(), n - 1);
    for k in 0..n - 1 {
        assert_eq!(tree.edges[k].1, k + 1);
        assert!(tree.edges[k].0 < tree.edges[k].1);
    }
}

#[test]
fn walk_moves_along_one_edge_at_a_time() {
    let depths = vec![0, 1, 2, 2, 3, 1, 2, 3, 3, 2, 1, 1, 2];
    let n = depths.len();
    let tree = tree_of(depths);
    assert_eq!(tree.cart_path[0], 0);
    assert_eq!(tree.cart_path[tree.cart_path.len() - 1], n - 1);
    assert!(tree.cart_path.len() > n);
    for j in 0..tree.cart_path.len() - 1 {
        assert!(joined(&tree.edges, tree.cart_path[j], tree.cart_path[j + 1]));
    }
}
