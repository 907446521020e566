use algorithms::graph::{DiGraph, NodeNotInGraph};

fn sample() -> DiGraph<()> {
    let mut digraph: DiGraph<()> = DiGraph::new();
    digraph.add_edge((0, 2), (), ());
    digraph.add_edge((0, 1), (), ());
    digraph.add_edge((0, 5), (), ());
    digraph.add_edge((3, 5), (), ());
    digraph.add_edge((3, 4), (), ());
    digraph.add_edge((2, 4), (), ());
    digraph.add_edge((2, 1), (), ());
    digraph.add_edge((2, 3), (), ());
    digraph
}

#[test]
fn tests_dfs() {
    let digraph = sample();
    digraph.shortest_path(0, 5).unwrap(); // [0, 5]
}

#[test]
fn digraph_dfs() {
    let digraph = sample();
    digraph.shortest_path(0, 5).unwrap(); // [0, 5]
}

#[test]
fn shortest_path_takes_fewest_edges() {
    let digraph = sample();
    let path: Vec<u32> = digraph.shortest_path(0, 5).unwrap().unwrap().into_iter().collect();
    assert_eq!(path, vec![0, 5]);
    let path: Vec<u32> = digraph.shortest_path(0, 4).unwrap().unwrap().into_iter().collect();
    assert_eq!(path, vec![0, 2, 4]);
    let path: Vec<u32> = digraph.shortest_path(2, 2).unwrap().unwrap().into_iter().collect();
    assert_eq!(path, vec![2]);
}

#[test]
fn shortest_path_errors_and_unreachable() {
    let digraph = sample();
    assert_eq!(digraph.shortest_path(9, 5).err(), Some(NodeNotInGraph(9)));
    assert_eq!(digraph.shortest_path(0, 8).err(), Some(NodeNotInGraph(8)));
    assert!(digraph.shortest_path(5, 0).unwrap().is_none());
}

#[test]
fn digraph_counts_and_edges() {
    let digraph = sample();
    assert_eq!(digraph.node_count(), 6);
    assert_eq!(digraph.vs(), 6);
    assert_eq!(digraph.edge_count(), 8);
    assert!(digraph.contains_id(3));
    assert!(digraph.contains_vert(4));
    assert!(!digraph.contains_id(7));
    let mut edges = digraph.edges();
    edges.sort();
    assert_eq!(
        edges,
        vec![(0, 1), (0, 2), (0, 5), (2, 1), (2, 3), (2, 4), (3, 4), (3, 5)]
    );
}
