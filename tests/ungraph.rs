use algorithms::graph::NodeNotInGraph;
use algorithms::ungraph::{UnGraph, WeiEdge};

fn sample() -> UnGraph<()> {
    let mut graph: UnGraph<()> = UnGraph::new();
    graph.add_edge((4, 5, 35), (), ());
    graph.add_edge((4, 7, 37), (), ());
    graph.add_edge((5, 7, 28), (), ());
    graph.add_edge((0, 7, 16), (), ());
    graph.add_edge((1, 5, 32), (), ());
    graph.add_edge((0, 4, 38), (), ());
    graph.add_edge((2, 3, 17), (), ());
    graph.add_edge((1, 7, 19), (), ());
    graph.add_edge((0, 2, 26), (), ());
    graph.add_edge((1, 2, 36), (), ());
    graph.add_edge((1, 3, 29), (), ());
    graph.add_edge((2, 7, 34), (), ());
    graph.add_edge((6, 2, 40), (), ());
    graph.add_edge((3, 6, 52), (), ());
    graph.add_edge((6, 0, 58), (), ());
    graph.add_edge((6, 4, 93), (), ());
    graph
}

fn print_mst(name: &str, mst: &[WeiEdge]) -> i32 {
    println!("{}", name);
    for edge in mst {
        println!("{:?}", edge);
    }
    let sum: i32 = mst.iter().map(|e| e.weight).sum();
    println!("{:?}", sum);
    sum
}

#[test]
fn lazy_prim_mst() {
    let graph = sample();
    let mst = graph.lazy_prim_mst(0).unwrap();
    print_mst("lazy_prim_mst\n", &mst);
}

#[test]
fn prim_mst() {
    let graph = sample();
    let mst = graph.prim_mst(0).unwrap();
    print_mst("prim_mst\n", &mst);
}

#[test]
fn kruskal_mst() {
    let graph = sample();
    let mst = graph.kruskal_mst().unwrap();
    print_mst("kruskal_mst\n", &mst);
}

#[test]
fn test_lazy_prim_mst() {
    let graph = sample();
    let ms_tree = graph.lazy_prim_mst(0).unwrap();
    print_mst("lazy_prim_mst\n", &ms_tree);
}

#[test]
fn test_prim_mst() {
    let graph = sample();
    let ms_tree = graph.prim_mst(0).unwrap();
    print_mst("prim_mst\n", &ms_tree);
}

#[test]
fn test_kruskal_mst() {
    let graph = sample();
    let ms_tree = graph.kruskal_mst().unwrap();
    print_mst("kruskal_mst\n", &ms_tree);
}

#[test]
fn spanning_trees_have_minimum_weight() {
    let graph = sample();
    let lazy = graph.lazy_prim_mst(0).unwrap();
    let eager = graph.prim_mst(0).unwrap();
    let kruskal = graph.kruskal_mst().unwrap();
    assert_eq!(lazy.len(), 7);
    assert_eq!(eager.len(), 7);
    assert_eq!(kruskal.len(), 7);
    assert_eq!(print_mst("lazy", &lazy), 181);
    assert_eq!(print_mst("eager", &eager), 181);
    assert_eq!(print_mst("kruskal", &kruskal), 181);
    for w in kruskal.windows(2) {
        assert!(w[0].weight <= w[1].weight);
    }
}

#[test]
fn ungraph_queries_and_errors() {
    let graph = sample();
    assert_eq!(graph.node_count(), 8);
    assert_eq!(graph.vs(), 8);
    assert_eq!(graph.len(), 8);
    assert!(!graph.is_empty());
    assert!(graph.contains_id(6));
    assert!(!graph.contains_id(8));
    assert_eq!(graph.edges().len(), 16);
    let mut ids = graph.ids();
    ids.sort();
    assert_eq!(ids, vec![0, 1, 2, 3, 4, 5, 6, 7]);
    assert_eq!(graph.vids().len(), 8);
    assert_eq!(graph.lazy_prim_mst(9).err(), Some(NodeNotInGraph(9)));
    assert_eq!(graph.prim_mst(9).err(), Some(NodeNotInGraph(9)));
    let empty: UnGraph<()> = UnGraph::new();
    assert!(empty.is_empty());
    assert!(empty.kruskal_mst().is_none());
}

#[test]
fn weighted_edge_other_end() {
    let e = WeiEdge::new(5, (3, 9));
    assert_eq!(e.other(3), 9);
    assert_eq!(e.other(9), 3);
    assert_eq!(e.weight, 5);
}
