use std::collections::BTreeSet;

use algorithms::data_structure::DisjointSet;
use algorithms::graph::kruskal::kruskal;
use algorithms::graph::prim::prim;
use algorithms::graph::{Edge, Graph};

#[test]
fn prim_graph1() {
    let mut graph = Graph {
        nodes: vec![1, 2, 3, 4, 5],
        edges: Default::default(),
    };
    graph.add_undirected_edge(0, 1, 1);
    graph.add_undirected_edge(1, 2, 2);
    graph.add_undirected_edge(2, 3, 3);
    graph.add_undirected_edge(3, 4, 4);
    graph.add_undirected_edge(0, 4, 10);
    graph.add_undirected_edge(1, 3, 5);
    let mst = prim(&graph);

    assert_eq!(mst.len(), 4);
    assert_eq!(mst.iter().map(|e| e.cost).sum::<usize>(), 10);
}

#[test]
fn prim_graph2() {
    let mut graph = Graph {
        nodes: vec![1, 2, 3, 4],
        edges: Default::default(),
    };
    graph.add_undirected_edge(0, 1, 1);
    graph.add_undirected_edge(1, 2, 2);
    graph.add_undirected_edge(2, 3, 3);
    graph.add_undirected_edge(3, 0, 4);
    graph.add_undirected_edge(0, 2, 10);

    let mst = prim(&graph);
    assert_eq!(mst.len(), 3);
    assert_eq!(mst.iter().map(|e| e.cost).sum::<usize>(), 6);
}

#[test]
fn prim_graph3() {
    let mut graph = Graph {
        nodes: vec![0, 1, 2, 3, 4, 5, 6],
        edges: Default::default(),
    };
    graph.add_undirected_edge(0, 1, 2);
    graph.add_undirected_edge(0, 3, 4);
    graph.add_undirected_edge(0, 5, 5);
    graph.add_undirected_edge(1, 3, 1);
    graph.add_undirected_edge(1, 5, 8);
    graph.add_undirected_edge(1, 4, 3);
    graph.add_undirected_edge(1, 2, 7);
    graph.add_undirected_edge(1, 6, 4);
    graph.add_undirected_edge(2, 6, 6);
    graph.add_undirected_edge(2, 4, 10);
    graph.add_undirected_edge(5, 6, 1);
    graph.add_undirected_edge(3, 4, 2);

    let mst = prim(&graph);
    assert_eq!(mst.len(), 6);
    assert_eq!(mst.iter().map(|e| e.cost).sum::<usize>(), 16);

    let res = [
        (0, 1, 2),
        (1, 3, 1),
        (3, 4, 2),
        (1, 6, 4),
        (6, 5, 1),
        (6, 2, 6),
    ]
    .iter()
    .map(|(src, dst, cost)| Edge {
        src: *src,
        dst: *dst,
        cost: *cost,
    })
    .collect::<BTreeSet<_>>();
    assert_eq!(BTreeSet::from_iter(mst.into_iter()), res);
}

#[test]
fn prim_grows_the_tree_of_node_zero_only() {
    let mut graph = Graph {
        nodes: vec![0; 5],
        edges: Default::default(),
    };
    graph.add_undirected_edge(0, 1, 3);
    graph.add_undirected_edge(1, 2, 1);
    graph.add_undirected_edge(0, 2, 1);
    graph.add_undirected_edge(3, 4, 1);
    graph.add_undirected_edge(0, 0, 0);
    let mst = prim(&graph);
    assert_eq!(
        mst,
        vec![
            Edge { src: 0, dst: 2, cost: 1 },
            Edge { src: 2, dst: 1, cost: 1 },
        ]
    );
    let empty: Graph<u8> = Graph::default();
    assert!(prim(&empty).is_empty());
}

#[test]
fn prim_and_kruskal_agree_on_the_total_cost() {
    let mut graph = Graph {
        nodes: vec![0; 10],
        edges: Default::default(),
    };
    // a ring keeps the graph connected
    for i in 0..10 {
        graph.add_undirected_edge(i, (i + 1) % 10, 3 + i % 4);
    }
    let mut x = 11usize;
    for _ in 0..25 {
        x = (x * 37 + 11) % 211;
        graph.add_undirected_edge(x % 10, (x / 10) % 10, x % 7);
    }
    let by_prim = prim(&graph);
    let by_kruskal = kruskal(&graph);
    assert_eq!(by_prim.len(), 9);
    assert_eq!(by_kruskal.len(), 9);
    assert_eq!(
        by_prim.iter().map(|e| e.cost).sum::<usize>(),
        by_kruskal.iter().map(|e| e.cost).sum::<usize>()
    );
    let mut forest = DisjointSet::new(10);
    for e in by_prim.iter() {
        assert_ne!(forest.find(e.src), forest.find(e.dst));
        forest.union(e.src, e.dst);
    }
}
