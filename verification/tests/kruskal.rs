use std::collections::BTreeSet;

use algorithms::data_structure::DisjointSet;
use algorithms::graph::kruskal::{collect_edges, kruskal, sort_by_cost};
use algorithms::graph::{Edge, Graph};

#[test]
fn test_empty_graph() {
    let graph: Graph<i32> = Graph::default();
    let mst = kruskal(&graph);
    assert!(mst.is_empty());
}

#[test]
fn kruskal_graph1() {
    let mut graph = Graph {
        nodes: vec![1, 2, 3, 4, 5],
        edges: Default::default(),
    };
    graph.add_edge(0, 1, 1);
    graph.add_edge(1, 2, 2);
    graph.add_edge(2, 3, 3);
    graph.add_edge(3, 4, 4);
    graph.add_edge(0, 4, 10);
    graph.add_edge(1, 3, 5);
    let mst = kruskal(&graph);

    assert_eq!(mst.len(), 4);
    assert_eq!(mst.iter().map(|e| e.cost).sum::<usize>(), 10);
}

#[test]
fn kruskal_graph2() {
    let mut graph = Graph {
        nodes: vec![1, 2, 3, 4],
        edges: Default::default(),
    };
    graph.add_edge(0, 1, 1);
    graph.add_edge(1, 2, 2);
    graph.add_edge(2, 3, 3);
    graph.add_edge(3, 0, 4);
    graph.add_edge(0, 2, 10);

    let mst = kruskal(&graph);
    assert_eq!(mst.len(), 3);
    assert_eq!(mst.iter().map(|e| e.cost).sum::<usize>(), 6);
}

#[test]
fn kruskal_graph3() {
    let mut graph = Graph {
        nodes: vec![0, 1, 2, 3, 4, 5, 6],
        edges: Default::default(),
    };
    graph.add_edge(0, 1, 2);
    graph.add_edge(0, 3, 4);
    graph.add_edge(0, 5, 5);
    graph.add_edge(1, 3, 1);
    graph.add_edge(1, 5, 8);
    graph.add_edge(1, 4, 3);
    graph.add_edge(1, 2, 7);
    graph.add_edge(1, 6, 4);
    graph.add_edge(2, 6, 6);
    graph.add_edge(2, 4, 10);
    graph.add_edge(5, 6, 1);
    graph.add_edge(3, 4, 2);

    let mst = kruskal(&graph);
    assert_eq!(mst.len(), 6);
    assert_eq!(mst.iter().map(|e| e.cost).sum::<usize>(), 16);

    let res = [
        (1, 3, 1),
        (5, 6, 1),
        (0, 1, 2),
        (3, 4, 2),
        (1, 6, 4),
        (2, 6, 6),
    ]
    .iter()
    .map(|(src, dst, cost)| Edge {
        src: *src,
        dst: *dst,
        cost: *cost,
    })
    .collect::<BTreeSet<_>>();
    assert_eq!(BTreeSet::from_iter(mst.into_iter()), res);
}

fn edge(src: usize, dst: usize, cost: usize) -> Edge {
    Edge { src, dst, cost }
}

#[test]
fn edges_are_taken_by_cost_and_by_source_where_costs_are_equal() {
    let mut graph = Graph {
        nodes: vec![0, 1, 2],
        edges: Default::default(),
    };
    graph.add_edge(2, 0, 1);
    graph.add_edge(1, 2, 1);
    graph.add_edge(0, 1, 1);
    assert_eq!(
        collect_edges(&graph),
        vec![edge(0, 1, 1), edge(1, 2, 1), edge(2, 0, 1)]
    );
    assert_eq!(kruskal(&graph), vec![edge(0, 1, 1), edge(1, 2, 1)]);
}

#[test]
fn sorting_by_cost_is_stable() {
    let mut edges = vec![
        edge(0, 1, 3),
        edge(1, 2, 1),
        edge(2, 3, 3),
        edge(3, 4, 0),
        edge(4, 5, 1),
        edge(5, 6, 3),
    ];
    sort_by_cost(&mut edges);
    assert_eq!(
        edges,
        vec![
            edge(3, 4, 0),
            edge(1, 2, 1),
            edge(4, 5, 1),
            edge(0, 1, 3),
            edge(2, 3, 3),
            edge(5, 6, 3),
        ]
    );
}

#[test]
fn kruskal_leaves_no_cycle_and_joins_what_the_graph_joins() {
    let mut graph = Graph {
        nodes: vec![0; 9],
        edges: Default::default(),
    };
    let mut x = 5usize;
    for _ in 0..30 {
        x = (x * 31 + 7) % 101;
        let a = x % 9;
        let b = (x / 9) % 9;
        // node 8 stays alone
        if a != 8 && b != 8 {
            graph.add_edge(a, b, x % 6);
        }
    }
    let mst = kruskal(&graph);
    let mut forest = DisjointSet::new(9);
    for e in mst.iter() {
        assert_ne!(forest.find(e.src), forest.find(e.dst));
        forest.union(e.src, e.dst);
    }
    for e in collect_edges(&graph) {
        assert_eq!(forest.find(e.src), forest.find(e.dst));
    }
    assert_eq!(forest.find(8), 8);
}
