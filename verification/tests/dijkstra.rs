use std::collections::BTreeMap;

use algorithms::graph::dijkstra::{dijkstra, relax_edges, QueueEntry};
use algorithms::graph::Graph;
use algorithms::data_structure::BinaryHeap;

#[test]
fn dijkstra_graph1() {
    let mut graph = Graph::default();
    for i in 0..5 {
        graph.nodes.push(i);
    }

    graph.add_edge(0, 2, 12);
    graph.add_edge(0, 3, 60);
    graph.add_edge(1, 0, 10);
    graph.add_edge(2, 1, 20);
    graph.add_edge(2, 3, 32);
    graph.add_edge(4, 0, 7);

    let mut dists_a = BTreeMap::new();
    dists_a.insert(0, (None, 0));
    dists_a.insert(2, (Some(0), 12));
    dists_a.insert(3, (Some(2), 44));
    dists_a.insert(1, (Some(2), 32));
    assert_eq!(dijkstra(&graph, 0), dists_a);

    let mut dists_b = BTreeMap::new();
    dists_b.insert(1, (None, 0));
    dists_b.insert(0, (Some(1), 10));
    dists_b.insert(2, (Some(0), 22));
    dists_b.insert(3, (Some(2), 54));
    assert_eq!(dijkstra(&graph, 1), dists_b);

    let mut dists_c = BTreeMap::new();
    dists_c.insert(2, (None, 0));
    dists_c.insert(1, (Some(2), 20));
    dists_c.insert(3, (Some(2), 32));
    dists_c.insert(0, (Some(1), 30));
    assert_eq!(dijkstra(&graph, 2), dists_c);

    let mut dists_d = BTreeMap::new();
    dists_d.insert(3, (None, 0));
    assert_eq!(dijkstra(&graph, 3), dists_d);

    let mut dists_e = BTreeMap::new();
    dists_e.insert(4, (None, 0));
    dists_e.insert(0, (Some(4), 7));
    dists_e.insert(2, (Some(0), 19));
    dists_e.insert(3, (Some(2), 51));
    dists_e.insert(1, (Some(2), 39));
    assert_eq!(dijkstra(&graph, 4), dists_e);
}

#[test]
fn dijkstra_graph2() {
    let mut graph = Graph::default();
    for i in 0..5 {
        graph.nodes.push(i);
    }

    graph.add_edge(0, 1, 10);
    graph.add_edge(0, 2, 3);
    graph.add_edge(1, 3, 2);
    graph.add_edge(2, 1, 4);
    graph.add_edge(2, 3, 8);
    graph.add_edge(2, 4, 2);
    graph.add_edge(3, 4, 5);

    let mut expected = BTreeMap::new();
    expected.insert(0, (None, 0));
    expected.insert(1, (Some(2), 7));
    expected.insert(2, (Some(0), 3));
    expected.insert(3, (Some(1), 9));
    expected.insert(4, (Some(2), 5));
    assert_eq!(dijkstra(&graph, 0), expected);
}

#[test]
fn dijkstra_graph3() {
    let mut graph = Graph::default();
    let rows = 100;
    let cols = 100;
    let nid = |r: usize, c: usize| r * cols + c;

    for row in 0..rows {
        for col in 0..cols {
            graph.nodes.push((row, col));
            if row + 1 < rows {
                graph.add_edge(nid(row, col), nid(row + 1, col), 1);
            }
            if col + 1 < cols {
                graph.add_edge(nid(row, col), nid(row, col + 1), 1);
            }
            if row + 1 < rows && col + 1 < cols {
                graph.add_edge(nid(row, col), nid(row + 1, col + 1), 1);
            }
        }
    }

    let res = dijkstra(&graph, 0);
    for row in 0..rows {
        for col in 0..cols {
            let expected_cost = row.max(col);
            let id = nid(row, col);
            assert_eq!(res[&id].1, expected_cost);
        }
    }
}

#[test]
fn nodes_out_of_reach_are_left_out() {
    let mut graph = Graph::default();
    for i in 0..4 {
        graph.nodes.push(i);
    }
    graph.add_edge(0, 1, 5);
    graph.add_edge(2, 3, 1);
    let res = dijkstra(&graph, 0);
    assert_eq!(res.len(), 2);
    assert_eq!(res[&0], (None, 0));
    assert_eq!(res[&1], (Some(0), 5));
    assert!(!res.contains_key(&2));
    assert!(!res.contains_key(&3));
}

#[test]
fn a_way_that_costs_more_than_fits_is_not_followed() {
    let mut graph = Graph::default();
    for i in 0..4 {
        graph.nodes.push(i);
    }
    graph.add_edge(0, 1, usize::MAX);
    graph.add_edge(1, 2, 1);
    graph.add_edge(0, 3, usize::MAX - 1);
    graph.add_edge(3, 1, 1);
    let res = dijkstra(&graph, 0);
    assert_eq!(res[&1], (Some(0), usize::MAX));
    assert_eq!(res[&3], (Some(0), usize::MAX - 1));
    assert!(!res.contains_key(&2));
}

#[test]
fn edges_of_cost_zero_and_loops_do_no_harm() {
    let mut graph = Graph::default();
    for i in 0..3 {
        graph.nodes.push(i);
    }
    graph.add_edge(0, 0, 4);
    graph.add_edge(0, 1, 0);
    graph.add_edge(1, 0, 0);
    graph.add_edge(1, 1, 0);
    graph.add_edge(1, 2, 0);
    let res = dijkstra(&graph, 0);
    assert_eq!(res[&0], (None, 0));
    assert_eq!(res[&1], (Some(0), 0));
    assert_eq!(res[&2], (Some(1), 0));
}

#[test]
fn a_popped_node_keeps_its_distance() {
    // graph of the second example; each entry is expanded by hand in the
    // order of its cost, and the recorded cost of an expanded node stays
    let mut graph = Graph::default();
    for i in 0..5 {
        graph.nodes.push(i);
    }
    graph.add_edge(0, 1, 10);
    graph.add_edge(0, 2, 3);
    graph.add_edge(1, 3, 2);
    graph.add_edge(2, 1, 4);
    graph.add_edge(2, 3, 8);
    graph.add_edge(2, 4, 2);
    graph.add_edge(3, 4, 5);

    let mut prevs = BTreeMap::new();
    let mut queue = BinaryHeap::new();
    prevs.insert(0, (None, 0));
    queue.push(QueueEntry { cost: 0, node_id: 0 });
    let mut settled: BTreeMap<usize, usize> = BTreeMap::new();
    let mut last_cost = 0;
    while let Some(entry) = queue.pop() {
        assert!(last_cost <= entry.cost);
        last_cost = entry.cost;
        settled.entry(entry.node_id).or_insert(prevs[&entry.node_id].1);
        relax_edges(&graph, 0, &entry, &mut prevs, &mut queue);
        for (node, cost) in settled.iter() {
            assert_eq!(prevs[node].1, *cost);
        }
    }
    assert_eq!(prevs, dijkstra(&graph, 0));
    assert_eq!(settled.len(), 5);
}
