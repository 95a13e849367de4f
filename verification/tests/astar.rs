use algorithms::graph::astar::astar;
use algorithms::graph::dijkstra::dijkstra;
use algorithms::graph::{Graph, NodeVal};

fn null_heuristic<V: NodeVal>(_: &Graph<V>, _: usize) -> usize {
    0
}

#[test]
fn test_dijkstra() {
    let mut graph = Graph::default();
    for i in 0..5 {
        graph.nodes.push(i);
    }

    graph.add_edge(0, 1, 10);
    graph.add_edge(0, 2, 3);
    graph.add_edge(1, 3, 2);
    graph.add_edge(2, 1, 4);
    graph.add_edge(2, 3, 8);
    graph.add_edge(2, 4, 2);
    graph.add_edge(3, 4, 5);

    assert_eq!(
        astar(&graph, 0, 1, null_heuristic),
        Some((7, vec![0, 2, 1]))
    );
    assert_eq!(astar(&graph, 0, 2, null_heuristic), Some((3, vec![0, 2])));
    assert_eq!(
        astar(&graph, 0, 3, null_heuristic),
        Some((9, vec![0, 2, 1, 3]))
    );
    assert_eq!(
        astar(&graph, 0, 4, null_heuristic),
        Some((5, vec![0, 2, 4]))
    );
}

#[test]
fn test_heuristic() {
    // make a grid
    let mut graph = Graph::default();
    let rows = 500;
    let cols = 500;

    let nid = |r, c| r * cols + c;
    for row in 0..rows {
        for col in 0..cols {
            graph.nodes.push((row, col));
            if row + 1 < rows {
                graph.add_edge(nid(row, col), nid(row + 1, col), 1);
            }
            if col + 1 < cols {
                graph.add_edge(nid(row, col), nid(row, col + 1), 1);
            }
            if row + 1 < rows && col + 1 < cols {
                graph.add_edge(nid(row, col), nid(row + 1, col + 1), 1);
            }
        }
    }

    let target = (455usize, 479usize);

    // manhattan distance
    let h = |g: &Graph<(usize, usize)>, nid: usize| {
        let (r, c) = g.nodes[nid];
        let m = (target.0 as i32 - r as i32).abs() + (target.1 as i32 - c as i32).abs();
        m as usize
    };

    // Dijkstra would explore most of the nodes
    // the heuristic should allow exploring far fewer nodes
    let now = std::time::Instant::now();
    let res = astar(&graph, 0, target, h).unwrap();
    assert!(now.elapsed() < std::time::Duration::from_millis(10));
    assert_eq!(res.0, 479);
    assert_eq!(res.1.len(), 480);
}

#[test]
fn a_target_out_of_reach_is_not_found() {
    let mut graph = Graph::default();
    for i in 0..4 {
        graph.nodes.push(i);
    }
    graph.add_edge(0, 1, 1);
    graph.add_edge(2, 3, 1);
    assert_eq!(astar(&graph, 0, 3, null_heuristic), None);
    assert_eq!(astar(&graph, 0, 9, null_heuristic), None);
    assert_eq!(astar(&graph, 0, 0, null_heuristic), Some((0, vec![0])));
}

#[test]
fn the_nearest_node_of_the_value_is_found() {
    let mut graph = Graph::default();
    for value in [0, 7, 1, 7] {
        graph.nodes.push(value);
    }
    graph.add_edge(0, 1, 10);
    graph.add_edge(0, 2, 2);
    graph.add_edge(2, 3, 3);
    assert_eq!(astar(&graph, 0, 7, null_heuristic), Some((5, vec![0, 2, 3])));
}

#[test]
fn astar_agrees_with_dijkstra_under_an_admissible_heuristic() {
    // a grid with steps to the right, down and diagonally, all of cost 1;
    // the larger of the two distances to the target never overestimates
    let rows = 12usize;
    let cols = 9usize;
    let nid = |r: usize, c: usize| r * cols + c;
    let mut graph = Graph::default();
    for row in 0..rows {
        for col in 0..cols {
            graph.nodes.push((row, col));
            if row + 1 < rows {
                graph.add_edge(nid(row, col), nid(row + 1, col), 1);
            }
            if col + 1 < cols {
                graph.add_edge(nid(row, col), nid(row, col + 1), 1);
            }
            if row + 1 < rows && col + 1 < cols {
                graph.add_edge(nid(row, col), nid(row + 1, col + 1), 1);
            }
        }
    }
    let dists = dijkstra(&graph, nid(1, 2));
    for row in 0..rows {
        for col in 0..cols {
            let target = (row, col);
            let h = |g: &Graph<(usize, usize)>, id: usize| {
                let (r, c) = g.nodes[id];
                if r > target.0 || c > target.1 {
                    0
                } else {
                    (target.0 - r).max(target.1 - c)
                }
            };
            let found = astar(&graph, nid(1, 2), target, h);
            match dists.get(&nid(row, col)) {
                None => assert_eq!(found, None),
                Some(record) => {
                    let (cost, path) = found.unwrap();
                    assert_eq!(cost, record.1);
                    assert_eq!(path[0], nid(1, 2));
                    assert_eq!(*path.last().unwrap(), nid(row, col));
                    assert_eq!(path.len(), cost + 1);
                }
            }
        }
    }
}

#[test]
fn an_estimate_too_large_to_add_counts_as_the_largest() {
    let mut graph = Graph::default();
    for i in 0..3 {
        graph.nodes.push(i);
    }
    graph.add_edge(0, 1, 4);
    graph.add_edge(1, 2, 4);
    let h = |_: &Graph<i32>, _: usize| usize::MAX;
    assert_eq!(astar(&graph, 0, 2, h), Some((8, vec![0, 1, 2])));
}
