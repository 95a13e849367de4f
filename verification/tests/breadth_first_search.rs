use algorithms::traversal::breadth_first_search::{breadth_first_search, Graph, Node};

/* Example graph #1:
 *
 *            (1)   <--- Root
 *           /   \
 *         (2)   (3)
 *        / |     | \
 *     (4) (5)   (6) (7)
 *          |
 *         (8)
 */
fn graph1() -> Graph {
    let nodes = vec![1, 2, 3, 4, 5, 6, 7, 8];
    let edges = vec![(0, 1), (0, 2), (1, 3), (1, 4), (2, 5), (2, 6), (4, 7)];

    Graph {
        nodes: nodes.into_iter().map(Node).collect(),
        edges,
    }
}

/* Example graph #2:
 *
 *     (1) --- (2)     (3) --- (4)
 *            / |     /       /
 *          /   |   /       /
 *        /     | /       /
 *     (5)     (6) --- (7)     (8)
 */
fn graph2() -> Graph {
    let nodes = vec![1, 2, 3, 4, 5, 6, 7, 8];
    let edges = vec![
        (0, 1),
        (1, 0),
        (1, 4),
        (4, 1),
        (1, 5),
        (5, 1),
        (2, 3),
        (3, 2),
        (2, 5),
        (5, 2),
        (3, 6),
        (6, 3),
        (5, 6),
        (6, 5),
    ];

    Graph {
        nodes: nodes.into_iter().map(Node).collect(),
        edges,
    }
}

#[test]
fn bfs_fail1() {
    let graph = graph1();
    let root_id = 0;
    let target = Node(10);

    let (_, found) = breadth_first_search(&graph, root_id, &target);
    assert_eq!(found, None);
}

#[test]
fn bfs_success1() {
    let graph = graph1();

    let root_id = 0;
    let target = Node(8);
    let expected_path = vec![1, 2, 3, 4, 5, 6, 7, 8];

    let (path, found) = breadth_first_search(&graph, root_id, &target);

    assert_eq!(found, Some(7));
    assert_eq!(path, expected_path);
}

#[test]
fn bfs_fail2() {
    let graph = graph2();

    let root_id = 0;
    let target = Node(8);

    let (_, found) = breadth_first_search(&graph, root_id, &target);
    assert_eq!(found, None);
}

#[test]
fn bfs_success2() {
    let graph = graph2();

    let root_id = 3;
    let target = Node(1);
    let expected_path = vec![4, 3, 7, 6, 2, 1];

    let (path, found) = breadth_first_search(&graph, root_id, &target);
    assert_eq!(found, Some(0));
    assert_eq!(path, expected_path);
}

#[test]
fn bfs_visits_all_that_can_be_reached_and_nothing_else() {
    let graph = graph2();
    let (path, found) = breadth_first_search(&graph, 0, &Node(8));
    assert_eq!(found, None);
    assert_eq!(path, vec![1, 2, 5, 6, 3, 7, 4]);
    assert_eq!(graph.neighbours(1), vec![0, 4, 5]);
    assert_eq!(graph.neighbours(7), Vec::<usize>::new());
    let (path, found) = breadth_first_search(&graph, 7, &Node(8));
    assert_eq!(found, Some(7));
    assert_eq!(path, vec![8]);
}
