use algorithms::traversal::depth_first_search::{
    depth_first_search_it, depth_first_search_rec, Graph, Node,
};

/* Example graph #1:
 *
 *            (1)   <--- Root
 *           /   \
 *         (2)   (3)
 *        / |     | \
 *     (4) (5)   (6) (7)
 *          |
 *         (8)
 */
fn graph1() -> Graph {
    let nodes = vec![1, 2, 3, 4, 5, 6, 7, 8];
    let edges = vec![(0, 1), (0, 2), (1, 3), (1, 4), (2, 5), (2, 6), (4, 7)];

    Graph {
        nodes: nodes.into_iter().map(Node).collect(),
        edges,
    }
}

/* Example graph #2:
 *
 *     (1) --- (2)     (3) --- (4)
 *            / |     /       /
 *          /   |   /       /
 *        /     | /       /
 *     (5)     (6) --- (7)     (8)
 */
fn graph2() -> Graph {
    let nodes = vec![1, 2, 3, 4, 5, 6, 7, 8];
    let edges = vec![
        (0, 1),
        (1, 0),
        (1, 4),
        (4, 1),
        (1, 5),
        (5, 1),
        (2, 3),
        (3, 2),
        (2, 5),
        (5, 2),
        (3, 6),
        (6, 3),
        (5, 6),
        (6, 5),
    ];

    Graph {
        nodes: nodes.into_iter().map(Node).collect(),
        edges,
    }
}

#[test]
fn dfs_rec_fail() {
    let graph = graph1();

    let root_id = 0;
    let target = Node(10);
    let correct_path = vec![1, 2, 4, 5, 8, 3, 6, 7];

    let mut path = Vec::new();
    let res = depth_first_search_rec(&graph, &mut path, root_id, &target);
    assert_eq!(res, None);
    assert_eq!(correct_path, path);
}

#[test]
fn dfs_rec_success() {
    let graph = graph1();

    let root_id = 0;
    let target = Node(6);
    let correct_path = vec![1, 2, 4, 5, 8, 3, 6];

    let mut path = Vec::new();
    let res = depth_first_search_rec(&graph, &mut path, root_id, &target);
    assert_eq!(res, Some(5));
    assert_eq!(correct_path, path);
}

#[test]
fn dfs_it_success() {
    let graph = graph2();

    let root_id = 0;
    let target = Node(4);
    let correct_path = vec![1, 2, 5, 6, 3, 4];

    let (path, res) = depth_first_search_it(&graph, root_id, &target);
    assert_eq!(correct_path, path);
    assert_eq!(res, Some(3));
}

#[test]
fn dfs_it_fail() {
    let graph = graph2();

    let root_id = 0;
    let target = Node(8);
    let correct_path = vec![1, 2, 5, 6, 3, 4, 7];

    let (path, res) = depth_first_search_it(&graph, root_id, &target);
    assert_eq!(correct_path, path);
    assert_eq!(res, None);
}

#[test]
fn dfs_rec_adds_to_the_path_it_is_given() {
    let graph = graph1();
    let mut path = vec![99];
    let res = depth_first_search_rec(&graph, &mut path, 1, &Node(8));
    assert_eq!(res, Some(7));
    assert_eq!(path, vec![99, 2, 4, 5, 8]);
    // a node that two ways lead to is visited twice
    let diamond = Graph {
        nodes: vec![Node(0), Node(1), Node(2), Node(3)],
        edges: vec![(0, 1), (0, 2), (1, 3), (2, 3)],
    };
    let mut path = Vec::new();
    assert_eq!(depth_first_search_rec(&diamond, &mut path, 0, &Node(7)), None);
    assert_eq!(path, vec![0, 1, 3, 2, 3]);
    let (path, res) = depth_first_search_it(&diamond, 0, &Node(7));
    assert_eq!(res, None);
    assert_eq!(path, vec![0, 1, 3, 2]);
}
