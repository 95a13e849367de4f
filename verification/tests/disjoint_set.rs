use algorithms::data_structure::DisjointSet;

#[test]
fn test_create() {
    let ds = DisjointSet::new(5);

    // Check initial parents
    assert_eq!(ds.parent, vec![0, 1, 2, 3, 4]);
    // Check initial ranks
    assert_eq!(ds.rank, vec![0; 5]);
}

#[test]
fn test_find_singleton() {
    let mut ds = DisjointSet::new(5);
    // Each element should be its own parent initially
    for i in 0..5 {
        assert_eq!(ds.find(i), i);
    }
}

#[test]
fn test_union() {
    let mut ds = DisjointSet::new(5);

    ds.union(0, 1);
    ds.union(1, 2);

    // 0, 1, 2 should belong to the same set
    assert_eq!(ds.find(0), ds.find(1));
    assert_eq!(ds.find(1), ds.find(2));

    // 3 and 4 should still belong to their own sets
    assert_ne!(ds.find(0), ds.find(3));
    assert_ne!(ds.find(0), ds.find(4));
}

#[test]
fn test_union_by_rank() {
    let mut ds = DisjointSet::new(5);

    ds.union(0, 1); // 1 becomes the child of 0
    ds.union(2, 3); // 3 becomes the child of 2
    ds.union(0, 2); // Merge the sets of 0 and 2

    // Verify the parent structure and rank updates
    let root = ds.find(0);
    assert_eq!(ds.find(1), root);
    assert_eq!(ds.find(2), root);
    assert_eq!(ds.find(3), root);

    // 4 should still be its own set
    assert_eq!(ds.find(4), 4);
}

#[test]
fn test_path_compression() {
    let mut ds = DisjointSet::new(5);

    ds.union(0, 1);
    ds.union(1, 2);
    ds.union(2, 3);

    // Before path compression, nodes may not directly point to the root
    let root = ds.find(0);

    // After find operations, path compression should occur
    for i in 0..4 {
        assert_eq!(ds.find(i), root);
        assert_eq!(ds.parent[i], root);
    }
}

#[test]
fn test_disjoint_sets() {
    let mut ds = DisjointSet::new(6);

    ds.union(0, 1);
    ds.union(2, 3);
    ds.union(4, 5);

    // Check that disjoint sets are maintained
    assert_eq!(ds.find(0), ds.find(1));
    assert_eq!(ds.find(2), ds.find(3));
    assert_eq!(ds.find(4), ds.find(5));
}

#[test]
fn test_large_union() {
    let mut ds = DisjointSet::new(100);

    // Union all elements into a single set
    for i in 0..99 {
        ds.union(i, i + 1);
    }

    let root = ds.find(0);
    // Ensure all elements belong to the same set
    for i in 1..100 {
        assert_eq!(ds.find(i), root);
    }
}

#[test]
fn union_by_rank_picks_the_root_and_raises_its_rank() {
    let mut ds = DisjointSet::new(4);
    ds.union(0, 1);
    assert_eq!(ds.parent, vec![0, 0, 2, 3]);
    assert_eq!(ds.rank, vec![1, 0, 0, 0]);
    // the root of smaller rank goes under the other one
    ds.union(2, 1);
    assert_eq!(ds.parent, vec![0, 0, 0, 3]);
    assert_eq!(ds.rank, vec![1, 0, 0, 0]);
    // joining what is joined changes nothing
    ds.union(1, 2);
    assert_eq!(ds.parent, vec![0, 0, 0, 3]);
    assert_eq!(ds.rank, vec![1, 0, 0, 0]);
}

#[test]
fn find_halves_the_path() {
    let mut ds = DisjointSet { parent: vec![0, 0, 1, 2, 3], rank: vec![4, 3, 2, 1, 0] };
    assert_eq!(ds.find(4), 0);
    assert_eq!(ds.parent, vec![0, 0, 0, 2, 2]);
    assert_eq!(ds.rank, vec![4, 3, 2, 1, 0]);
}

#[test]
fn find_twice_returns_the_same_root() {
    let mut ds = DisjointSet::new(8);
    ds.union(0, 1);
    ds.union(2, 3);
    ds.union(1, 3);
    ds.union(4, 5);
    for x in 0..8 {
        let first = ds.find(x);
        let second = ds.find(x);
        assert_eq!(first, second);
    }
}

#[test]
fn elements_never_joined_stay_apart() {
    let mut ds = DisjointSet::new(6);
    ds.union(0, 1);
    ds.union(2, 3);
    assert_ne!(ds.find(0), ds.find(2));
    assert_ne!(ds.find(1), ds.find(3));
    assert_ne!(ds.find(4), ds.find(5));
    assert_ne!(ds.find(4), ds.find(0));
}
