use algorithms::data_structure::BinaryHeap;

#[test]
fn test_empty_heap() {
    let mut heap: BinaryHeap<usize> = BinaryHeap::new();
    assert_eq!(heap.pop(), None);
}

#[test]
fn test_min_heap() {
    let mut heap = BinaryHeap::new();
    heap.push(4);
    heap.push(2);
    heap.push(9);
    heap.push(11);
    println!("{:?}", &heap);
    assert_eq!(heap.len(), 4);
    assert_eq!(heap.pop(), Some(2));
    assert_eq!(heap.pop(), Some(4));
    assert_eq!(heap.pop(), Some(9));
    heap.push(1);
    assert_eq!(heap.pop(), Some(1));
    assert_eq!(heap.pop(), Some(11));
    assert_eq!(heap.pop(), None);
}

#[test]
fn test_iter_heap() {
    let mut heap = BinaryHeap::new();
    heap.push(4);
    heap.push(2);
    heap.push(9);
    heap.push(11);

    let mut iter = heap.iter();
    assert_eq!(iter.next(), Some(&2));
    assert_eq!(iter.next(), Some(&4));
    assert_eq!(iter.next(), Some(&9));
    assert_eq!(iter.next(), Some(&11));
    assert_eq!(iter.next(), None);

    assert_eq!(heap.len(), 4);
    assert_eq!(heap.pop(), Some(2));
    assert_eq!(heap.pop(), Some(4));
    assert_eq!(heap.pop(), Some(9));
    assert_eq!(heap.pop(), Some(11));
    assert_eq!(heap.pop(), None);
}

#[test]
fn test_from_vec_min() {
    let vec = vec![3, 1, 4, 1, 5, 9, 2, 6, 5];
    let mut heap = BinaryHeap::from_vec(vec);
    assert_eq!(heap.len(), 9);
    assert_eq!(heap.pop(), Some(1));
    assert_eq!(heap.pop(), Some(1));
    assert_eq!(heap.pop(), Some(2));
    heap.push(0);
    assert_eq!(heap.pop(), Some(0));
}

fn holds_heap_order(nodes: &[i64]) -> bool {
    (1..nodes.len()).all(|i| nodes[(i - 1) / 2] <= nodes[i])
}

#[test]
fn heap_order_holds_after_every_push_and_pop() {
    let mut heap = BinaryHeap::new();
    let mut held: Vec<i64> = Vec::new();
    let mut x: i64 = 17;
    for round in 0..200 {
        x = (x * 7919 + 13) % 1009;
        if round % 3 == 2 {
            let least = held.iter().copied().min();
            assert_eq!(heap.pop(), least);
            if let Some(least) = least {
                let at = held.iter().position(|&h| h == least).unwrap();
                held.remove(at);
            }
        } else {
            heap.push(x);
            held.push(x);
        }
        assert!(holds_heap_order(&heap.nodes));
        assert_eq!(heap.len(), held.len());
    }
}

#[test]
fn pop_moves_the_last_item_to_the_root() {
    // removing the root by shifting the array would leave 6 above 4
    let mut heap = BinaryHeap::from_vec(vec![1, 5, 2, 6, 7, 3, 4]);
    assert_eq!(heap.nodes, vec![1, 5, 2, 6, 7, 3, 4]);
    assert_eq!(heap.pop(), Some(1));
    assert_eq!(heap.nodes, vec![2, 5, 3, 6, 7, 4]);
    assert!(holds_heap_order(&heap.nodes));
}

#[test]
fn from_vec_builds_a_heap_of_the_same_items() {
    let given = vec![9, 8, 7, 6, 5, 4, 3, 2, 1, 0];
    let mut heap = BinaryHeap::from_vec(given.clone());
    assert!(holds_heap_order(&heap.nodes));
    assert_eq!(heap.nodes, vec![0, 1, 3, 2, 5, 4, 7, 9, 6, 8]);
    let mut drained = Vec::new();
    while let Some(x) = heap.pop() {
        drained.push(x);
    }
    assert_eq!(drained, vec![0, 1, 2, 3, 4, 5, 6, 7, 8, 9]);
}

#[test]
fn children_and_parent_follow_the_array_layout() {
    let heap = BinaryHeap::from_vec(vec![1, 2, 3, 4]);
    assert_eq!(heap.children(0), (Some(1), Some(2)));
    assert_eq!(heap.children(1), (Some(3), None));
    assert_eq!(heap.children(2), (None, None));
    assert_eq!(heap.children(usize::MAX), (None, None));
    assert_eq!(heap.parent(1), 0);
    assert_eq!(heap.parent(2), 0);
    assert_eq!(heap.parent(3), 1);
    assert!(!heap.is_empty());
    assert!(BinaryHeap::<u8>::new().is_empty());
}

#[test]
fn sifting_moves_one_item_to_its_place() {
    let mut heap = BinaryHeap { nodes: vec![2, 4, 9, 1] };
    heap.heapify_up(3);
    assert_eq!(heap.nodes, vec![1, 2, 9, 4]);
    let mut heap = BinaryHeap { nodes: vec![8, 3, 3, 5] };
    heap.heapify_down(0);
    // the left child wins the tie with the right one
    assert_eq!(heap.nodes, vec![3, 5, 3, 8]);
}
