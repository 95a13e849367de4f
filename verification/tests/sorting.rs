use algorithms::sorting::bubble_sort::bubble_sort;
use algorithms::sorting::insertion_sort::insertion_sort;

#[test]
fn test_bubble_sort() {
    let mut input = vec![6, 5, 4, 3, 2, 1];
    bubble_sort(&mut input);
    assert_eq!(input, vec![1, 2, 3, 4, 5, 6]);

    let mut input = vec![1, 2, 3, 4, 5, 6];
    bubble_sort(&mut input);
    assert_eq!(input, vec![1, 2, 3, 4, 5, 6]);

    let mut input = vec![100, 30, 60, 10, 20, 120, 1];
    bubble_sort(&mut input);
    assert_eq!(input, vec![1, 10, 20, 30, 60, 100, 120]);

    let mut input = vec![];
    bubble_sort(&mut input);
    assert_eq!(input, vec![]);
}

#[test]
fn test_insertion_sort() {
    let mut input = vec![6, 5, 4, 3, 2, 1];
    insertion_sort(&mut input);
    assert_eq!(input, vec![1, 2, 3, 4, 5, 6]);

    let mut input = vec![1, 2, 3, 4, 5, 6];
    insertion_sort(&mut input);
    assert_eq!(input, vec![1, 2, 3, 4, 5, 6]);

    let mut input = vec![100, 30, 60, 10, 20, 120, 1];
    insertion_sort(&mut input);
    assert_eq!(input, vec![1, 10, 20, 30, 60, 100, 120]);

    let mut input = vec![3, 1, 4, 1, 5, 9, 2, 6];
    insertion_sort(&mut input);
    assert_eq!(input, vec![1, 1, 2, 3, 4, 5, 6, 9]);

    let mut input = vec![];
    insertion_sort(&mut input);
    assert_eq!(input, vec![]);
}

#[test]
fn sorts_keep_repeated_numbers() {
    let mut a = vec![2, 2, 1, 3, 1, 2, 0, u32::MAX, 0];
    let mut b = a.clone();
    bubble_sort(&mut a);
    insertion_sort(&mut b);
    assert_eq!(a, vec![0, 0, 1, 1, 2, 2, 2, 3, u32::MAX]);
    assert_eq!(b, a);
    let mut one = vec![7];
    bubble_sort(&mut one);
    insertion_sort(&mut one);
    assert_eq!(one, vec![7]);
}

#[test]
fn test_counting_sort() {
    let mut input = vec![6, 5, 4, 3, 2, 1];
    algorithms::sorting::counting_sort::counting_sort(&mut input, 6);
    assert_eq!(input, vec![1, 2, 3, 4, 5, 6]);

    let mut input = vec![1, 2, 3, 4, 5, 6];
    algorithms::sorting::counting_sort::counting_sort(&mut input, 6);
    assert_eq!(input, vec![1, 2, 3, 4, 5, 6]);

    let mut input = vec![100, 30, 60, 10, 20, 120, 1];
    algorithms::sorting::counting_sort::counting_sort(&mut input, 120);
    assert_eq!(input, vec![1, 10, 20, 30, 60, 100, 120]);
}

#[test]
fn counting_sort_keeps_repeated_numbers() {
    let mut input = vec![3, 0, 3, 1, 0, 3];
    algorithms::sorting::counting_sort::counting_sort(&mut input, 5);
    assert_eq!(input, vec![0, 0, 1, 3, 3, 3]);
    let mut input: Vec<u32> = vec![];
    algorithms::sorting::counting_sort::counting_sort(&mut input, 0);
    assert_eq!(input, Vec::<u32>::new());
}
