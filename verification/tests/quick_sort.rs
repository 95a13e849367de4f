use algorithms::sorting::quick_sort::quick_sort;
use rand::Rng;

#[test]
fn basic() {
    let mut res = vec![10, 8, 4, 3, 1, 9, 2, 7, 5, 6];
    quick_sort(&mut res);
    assert_eq!(res, vec![1, 2, 3, 4, 5, 6, 7, 8, 9, 10]);
}

#[test]
fn basic_string() {
    let mut res = vec!["a", "bb", "d", "cc"];
    quick_sort(&mut res);
    assert_eq!(res, vec!["a", "bb", "cc", "d"]);
}

#[test]
fn quick_sort_empty() {
    let mut res = Vec::<u8>::new();
    quick_sort(&mut res);
    assert_eq!(res, Vec::<u8>::new());
}

#[test]
fn one_element() {
    let mut res = vec![1];
    quick_sort(&mut res);
    assert_eq!(res, vec![1]);
}

#[test]
fn pre_sorted() {
    let mut res = vec![1, 2, 3, 4];
    quick_sort(&mut res);
    assert_eq!(res, vec![1, 2, 3, 4]);
}

#[test]
fn reverse_sorted() {
    let mut res = vec![4, 3, 2, 1];
    quick_sort(&mut res);
    assert_eq!(res, vec![1, 2, 3, 4]);
}

#[test]
fn quick_sort_agrees_with_the_standard_sort() {
    let mut x: u64 = 12345;
    for round in 0..60 {
        let len = round % 23;
        let mut given: Vec<u64> = Vec::new();
        for _ in 0..len {
            x = x.wrapping_mul(6364136223846793005).wrapping_add(1442695040888963407);
            given.push((x >> 33) % 9);
        }
        let mut expected = given.clone();
        expected.sort();
        quick_sort(&mut given);
        assert_eq!(given, expected);
    }
    let mut pair = vec![2, 1];
    quick_sort(&mut pair);
    assert_eq!(pair, vec![1, 2]);
    let mut equal = vec![5, 5, 5, 5, 5];
    quick_sort(&mut equal);
    assert_eq!(equal, vec![5, 5, 5, 5, 5]);
}

fn generate_random_vec(n: u32, range_l: i32, range_r: i32) -> Vec<i32> {
    let mut arr = Vec::<i32>::with_capacity(n as usize);
    let mut rng = rand::thread_rng();
    let mut count = n;

    while count > 0 {
        arr.push(rng.gen_range(range_l..range_r + 1));
        count -= 1;
    }

    arr
}

fn generate_repeated_elements_vec(n: u32, unique_elements: u8) -> Vec<i32> {
    let mut rng = rand::thread_rng();
    let v = rng.gen_range(0..n as i32);
    generate_random_vec(n, v, v + unique_elements as i32)
}

fn is_sorted<T>(arr: &[T]) -> bool
where
    T: PartialOrd,
{
    arr.windows(2).all(|w| w[0] <= w[1])
}

#[test]
fn large_elements() {
    let mut res = generate_random_vec(300000, 0, 1000000);
    quick_sort(&mut res);
    assert!(is_sorted(&res));
}

#[test]
fn repeated_elements() {
    let mut res = generate_repeated_elements_vec(1000000, 3);
    quick_sort(&mut res);
    assert!(is_sorted(&res));
}
