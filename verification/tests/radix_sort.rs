use algorithms::sorting::radix_sort::{
    bucket_pass, counting_pass, largest, power_of_two_at_least, radix_sort_in_place,
    radix_sort_naive,
};

fn check(mut v: Vec<usize>, res: Vec<usize>) {
    assert_eq!(radix_sort_naive(&v), res);
    radix_sort_in_place(&mut v);
    assert_eq!(v, res);
}

#[test]
fn radix_sort_empty() {
    let v = vec![];
    let res = vec![];
    check(v, res);
}

#[test]
fn descending() {
    let v = vec![201, 127, 64, 37, 24, 4, 1];
    let res = vec![1, 4, 24, 37, 64, 127, 201];
    check(v, res);
}

#[test]
fn ascending() {
    let v = vec![1, 4, 24, 37, 64, 127, 201];
    let res = vec![1, 4, 24, 37, 64, 127, 201];
    check(v, res);
}

#[test]
fn wikipedia() {
    let v = vec![170, 45, 75, 90, 2, 802, 2, 66];
    let res = vec![2, 2, 45, 66, 75, 90, 170, 802];
    check(v, res);
}

#[test]
fn a_zero_between_two_digits_does_not_end_the_sort() {
    check(vec![201, 101], vec![101, 201]);
    check(vec![1000, 1], vec![1, 1000]);
    check(vec![1, 0], vec![0, 1]);
    check(vec![4, 2, 4, 1, 0, 4, 2], vec![0, 1, 2, 2, 4, 4, 4]);
    check(vec![5], vec![5]);
    check(vec![0, 0], vec![0, 0]);
    check(
        vec![usize::MAX, 0, usize::MAX - 1, 10, usize::MAX / 10],
        vec![0, 10, usize::MAX / 10, usize::MAX - 1, usize::MAX],
    );
}

#[test]
fn a_pass_orders_by_one_digit_and_keeps_the_order_that_was() {
    let (next, finished) = bucket_pass(&vec![21, 10, 41, 30, 2], 1);
    assert_eq!(next, vec![10, 30, 21, 41, 2]);
    assert!(!finished);
    let (next, finished) = bucket_pass(&next, 10);
    assert_eq!(next, vec![2, 10, 21, 30, 41]);
    assert!(finished);
    let mut v = vec![0x21, 0x10, 0x41, 0x30, 0x02];
    counting_pass(&mut v, 1, 16);
    assert_eq!(v, vec![0x10, 0x30, 0x21, 0x41, 0x02]);
    counting_pass(&mut v, 16, 16);
    assert_eq!(v, vec![0x02, 0x10, 0x21, 0x30, 0x41]);
}

#[test]
fn the_base_is_the_least_power_of_two_that_holds_the_count() {
    assert_eq!(power_of_two_at_least(0), 1);
    assert_eq!(power_of_two_at_least(1), 1);
    assert_eq!(power_of_two_at_least(2), 2);
    assert_eq!(power_of_two_at_least(3), 4);
    assert_eq!(power_of_two_at_least(8), 8);
    assert_eq!(power_of_two_at_least(9), 16);
    assert_eq!(power_of_two_at_least(usize::MAX), usize::MAX / 2 + 1);
    assert_eq!(largest(&[3, 9, 2]), 9);
    assert_eq!(largest(&[]), 0);
}
