use algorithms::general::majority_element::{booyer_moore, count_votes, divide_and_conquer, naive};

#[test]
pub fn test_naive() {
    let ballot_box = vec![4, 1, 3, 4, 2, 4, 4, 3, 4];
    assert_eq!(naive(ballot_box), Some(4));
}

#[test]
pub fn test_divide_and_conquer() {
    let ballot_box = vec![4, 1, 3, 4, 2, 4, 4, 3, 4];
    assert_eq!(
        divide_and_conquer(&ballot_box, 0, ballot_box.len()),
        Some(4)
    );
}

#[test]
pub fn test_booyer_moore() {
    let ballot_box = vec![4, 1, 3, 4, 2, 4, 4, 3, 4];
    assert_eq!(booyer_moore(ballot_box), Some(4));
}

#[test]
fn half_of_the_votes_is_no_majority() {
    assert_eq!(naive(vec![1, 2, 1, 2]), None);
    assert_eq!(booyer_moore(vec![1, 2, 1, 2]), None);
    assert_eq!(divide_and_conquer(&vec![1, 2, 1, 2], 0, 4), None);
    assert_eq!(naive(vec![]), None);
    assert_eq!(booyer_moore(vec![]), None);
    assert_eq!(naive(vec![9]), Some(9));
    assert_eq!(booyer_moore(vec![9]), Some(9));
    assert_eq!(booyer_moore(vec![3, 3, 4, 2, 3, 3, 1]), Some(3));
    assert_eq!(booyer_moore(vec![0, 1, 1]), Some(1));
}

#[test]
fn halving_misses_a_majority_that_the_halves_disagree_on() {
    let ballot_box = vec![4, 2, 2];
    assert_eq!(naive(ballot_box.clone()), Some(2));
    assert_eq!(divide_and_conquer(&ballot_box, 0, 3), None);
    assert_eq!(divide_and_conquer(&ballot_box, 1, 3), Some(2));
    assert_eq!(count_votes(&ballot_box, 0, 3, 2), 2);
    assert_eq!(count_votes(&ballot_box, 0, 1, 2), 0);
}
