//! Insertion sort.
use crate::sorting::sorted::sorts;
use crate::vecs::{lemma_swapped_multiset, swapped};
use vstd::prelude::*;

verus! {

/// Sorts `input`: each number in turn moves down past the larger numbers
/// before it.
pub fn insertion_sort(input: &mut [u32])
    ensures
        sorts(old(input)@, final(input)@),
{
    let n = input.len();
    let mut i: usize = 1;
    if n < 2 {
        assert forall|a: int, b: int| 0 <= a <= b < input@.len() implies input@[a]
            <= input@[b] by {}
        return ;
    }
    while i < n
        invariant
            input@.len() == n,
            1 <= i <= n,
            input@.to_multiset() == old(input)@.to_multiset(),
            forall|a: int, b: int| 0 <= a <= b < i ==> input@[a] <= input@[b],
        decreases n - i,
    {
        let mut j: usize = i;
        // move down until the right place is found
        while j > 0 && input[j - 1] > input[j]
            invariant
                input@.len() == n,
                j <= i < n,
                input@.to_multiset() == old(input)@.to_multiset(),
                forall|a: int, b: int| 0 <= a <= b <= i && a != j && b != j ==> input@[a] <= input@[b],
                forall|b: int| j < b <= i ==> input@[j as int] <= #[trigger] input@[b],
            decreases j,
        {
            let ghost before = input@;
            let moved = input[j];
            input[j] = input[j - 1];
            input[j - 1] = moved;
            proof {
                assert(input@ =~= swapped(before, j as int, j - 1));
                lemma_swapped_multiset(before, j as int, j - 1);
                assert forall|a: int, b: int|
                    0 <= a <= b <= i && a != j - 1 && b != j - 1 implies input@[a] <= input@[b] by {
                    if b == j {
                        if a < j {
                            assert(before[a] <= before[j - 1]);
                        }
                    } else if a == j {
                        assert(before[j - 1] <= before[b]);
                    } else {
                        assert(before[a] <= before[b]);
                    }
                }
                assert forall|b: int| j - 1 < b <= i implies input@[j - 1] <= #[trigger] input@[b] by {
                    if b > j {
                        assert(before[j as int] <= before[b]);
                    }
                }
            }
            j -= 1;
        }
        proof {
            assert forall|a: int, b: int| 0 <= a <= b < i + 1 implies input@[a] <= input@[b] by {
                if a == j && b == j {
                } else if a == j {
                } else if b == j {
                    if j > 0 {
                        if a < j - 1 {
                            assert(input@[a] <= input@[j - 1]);
                        }
                    }
                } else {
                }
            }
        }
        i += 1;
    }
}

} // verus!
