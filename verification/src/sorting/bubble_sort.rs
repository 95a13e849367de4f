//! Bubble sort.
use crate::sorting::sorted::{ascending, lemma_stepwise_ascending, sorts, stepwise};
use crate::vecs::{lemma_swapped_multiset, swapped};
use vstd::prelude::*;

verus! {

/// The last `k` numbers of `s` are in place: none of them is smaller than
/// a number before it.
pub open spec fn settled(s: Seq<u32>, k: int) -> bool {
    forall|i: int, j: int| 0 <= i < j < s.len() && j >= s.len() - k ==> s[i] <= s[j]
}

/// Sorts `input`: it goes over the numbers, exchanging each that is larger
/// than its successor with it, until it finds nothing to exchange.
pub fn bubble_sort(input: &mut [u32])
    ensures
        sorts(old(input)@, final(input)@),
{
    if input.len() < 2 {
        assert forall|i: int, j: int| 0 <= i <= j < input@.len() implies input@[i]
            <= input@[j] by {}
        return ;
    }
    let n = input.len();
    let mut swapped_any = true;
    let ghost mut passes: int = 0;
    while swapped_any
        invariant
            input@.len() == n,
            n >= 2,
            0 <= passes <= n,
            input@.to_multiset() == old(input)@.to_multiset(),
            settled(input@, passes),
            passes == n ==> !swapped_any,
            !swapped_any ==> ascending(input@),
        decreases n - passes,
    {
        swapped_any = false;
        let ghost start = input@;
        let mut i: usize = 0;
        while i < n - 1
            invariant
                input@.len() == n,
                n >= 2,
                0 <= passes < n,
                i <= n - 1,
                input@.to_multiset() == old(input)@.to_multiset(),
                settled(input@, passes),
                forall|k: int| 0 <= k < i ==> #[trigger] input@[k] <= input@[i as int],
                forall|m: int, k: int|
                    0 <= k < m <= i && m >= n - 1 - passes ==> #[trigger] input@[k]
                        <= #[trigger] input@[m],
                !swapped_any ==> stepwise(input@, i as int),
                ascending(start) ==> !swapped_any && input@ == start,
            decreases n - 1 - i,
        {
            let ghost before = input@;
            let a = input[i];
            let b = input[i + 1];
            if a > b {
                input[i] = b;
                input[i + 1] = a;
                swapped_any = true;
                proof {
                    assert(input@ =~= swapped(before, i as int, i + 1));
                    lemma_swapped_multiset(before, i as int, i + 1);
                    // the pair was not among the numbers in place
                    assert(i + 1 < n - passes) by {
                        if i + 1 >= n - passes {
                            assert(before[i as int] <= before[i + 1]);
                        }
                    }
                    assert forall|x: int, y: int|
                        0 <= x < y < input@.len() && y >= input@.len() - passes implies input@[x]
                        <= input@[y] by {
                        assert(before[x] <= before[y]);
                        assert(before[i as int] <= before[y]);
                        assert(before[i + 1] <= before[y]);
                    }
                }
            } else {
                proof {
                    assert forall|k: int| 0 <= k < i + 1 implies #[trigger] input@[k] <= input@[i
                        + 1] by {
                        if k < i {
                            assert(input@[k] <= input@[i as int]);
                        }
                    }
                }
            }
            i += 1;
        }
        proof {
            if !swapped_any {
                lemma_stepwise_ascending(input@);
            }
            assert forall|x: int, y: int|
                0 <= x < y < input@.len() && y >= input@.len() - (passes + 1) implies input@[x]
                <= input@[y] by {
                if y >= input@.len() - passes {
                } else {
                    assert(input@[x] <= input@[y]);
                }
            }
            if passes + 1 == n && swapped_any {
                // the numbers were in order when this round began
                assert forall|x: int, y: int| 0 <= x <= y < start.len() implies start[x]
                    <= start[y] by {
                    if x < y {
                        assert(y >= start.len() - passes);
                    }
                }
                assert(false);
            }
            passes = passes + 1;
        }
    }
}

} // verus!
