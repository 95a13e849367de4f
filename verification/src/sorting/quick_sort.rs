//! Quick sort.
use crate::order::{
    at_most, in_order, is_less, is_same, lemma_at_most_trans, same, totally_ordered,
    };
use crate::vecs::{lemma_swapped_multiset, swap_in};
use std::fmt::Debug;
use vstd::prelude::*;

verus! {

/// No item of `s` sorts before the first one.
pub open spec fn front_is_least<E: PartialOrd>(s: Seq<E>) -> bool {
    s.len() > 0 && forall|i: int| 0 <= i < s.len() ==> at_most(s[0], #[trigger] s[i])
}

/// Whether sorting `s` is yet to bring a least item to the front: 0 if one
/// is there, else 1.
pub open spec fn front_unsettled<E: PartialOrd>(s: Seq<E>) -> nat {
    if front_is_least(s) {
        0
    } else {
        1
    }
}

/// What holds of every item of a sequence holds of every item of a
/// sequence with the same items.
pub proof fn lemma_same_items_bounded<E: PartialOrd>(a: Seq<E>, b: Seq<E>, pivot: E, below: bool)
    requires
        a.to_multiset() == b.to_multiset(),
        forall|i: int|
            0 <= i < a.len() ==> (if below {
                at_most(#[trigger] a[i], pivot)
            } else {
                at_most(pivot, a[i])
            }),
    ensures
        forall|i: int|
            0 <= i < b.len() ==> (if below {
                at_most(#[trigger] b[i], pivot)
            } else {
                at_most(pivot, b[i])
            }),
{
    assert forall|i: int| 0 <= i < b.len() implies (if below {
        at_most(#[trigger] b[i], pivot)
    } else {
        at_most(pivot, b[i])
    }) by {
        vstd::seq_lib::to_multiset_contains(b, b[i]);
        vstd::seq_lib::to_multiset_contains(a, b[i]);
        assert(b.contains(b[i]));
        let k = choose|k: int| 0 <= k < a.len() && a[k] == b[i];
        assert(if below {
            at_most(a[k], pivot)
        } else {
            at_most(pivot, a[k])
        });
    }
}

/// Sorts `range`. The item in the middle is the pivot: the items are
/// exchanged until no item before some place sorts after the pivot and no
/// item from that place on sorts before it, and then the two parts are
/// sorted each for itself.
pub fn quick_sort<E>(range: &mut [E]) where E: Ord + Debug
    requires
        totally_ordered::<E>(),
    ensures
        in_order(final(range)@),
        final(range)@.to_multiset() == old(range)@.to_multiset(),
    decreases old(range)@.len(), front_unsettled(old(range)@),
{
    let ghost given = range@;
    // there is nothing to do
    if range.len() <= 1 {
        return ;
    }
    let len = range.len();

    // pick the pivot as the middle element of the range
    let mut pivot_idx = len / 2;
    let ghost pivot = range@[pivot_idx as int];

    // partition the range based on the pivot
    let mut left: usize = 0;
    let mut right: usize = len - 1;
    let ghost mut rounds: nat = 0;
    let ghost mut exchanged: bool = false;
    loop
        invariant_except_break
            left <= right + 1,
            exists|i: int| left <= i < len && at_most(pivot, #[trigger] range@[i]),
            exists|i: int| 0 <= i <= right && at_most(#[trigger] range@[i], pivot),
            rounds == 0 ==> left == 0 && right == len - 1 && pivot_idx == len / 2 && range@ == given,
            rounds > 0 && front_is_least(given) ==> left >= 1,
            exchanged ==> left < right && at_most(range@[left as int], pivot) && at_most(
                pivot,
                range@[right as int],
            ) && !same(range@[left as int], range@[right as int]),
        invariant
            totally_ordered::<E>(),
            len == range@.len(),
            len == given.len(),
            len >= 2,
            range@.to_multiset() == given.to_multiset(),
            right < len,
            pivot_idx < len,
            pivot == range@[pivot_idx as int],
            forall|i: int| 0 <= i < left ==> at_most(#[trigger] range@[i], pivot),
            forall|i: int| right < i < len ==> at_most(pivot, #[trigger] range@[i]),
        ensures
            left < len,
            forall|i: int| left <= i < len ==> at_most(pivot, #[trigger] range@[i]),
            left == 0 ==> front_is_least(range@) && !front_is_least(given),
        decreases right + 1 - left, (if exchanged {
            0nat
        } else {
            1nat
        }),
    {
        let ghost left_before = left;
        let ghost right_before = right;
        let ghost was_exchanged = exchanged;
        let ghost stop_left = choose|i: int| left <= i < len && at_most(pivot, #[trigger] range@[i]);
        let ghost stop_right = if rounds == 0 {
            pivot_idx as int
        } else {
            choose|i: int| 0 <= i <= right && at_most(#[trigger] range@[i], pivot)
        };
        while is_less(&range[left], &range[pivot_idx])
            invariant
                totally_ordered::<E>(),
                len == range@.len(),
                pivot_idx < len,
                pivot == range@[pivot_idx as int],
                left_before <= left <= stop_left < len,
                at_most(pivot, range@[stop_left]),
                forall|i: int| 0 <= i < left ==> at_most(#[trigger] range@[i], pivot),
            decreases stop_left - left,
        {
            left += 1;
        }
        while is_less(&range[pivot_idx], &range[right])
            invariant
                totally_ordered::<E>(),
                len == range@.len(),
                pivot_idx < len,
                pivot == range@[pivot_idx as int],
                0 <= stop_right <= right <= right_before < len,
                at_most(range@[stop_right], pivot),
                forall|i: int| right < i < len ==> at_most(pivot, #[trigger] range@[i]),
            decreases right - stop_right,
        {
            right -= 1;
        }
        proof {
            if was_exchanged && left == left_before && right == right_before {
                // neither end moved, so both items are the pivot's equals
                lemma_at_most_trans(range@[right as int], pivot, range@[left as int]);
                lemma_at_most_trans(range@[left as int], pivot, range@[right as int]);
                assert(same(range@[left as int], range@[right as int]));
            }
        }
        if left >= right {
            proof {
                assert forall|i: int| left <= i < len implies at_most(
                    pivot,
                    #[trigger] range@[i],
                ) by {}
                if left == 0 {
                    assert forall|i: int| 0 <= i < range@.len() implies at_most(
                        range@[0],
                        #[trigger] range@[i],
                    ) by {
                        lemma_at_most_trans(range@[0], pivot, range@[i]);
                    }
                }
            }
            break ;
        }
        proof {
            if rounds == 0 && front_is_least(given) && left == 0 {
                // the first item is the pivot's equal, and so is the item on the right
                assert(at_most(given[0], given[right as int]));
                lemma_at_most_trans(range@[right as int], pivot, range@[0]);
                assert(same(range@[0], range@[right as int]));
            }
        }
        // to prevent infinite loop on multiple pivot value
        if is_same(&range[left], &range[right]) {
            proof {
                lemma_at_most_trans(range@[left as int], range@[right as int], pivot);
                lemma_at_most_trans(pivot, range@[left as int], range@[right as int]);
                assert(at_most(pivot, range@[right as int]));
                assert(at_most(range@[left as int], pivot));
            }
            left += 1;
            right -= 1;
            proof {
                exchanged = false;
                assert(at_most(pivot, range@[right + 1]));
                assert(at_most(range@[left - 1], pivot));
            }
        } else {
            // to keep the pivot_idx updated
            if left == pivot_idx {
                pivot_idx = right;
            } else if right == pivot_idx {
                pivot_idx = left;
            }
            let ghost before = range@;
            // swap the elements
            swap_in(range, left, right);
            proof {
                lemma_swapped_multiset(before, left as int, right as int);
                exchanged = true;
                assert(at_most(pivot, range@[right as int]));
                assert(at_most(range@[left as int], pivot));
                assert forall|i: int| 0 <= i < left implies at_most(#[trigger] range@[i], pivot) by {
                    assert(range@[i] == before[i]);
                }
                assert forall|i: int| right < i < len implies at_most(pivot, #[trigger] range@[i]) by {
                    assert(range@[i] == before[i]);
                }
            }
        }
        proof {
            rounds = rounds + 1;
        }
    }

    // recurse on the partitions
    let ghost parted = range@;
    let (lower, upper) = range.split_at_mut(left);
    proof {
        assert(parted =~= lower@ + upper@);
        assert forall|i: int| 0 <= i < lower@.len() implies at_most(#[trigger] lower@[i], pivot) by {
            assert(lower@[i] == parted[i]);
        }
        assert forall|i: int| 0 <= i < upper@.len() implies at_most(pivot, #[trigger] upper@[i]) by {
            assert(upper@[i] == parted[left + i]);
        }
        if left == 0 {
            assert(upper@ =~= parted);
        }
    }
    let ghost lower_before = lower@;
    let ghost upper_before = upper@;
    quick_sort(lower);
    quick_sort(upper);
    proof {
        lemma_same_items_bounded(lower_before, lower@, pivot, true);
        lemma_same_items_bounded(upper_before, upper@, pivot, false);
        vstd::seq_lib::lemma_multiset_commutative(lower@, upper@);
        vstd::seq_lib::lemma_multiset_commutative(lower_before, upper_before);
        vstd::seq_lib::to_multiset_len(lower@);
        vstd::seq_lib::to_multiset_len(lower_before);
        let done = lower@ + upper@;
        assert forall|i: int, j: int| 0 <= i <= j < done.len() implies at_most(done[i], done[j]) by {
            if j < lower@.len() {
                assert(at_most(lower@[i], lower@[j]));
            } else if i >= lower@.len() {
                assert(at_most(upper@[i - lower@.len()], upper@[j - lower@.len()]));
            } else {
                assert(at_most(lower@[i], pivot));
                assert(at_most(pivot, upper@[j - lower@.len()]));
                lemma_at_most_trans(done[i], pivot, done[j]);
            }
        }
    }
}

} // verus!
