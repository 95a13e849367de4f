//! Counting sort.
use crate::sorting::sorted::{
    ascending, lemma_occurrences_bounded, lemma_same_occurrences, occurrences, sorts,
};
use vstd::prelude::*;

verus! {

/// The first `v` counts together.
pub open spec fn total_upto(counts: Seq<usize>, v: int) -> int
    decreases v,
{
    if v <= 0 {
        0
    } else {
        total_upto(counts, v - 1) + counts[v - 1]
    }
}

/// One more at `at` is one more in every total that reaches beyond `at`.
pub proof fn lemma_total_counts_one_more(counts: Seq<usize>, at: int, v: int)
    requires
        0 <= at < counts.len(),
        counts[at] < usize::MAX,
        0 <= v <= counts.len(),
    ensures
        total_upto(counts.update(at, (counts[at] + 1) as usize), v) == total_upto(counts, v) + (if at
            < v {
            1int
        } else {
            0int
        }),
    decreases v,
{
    if v > 0 {
        lemma_total_counts_one_more(counts, at, v - 1);
    }
}

/// The totals do not fall.
pub proof fn lemma_total_grows(counts: Seq<usize>, v: int, w: int)
    requires
        0 <= v <= w,
    ensures
        total_upto(counts, v) <= total_upto(counts, w),
    decreases w - v,
{
    if v < w {
        lemma_total_grows(counts, v, w - 1);
    }
}

/// Sorts `input`, whose numbers are at most `maxval`: it counts how often
/// each number stands in it, and then writes each number as often, the
/// smallest first.
pub fn counting_sort(input: &mut [u32], maxval: usize)
    requires
        maxval < usize::MAX,
        forall|i: int| 0 <= i < old(input)@.len() ==> old(input)@[i] <= maxval,
    ensures
        sorts(old(input)@, final(input)@),
{
    let ghost given = input@;
    let n = input.len();
    let mut occurences: Vec<usize> = vec![0; maxval + 1];
    // count how often each number stands in the input
    let mut k: usize = 0;
    proof {
        assert(total_upto(occurences@, maxval + 1) == 0) by {
            lemma_zero_total(occurences@, maxval + 1);
        }
    }
    while k < n
        invariant
            input@ == given,
            n == given.len(),
            k <= n,
            occurences@.len() == maxval + 1,
            forall|i: int| 0 <= i < given.len() ==> given[i] <= maxval,
            forall|v: int|
                0 <= v <= maxval ==> #[trigger] occurences@[v] == occurrences(
                    given.take(k as int),
                    v,
                ),
            total_upto(occurences@, maxval + 1) == k,
        decreases n - k,
    {
        let val = input[k] as usize;
        proof {
            assert(given.take(k + 1).drop_last() =~= given.take(k as int));
            lemma_occurrences_bounded(given.take(k as int), val as int);
            lemma_total_counts_one_more(occurences@, val as int, maxval + 1);
        }
        occurences[val] += 1;
        k += 1;
    }
    proof {
        assert(given.take(n as int) =~= given);
    }
    // write each number as often as it was counted
    let mut i: usize = 0;
    let mut occ_i: usize = 0;
    while occ_i <= maxval
        invariant
            input@.len() == n,
            n == given.len(),
            occ_i <= maxval + 1,
            maxval < usize::MAX,
            occurences@.len() == maxval + 1,
            total_upto(occurences@, maxval + 1) == n,
            forall|v: int| 0 <= v <= maxval ==> #[trigger] occurences@[v] == occurrences(given, v),
            i == total_upto(occurences@, occ_i as int),
            i <= n,
            forall|p: int| 0 <= p < i ==> #[trigger] input@[p] < occ_i,
            ascending(input@.take(i as int)),
            forall|w: int|
                #[trigger] occurrences(input@.take(i as int), w) == (if 0 <= w < occ_i {
                    occurences@[w] as int
                } else {
                    0int
                }),
        decreases maxval + 1 - occ_i,
    {
        let occ = occurences[occ_i];
        let mut c: usize = 0;
        proof {
            lemma_total_grows(occurences@, occ_i + 1, maxval + 1);
            lemma_occurrences_bounded(given, occ_i as int);
        }
        while c < occ
            invariant
                input@.len() == n,
                occ_i <= maxval,
                occurences@.len() == maxval + 1,
                occ == occurences@[occ_i as int],
                occ > 0 ==> occ_i <= u32::MAX,
                c <= occ,
                i == total_upto(occurences@, occ_i as int) + c,
                total_upto(occurences@, occ_i + 1) <= n,
                forall|p: int| 0 <= p < i ==> #[trigger] input@[p] <= occ_i,
                ascending(input@.take(i as int)),
                forall|w: int|
                    #[trigger] occurrences(input@.take(i as int), w) == (if 0 <= w < occ_i {
                        occurences@[w] as int
                    } else if w == occ_i {
                        c as int
                    } else {
                        0int
                    }),
            decreases occ - c,
        {
            let ghost before = input@;
            input[i] = occ_i as u32;
            proof {
                let grown = input@.take(i + 1);
                assert(grown.drop_last() =~= before.take(i as int));
                assert(grown.last() == occ_i);
                assert forall|a: int, b: int| 0 <= a <= b < grown.len() implies grown[a]
                    <= grown[b] by {
                    if b < i {
                        assert(before.take(i as int)[a] <= before.take(i as int)[b]);
                    } else if a < i {
                        assert(before[a] <= occ_i);
                    }
                }
                assert forall|p: int| 0 <= p < i + 1 implies #[trigger] input@[p] <= occ_i by {
                    if p < i {
                        assert(before[p] <= occ_i);
                    }
                }
                assert forall|w: int|
                    #[trigger] occurrences(grown, w) == (if 0 <= w < occ_i {
                        occurences@[w] as int
                    } else if w == occ_i {
                        c + 1
                    } else {
                        0int
                    }) by {
                    assert(occurrences(before.take(i as int), w) == (if 0 <= w < occ_i {
                        occurences@[w] as int
                    } else if w == occ_i {
                        c as int
                    } else {
                        0int
                    }));
                }
            }
            i += 1;
            c += 1;
        }
        proof {
            assert forall|p: int| 0 <= p < i implies #[trigger] input@[p] < occ_i + 1 by {
                assert(input@[p] <= occ_i);
            }
        }
        occ_i += 1;
    }
    proof {
        lemma_total_grows(occurences@, occ_i as int, maxval + 1);
        assert(input@.take(i as int) =~= input@);
        assert forall|x: int| occurrences(input@, x) == occurrences(given, x) by {
            if 0 <= x <= maxval {
                assert(occurences@[x] == occurrences(given, x));
            } else {
                lemma_absent_above(given, maxval as int, x);
            }
        }
        lemma_same_occurrences(input@, given);
    }
}

/// Counts that are all zero come to nothing.
pub proof fn lemma_zero_total(counts: Seq<usize>, v: int)
    requires
        0 <= v <= counts.len(),
        forall|i: int| 0 <= i < counts.len() ==> counts[i] == 0,
    ensures
        total_upto(counts, v) == 0,
    decreases v,
{
    if v > 0 {
        lemma_zero_total(counts, v - 1);
    }
}

/// A number above the largest, or below zero, does not stand in the
/// sequence.
pub proof fn lemma_absent_above(s: Seq<u32>, maxval: int, x: int)
    requires
        forall|i: int| 0 <= i < s.len() ==> s[i] <= maxval,
        x < 0 || x > maxval,
    ensures
        occurrences(s, x) == 0,
    decreases s.len(),
{
    if s.len() > 0 {
        assert forall|i: int| 0 <= i < s.drop_last().len() implies s.drop_last()[i] <= maxval by {
            assert(s[i] <= maxval);
        }
        lemma_absent_above(s.drop_last(), maxval, x);
        assert(s[s.len() - 1] <= maxval);
    }
}

} // verus!
