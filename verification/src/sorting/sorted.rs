//! What it means for a sequence of numbers to be sorted.
use vstd::prelude::*;

verus! {

/// No number of `s` is larger than a later one.
pub open spec fn ascending(s: Seq<u32>) -> bool {
    forall|i: int, j: int| 0 <= i <= j < s.len() ==> s[i] <= s[j]
}

/// No number among the first `k` of `s` is larger than its successor.
pub open spec fn stepwise(s: Seq<u32>, k: int) -> bool {
    forall|i: int| 0 <= i < k && i + 1 < s.len() ==> #[trigger] s[i] <= s[i + 1]
}

/// `after` holds the numbers of `before`, each as often, in ascending order.
pub open spec fn sorts(before: Seq<u32>, after: Seq<u32>) -> bool {
    &&& ascending(after)
    &&& after.to_multiset() == before.to_multiset()
}

/// A sequence in which no number is larger than its successor is ascending.
pub proof fn lemma_stepwise_ascending(s: Seq<u32>)
    requires
        stepwise(s, s.len() as int),
    ensures
        ascending(s),
{
    assert forall|i: int, j: int| 0 <= i <= j < s.len() implies s[i] <= s[j] by {
        lemma_stepwise_reaches(s, i, j);
    }
}

/// Along a sequence in which no number is larger than its successor the
/// numbers do not fall.
pub proof fn lemma_stepwise_reaches(s: Seq<u32>, i: int, j: int)
    requires
        stepwise(s, s.len() as int),
        0 <= i <= j < s.len(),
    ensures
        s[i] <= s[j],
    decreases j - i,
{
    if i < j {
        lemma_stepwise_reaches(s, i, j - 1);
        assert(s[j - 1] <= s[j - 1 + 1]);
    }
}

/// There is one way to sort a sequence.
pub proof fn lemma_sorting_is_unique(before: Seq<u32>, a: Seq<u32>, b: Seq<u32>)
    requires
        sorts(before, a),
        sorts(before, b),
    ensures
        a == b,
{
    let leq = |x: u32, y: u32| x <= y;
    assert(vstd::relations::sorted_by(a, leq));
    assert(vstd::relations::sorted_by(b, leq));
    assert(vstd::relations::total_ordering(leq));
    vstd::seq_lib::lemma_sorted_unique(a, b, leq);
}

/// How often the number `x` stands in `s`.
pub open spec fn occurrences(s: Seq<u32>, x: int) -> nat
    decreases s.len(),
{
    if s.len() == 0 {
        0
    } else if s.last() == x {
        occurrences(s.drop_last(), x) + 1
    } else {
        occurrences(s.drop_last(), x)
    }
}

/// A number stands in a sequence no more often than the sequence is long,
/// and not at all unless it fits in a `u32`.
pub proof fn lemma_occurrences_bounded(s: Seq<u32>, x: int)
    ensures
        occurrences(s, x) <= s.len(),
        occurrences(s, x) > 0 ==> 0 <= x <= u32::MAX,
    decreases s.len(),
{
    if s.len() > 0 {
        lemma_occurrences_bounded(s.drop_last(), x);
    }
}

/// `occurrences` counts what the multiset of the sequence counts.
pub proof fn lemma_occurrences_multiset(s: Seq<u32>, x: u32)
    ensures
        s.to_multiset().count(x) == occurrences(s, x as int),
    decreases s.len(),
{
    broadcast use vstd::multiset::group_multiset_axioms;

    if s.len() == 0 {
        s.to_multiset_ensures();
        assert(s.to_multiset().len() == 0);
    } else {
        let init = s.drop_last();
        lemma_occurrences_multiset(init, x);
        vstd::seq_lib::to_multiset_build(init, s.last());
        assert(init.push(s.last()) =~= s);
    }
}

/// Two sequences in which every number stands equally often hold the same
/// numbers.
pub proof fn lemma_same_occurrences(a: Seq<u32>, b: Seq<u32>)
    requires
        forall|x: int| occurrences(a, x) == occurrences(b, x),
    ensures
        a.to_multiset() == b.to_multiset(),
{
    assert forall|x: u32| a.to_multiset().count(x) == b.to_multiset().count(x) by {
        lemma_occurrences_multiset(a, x);
        lemma_occurrences_multiset(b, x);
    }
    assert(a.to_multiset() =~= b.to_multiset());
}

} // verus!
