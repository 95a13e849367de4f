//! The majority element of a ballot box: the candidate, if any, with more
//! than half of the votes.
use vstd::prelude::*;

verus! {

/// How many of the votes in `s` are for `x`.
pub open spec fn votes_for(s: Seq<u32>, x: u32) -> nat
    decreases s.len(),
{
    if s.len() == 0 {
        0
    } else if s.last() == x {
        votes_for(s.drop_last(), x) + 1
    } else {
        votes_for(s.drop_last(), x)
    }
}

/// `x` has more than half of the votes in `s`.
pub open spec fn is_majority(s: Seq<u32>, x: u32) -> bool {
    votes_for(s, x) > s.len() / 2
}

/// `found` is the majority element of `s`, or nothing where there is none.
pub open spec fn majority_of(s: Seq<u32>, found: Option<u32>) -> bool {
    match found {
        Some(x) => is_majority(s, x),
        None => forall|x: u32| !is_majority(s, x),
    }
}

/// No candidate has more votes than there are.
pub proof fn lemma_votes_bounded(s: Seq<u32>, x: u32)
    ensures
        votes_for(s, x) <= s.len(),
    decreases s.len(),
{
    if s.len() > 0 {
        lemma_votes_bounded(s.drop_last(), x);
    }
}

/// Two candidates have no more votes together than there are.
pub proof fn lemma_votes_shared(s: Seq<u32>, x: u32, y: u32)
    requires
        x != y,
    ensures
        votes_for(s, x) + votes_for(s, y) <= s.len(),
    decreases s.len(),
{
    if s.len() > 0 {
        lemma_votes_shared(s.drop_last(), x, y);
    }
}

/// There is at most one majority element.
pub proof fn lemma_majority_is_unique(s: Seq<u32>, x: u32, y: u32)
    requires
        is_majority(s, x),
        is_majority(s, y),
    ensures
        x == y,
{
    if x != y {
        lemma_votes_shared(s, x, y);
    }
}

/// The votes of two parts of the ballot box add up.
pub proof fn lemma_votes_split(s: Seq<u32>, t: Seq<u32>, x: u32)
    ensures
        votes_for(s + t, x) == votes_for(s, x) + votes_for(t, x),
    decreases t.len(),
{
    if t.len() == 0 {
        assert(s + t =~= s);
    } else {
        lemma_votes_split(s, t.drop_last(), x);
        assert((s + t).drop_last() =~= s + t.drop_last());
    }
}

/// How many of the votes from `left` up to `right` are for `x`.
pub fn count_votes(ballot_box: &Vec<u32>, left: usize, right: usize, x: u32) -> (count: usize)
    requires
        left <= right <= ballot_box@.len(),
    ensures
        count == votes_for(ballot_box@.subrange(left as int, right as int), x),
{
    let mut count: usize = 0;
    let mut i: usize = left;
    while i < right
        invariant
            left <= i <= right <= ballot_box@.len(),
            count == votes_for(ballot_box@.subrange(left as int, i as int), x),
            count <= i - left,
        decreases right - i,
    {
        proof {
            assert(ballot_box@.subrange(left as int, i + 1).drop_last() =~= ballot_box@.subrange(
                left as int,
                i as int,
            ));
        }
        if ballot_box[i] == x {
            count += 1;
        }
        i += 1;
    }
    count
}

/// The majority element, found by counting the votes of each candidate in
/// turn.
pub fn naive(ballot_box: Vec<u32>) -> (found: Option<u32>)
    ensures
        majority_of(ballot_box@, found),
{
    let n = ballot_box.len();
    let mut i: usize = 0;
    proof {
        assert(ballot_box@.subrange(0, n as int) =~= ballot_box@);
    }
    while i < n
        invariant
            n == ballot_box@.len(),
            i <= n,
            ballot_box@.subrange(0, n as int) == ballot_box@,
            forall|k: int| 0 <= k < i ==> !is_majority(ballot_box@, #[trigger] ballot_box@[k]),
        decreases n - i,
    {
        let cur_candidate = ballot_box[i];
        let count = count_votes(&ballot_box, 0, n, cur_candidate);
        if count > n / 2 {
            return Some(cur_candidate);
        }
        i += 1;
    }
    proof {
        assert forall|x: u32| !is_majority(ballot_box@, x) by {
            if is_majority(ballot_box@, x) {
                lemma_voted_for_is_present(ballot_box@, x);
                let k = choose|k: int| 0 <= k < ballot_box@.len() && ballot_box@[k] == x;
                assert(!is_majority(ballot_box@, ballot_box@[k]));
            }
        }
    }
    None
}

/// A candidate with a vote is in the ballot box.
pub proof fn lemma_voted_for_is_present(s: Seq<u32>, x: u32)
    requires
        votes_for(s, x) > 0,
    ensures
        exists|k: int| 0 <= k < s.len() && s[k] == x,
    decreases s.len(),
{
    if s.last() == x {
        assert(s[s.len() - 1] == x);
    } else {
        lemma_voted_for_is_present(s.drop_last(), x);
        let k = choose|k: int| 0 <= k < s.drop_last().len() && s.drop_last()[k] == x;
        assert(s[k] == x);
    }
}

/// What `divide_and_conquer` returns for the votes from `left` up to
/// `right`. One vote is a majority. Otherwise the range is halved: a
/// candidate that both halves return is returned; where one half returns
/// nothing, the candidate of the other half is returned if it has more than
/// half of the votes of the range; in every other case nothing is returned.
pub open spec fn halves_majority(s: Seq<u32>, left: int, right: int) -> Option<u32>
    decreases right - left,
{
    if right - left <= 1 {
        if 0 <= left < s.len() {
            Some(s[left])
        } else {
            None
        }
    } else {
        let middle = left + (right - left) / 2;
        let of_left = halves_majority(s, left, middle);
        let of_right = halves_majority(s, middle, right);
        if of_left == of_right {
            of_left
        } else if of_left is None {
            if is_majority(s.subrange(left, right), of_right->0) {
                of_right
            } else {
                None
            }
        } else if of_right is None {
            if is_majority(s.subrange(left, right), of_left->0) {
                of_left
            } else {
                None
            }
        } else {
            None
        }
    }
}

/// The majority element of the votes from `left` up to `right`, found by
/// halving the range. What it returns is a majority element; it may return
/// nothing although there is one, where the two halves return two candidates.
pub fn divide_and_conquer(ballot_box: &Vec<u32>, left: usize, right: usize) -> (found: Option<u32>)
    requires
        left < right <= ballot_box@.len(),
    ensures
        found == halves_majority(ballot_box@, left as int, right as int),
        found is Some ==> is_majority(ballot_box@.subrange(left as int, right as int), found->0),
    decreases right - left,
{
    let ghost range = ballot_box@.subrange(left as int, right as int);
    if left == right - 1 {
        proof {
            assert(range.drop_last() =~= Seq::<u32>::empty());
            assert(range.last() == ballot_box@[left as int]);
            assert(votes_for(range.drop_last(), ballot_box@[left as int]) == 0);
        }
        return Some(ballot_box[left]);
    }
    let middle = left + (right - left) / 2;
    let left_majority = divide_and_conquer(ballot_box, left, middle);
    let right_majority = divide_and_conquer(ballot_box, middle, right);
    let ghost first = ballot_box@.subrange(left as int, middle as int);
    let ghost second = ballot_box@.subrange(middle as int, right as int);
    proof {
        assert(range =~= first + second);
    }

    if left_majority.is_none() && right_majority.is_none() {
        return None;
    }
    let total = right - left;
    match (left_majority, right_majority) {
        (Some(a), Some(b)) => {
            if a == b {
                proof {
                    lemma_votes_split(first, second, a);
                }
                Some(a)
            } else {
                None
            }
        },
        (None, Some(b)) => {
            let right_freq = count_votes(ballot_box, left, right, b);
            if right_freq > total / 2 {
                Some(b)
            } else {
                None
            }
        },
        (Some(a), None) => {
            let left_freq = count_votes(ballot_box, left, right, a);
            if left_freq > total / 2 {
                Some(a)
            } else {
                None
            }
        },
        (None, None) => None,
    }
}

/// The majority element, found by the Boyer-Moore vote: one pass pairs
/// off votes for different candidates, which leaves the only candidate that
/// can have a majority, and a second pass counts its votes.
pub fn booyer_moore(ballot_box: Vec<u32>) -> (found: Option<u32>)
    ensures
        majority_of(ballot_box@, found),
{
    let n = ballot_box.len();
    let mut count: usize = 0;
    let mut candidate: u32 = 0;
    let mut i: usize = 0;
    while i < n
        invariant
            n == ballot_box@.len(),
            i <= n,
            count <= i,
            2 * votes_for(ballot_box@.subrange(0, i as int), candidate) <= i + count,
            forall|x: u32|
                x != candidate ==> 2 * #[trigger] votes_for(ballot_box@.subrange(0, i as int), x)
                    <= i - count,
        decreases n - i,
    {
        let vote = ballot_box[i];
        let ghost seen = ballot_box@.subrange(0, i as int);
        let ghost next = ballot_box@.subrange(0, i + 1);
        let ghost old_candidate = candidate;
        let ghost old_count = count;
        proof {
            assert(next.drop_last() =~= seen);
            assert(next.last() == vote);
        }
        if count == 0 {
            candidate = vote;
        }
        if vote == candidate {
            count += 1;
        } else {
            count -= 1;
        }
        proof {
            assert forall|x: u32| x != candidate implies 2 * #[trigger] votes_for(next, x) <= i + 1
                - count by {
                if x == old_candidate {
                    // the old candidate had no vote that was not paired off
                } else {
                    assert(2 * votes_for(seen, x) <= i - old_count);
                }
            }
            if old_count == 0 && candidate != old_candidate {
                assert(2 * votes_for(seen, candidate) <= i - old_count);
            }
        }
        i += 1;
    }
    // This only works if there is a majority element: a second pass
    // verifies that the candidate is indeed the majority element.
    let total = ballot_box.len();
    let candidate_freq = count_votes(&ballot_box, 0, total, candidate);
    proof {
        assert(ballot_box@.subrange(0, total as int) =~= ballot_box@);
    }
    if candidate_freq <= total / 2 {
        proof {
            assert forall|x: u32| !is_majority(ballot_box@, x) by {
                if x != candidate {
                    assert(2 * votes_for(ballot_box@.subrange(0, n as int), x) <= n - count);
                }
            }
        }
        return None;
    }
    return Some(candidate);
}

} // verus!
