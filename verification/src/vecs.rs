//! Small operations on vectors shared by the containers and the sorts.
use vstd::prelude::*;

verus! {

/// The sequence `s` with the items at `i` and `j` exchanged.
pub open spec fn swapped<T>(s: Seq<T>, i: int, j: int) -> Seq<T> {
    s.update(i, s[j]).update(j, s[i])
}

/// Exchanging two items keeps the items of a sequence, each as often as before.
pub proof fn lemma_swapped_multiset<T>(s: Seq<T>, i: int, j: int)
    requires
        0 <= i < s.len(),
        0 <= j < s.len(),
    ensures
        swapped(s, i, j).to_multiset() == s.to_multiset(),
{
    broadcast use vstd::multiset::group_multiset_axioms;

    let s1 = s.update(i, s[j]);
    vstd::seq_lib::to_multiset_update(s, i, s[j]);
    vstd::seq_lib::to_multiset_update(s1, j, s[i]);
    if i == j {
        assert(swapped(s, i, j) =~= s);
    } else {
        vstd::seq_lib::to_multiset_contains(s, s[i]);
        vstd::seq_lib::to_multiset_contains(s, s[j]);
        assert(s.contains(s[i]));
        assert(s.contains(s[j]));
        assert(swapped(s, i, j).to_multiset() =~= s.to_multiset());
    }
}

/// A sequence that holds the items of `t` and one `x` more holds `x` and
/// what `t` holds, and nothing else.
pub proof fn lemma_contains_after_insert<T>(s: Seq<T>, t: Seq<T>, x: T)
    requires
        s.to_multiset() == t.to_multiset().insert(x),
    ensures
        s.contains(x),
        forall|a: T| #[trigger] s.contains(a) <==> t.contains(a) || a == x,
{
    broadcast use vstd::multiset::group_multiset_axioms;

    assert forall|a: T| #[trigger] s.contains(a) <==> t.contains(a) || a == x by {
        vstd::seq_lib::to_multiset_contains(s, a);
        vstd::seq_lib::to_multiset_contains(t, a);
    }
    vstd::seq_lib::to_multiset_contains(s, x);
}

/// A sequence that holds the items of `t` but for one `x` holds nothing
/// that `t` does not hold, and everything else that `t` holds.
pub proof fn lemma_contains_after_remove<T>(s: Seq<T>, t: Seq<T>, x: T)
    requires
        s.to_multiset() == t.to_multiset().remove(x),
    ensures
        forall|a: T| #[trigger] s.contains(a) ==> t.contains(a),
        forall|a: T| #[trigger] t.contains(a) && a != x ==> s.contains(a),
{
    broadcast use vstd::multiset::group_multiset_axioms;

    assert forall|a: T| (#[trigger] s.contains(a) ==> t.contains(a)) && (t.contains(a) && a != x
        ==> s.contains(a)) by {
        vstd::seq_lib::to_multiset_contains(s, a);
        vstd::seq_lib::to_multiset_contains(t, a);
    }
}

/// The items of `v` from the last to the first.
pub fn reversed<T: Copy>(v: &Vec<T>) -> (r: Vec<T>)
    ensures
        r@ == v@.reverse(),
{
    let mut r: Vec<T> = Vec::new();
    let mut i: usize = v.len();
    while i > 0
        invariant
            i <= v@.len(),
            r@.len() == v@.len() - i,
            forall|k: int| 0 <= k < r@.len() ==> #[trigger] r@[k] == v@[v@.len() - 1 - k],
        decreases i,
    {
        i -= 1;
        r.push(v[i]);
    }
    assert(r@ =~= v@.reverse());
    r
}

/// Exchanges the items at `i` and `j` of a slice.
pub fn swap_in<T>(s: &mut [T], i: usize, j: usize)
    requires
        i < old(s)@.len(),
        j < old(s)@.len(),
    ensures
        final(s)@ == swapped(old(s)@, i as int, j as int),
{
    if i < j {
        let (head, tail) = s.split_at_mut(j);
        core::mem::swap(&mut head[i], &mut tail[0]);
    } else if j < i {
        let (head, tail) = s.split_at_mut(i);
        core::mem::swap(&mut head[j], &mut tail[0]);
    }
    assert(s@ =~= swapped(old(s)@, i as int, j as int));
}

/// Exchanges the items at `i` and `j`.
pub fn swap_at<T>(v: &mut Vec<T>, i: usize, j: usize)
    requires
        i < old(v)@.len(),
        j < old(v)@.len(),
    ensures
        final(v)@ == swapped(old(v)@, i as int, j as int),
{
    swap_in(v.as_mut_slice(), i, j);
}

} // verus!
