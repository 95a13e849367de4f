//! The orderings that the containers of this crate lean on.
//!
//! Comparisons run through the operators of `PartialOrd`; what they mean in
//! contracts is given by `less` and `at_most`.
use std::cmp::Ordering;
use vstd::prelude::*;
use vstd::std_specs::cmp::{PartialEqSpec, PartialOrdSpec};

verus! {

/// `a` sorts strictly before `b`.
pub open spec fn less<T: PartialOrd>(a: T, b: T) -> bool {
    a.partial_cmp_spec(&b) == Some(Ordering::Less)
}

/// `a` does not sort after `b`.
pub open spec fn at_most<T: PartialOrd>(a: T, b: T) -> bool {
    !less(b, a)
}

/// The comparison of `T` is a strict weak order, and the compiled operators
/// compute it: `less` is asymmetric and `at_most` is transitive.
pub open spec fn weakly_ordered<T: PartialOrd>() -> bool {
    &&& T::obeys_partial_cmp_spec()
    &&& forall|a: T, b: T| #[trigger] less(a, b) ==> !less(b, a)
    &&& forall|a: T, b: T, c: T|
        #[trigger] at_most(a, b) && #[trigger] at_most(b, c) ==> at_most(a, c)
}

/// What sorts strictly before another item does not sort after it.
pub proof fn lemma_less_at_most<T: PartialOrd>(a: T, b: T)
    requires
        weakly_ordered::<T>(),
        less(a, b),
    ensures
        at_most(a, b),
{
}

/// `at_most` is transitive.
pub proof fn lemma_at_most_trans<T: PartialOrd>(a: T, b: T, c: T)
    requires
        weakly_ordered::<T>(),
        at_most(a, b),
        at_most(b, c),
    ensures
        at_most(a, c),
{
}

/// `a` and `b` compare equal.
pub open spec fn same<T: PartialEq>(a: T, b: T) -> bool {
    a.eq_spec(&b)
}

/// The compiled `==` of `T` computes `same`.
pub open spec fn equality_computed<T: PartialEq>() -> bool {
    T::obeys_eq_spec()
}

/// The comparison of `T` is a total order that the compiled operators
/// compute: a strict weak order in which two items compare equal exactly
/// if neither sorts before the other.
pub open spec fn totally_ordered<T: PartialOrd>() -> bool {
    &&& weakly_ordered::<T>()
    &&& equality_computed::<T>()
    &&& forall|a: T, b: T| #[trigger] same(a, b) <==> !less(a, b) && !less(b, a)
}

/// No item of `s` sorts after a later one.
pub open spec fn in_order<T: PartialOrd>(s: Seq<T>) -> bool {
    forall|i: int, j: int| 0 <= i <= j < s.len() ==> at_most(s[i], s[j])
}

/// Whether `a` and `b` compare equal, computed with `==`.
pub fn is_same<T: PartialEq>(a: &T, b: &T) -> (r: bool)
    requires
        equality_computed::<T>(),
    ensures
        r == same(*a, *b),
{
    *a == *b
}

/// Whether `a` sorts strictly before `b`, computed with `<`.
pub fn is_less<T: PartialOrd>(a: &T, b: &T) -> (r: bool)
    requires
        weakly_ordered::<T>(),
    ensures
        r == less(*a, *b),
{
    *a < *b
}

} // verus!
