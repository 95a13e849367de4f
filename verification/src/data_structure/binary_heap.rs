//! An array-backed binary min-heap.
use crate::order::{
    at_most, is_less, lemma_at_most_trans, lemma_less_at_most, less, weakly_ordered,
};
use crate::vecs::{lemma_swapped_multiset, swap_at, swapped};
use std::fmt::Debug;
use vstd::prelude::*;

verus! {

/// What a heap can hold: anything with a total order.
pub trait HeapVal: Ord + Debug {

}

impl<T: Ord + Debug> HeapVal for T {

}

/// The index of a node in the backing array.
pub type NodeIdx = usize;

/// The index of the parent of the node at index `i`, for `i > 0`.
pub open spec fn parent_of(i: int) -> int {
    (i - 1) / 2
}

/// The item at `c` does not sort before the item at its parent.
pub open spec fn edge_ok<T: PartialOrd>(s: Seq<T>, c: int) -> bool {
    at_most(s[parent_of(c)], s[c])
}

/// The item at `c` does not sort before the item at its grandparent.
pub open spec fn skip_ok<T: PartialOrd>(s: Seq<T>, c: int) -> bool {
    at_most(s[parent_of(parent_of(c))], s[c])
}

/// Every node at index `i` or later sorts no later than its children.
pub open spec fn heap_from<T: PartialOrd>(s: Seq<T>, i: int) -> bool {
    forall|c: int| 0 < c < s.len() && parent_of(c) >= i ==> #[trigger] edge_ok(s, c)
}

/// The heap invariant: every node sorts no later than its children.
pub open spec fn is_heap<T: PartialOrd>(s: Seq<T>) -> bool {
    heap_from(s, 0)
}

/// The index, among `i` and its children, of the item that sorts first; the
/// left child wins a tie with the right one, and `i` wins every tie.
pub open spec fn least_of_three<T: PartialOrd>(s: Seq<T>, i: int) -> int {
    let l = 2 * i + 1;
    let r = 2 * i + 2;
    let m = if l < s.len() && less(s[l], s[i]) { l } else { i };
    if r < s.len() && less(s[r], s[m]) { r } else { m }
}

/// What sifting up from index `i` makes of `s`: the item climbs while it
/// sorts strictly before its parent.
pub open spec fn sift_up<T: PartialOrd>(s: Seq<T>, i: int) -> Seq<T>
    decreases i,
{
    if 0 < i < s.len() && less(s[i], s[parent_of(i)]) {
        sift_up(swapped(s, i, parent_of(i)), parent_of(i))
    } else {
        s
    }
}

/// What sifting down from index `i` makes of `s`: the item sinks below the
/// child that sorts first, while one of its children sorts strictly before it.
pub open spec fn sift_down<T: PartialOrd>(s: Seq<T>, i: int) -> Seq<T>
    decreases s.len() - i,
{
    let c = least_of_three(s, i);
    if 0 <= i && c != i {
        sift_down(swapped(s, i, c), c)
    } else {
        s
    }
}

/// What building a heap makes of `s` once the indices below `i` are left to
/// sift down, the highest first.
pub open spec fn heapify_from<T: PartialOrd>(s: Seq<T>, i: int) -> Seq<T>
    decreases i,
{
    if i <= 0 {
        s
    } else {
        heapify_from(sift_down(s, i - 1), i - 1)
    }
}

/// The state in which sifting down from `k` repairs the heap from `i` on:
/// only the edges below `k` may be out of order, and the children of `k`
/// sort no earlier than the parent of `k`.
pub open spec fn sift_down_ready<T: PartialOrd>(s: Seq<T>, i: int, k: int) -> bool {
    &&& forall|c: int|
        0 < c < s.len() && parent_of(c) >= i && parent_of(c) != k ==> #[trigger] edge_ok(s, c)
    &&& forall|c: int|
        0 < c < s.len() && parent_of(c) == k && k > 0 && parent_of(k) >= i ==> #[trigger] skip_ok(
            s,
            c,
        )
}

/// The state in which sifting up from `k` repairs the heap: only the edge
/// above `k` may be out of order, and the children of `k` sort no earlier
/// than the parent of `k`.
pub open spec fn sift_up_ready<T: PartialOrd>(s: Seq<T>, k: int) -> bool {
    &&& forall|c: int| 0 < c < s.len() && c != k ==> #[trigger] edge_ok(s, c)
    &&& forall|c: int| 0 < c < s.len() && parent_of(c) == k && k > 0 ==> #[trigger] skip_ok(s, c)
}

/// Sifting keeps the length and the items.
pub proof fn lemma_sift_down_permutes<T: PartialOrd>(s: Seq<T>, k: int)
    ensures
        sift_down(s, k).len() == s.len(),
        sift_down(s, k).to_multiset() == s.to_multiset(),
    decreases s.len() - k,
{
    let c = least_of_three(s, k);
    if 0 <= k && c != k {
        lemma_swapped_multiset(s, k, c);
        lemma_sift_down_permutes(swapped(s, k, c), c);
    }
}

/// Sifting keeps the length and the items.
pub proof fn lemma_sift_up_permutes<T: PartialOrd>(s: Seq<T>, k: int)
    ensures
        sift_up(s, k).len() == s.len(),
        sift_up(s, k).to_multiset() == s.to_multiset(),
    decreases k,
{
    if 0 < k < s.len() && less(s[k], s[parent_of(k)]) {
        lemma_swapped_multiset(s, k, parent_of(k));
        lemma_sift_up_permutes(swapped(s, k, parent_of(k)), parent_of(k));
    }
}

/// Sifting down from `k` repairs a heap that is out of order only below `k`.
pub proof fn lemma_sift_down_repairs<T: PartialOrd>(s: Seq<T>, i: int, k: int)
    requires
        weakly_ordered::<T>(),
        0 <= i <= k,
        sift_down_ready(s, i, k),
    ensures
        heap_from(sift_down(s, k), i),
    decreases s.len() - k,
{
    let c = least_of_three(s, k);
    let l = 2 * k + 1;
    let r = 2 * k + 2;
    if c != k {
        let t = swapped(s, k, c);
        // the child that moves up sorts no later than the item at `k` and than its sibling
        assert(at_most(s[c], s[k]) && (l < s.len() ==> at_most(s[c], s[l])) && (r < s.len()
            ==> at_most(s[c], s[r]))) by {
            if c == l {
                lemma_less_at_most(s[l], s[k]);
            } else {
                assert(c == r);
                if l < s.len() && less(s[l], s[k]) {
                    lemma_less_at_most(s[r], s[l]);
                    lemma_less_at_most(s[l], s[k]);
                    lemma_at_most_trans(s[r], s[l], s[k]);
                } else {
                    lemma_less_at_most(s[r], s[k]);
                    if l < s.len() {
                        lemma_at_most_trans(s[r], s[k], s[l]);
                    }
                }
            }
        }
        assert(sift_down_ready(t, i, c)) by {
            assert forall|x: int|
                0 < x < t.len() && parent_of(x) >= i && parent_of(x) != c implies #[trigger] edge_ok(
                t,
                x,
            ) by {
                if parent_of(x) == k {
                    assert(x == l || x == r);
                } else if x == k {
                    assert(skip_ok(s, c));
                } else {
                    assert(edge_ok(s, x));
                }
            }
            assert forall|x: int|
                0 < x < t.len() && parent_of(x) == c && c > 0 && parent_of(c)
                    >= i implies #[trigger] skip_ok(t, x) by {
                assert(edge_ok(s, x));
            }
        }
        lemma_sift_down_repairs(t, i, c);
    } else {
        assert forall|x: int| 0 < x < s.len() && parent_of(x) >= i implies #[trigger] edge_ok(
            s,
            x,
        ) by {
            if parent_of(x) == k {
                assert(x == l || x == r);
            }
        }
    }
}

/// Sifting up from `k` repairs a heap that is out of order only above `k`.
pub proof fn lemma_sift_up_repairs<T: PartialOrd>(s: Seq<T>, k: int)
    requires
        weakly_ordered::<T>(),
        0 <= k < s.len() || k == 0,
        sift_up_ready(s, k),
    ensures
        is_heap(sift_up(s, k)),
    decreases k,
{
    if 0 < k < s.len() && less(s[k], s[parent_of(k)]) {
        let p = parent_of(k);
        let t = swapped(s, k, p);
        assert(sift_up_ready(t, p)) by {
            assert forall|x: int| 0 < x < t.len() && x != p implies #[trigger] edge_ok(t, x) by {
                if x == k {
                } else if parent_of(x) == k {
                    assert(skip_ok(s, x));
                } else if parent_of(x) == p {
                    // the sibling of `k`
                    assert(edge_ok(s, x));
                    assert(at_most(s[k], s[p]));
                } else {
                    assert(edge_ok(s, x));
                }
            }
            assert forall|x: int|
                0 < x < t.len() && parent_of(x) == p && p > 0 implies #[trigger] skip_ok(t, x) by {
                assert(edge_ok(s, p));
                if x == k {
                } else {
                    assert(edge_ok(s, x));
                }
            }
        }
        lemma_sift_up_repairs(t, p);
    } else {
        assert forall|x: int| 0 < x < s.len() && parent_of(x) >= 0 implies #[trigger] edge_ok(
            s,
            x,
        ) by {
            if x == k {
            } else {
                assert(edge_ok(s, x));
            }
        }
    }
}

/// In a heap no item sorts before the root.
pub proof fn lemma_root_sorts_first<T: PartialOrd>(s: Seq<T>, i: int)
    requires
        weakly_ordered::<T>(),
        is_heap(s),
        0 <= i < s.len(),
    ensures
        at_most(s[0], s[i]),
    decreases i,
{
    if i > 0 {
        lemma_root_sorts_first(s, parent_of(i));
        assert(edge_ok(s, i));
    }
}

/// Binary min-heap: `nodes` holds a complete binary tree level by level.
#[derive(Debug)]
pub struct BinaryHeap<T: HeapVal> {
    pub nodes: Vec<T>,
}

impl<T: HeapVal> View for BinaryHeap<T> {
    type V = Seq<T>;

    /// The items in the order of the backing array.
    open spec fn view(&self) -> Seq<T> {
        self.nodes@
    }
}

impl<T: HeapVal> Default for BinaryHeap<T> {
    fn default() -> (heap: Self)
        ensures
            heap@ == Seq::<T>::empty(),
    {
        Self { nodes: Vec::new() }
    }
}

impl<T: HeapVal> BinaryHeap<T> {
    /// A heap that holds nothing.
    pub fn new() -> (heap: Self)
        ensures
            heap@ == Seq::<T>::empty(),
            is_heap(heap@),
    {
        Self { nodes: Vec::new() }
    }

    /// How many items the heap holds.
    pub fn len(&self) -> (n: usize)
        ensures
            n == self@.len(),
    {
        self.nodes.len()
    }

    /// Whether the heap holds nothing.
    pub fn is_empty(&self) -> (b: bool)
        ensures
            b == (self@.len() == 0),
    {
        self.nodes.is_empty()
    }

    /// Builds a heap of the items of `nodes` by sifting down every index,
    /// the last one first.
    pub fn from_vec(nodes: Vec<T>) -> (heap: Self)
        requires
            weakly_ordered::<T>(),
        ensures
            heap@ == heapify_from(nodes@, nodes@.len() as int),
            is_heap(heap@),
            heap@.to_multiset() == nodes@.to_multiset(),
    {
        let ghost given = nodes@;
        let mut heap = Self::new();
        heap.nodes = nodes;
        let mut i: usize = heap.nodes.len();
        while i > 0
            invariant
                weakly_ordered::<T>(),
                i <= heap@.len(),
                heap@.len() == given.len(),
                heap_from(heap@, i as int),
                heapify_from(heap@, i as int) == heapify_from(given, given.len() as int),
                heap@.to_multiset() == given.to_multiset(),
            decreases i,
        {
            i -= 1;
            heap.heapify_down(i);
        }
        heap
    }

    /// Adds `val`, which climbs from the last position to its place.
    pub fn push(&mut self, val: T)
        requires
            weakly_ordered::<T>(),
        ensures
            final(self)@ == sift_up(old(self)@.push(val), old(self)@.len() as int),
            final(self)@.to_multiset() == old(self)@.to_multiset().insert(val),
            is_heap(old(self)@) ==> is_heap(final(self)@),
    {
        let ghost before = self@;
        self.nodes.push(val);
        proof {
            vstd::seq_lib::to_multiset_build(before, val);
            if is_heap(before) {
                let s = before.push(val);
                let k = before.len() as int;
                assert forall|c: int| 0 < c < s.len() && c != k implies #[trigger] edge_ok(
                    s,
                    c,
                ) by {
                    assert(edge_ok(before, c));
                }
                assert(sift_up_ready(s, k));
            }
        }
        let last = self.nodes.len() - 1;
        self.heapify_up(last);
    }

    /// Takes out the item that sorts first, if there is one: the last item
    /// takes the place of the root and sinks to its place.
    pub fn pop(&mut self) -> (popped: Option<T>)
        requires
            weakly_ordered::<T>(),
        ensures
            old(self)@.len() == 0 ==> popped.is_none() && final(self)@ == old(self)@,
            old(self)@.len() > 0 ==> popped == Some(old(self)@[0]) && final(self)@ == sift_down(
                old(self)@.update(0, old(self)@.last()).drop_last(),
                0,
            ) && final(self)@.to_multiset() == old(self)@.to_multiset().remove(old(self)@[0]),
            is_heap(old(self)@) ==> is_heap(final(self)@),
            is_heap(old(self)@) ==> forall|i: int|
                0 <= i < old(self)@.len() ==> at_most(old(self)@[0], #[trigger] old(self)@[i]),
    {
        let ghost before = self@;
        proof {
            if is_heap(before) {
                assert forall|i: int| 0 <= i < before.len() implies at_most(
                    before[0],
                    #[trigger] before[i],
                ) by {
                    lemma_root_sorts_first(before, i);
                }
            }
        }
        if self.nodes.is_empty() {
            return None;
        }
        let popped = self.nodes.swap_remove(0);
        proof {
            let moved = before.update(0, before.last());
            assert(self@ == moved.drop_last());
            assert(moved.drop_last() =~= moved.remove(moved.len() - 1));
            vstd::seq_lib::to_multiset_update(before, 0, before.last());
            vstd::seq_lib::to_multiset_remove(moved, moved.len() - 1);
            if before.len() == 1 {
                assert(self@.to_multiset() =~= before.to_multiset().remove(before[0]));
            } else {
                vstd::seq_lib::to_multiset_contains(before, before.last());
                assert(before.contains(before.last()));
                assert(self@.to_multiset() =~= before.to_multiset().remove(before[0])) by {
                    broadcast use vstd::multiset::group_multiset_axioms;

                }
            }
            if is_heap(before) {
                assert forall|c: int|
                    0 < c < self@.len() && parent_of(c) >= 1 implies #[trigger] edge_ok(
                    self@,
                    c,
                ) by {
                    assert(edge_ok(before, c));
                }
            }
        }
        if !self.nodes.is_empty() {
            self.heapify_down(0);
        } else {
            assert(sift_down(self@, 0) == self@);
        }
        Some(popped)
    }

    /// The index of the parent of the node at `ni`, which is not the root.
    #[inline]
    pub fn parent(&self, ni: NodeIdx) -> (p: NodeIdx)
        requires
            ni > 0,
        ensures
            p == parent_of(ni as int),
    {
        (ni - 1) / 2
    }

    /// The indices of the left and the right child of the node at `ni`, as
    /// far as the heap holds them.
    #[inline]
    pub fn children(&self, ni: NodeIdx) -> (pair: (Option<NodeIdx>, Option<NodeIdx>))
        ensures
            match pair.0 {
                Some(left) => left == 2 * ni + 1 && left < self@.len(),
                None => 2 * ni + 1 >= self@.len(),
            },
            match pair.1 {
                Some(right) => right == 2 * ni + 2 && right < self@.len(),
                None => 2 * ni + 2 >= self@.len(),
            },
    {
        let len = self.nodes.len();
        (
            if ni < len / 2 {
                Some(ni * 2 + 1)
            } else {
                None
            },
            if len > 0 && ni < (len - 1) / 2 {
                Some(ni * 2 + 2)
            } else {
                None
            },
        )
    }

    /// Lets the item at `ni` climb while it sorts strictly before its parent.
    pub fn heapify_up(&mut self, ni: NodeIdx)
        requires
            weakly_ordered::<T>(),
            ni == 0 || ni < old(self)@.len(),
        ensures
            final(self)@ == sift_up(old(self)@, ni as int),
            final(self)@.len() == old(self)@.len(),
            final(self)@.to_multiset() == old(self)@.to_multiset(),
            sift_up_ready(old(self)@, ni as int) ==> is_heap(final(self)@),
    {
        let ghost before = self@;
        let ghost start = ni;
        proof {
            lemma_sift_up_permutes(before, ni as int);
            if sift_up_ready(before, ni as int) {
                lemma_sift_up_repairs(before, ni as int);
            }
        }
        let mut ni = ni;
        while ni != 0 && is_less(&self.nodes[ni], &self.nodes[self.parent(ni)])
            invariant
                weakly_ordered::<T>(),
                ni == 0 || ni < self@.len(),
                sift_up(self@, ni as int) == sift_up(before, start as int),
            decreases ni,
        {
            let parent_id = self.parent(ni);
            swap_at(&mut self.nodes, ni, parent_id);
            ni = parent_id;
        }
    }

    /// Lets the item at `ni` sink while one of its children sorts strictly
    /// before it; it changes places with the child that sorts first.
    pub fn heapify_down(&mut self, ni: NodeIdx)
        requires
            weakly_ordered::<T>(),
        ensures
            final(self)@ == sift_down(old(self)@, ni as int),
            final(self)@.len() == old(self)@.len(),
            final(self)@.to_multiset() == old(self)@.to_multiset(),
            heap_from(old(self)@, ni + 1) ==> heap_from(final(self)@, ni as int),
    {
        let ghost before = self@;
        let ghost start = ni;
        proof {
            lemma_sift_down_permutes(before, ni as int);
            if heap_from(before, ni + 1) {
                assert forall|c: int|
                    0 < c < before.len() && parent_of(c) >= ni && parent_of(c)
                        != ni implies #[trigger] edge_ok(before, c) by {}
                assert(sift_down_ready(before, ni as int, ni as int));
                lemma_sift_down_repairs(before, ni as int, ni as int);
            }
        }
        let mut ni = ni;
        loop
            invariant
                weakly_ordered::<T>(),
                sift_down(self@, ni as int) == sift_down(before, start as int),
            ensures
                self@ == sift_down(before, start as int),
            decreases self@.len() - ni,
        {
            let (left, right) = self.children(ni);
            let mut least = ni;
            if let Some(left) = left {
                if is_less(&self.nodes[left], &self.nodes[least]) {
                    least = left;
                }
            }
            if let Some(right) = right {
                if is_less(&self.nodes[right], &self.nodes[least]) {
                    least = right;
                }
            }
            assert(least == least_of_three(self@, ni as int));
            // the item is in its place
            if least == ni {
                break ;
            }
            swap_at(&mut self.nodes, ni, least);
            ni = least;
        }
    }

    /// Walks the items in the order of the backing array, which is not the
    /// sorted order.
    pub fn iter(&self) -> (it: std::slice::Iter<'_, T>)
        ensures
            vstd::std_specs::slice::into_iter_elts(it) == self@,
    {
        self.nodes.iter()
    }
}

} // verus!
