//! A disjoint-set forest with union by rank and path halving.
use vstd::prelude::*;

verus! {

/// How many of the first `k` indices are their own parent.
pub open spec fn count_roots(parent: Seq<usize>, k: int) -> nat
    decreases k,
{
    if k <= 0 {
        0
    } else if parent[k - 1] == k - 1 {
        count_roots(parent, k - 1) + 1
    } else {
        count_roots(parent, k - 1)
    }
}

/// What the forest asks of the node `i`: its pointer stays inside the
/// forest, its rank is below that of its parent, and its rank does not
/// exceed the number of merges made so far.
pub open spec fn node_ok(parent: Seq<usize>, rank: Seq<usize>, i: int) -> bool {
    &&& parent[i] < parent.len()
    &&& parent[i] != i ==> rank[i] < rank[parent[i] as int]
    &&& rank[i] + count_roots(parent, parent.len() as int) <= parent.len()
}

/// The parent pointers form a forest that the ranks bound.
pub open spec fn forest(parent: Seq<usize>, rank: Seq<usize>) -> bool {
    &&& parent.len() == rank.len()
    &&& forall|i: int| 0 <= i < parent.len() ==> #[trigger] node_ok(parent, rank, i)
}

/// The root that the parent pointers lead to from `x`. It is defined for
/// a node of a forest; what is asked of the node and of its parent follows
/// from `forest` and is named so that the way up is seen to end.
pub open spec fn root(parent: Seq<usize>, rank: Seq<usize>, x: int) -> int
    decreases rank.len() - rank[x],
    when forest(parent, rank) && 0 <= x < parent.len() && node_ok(parent, rank, x) && node_ok(
        parent,
        rank,
        parent[x] as int,
    )
{
    if parent[x] == x {
        x
    } else {
        root(parent, rank, parent[x] as int)
    }
}

/// What path halving from `x` makes of the parent pointers: every node on
/// the way to the root, taken two steps at a time, points to its grandparent.
/// Each step leaves a forest (`lemma_halving_keeps_forest`), which is what
/// lets the next step be taken.
pub open spec fn halve(parent: Seq<usize>, rank: Seq<usize>, x: int) -> Seq<usize>
    decreases rank.len() - rank[x],
    when forest(parent, rank) && 0 <= x < parent.len() && node_ok(parent, rank, x) && node_ok(
        parent,
        rank,
        parent[x] as int,
    ) && node_ok(parent, rank, parent[parent[x] as int] as int)
{
    if parent[x] == x {
        parent
    } else {
        let grandparent = parent[parent[x] as int];
        if forest(parent.update(x, grandparent), rank) {
            halve(parent.update(x, grandparent), rank, grandparent as int)
        } else {
            parent
        }
    }
}

/// One step of path halving, spelled out.
pub proof fn lemma_halve_step(parent: Seq<usize>, rank: Seq<usize>, x: int)
    requires
        forest(parent, rank),
        0 <= x < parent.len(),
        parent[x] != x,
        forest(parent.update(x, parent[parent[x] as int]), rank),
    ensures
        halve(parent, rank, x) == halve(
            parent.update(x, parent[parent[x] as int]),
            rank,
            parent[parent[x] as int] as int,
        ),
{
    assert(node_ok(parent, rank, x));
    assert(node_ok(parent, rank, parent[x] as int));
    assert(node_ok(parent, rank, parent[parent[x] as int] as int));
}

/// The root of a node is a root, and lies in the forest.
pub proof fn lemma_root_is_root(parent: Seq<usize>, rank: Seq<usize>, x: int)
    requires
        forest(parent, rank),
        0 <= x < parent.len(),
    ensures
        0 <= root(parent, rank, x) < parent.len(),
        parent[root(parent, rank, x)] == root(parent, rank, x),
        root(parent, rank, root(parent, rank, x)) == root(parent, rank, x),
        rank[x] <= rank[root(parent, rank, x)],
    decreases rank.len() - rank[x],
{
    assert(node_ok(parent, rank, x));
    assert(node_ok(parent, rank, parent[x] as int));
    if parent[x] != x {
        lemma_root_is_root(parent, rank, parent[x] as int);
    }
}

/// The count of roots looks only at which nodes are their own parent.
pub proof fn lemma_count_roots_same(p: Seq<usize>, q: Seq<usize>, k: int)
    requires
        p.len() == q.len(),
        k <= p.len(),
        forall|i: int| 0 <= i < k ==> ((#[trigger] p[i]) == i <==> q[i] == i),
    ensures
        count_roots(p, k) == count_roots(q, k),
    decreases k,
{
    if k > 0 {
        lemma_count_roots_same(p, q, k - 1);
        assert(p[k - 1] == k - 1 <==> q[k - 1] == k - 1);
    }
}

/// Putting a root under another node takes one root away.
pub proof fn lemma_count_roots_link(p: Seq<usize>, y: int, v: usize, k: int)
    requires
        0 <= y < p.len(),
        k <= p.len(),
        p[y] == y,
        v != y,
    ensures
        count_roots(p.update(y, v), k) + (if y < k {
            1int
        } else {
            0int
        }) == count_roots(p, k),
    decreases k,
{
    if k > 0 {
        lemma_count_roots_link(p, y, v, k - 1);
    }
}

/// Where there is a root, the count of roots is not zero.
pub proof fn lemma_count_roots_positive(p: Seq<usize>, r: int, k: int)
    requires
        0 <= r < k <= p.len(),
        p[r] == r,
    ensures
        count_roots(p, k) >= 1,
    decreases k,
{
    if r < k - 1 {
        lemma_count_roots_positive(p, r, k - 1);
    }
}

/// Among nodes that are all their own parent, every one counts.
pub proof fn lemma_count_roots_identity(p: Seq<usize>, k: int)
    requires
        0 <= k <= p.len(),
        forall|i: int| 0 <= i < k ==> (#[trigger] p[i]) == i,
    ensures
        count_roots(p, k) == k,
    decreases k,
{
    if k > 0 {
        lemma_count_roots_identity(p, k - 1);
        assert(p[k - 1] == k - 1);
    }
}

/// One step of path halving keeps the forest.
pub proof fn lemma_halving_keeps_forest(parent: Seq<usize>, rank: Seq<usize>, x: int)
    requires
        forest(parent, rank),
        0 <= x < parent.len(),
        parent[x] != x,
    ensures
        forest(parent.update(x, parent[parent[x] as int]), rank),
        rank[x] < rank[parent[parent[x] as int] as int],
        parent[parent[x] as int] != x,
{
    let p = parent[x] as int;
    let g = parent[p];
    let q = parent.update(x, g);
    assert(node_ok(parent, rank, x));
    assert(node_ok(parent, rank, p));
    assert forall|i: int| 0 <= i < parent.len() implies ((#[trigger] parent[i]) == i <==> q[i]
        == i) by {}
    lemma_count_roots_same(parent, q, parent.len() as int);
    assert forall|i: int| 0 <= i < q.len() implies #[trigger] node_ok(q, rank, i) by {
        assert(node_ok(parent, rank, i));
    }
}

/// One step of path halving keeps the root of every node.
pub proof fn lemma_halving_keeps_root(parent: Seq<usize>, rank: Seq<usize>, x: int, i: int)
    requires
        forest(parent, rank),
        0 <= x < parent.len(),
        parent[x] != x,
        0 <= i < parent.len(),
    ensures
        root(parent.update(x, parent[parent[x] as int]), rank, i) == root(parent, rank, i),
    decreases rank.len() - rank[i],
{
    let p = parent[x] as int;
    let g = parent[p];
    let q = parent.update(x, g);
    lemma_halving_keeps_forest(parent, rank, x);
    assert(node_ok(parent, rank, i));
    assert(node_ok(parent, rank, x));
    assert(node_ok(parent, rank, p));
    assert(node_ok(parent, rank, g as int));
    if parent[i] == i {
    } else if i == x {
        lemma_halving_keeps_root(parent, rank, x, g as int);
        assert(root(parent, rank, p) == root(parent, rank, g as int));
    } else {
        assert(node_ok(parent, rank, parent[i] as int));
        lemma_halving_keeps_root(parent, rank, x, parent[i] as int);
    }
}

/// Path halving keeps the forest and the root of every node.
pub proof fn lemma_halve_keeps_roots(parent: Seq<usize>, rank: Seq<usize>, x: int)
    requires
        forest(parent, rank),
        0 <= x < parent.len(),
    ensures
        forest(halve(parent, rank, x), rank),
        halve(parent, rank, x).len() == parent.len(),
        forall|i: int|
            0 <= i < parent.len() ==> #[trigger] root(halve(parent, rank, x), rank, i) == root(
                parent,
                rank,
                i,
            ),
    decreases rank.len() - rank[x],
{
    assert(node_ok(parent, rank, x));
    assert(node_ok(parent, rank, parent[x] as int));
    assert(node_ok(parent, rank, parent[parent[x] as int] as int));
    if parent[x] != x {
        let p = parent[x] as int;
        let g = parent[p];
        let q = parent.update(x, g);
        lemma_halving_keeps_forest(parent, rank, x);
        lemma_halve_keeps_roots(q, rank, g as int);
        lemma_halve_step(parent, rank, x);
        assert(halve(parent, rank, x) == halve(q, rank, g as int));
        assert forall|i: int| 0 <= i < parent.len() implies #[trigger] root(
            halve(parent, rank, x),
            rank,
            i,
        ) == root(parent, rank, i) by {
            lemma_halving_keeps_root(parent, rank, x, i);
            assert(root(halve(q, rank, g as int), rank, i) == root(q, rank, i));
        }
    }
}

/// What putting the root `loser` under the root `winner` makes of the
/// root of `i`.
pub proof fn lemma_link_roots(
    parent: Seq<usize>,
    rank: Seq<usize>,
    new_rank: Seq<usize>,
    loser: int,
    winner: int,
    i: int,
)
    requires
        forest(parent, rank),
        forest(parent.update(loser, winner as usize), new_rank),
        0 <= loser < parent.len(),
        0 <= winner < parent.len(),
        loser != winner,
        parent[loser] == loser,
        parent[winner] == winner,
        0 <= i < parent.len(),
    ensures
        root(parent.update(loser, winner as usize), new_rank, i) == (if root(parent, rank, i)
            == loser {
            winner
        } else {
            root(parent, rank, i)
        }),
    decreases rank.len() - rank[i],
{
    let q = parent.update(loser, winner as usize);
    assert(node_ok(parent, rank, i));
    assert(node_ok(parent, rank, parent[i] as int));
    assert(node_ok(q, new_rank, i));
    assert(node_ok(q, new_rank, q[i] as int));
    assert(node_ok(q, new_rank, winner));
    if i == loser {
        assert(q[winner] == winner);
        assert(root(q, new_rank, winner) == winner);
    } else if parent[i] == i {
    } else {
        lemma_link_roots(parent, rank, new_rank, loser, winner, parent[i] as int);
    }
}

/// Disjoint sets over the elements `0..size`, each set known by its root.
pub struct DisjointSet {
    pub parent: Vec<usize>,
    /// An upper bound on the height of the tree below each node; it keeps
    /// the trees flat when two of them are merged.
    pub rank: Vec<usize>,
}

impl DisjointSet {
    /// The invariant of the forest.
    pub open spec fn wf(&self) -> bool {
        forest(self.parent@, self.rank@)
    }

    /// The number of elements.
    pub open spec fn size(&self) -> nat {
        self.parent@.len()
    }

    /// The representative of the set that holds `x`.
    pub open spec fn root_of(&self, x: int) -> int {
        root(self.parent@, self.rank@, x)
    }

    /// Whether `a` and `b` are in one set.
    pub open spec fn same_set(&self, a: int, b: int) -> bool {
        self.root_of(a) == self.root_of(b)
    }

    /// The root that stands for both sets after the sets of `x` and `y`
    /// are merged: the one of larger rank, and that of `x` if the ranks are equal.
    pub open spec fn union_winner(&self, x: int, y: int) -> int {
        if self.rank@[self.root_of(x)] < self.rank@[self.root_of(y)] {
            self.root_of(y)
        } else {
            self.root_of(x)
        }
    }

    /// The root that gets a new parent when the sets of `x` and `y` are merged.
    pub open spec fn union_loser(&self, x: int, y: int) -> int {
        if self.rank@[self.root_of(x)] < self.rank@[self.root_of(y)] {
            self.root_of(x)
        } else {
            self.root_of(y)
        }
    }

    /// The representative of `i` once the sets of `x` and `y` are merged.
    pub open spec fn root_after_union(&self, x: int, y: int, i: int) -> int {
        if self.same_set(i, x) || self.same_set(i, y) {
            self.union_winner(x, y)
        } else {
            self.root_of(i)
        }
    }

    /// `self` is what `find(x)` makes of `before`.
    pub open spec fn follows_find(&self, before: &DisjointSet, x: int) -> bool {
        &&& self.wf()
        &&& self.rank@ == before.rank@
        &&& self.parent@ == halve(before.parent@, before.rank@, x)
        &&& forall|i: int|
            0 <= i < before.size() ==> #[trigger] self.root_of(i) == before.root_of(i)
    }

    /// `self` is what `union(x, y)` makes of `before`.
    pub open spec fn follows_union(&self, before: &DisjointSet, x: int, y: int) -> bool {
        &&& self.wf()
        &&& self.size() == before.size()
        &&& self.rank@ == (if !before.same_set(x, y) && before.rank@[before.root_of(x)]
            == before.rank@[before.root_of(y)] {
            before.rank@.update(
                before.root_of(x),
                (before.rank@[before.root_of(x)] + 1) as usize,
            )
        } else {
            before.rank@
        })
        &&& self.parent@ == ({
            let halved = halve(
                halve(before.parent@, before.rank@, x),
                before.rank@,
                y,
            );
            if before.same_set(x, y) {
                halved
            } else {
                halved.update(before.union_loser(x, y), before.union_winner(x, y) as usize)
            }
        })
        &&& forall|i: int|
            0 <= i < before.size() ==> #[trigger] self.root_of(i) == before.root_after_union(
                x,
                y,
                i,
            )
    }

    /// A forest of `size` sets of one element each.
    pub fn new(size: usize) -> (ds: Self)
        ensures
            ds.wf(),
            ds.size() == size,
            forall|i: int| 0 <= i < size ==> #[trigger] ds.parent@[i] == i,
            forall|i: int| 0 <= i < size ==> #[trigger] ds.rank@[i] == 0,
            forall|i: int| 0 <= i < size ==> #[trigger] ds.root_of(i) == i,
    {
        let mut parent: Vec<usize> = Vec::new();
        let mut rank: Vec<usize> = Vec::new();
        let mut i: usize = 0;
        while i < size
            invariant
                i <= size,
                parent@.len() == i,
                rank@.len() == i,
                forall|j: int| 0 <= j < i ==> #[trigger] parent@[j] == j,
                forall|j: int| 0 <= j < i ==> #[trigger] rank@[j] == 0,
            decreases size - i,
        {
            parent.push(i);
            rank.push(0);
            i += 1;
        }
        proof {
            lemma_count_roots_identity(parent@, size as int);
        }
        let ds = Self { parent, rank };
        assert forall|i: int| 0 <= i < size implies #[trigger] node_ok(
            ds.parent@,
            ds.rank@,
            i,
        ) by {
            assert(ds.parent@[i] == i);
            assert(ds.rank@[i] == 0);
        }
        assert forall|i: int| 0 <= i < size implies #[trigger] ds.root_of(i) == i by {
            assert(ds.parent@[i] == i);
            assert(node_ok(ds.parent@, ds.rank@, i));
        }
        ds
    }

    /// The root of the set of `x`. On the way up every node visited is made
    /// to point to its grandparent, which shortens the way for later calls.
    pub fn find(&mut self, x: usize) -> (r: usize)
        requires
            old(self).wf(),
            x < old(self).size(),
        ensures
            r == old(self).root_of(x as int),
            r < old(self).size(),
            final(self).follows_find(old(self), x as int),
    {
        let ghost parent0 = self.parent@;
        let ghost rank0 = self.rank@;
        let ghost x0 = x;
        let mut x = x;
        proof {
            lemma_halve_keeps_roots(parent0, rank0, x0 as int);
            lemma_root_is_root(parent0, rank0, x0 as int);
        }
        while self.parent[x] != x
            invariant
                self.wf(),
                forest(parent0, rank0),
                x < self.parent@.len(),
                self.parent@.len() == parent0.len(),
                self.rank@ == rank0,
                halve(self.parent@, rank0, x as int) == halve(parent0, rank0, x0 as int),
                root(self.parent@, rank0, x as int) == root(parent0, rank0, x0 as int),
                forall|i: int|
                    0 <= i < parent0.len() ==> #[trigger] root(self.parent@, rank0, i) == root(
                        parent0,
                        rank0,
                        i,
                    ),
            decreases self.rank@.len() - self.rank@[x as int],
        {
            proof {
                assert(node_ok(self.parent@, self.rank@, x as int));
                assert(node_ok(self.parent@, self.rank@, self.parent@[x as int] as int));
            }
            let p = self.parent[x];
            let grandparent = self.parent[p];
            proof {
                assert(node_ok(self.parent@, self.rank@, grandparent as int));
                lemma_halving_keeps_forest(self.parent@, self.rank@, x as int);
                lemma_halve_step(self.parent@, self.rank@, x as int);
                lemma_halving_keeps_root(self.parent@, self.rank@, x as int, grandparent as int);
                assert(root(self.parent@, rank0, p as int) == root(
                    self.parent@,
                    rank0,
                    grandparent as int,
                ));
                assert forall|i: int| 0 <= i < parent0.len() implies #[trigger] root(
                    self.parent@.update(x as int, grandparent),
                    rank0,
                    i,
                ) == root(parent0, rank0, i) by {
                    lemma_halving_keeps_root(self.parent@, self.rank@, x as int, i);
                    assert(root(self.parent@, rank0, i) == root(parent0, rank0, i));
                }
            }
            self.parent[x] = grandparent;
            x = grandparent;
        }
        proof {
            assert(node_ok(self.parent@, self.rank@, x as int));
        }
        x
    }

    /// Merges the sets of `x` and `y`: the root of smaller rank goes under
    /// the other one; of two roots of equal rank that of `y` goes under that
    /// of `x`, whose rank grows by one.
    pub fn union(&mut self, x: usize, y: usize)
        requires
            old(self).wf(),
            x < old(self).size(),
            y < old(self).size(),
        ensures
            final(self).follows_union(old(self), x as int, y as int),
    {
        let ghost before = *self;
        let root_x = self.find(x);
        let ghost mid = *self;
        let root_y = self.find(y);
        let ghost halved = *self;
        proof {
            lemma_root_is_root(before.parent@, before.rank@, x as int);
            lemma_root_is_root(before.parent@, before.rank@, y as int);
            assert(mid.root_of(y as int) == before.root_of(y as int));
            assert(halved.root_of(root_x as int) == before.root_of(root_x as int));
            assert(halved.root_of(root_y as int) == mid.root_of(root_y as int));
            assert(mid.root_of(root_y as int) == before.root_of(root_y as int));
            lemma_root_is_root(halved.parent@, halved.rank@, root_x as int);
            lemma_root_is_root(halved.parent@, halved.rank@, root_y as int);
            assert forall|i: int| 0 <= i < before.size() implies #[trigger] halved.root_of(i)
                == before.root_of(i) by {
                assert(mid.root_of(i) == before.root_of(i));
            }
        }
        if root_x != root_y {
            proof {
                lemma_count_roots_positive(
                    halved.parent@.update(root_y as int, root_x),
                    root_x as int,
                    halved.parent@.len() as int,
                );
                lemma_count_roots_link(
                    halved.parent@,
                    root_y as int,
                    root_x,
                    halved.parent@.len() as int,
                );
                lemma_count_roots_link(
                    halved.parent@,
                    root_x as int,
                    root_y,
                    halved.parent@.len() as int,
                );
            }
            proof {
                assert(node_ok(halved.parent@, halved.rank@, root_x as int));
                assert(node_ok(halved.parent@, halved.rank@, root_y as int));
            }
            // the larger tree becomes the parent
            if self.rank[root_x] > self.rank[root_y] {
                self.parent[root_y] = root_x;
            } else if self.rank[root_x] < self.rank[root_y] {
                self.parent[root_x] = root_y;
            } else {
                // with equal ranks either one can be the parent
                let r = self.rank[root_x];
                assert(count_roots(halved.parent@, halved.parent@.len() as int) >= 2);
                assert(r + 2 <= halved.parent@.len());
                assert(halved.parent@.len() == halved.parent.len());
                self.parent[root_y] = root_x;
                self.rank[root_x] = r + 1;
            }
            proof {
                let winner = before.union_winner(x as int, y as int);
                let loser = before.union_loser(x as int, y as int);
                assert(self.parent@ == halved.parent@.update(loser, winner as usize));
                assert(node_ok(halved.parent@, halved.rank@, winner));
                assert(node_ok(halved.parent@, halved.rank@, loser));
                assert(self.wf()) by {
                    assert forall|i: int| 0 <= i < self.parent@.len() implies #[trigger] node_ok(
                        self.parent@,
                        self.rank@,
                        i,
                    ) by {
                        assert(node_ok(halved.parent@, halved.rank@, i));
                    }
                }
                assert forall|i: int| 0 <= i < before.size() implies #[trigger] self.root_of(i)
                    == before.root_after_union(x as int, y as int, i) by {
                    lemma_link_roots(halved.parent@, halved.rank@, self.rank@, loser, winner, i);
                    assert(halved.root_of(i) == before.root_of(i));
                }
            }
        }
    }
}

/// Of two calls of `find` on one element the second returns what the first
/// returned, and neither moves any element to another set.
pub proof fn lemma_find_is_idempotent(
    first: DisjointSet,
    second: DisjointSet,
    third: DisjointSet,
    x: int,
)
    requires
        first.wf(),
        0 <= x < first.size(),
        second.follows_find(&first, x),
        third.follows_find(&second, x),
    ensures
        second.root_of(x) == first.root_of(x),
        third.root_of(x) == first.root_of(x),
        forall|i: int| 0 <= i < first.size() ==> #[trigger] third.root_of(i) == first.root_of(i),
{
    lemma_halve_keeps_roots(first.parent@, first.rank@, x);
    assert(second.size() == first.size());
    assert forall|i: int| 0 <= i < first.size() implies #[trigger] third.root_of(i)
        == first.root_of(i) by {
        assert(second.root_of(i) == first.root_of(i));
    }
}

/// After `union(x, y)` the two elements have one root, and two elements are
/// in one set exactly if they were before or the call joined their sets.
pub proof fn lemma_union_joins(before: DisjointSet, after: DisjointSet, x: int, y: int)
    requires
        before.wf(),
        0 <= x < before.size(),
        0 <= y < before.size(),
        after.follows_union(&before, x, y),
    ensures
        after.same_set(x, y),
        forall|i: int, j: int|
            0 <= i < before.size() && 0 <= j < before.size() ==> (#[trigger] after.same_set(i, j)
                <==> before.same_set(i, j) || (before.same_set(i, x) && before.same_set(j, y)) || (
            before.same_set(i, y) && before.same_set(j, x))),
{
    assert(after.root_of(x) == before.root_after_union(x, y, x));
    assert(after.root_of(y) == before.root_after_union(x, y, y));
    lemma_root_is_root(before.parent@, before.rank@, x);
    lemma_root_is_root(before.parent@, before.rank@, y);
    assert forall|i: int, j: int| 0 <= i < before.size() && 0 <= j < before.size() implies (
    #[trigger] after.same_set(i, j) <==> before.same_set(i, j) || (before.same_set(i, x)
        && before.same_set(j, y)) || (before.same_set(i, y) && before.same_set(j, x))) by {
        assert(after.root_of(i) == before.root_after_union(x, y, i));
        assert(after.root_of(j) == before.root_after_union(x, y, j));
    }
}

} // verus!
