//! A minimum spanning forest by Kruskal's algorithm: the edges are taken
//! in the order of their cost, and an edge is kept if it joins two trees.
use crate::data_structure::disjoint_set::{lemma_union_joins, DisjointSet};
use crate::graph::forest::{
    acyclic, connected, crosses, lemma_acyclic_push, lemma_connected_push, lemma_connected_refl,
    lemma_connected_sym, lemma_connected_trans, lemma_linked_connected, linked,
};
use crate::graph::model::{Edge, Graph, NodeId, NodeVal};
use crate::graph::mst::{
    cheapest_spanning, cut_greedy, cut_step, has_cut, lemma_cut_greedy_is_cheapest, spanning_forest,
};
use vstd::prelude::*;

verus! {

/// The edges that leave the first `k` nodes: those of node 0 first, those
/// of each node in the order in which they were added.
pub open spec fn edges_upto<V: NodeVal>(g: &Graph<V>, k: nat) -> Seq<Edge>
    decreases k,
{
    if k == 0 {
        Seq::empty()
    } else {
        edges_upto(g, (k - 1) as nat) + g.out_edges((k - 1) as usize)
    }
}

/// All edges of the graph, by source.
pub open spec fn all_edges<V: NodeVal>(g: &Graph<V>) -> Seq<Edge> {
    edges_upto(g, g.nodes@.len())
}

/// `s`, which is in the order of cost, with `e` put behind the last edge
/// that costs no more than `e`.
pub open spec fn insert_by_cost(s: Seq<Edge>, e: Edge) -> Seq<Edge>
    decreases s.len(),
{
    if s.len() == 0 {
        seq![e]
    } else if s.last().cost <= e.cost {
        s.push(e)
    } else {
        insert_by_cost(s.drop_last(), e).push(s.last())
    }
}

/// The edges of `s` in the order of their cost; edges of one cost stay in
/// the order that they have in `s`.
pub open spec fn sorted_by_cost(s: Seq<Edge>) -> Seq<Edge>
    decreases s.len(),
{
    if s.len() == 0 {
        s
    } else {
        insert_by_cost(sorted_by_cost(s.drop_last()), s.last())
    }
}

/// The forest that comes of taking the edges of `s` in turn and keeping
/// each one that joins two nodes which the edges kept so far do not join.
pub open spec fn greedy_forest(s: Seq<Edge>) -> Seq<Edge>
    decreases s.len(),
{
    if s.len() == 0 {
        s
    } else if connected(greedy_forest(s.drop_last()), s.last().src, s.last().dst) {
        greedy_forest(s.drop_last())
    } else {
        greedy_forest(s.drop_last()).push(s.last())
    }
}

/// Putting an edge in its place keeps the edges, and adds that one.
pub proof fn lemma_insert_by_cost_items(s: Seq<Edge>, e: Edge)
    ensures
        insert_by_cost(s, e).len() == s.len() + 1,
        insert_by_cost(s, e).to_multiset() == s.to_multiset().insert(e),
    decreases s.len(),
{
    broadcast use vstd::multiset::group_multiset_axioms;

    if s.len() == 0 {
        assert(seq![e] =~= s.push(e));
        vstd::seq_lib::to_multiset_build(s, e);
    } else if s.last().cost <= e.cost {
        vstd::seq_lib::to_multiset_build(s, e);
    } else {
        let init = s.drop_last();
        lemma_insert_by_cost_items(init, e);
        vstd::seq_lib::to_multiset_build(insert_by_cost(init, e), s.last());
        vstd::seq_lib::to_multiset_build(init, s.last());
        assert(init.push(s.last()) =~= s);
        assert(insert_by_cost(s, e).to_multiset() =~= s.to_multiset().insert(e));
    }
}

/// Sorting keeps the edges, each as often as it was there.
pub proof fn lemma_sorted_by_cost_items(s: Seq<Edge>)
    ensures
        sorted_by_cost(s).len() == s.len(),
        sorted_by_cost(s).to_multiset() == s.to_multiset(),
    decreases s.len(),
{
    if s.len() > 0 {
        let init = s.drop_last();
        lemma_sorted_by_cost_items(init);
        lemma_insert_by_cost_items(sorted_by_cost(init), s.last());
        vstd::seq_lib::to_multiset_build(init, s.last());
        assert(init.push(s.last()) =~= s);
    }
}

/// The costs never fall along `s`.
pub open spec fn ascending(s: Seq<Edge>) -> bool {
    forall|i: int, j: int| 0 <= i <= j < s.len() ==> (#[trigger] s[i]).cost <= (#[trigger] s[j]).cost
}

/// Putting an edge in its place keeps the order of cost.
pub proof fn lemma_insert_by_cost_ascending(s: Seq<Edge>, e: Edge)
    requires
        ascending(s),
    ensures
        ascending(insert_by_cost(s, e)),
        forall|i: int|
            0 <= i < insert_by_cost(s, e).len() ==> (#[trigger] insert_by_cost(s, e)[i]) == e
                || s.contains(insert_by_cost(s, e)[i]),
    decreases s.len(),
{
    let r = insert_by_cost(s, e);
    if s.len() == 0 {
    } else if s.last().cost <= e.cost {
        assert forall|i: int| 0 <= i < r.len() implies (#[trigger] r[i]) == e || s.contains(
            r[i],
        ) by {
            if i < s.len() {
                assert(s[i] == r[i]);
            }
        }
        assert forall|i: int, j: int| 0 <= i <= j < r.len() implies (#[trigger] r[i]).cost <= (
        #[trigger] r[j]).cost by {
            if j == s.len() && i < s.len() {
                assert(s[i].cost <= s[s.len() - 1].cost);
            } else if j < s.len() {
                assert(s[i].cost <= s[j].cost);
            }
        }
    } else {
        let init = s.drop_last();
        assert forall|i: int, j: int| 0 <= i <= j < init.len() implies (#[trigger] init[i]).cost <= (
        #[trigger] init[j]).cost by {
            assert(s[i].cost <= s[j].cost);
        }
        lemma_insert_by_cost_ascending(init, e);
        let t = insert_by_cost(init, e);
        lemma_insert_by_cost_items(init, e);
        assert forall|i: int| 0 <= i < r.len() implies (#[trigger] r[i]) == e || s.contains(
            r[i],
        ) by {
            if i < t.len() {
                assert(r[i] == t[i]);
                if t[i] != e {
                    assert(init.contains(t[i]));
                    let k = choose|k: int| 0 <= k < init.len() && init[k] == t[i];
                    assert(s[k] == t[i]);
                }
            } else {
                assert(r[i] == s[s.len() - 1]);
            }
        }
        assert forall|i: int, j: int| 0 <= i <= j < r.len() implies (#[trigger] r[i]).cost <= (
        #[trigger] r[j]).cost by {
            if j < t.len() {
                assert(t[i].cost <= t[j].cost);
            } else if i < t.len() {
                assert(r[i] == t[i]);
                if t[i] != e {
                    assert(init.contains(t[i]));
                    let k = choose|k: int| 0 <= k < init.len() && init[k] == t[i];
                    assert(s[k].cost <= s[s.len() - 1].cost);
                }
            }
        }
    }
}

/// What `sorted_by_cost` gives is in the order of cost.
pub proof fn lemma_sorted_by_cost_ascending(s: Seq<Edge>)
    ensures
        ascending(sorted_by_cost(s)),
    decreases s.len(),
{
    if s.len() > 0 {
        lemma_sorted_by_cost_ascending(s.drop_last());
        lemma_insert_by_cost_ascending(sorted_by_cost(s.drop_last()), s.last());
    }
}

/// The edges by source are the edges of the graph.
pub proof fn lemma_edges_upto_are_edges<V: NodeVal>(g: &Graph<V>, k: nat, e: Edge)
    requires
        g.wf(),
        k <= g.nodes@.len(),
    ensures
        edges_upto(g, k).contains(e) <==> g.has_edge(e) && e.src < k,
    decreases k,
{
    if k > 0 {
        let u = (k - 1) as usize;
        let before = edges_upto(g, (k - 1) as nat);
        let here = g.out_edges(u);
        lemma_edges_upto_are_edges(g, (k - 1) as nat, e);
        if edges_upto(g, k).contains(e) {
            let i = choose|i: int| 0 <= i < edges_upto(g, k).len() && edges_upto(g, k)[i] == e;
            if i < before.len() {
                assert(before[i] == e);
            } else {
                assert(here[i - before.len()] == e);
            }
        }
        if g.has_edge(e) && e.src < k {
            if e.src < k - 1 {
                let i = choose|i: int| 0 <= i < before.len() && before[i] == e;
                assert(edges_upto(g, k)[i] == e);
            } else {
                let i = choose|i: int| 0 <= i < here.len() && here[i] == e;
                assert(edges_upto(g, k)[before.len() + i] == e);
            }
        }
    } else {
        if g.has_edge(e) {
            let i = choose|i: int|
                0 <= i < g.out_edges(e.src).len() && g.out_edges(e.src)[i] == e;
            assert(g.out_edges(e.src)[i].src == e.src);
        }
    }
}

/// All edges of the graph, by source.
pub fn collect_edges<V: NodeVal>(graph: &Graph<V>) -> (all: Vec<Edge>)
    ensures
        all@ == all_edges(graph),
{
    let mut all: Vec<Edge> = Vec::new();
    let n = graph.nodes.len();
    let mut u: usize = 0;
    while u < n
        invariant
            u <= n,
            n == graph.nodes@.len(),
            all@ == edges_upto(graph, u as nat),
        decreases n - u,
    {
        let list = graph.edges(u);
        let mut i: usize = 0;
        while i < list.len()
            invariant
                i <= list@.len(),
                list@ == graph.out_edges(u),
                all@ == edges_upto(graph, u as nat) + list@.take(i as int),
            decreases list@.len() - i,
        {
            all.push(list[i]);
            i += 1;
            assert(list@.take(i as int) =~= list@.take(i - 1).push(list@[i - 1]));
        }
        assert(list@.take(i as int) =~= list@);
        u += 1;
    }
    all
}

/// Two sequences in the order of cost, merged into one: of two edges of
/// one cost, that of `b` comes later.
pub open spec fn merged(a: Seq<Edge>, b: Seq<Edge>) -> Seq<Edge>
    decreases a.len() + b.len(),
{
    if a.len() == 0 {
        b
    } else if b.len() == 0 {
        a
    } else if a.last().cost <= b.last().cost {
        merged(a, b.drop_last()).push(b.last())
    } else {
        merged(a.drop_last(), b).push(a.last())
    }
}

/// What two sequences merge into ends in the last edge of one of them, and
/// is as long as the two together.
pub proof fn lemma_merged_last(a: Seq<Edge>, b: Seq<Edge>)
    ensures
        merged(a, b).len() == a.len() + b.len(),
        a.len() + b.len() > 0 ==> merged(a, b).last() == (if a.len() == 0 {
            b.last()
        } else if b.len() == 0 {
            a.last()
        } else if a.last().cost <= b.last().cost {
            b.last()
        } else {
            a.last()
        }),
    decreases a.len() + b.len(),
{
    if a.len() > 0 && b.len() > 0 {
        if a.last().cost <= b.last().cost {
            lemma_merged_last(a, b.drop_last());
        } else {
            lemma_merged_last(a.drop_last(), b);
        }
    }
}

/// An edge put in its place in the second of two sequences, which are then
/// merged, is in its place in what the two merge into.
pub proof fn lemma_merged_insert(a: Seq<Edge>, b: Seq<Edge>, x: Edge)
    requires
        ascending(a),
        ascending(b),
    ensures
        merged(a, insert_by_cost(b, x)) == insert_by_cost(merged(a, b), x),
    decreases a.len() + b.len(),
{
    let with_x = insert_by_cost(b, x);
    lemma_insert_by_cost_items(b, x);
    lemma_merged_last(a, b);
    if a.len() == 0 {
    } else {
        let a_init = a.drop_last();
        assert(ascending(a_init)) by {
            assert forall|i: int, j: int| 0 <= i <= j < a_init.len() implies (
            #[trigger] a_init[i]).cost <= (#[trigger] a_init[j]).cost by {
                assert(a[i].cost <= a[j].cost);
            }
        }
        if b.len() == 0 || b.last().cost <= x.cost {
            assert(with_x == b.push(x));
            assert(with_x.drop_last() =~= b);
            assert(with_x.last() == x);
            if a.last().cost <= x.cost {
            } else {
                lemma_merged_insert(a_init, b, x);
                if b.len() > 0 {
                    assert(merged(a, b) == merged(a_init, b).push(a.last()));
                } else {
                    assert(merged(a_init, b) == a_init);
                    assert(a_init.push(a.last()) =~= a);
                }
                assert(merged(a, b).drop_last() =~= merged(a_init, b));
            }
        } else {
            let b_init = b.drop_last();
            assert(ascending(b_init)) by {
                assert forall|i: int, j: int| 0 <= i <= j < b_init.len() implies (
                #[trigger] b_init[i]).cost <= (#[trigger] b_init[j]).cost by {
                    assert(b[i].cost <= b[j].cost);
                }
            }
            assert(with_x == insert_by_cost(b_init, x).push(b.last()));
            assert(with_x.drop_last() =~= insert_by_cost(b_init, x));
            assert(with_x.last() == b.last());
            if a.last().cost <= b.last().cost {
                lemma_merged_insert(a, b_init, x);
                assert(merged(a, b).drop_last() =~= merged(a, b_init));
            } else {
                lemma_merged_insert(a_init, b, x);
                assert(merged(a, b).drop_last() =~= merged(a_init, b));
            }
        }
    }
}

/// Sorting two sequences and merging them sorts the two in a row.
pub proof fn lemma_sorted_by_cost_merges(a: Seq<Edge>, b: Seq<Edge>)
    ensures
        sorted_by_cost(a + b) == merged(sorted_by_cost(a), sorted_by_cost(b)),
    decreases b.len(),
{
    if b.len() == 0 {
        assert(a + b =~= a);
        lemma_sorted_by_cost_items(a);
        if a.len() == 0 {
            assert(sorted_by_cost(b) =~= sorted_by_cost(a));
        }
    } else {
        let init = b.drop_last();
        lemma_sorted_by_cost_merges(a, init);
        assert((a + b).drop_last() =~= a + init);
        assert((a + b).last() == b.last());
        lemma_sorted_by_cost_ascending(a);
        lemma_sorted_by_cost_ascending(init);
        lemma_merged_insert(sorted_by_cost(a), sorted_by_cost(init), b.last());
    }
}

/// Merges two sequences that are in the order of cost into one.
pub fn merge_by_cost(a: &Vec<Edge>, b: &Vec<Edge>) -> (out: Vec<Edge>)
    requires
        a@.len() + b@.len() <= usize::MAX,
    ensures
        out@ == merged(a@, b@),
{
    let mut out: Vec<Edge> = Vec::new();
    let total = a.len() + b.len();
    let mut k: usize = 0;
    // room for every edge, to be filled from the end
    while k < total
        invariant
            k <= total,
            out@.len() == k,
        decreases total - k,
    {
        out.push(Edge { src: 0, dst: 0, cost: 0 });
        k += 1;
    }
    let mut i: usize = a.len();
    let mut j: usize = b.len();
    proof {
        assert(a@.take(i as int) =~= a@);
        assert(b@.take(j as int) =~= b@);
        assert(out@.skip(k as int) =~= Seq::<Edge>::empty());
        assert(merged(a@, b@) + Seq::<Edge>::empty() =~= merged(a@, b@));
    }
    while k > 0
        invariant
            i <= a@.len(),
            j <= b@.len(),
            k == i + j,
            out@.len() == a@.len() + b@.len(),
            merged(a@, b@) == merged(a@.take(i as int), b@.take(j as int)) + out@.skip(k as int),
        decreases k,
    {
        let ghost before = out@;
        let ghost left = a@.take(i as int);
        let ghost right = b@.take(j as int);
        let from_b = j > 0 && (i == 0 || a[i - 1].cost <= b[j - 1].cost);
        if from_b {
            out[k - 1] = b[j - 1];
            proof {
                assert(right.last() == b@[j - 1]);
                assert(right.drop_last() =~= b@.take(j - 1));
                if i > 0 {
                    assert(left.last() == a@[i - 1]);
                }
                assert(merged(left, right) == merged(left, right.drop_last()).push(right.last())) by {
                    if i == 0 {
                        assert(right.drop_last().push(right.last()) =~= right);
                    }
                }
                assert(merged(left, right.drop_last()).push(right.last()) + before.skip(k as int)
                    =~= merged(left, right.drop_last()) + out@.skip(k - 1));
            }
            j -= 1;
        } else {
            out[k - 1] = a[i - 1];
            proof {
                assert(left.last() == a@[i - 1]);
                assert(left.drop_last() =~= a@.take(i - 1));
                if j > 0 {
                    assert(right.last() == b@[j - 1]);
                }
                assert(merged(left, right) == merged(left.drop_last(), right).push(left.last())) by {
                    if j == 0 {
                        assert(left.drop_last().push(left.last()) =~= left);
                    }
                }
                assert(merged(left.drop_last(), right).push(left.last()) + before.skip(k as int)
                    =~= merged(left.drop_last(), right) + out@.skip(k - 1));
            }
            i -= 1;
        }
        k -= 1;
    }
    proof {
        assert(a@.take(0) =~= Seq::<Edge>::empty());
        assert(out@.skip(0) =~= out@);
        assert(Seq::<Edge>::empty() + out@ =~= out@);
    }
    out
}

/// The edges from `lo` up to `hi` in the order of their cost, sorted by
/// halving and merging.
pub fn sorted_range(edges: &Vec<Edge>, lo: usize, hi: usize) -> (out: Vec<Edge>)
    requires
        lo <= hi <= edges@.len(),
    ensures
        out@ == sorted_by_cost(edges@.subrange(lo as int, hi as int)),
    decreases hi - lo,
{
    let ghost range = edges@.subrange(lo as int, hi as int);
    if hi - lo <= 1 {
        let mut out: Vec<Edge> = Vec::new();
        if hi - lo == 1 {
            out.push(edges[lo]);
            proof {
                assert(range.drop_last() =~= Seq::<Edge>::empty());
                assert(sorted_by_cost(range.drop_last()) =~= Seq::<Edge>::empty());
                assert(range.last() == edges@[lo as int]);
                assert(out@ =~= seq![edges@[lo as int]]);
            }
        } else {
            assert(out@ =~= sorted_by_cost(range));
        }
        return out;
    }
    let mid = lo + (hi - lo) / 2;
    let first = sorted_range(edges, lo, mid);
    let second = sorted_range(edges, mid, hi);
    proof {
        let a = edges@.subrange(lo as int, mid as int);
        let b = edges@.subrange(mid as int, hi as int);
        assert(range =~= a + b);
        lemma_sorted_by_cost_merges(a, b);
        lemma_sorted_by_cost_items(a);
        lemma_sorted_by_cost_items(b);
    }
    merge_by_cost(&first, &second)
}

/// Puts the edges in the order of their cost; edges of one cost stay in
/// the order in which they came.
pub fn sort_by_cost(edges: &mut Vec<Edge>)
    ensures
        final(edges)@ == sorted_by_cost(old(edges)@),
{
    let sorted = sorted_range(edges, 0, edges.len());
    proof {
        assert(edges@.subrange(0, edges@.len() as int) =~= edges@);
    }
    *edges = sorted;
}

/// A minimum spanning forest of the graph, read without direction: the
/// edges are collected by source and put in the order of their cost, and
/// each edge whose ends the edges chosen before it do not join is chosen.
pub fn kruskal<V: NodeVal>(graph: &Graph<V>) -> (mst: Vec<Edge>)
    requires
        graph.wf(),
    ensures
        mst@ == greedy_forest(sorted_by_cost(all_edges(graph))),
        spanning_forest(graph, mst@),
        cheapest_spanning(graph, mst@),
{
    let n = graph.nodes.len();
    let mut disjoint_set = DisjointSet::new(n);
    let mut all_edges = collect_edges(graph);
    let ghost collected = all_edges@;
    sort_by_cost(&mut all_edges);
    let ghost sorted = all_edges@;
    proof {
        lemma_sorted_by_cost_items(collected);
        lemma_sorted_by_cost_ascending(collected);
        assert forall|e: Edge| sorted.contains(e) <==> #[trigger] graph.has_edge(e) by {
            vstd::seq_lib::to_multiset_contains(sorted, e);
            vstd::seq_lib::to_multiset_contains(collected, e);
            lemma_edges_upto_are_edges(graph, n as nat, e);
            if graph.has_edge(e) {
                let i = choose|i: int|
                    0 <= i < graph.out_edges(e.src).len() && graph.out_edges(e.src)[i] == e;
                assert(graph.out_edges(e.src)[i].src == e.src);
            }
        }
        assert forall|a: NodeId, b: NodeId| a < n && b < n implies (disjoint_set.same_set(
            a as int,
            b as int,
        ) <==> #[trigger] connected(Seq::<Edge>::empty(), a, b)) by {
            assert(disjoint_set.root_of(a as int) == a);
            assert(disjoint_set.root_of(b as int) == b);
            lemma_connected_refl(Seq::<Edge>::empty(), a);
            if connected(Seq::<Edge>::empty(), a, b) && a != b {
                lemma_empty_joins_nothing(a, b);
            }
        }
        assert(sorted.take(0) =~= Seq::<Edge>::empty());
    }
    let mut mst: Vec<Edge> = Vec::new();
    let mut i: usize = 0;
    while i < all_edges.len()
        invariant
            graph.wf(),
            n == graph.nodes@.len(),
            disjoint_set.wf(),
            disjoint_set.size() == n,
            all_edges@ == sorted,
            i <= sorted.len(),
            forall|e: Edge| sorted.contains(e) <==> #[trigger] graph.has_edge(e),
            mst@ == greedy_forest(sorted.take(i as int)),
            ascending(sorted),
            cut_greedy(graph, mst@),
            acyclic(mst@),
            forall|k: int| 0 <= k < mst@.len() ==> graph.has_edge(#[trigger] mst@[k]),
            forall|a: NodeId, b: NodeId|
                a < n && b < n ==> (disjoint_set.same_set(a as int, b as int) <==> #[trigger] connected(
                    mst@,
                    a,
                    b,
                )),
            forall|j: int|
                0 <= j < i ==> connected(mst@, (#[trigger] sorted[j]).src, sorted[j].dst),
        decreases sorted.len() - i,
    {
        let edge = all_edges[i];
        let ghost chosen = mst@;
        let ghost sets0 = disjoint_set;
        proof {
            assert(sorted.contains(edge));
            assert(graph.has_edge(edge));
            let slot = choose|k: int|
                0 <= k < graph.out_edges(edge.src).len() && graph.out_edges(edge.src)[k] == edge;
            assert(graph.out_edges(edge.src)[slot] == edge);
            assert(sorted.take(i + 1).drop_last() =~= sorted.take(i as int));
            assert(sorted.take(i + 1).last() == edge);
        }
        let root_src = disjoint_set.find(edge.src);
        let ghost sets1 = disjoint_set;
        let root_dst = disjoint_set.find(edge.dst);
        let ghost sets2 = disjoint_set;
        proof {
            assert(sets1.root_of(edge.dst as int) == sets0.root_of(edge.dst as int));
            assert forall|a: int| 0 <= a < n implies #[trigger] sets2.root_of(a) == sets0.root_of(
                a,
            ) by {
                assert(sets1.root_of(a) == sets0.root_of(a));
            }
            assert(sets0.same_set(edge.src as int, edge.dst as int) <==> connected(
                chosen,
                edge.src,
                edge.dst,
            ));
        }
        if root_src != root_dst {
            // the edge closes no cycle: it joins two trees of the forest
            disjoint_set.union(edge.src, edge.dst);
            mst.push(edge);
            proof {
                lemma_union_joins(sets2, disjoint_set, edge.src as int, edge.dst as int);
                lemma_acyclic_push(chosen, edge);
                lemma_chosen_is_cheapest_across(graph, sorted, i as int, chosen);
                assert forall|k: int| 0 <= k < mst@.len() implies #[trigger] has_cut(
                    graph,
                    mst@,
                    k,
                ) by {
                    if k < chosen.len() {
                        assert(has_cut(graph, chosen, k));
                        let s = choose|s: Set<NodeId>| #[trigger] cut_step(graph, chosen, k, s);
                        assert(mst@[k] == chosen[k]);
                        assert forall|a: int| 0 <= a < k implies !crosses(s, #[trigger] mst@[a]) by {
                            assert(mst@[a] == chosen[a]);
                        }
                        assert(cut_step(graph, mst@, k, s));
                    }
                }
                assert forall|a: NodeId, b: NodeId| a < n && b < n implies (disjoint_set.same_set(
                    a as int,
                    b as int,
                ) <==> #[trigger] connected(mst@, a, b)) by {
                    lemma_connected_push(chosen, edge, a, b);
                    assert(sets0.same_set(a as int, b as int) <==> connected(chosen, a, b));
                    assert(sets0.same_set(a as int, edge.src as int) <==> connected(
                        chosen,
                        a,
                        edge.src,
                    ));
                    assert(sets0.same_set(a as int, edge.dst as int) <==> connected(
                        chosen,
                        a,
                        edge.dst,
                    ));
                    assert(sets0.same_set(edge.src as int, b as int) <==> connected(
                        chosen,
                        edge.src,
                        b,
                    ));
                    assert(sets0.same_set(edge.dst as int, b as int) <==> connected(
                        chosen,
                        edge.dst,
                        b,
                    ));
                }
                assert forall|j: int| 0 <= j < i + 1 implies connected(
                    mst@,
                    (#[trigger] sorted[j]).src,
                    sorted[j].dst,
                ) by {
                    lemma_connected_push(chosen, edge, sorted[j].src, sorted[j].dst);
                    lemma_connected_refl(chosen, edge.src);
                    lemma_connected_refl(chosen, edge.dst);
                }
                assert forall|k: int| 0 <= k < mst@.len() implies graph.has_edge(
                    #[trigger] mst@[k],
                ) by {
                    if k < chosen.len() {
                        assert(mst@[k] == chosen[k]);
                    }
                }
            }
        } else {
            proof {
                assert forall|a: NodeId, b: NodeId| a < n && b < n implies (disjoint_set.same_set(
                    a as int,
                    b as int,
                ) <==> #[trigger] connected(mst@, a, b)) by {
                    assert(sets0.same_set(a as int, b as int) <==> connected(chosen, a, b));
                }
            }
        }
        i += 1;
    }
    proof {
        assert(sorted.take(i as int) =~= sorted);
        assert forall|e: Edge| #[trigger] graph.has_edge(e) implies connected(
            mst@,
            e.src,
            e.dst,
        ) by {
            assert(sorted.contains(e));
            let j = choose|j: int| 0 <= j < sorted.len() && sorted[j] == e;
            assert(connected(mst@, sorted[j].src, sorted[j].dst));
        }
        assert forall|other: Seq<Edge>| #[trigger] spanning_forest(
            graph,
            other,
        ) implies crate::graph::forest::total_cost(mst@) <= crate::graph::forest::total_cost(
            other,
        ) by {
            lemma_cut_greedy_is_cheapest(graph, mst@, other);
        }
    }
    mst
}

/// The edge that Kruskal's algorithm chooses is a cheapest edge across the
/// border of the tree that holds its source: the edges chosen so far join
/// the ends of every edge that came before it.
pub proof fn lemma_chosen_is_cheapest_across<V: NodeVal>(
    g: &Graph<V>,
    sorted: Seq<Edge>,
    i: int,
    chosen: Seq<Edge>,
)
    requires
        0 <= i < sorted.len(),
        ascending(sorted),
        forall|e: Edge| sorted.contains(e) <==> #[trigger] g.has_edge(e),
        forall|j: int| 0 <= j < i ==> connected(chosen, (#[trigger] sorted[j]).src, sorted[j].dst),
        !connected(chosen, sorted[i].src, sorted[i].dst),
    ensures
        has_cut(g, chosen.push(sorted[i]), chosen.len() as int),
{
    let e = sorted[i];
    let tree = chosen.push(e);
    let s = Set::new(|x: NodeId| connected(chosen, e.src, x));
    lemma_connected_refl(chosen, e.src);
    assert(sorted.contains(e));
    assert forall|a: NodeId, b: NodeId| connected(chosen, a, b) implies s.contains(a)
        == s.contains(b) by {
        if s.contains(a) {
            lemma_connected_trans(chosen, e.src, a, b);
        }
        if s.contains(b) {
            lemma_connected_sym(chosen, a, b);
            lemma_connected_trans(chosen, e.src, b, a);
        }
    }
    assert forall|k: int| 0 <= k < chosen.len() implies !crosses(s, #[trigger] tree[k]) by {
        assert(tree[k] == chosen[k]);
        assert(linked(chosen, chosen[k].src, chosen[k].dst));
        lemma_linked_connected(chosen, chosen[k].src, chosen[k].dst);
    }
    assert forall|h: Edge| #[trigger] g.has_edge(h) && crosses(s, h) implies e.cost <= h.cost by {
        assert(sorted.contains(h));
        let j = choose|j: int| 0 <= j < sorted.len() && sorted[j] == h;
        if j < i {
            assert(connected(chosen, sorted[j].src, sorted[j].dst));
        }
    }
    assert(tree[chosen.len() as int] == e);
    assert(cut_step(g, tree, chosen.len() as int, s));
}

/// Without an edge no two nodes are joined.
pub proof fn lemma_empty_joins_nothing(a: NodeId, b: NodeId)
    requires
        connected(Seq::<Edge>::empty(), a, b),
    ensures
        a == b,
{
    let none = Seq::<Edge>::empty();
    let path = choose|path: Seq<NodeId>| #[trigger] crate::graph::forest::joins(none, a, b, path);
    if path.len() > 1 {
        assert(crate::graph::forest::linked(none, path[0], path[1]));
    }
}

} // verus!
