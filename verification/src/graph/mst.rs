//! Spanning forests of least cost, and why choosing the cheapest edge
//! across a border leads to one.
use crate::graph::forest::{
    acyclic, connected, crosses, lemma_acyclic_push, lemma_acyclic_remove, lemma_connected_grows,
    lemma_connected_sym, lemma_crossing_bridge, lemma_edge_in_place,
    lemma_remove_within, lemma_total_cost_remove, lemma_total_cost_within, total_cost, within,
};
use crate::graph::model::{Edge, Graph, NodeId, NodeVal};
use vstd::prelude::*;

verus! {

/// `forest` is a spanning forest of the graph: it is made of edges of the
/// graph, holds no cycle, and joins the two ends of every edge of the graph.
pub open spec fn spanning_forest<V: NodeVal>(g: &Graph<V>, forest: Seq<Edge>) -> bool {
    &&& forall|k: int| 0 <= k < forest.len() ==> g.has_edge(#[trigger] forest[k])
    &&& acyclic(forest)
    &&& forall|e: Edge| #[trigger] g.has_edge(e) ==> connected(forest, e.src, e.dst)
}

/// No spanning forest of the graph costs less than `edges`.
pub open spec fn cheapest_spanning<V: NodeVal>(g: &Graph<V>, edges: Seq<Edge>) -> bool {
    forall|other: Seq<Edge>| #[trigger] spanning_forest(g, other) ==> total_cost(edges) <= total_cost(other)
}

/// The edge at `k` is a cheapest edge of the graph across the border of
/// `s`, which none of the edges before it crosses.
pub open spec fn cut_step<V: NodeVal>(g: &Graph<V>, tree: Seq<Edge>, k: int, s: Set<NodeId>) -> bool {
    &&& g.has_edge(tree[k])
    &&& crosses(s, tree[k])
    &&& forall|i: int| 0 <= i < k ==> !crosses(s, #[trigger] tree[i])
    &&& forall|h: Edge| #[trigger] g.has_edge(h) && crosses(s, h) ==> tree[k].cost <= h.cost
}

/// There is a border that the edge at `k` is a cheapest edge across, and
/// that no edge before it crosses.
pub open spec fn has_cut<V: NodeVal>(g: &Graph<V>, tree: Seq<Edge>, k: int) -> bool {
    exists|s: Set<NodeId>| #[trigger] cut_step(g, tree, k, s)
}

/// Every edge of `tree` was a cheapest edge across some border that the
/// edges before it did not cross.
pub open spec fn cut_greedy<V: NodeVal>(g: &Graph<V>, tree: Seq<Edge>) -> bool {
    forall|k: int| 0 <= k < tree.len() ==> #[trigger] has_cut(g, tree, k)
}

/// Where there is a spanning forest, there is one of least cost.
pub proof fn lemma_cheapest_exists<V: NodeVal>(g: &Graph<V>, witness: Seq<Edge>)
    requires
        spanning_forest(g, witness),
    ensures
        exists|best: Seq<Edge>| #[trigger] spanning_forest(g, best) && cheapest_spanning(g, best),
    decreases total_cost(witness),
{
    if exists|other: Seq<Edge>| #[trigger]
        spanning_forest(g, other) && total_cost(other) < total_cost(witness) {
        let other = choose|other: Seq<Edge>| #[trigger]
            spanning_forest(g, other) && total_cost(other) < total_cost(witness);
        lemma_cheapest_exists(g, other);
    } else {
        assert(cheapest_spanning(g, witness));
    }
}

/// A cheapest spanning forest that holds the edges before `k` can be
/// changed into one that holds the edge at `k` too.
pub proof fn lemma_exchange<V: NodeVal>(g: &Graph<V>, best: Seq<Edge>, tree: Seq<Edge>, k: int)
    requires
        spanning_forest(g, best),
        cheapest_spanning(g, best),
        0 <= k < tree.len(),
        has_cut(g, tree, k),
        within(tree.take(k), best),
    ensures
        exists|next: Seq<Edge>| #[trigger]
            spanning_forest(g, next) && cheapest_spanning(g, next) && within(tree.take(k + 1), next),
{
    let e = tree[k];
    let s = choose|s: Set<NodeId>| #[trigger] cut_step(g, tree, k, s);
    let before = tree.take(k);
    let upto = tree.take(k + 1);
    if best.contains(e) {
        assert forall|i: int| 0 <= i < upto.len() implies best.contains(#[trigger] upto[i]) by {
            if i < k {
                assert(before[i] == upto[i]);
            }
        }
    } else {
        let (u, v) = if s.contains(e.src) {
            (e.src, e.dst)
        } else {
            (e.dst, e.src)
        };
        assert(connected(best, e.src, e.dst));
        if u != e.src {
            lemma_connected_sym(best, e.src, e.dst);
        }
        lemma_crossing_bridge(best, s, u, v);
        let j = choose|j: int|
            0 <= j < best.len() && crosses(s, #[trigger] best[j]) && !connected(
                best.remove(j),
                u,
                v,
            );
        let f = best[j];
        let rest = best.remove(j);
        let next = rest.push(e);
        assert(g.has_edge(f));
        assert(e.cost <= f.cost);
        lemma_remove_within(best, j);
        lemma_acyclic_remove(best, j);
        assert(!connected(rest, e.src, e.dst)) by {
            if connected(rest, e.src, e.dst) && u != e.src {
                lemma_connected_sym(rest, e.src, e.dst);
            }
        }
        lemma_acyclic_push(rest, e);
        lemma_total_cost_remove(best, j);
        assert(next.drop_last() =~= rest);
        assert(total_cost(next) == total_cost(rest) + e.cost);
        assert(spanning_forest(g, next)) by {
            assert forall|i: int| 0 <= i < next.len() implies g.has_edge(#[trigger] next[i]) by {
                if i < rest.len() {
                    assert(next[i] == rest[i]);
                    assert(best.contains(rest[i]));
                    let b = choose|b: int| 0 <= b < best.len() && best[b] == rest[i];
                    assert(g.has_edge(best[b]));
                }
            }
            assert forall|h: Edge| #[trigger] g.has_edge(h) implies connected(
                next,
                h.src,
                h.dst,
            ) by {
                assert(connected(best, h.src, h.dst));
                lemma_connected_grows(best, rest.push(f), h.src, h.dst);
                lemma_connected_grows(best, rest.push(f), e.src, e.dst);
                lemma_edge_in_place(rest, f, e, h.src, h.dst);
            }
        }
        assert(cheapest_spanning(g, next)) by {
            assert forall|other: Seq<Edge>| #[trigger] spanning_forest(g, other) implies total_cost(
                next,
            ) <= total_cost(other) by {
                assert(total_cost(best) <= total_cost(other));
            }
        }
        assert forall|i: int| 0 <= i < upto.len() implies next.contains(#[trigger] upto[i]) by {
            if i < k {
                assert(before[i] == upto[i]);
                assert(best.contains(before[i]));
                assert(!crosses(s, tree[i]));
                assert(upto[i] != f);
                assert(rest.contains(upto[i]));
                let r = choose|r: int| 0 <= r < rest.len() && rest[r] == upto[i];
                assert(next[r] == upto[i]);
            } else {
                assert(next[rest.len() as int] == e);
            }
        }
    }
}

/// Some cheapest spanning forest holds the first `k` edges of a sequence
/// of cheapest edges across borders.
pub proof fn lemma_prefix_in_cheapest<V: NodeVal>(
    g: &Graph<V>,
    witness: Seq<Edge>,
    tree: Seq<Edge>,
    k: int,
)
    requires
        spanning_forest(g, witness),
        cut_greedy(g, tree),
        0 <= k <= tree.len(),
    ensures
        exists|best: Seq<Edge>| #[trigger]
            spanning_forest(g, best) && cheapest_spanning(g, best) && within(tree.take(k), best),
    decreases k,
{
    if k == 0 {
        lemma_cheapest_exists(g, witness);
        let best = choose|best: Seq<Edge>| #[trigger]
            spanning_forest(g, best) && cheapest_spanning(g, best);
        assert(within(tree.take(0), best));
    } else {
        lemma_prefix_in_cheapest(g, witness, tree, k - 1);
        let best = choose|best: Seq<Edge>| #[trigger]
            spanning_forest(g, best) && cheapest_spanning(g, best) && within(
                tree.take(k - 1),
                best,
            );
        assert(has_cut(g, tree, k - 1));
        lemma_exchange(g, best, tree, k - 1);
    }
}

/// Edges that were each a cheapest edge across a border are all different.
pub proof fn lemma_cut_greedy_no_duplicates<V: NodeVal>(g: &Graph<V>, tree: Seq<Edge>)
    requires
        cut_greedy(g, tree),
    ensures
        tree.no_duplicates(),
{
    assert forall|i: int, k: int| 0 <= i < tree.len() && 0 <= k < tree.len() && i != k implies tree[i]
        != tree[k] by {
        let (lo, hi) = if i < k {
            (i, k)
        } else {
            (k, i)
        };
        assert(has_cut(g, tree, hi));
        let s = choose|s: Set<NodeId>| #[trigger] cut_step(g, tree, hi, s);
        assert(!crosses(s, tree[lo]));
    }
}

/// A sequence of edges that were each a cheapest edge across a border that
/// the edges before it did not cross costs no more than any spanning forest.
pub proof fn lemma_cut_greedy_is_cheapest<V: NodeVal>(
    g: &Graph<V>,
    tree: Seq<Edge>,
    other: Seq<Edge>,
)
    requires
        cut_greedy(g, tree),
        spanning_forest(g, other),
    ensures
        total_cost(tree) <= total_cost(other),
{
    lemma_prefix_in_cheapest(g, other, tree, tree.len() as int);
    let best = choose|best: Seq<Edge>| #[trigger]
        spanning_forest(g, best) && cheapest_spanning(g, best) && within(
            tree.take(tree.len() as int),
            best,
        );
    assert(tree.take(tree.len() as int) =~= tree);
    lemma_cut_greedy_no_duplicates(g, tree);
    lemma_total_cost_within(tree, best);
}

} // verus!
