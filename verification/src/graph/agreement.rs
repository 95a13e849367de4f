//! Where two of the algorithms must agree.
use crate::graph::astar::found_path;
use crate::graph::dijkstra::shortest_paths;
use crate::graph::forest::total_cost;
use crate::graph::model::{Edge, Graph, NodeId, NodeVal};
use crate::graph::mst::{cheapest_spanning, lemma_cut_greedy_is_cheapest, spanning_forest};
use crate::graph::paths::walk_cost;
use crate::graph::prim::{
    lemma_prim_tree_is_cut_greedy, lemma_prim_tree_spans, prim_tree, rooted, symmetric,
};
use crate::graph::search::Prevs;
use vstd::prelude::*;

verus! {

/// With an admissible heuristic, the cost that A* reports is the distance
/// that Dijkstra's algorithm records, from the same source, for the node in
/// which the path of A* ends; and no node among the targets is recorded at
/// a smaller distance.
pub proof fn lemma_astar_agrees_with_dijkstra<V: NodeVal>(
    g: &Graph<V>,
    src: NodeId,
    targets: Set<NodeId>,
    cost: usize,
    path: Seq<NodeId>,
    distances: Prevs,
)
    requires
        found_path(g, src, targets, true, Some((cost, path))),
        shortest_paths(g, src, distances),
    ensures
        distances.contains_key(path.last()),
        distances[path.last()].1 == cost,
        forall|t: NodeId|
            targets.contains(t) && #[trigger] distances.contains_key(t) ==> cost <= distances[t].1,
{
    let end = path.last();
    let p = choose|p: Seq<Edge>| #[trigger] g.is_walk(src, end, p) && walk_cost(p) == cost;
    assert(g.is_walk(src, end, p) && walk_cost(p) <= usize::MAX);
    assert(g.within_reach(src, end));
    assert(distances.contains_key(end));
    assert(g.is_shortest(src, end, distances[end].1 as int));
    let q = choose|q: Seq<Edge>| #[trigger]
        g.is_walk(src, end, q) && walk_cost(q) == distances[end].1;
    assert(g.is_walk(src, end, q));
    assert forall|t: NodeId|
        targets.contains(t) && #[trigger] distances.contains_key(t) implies cost
        <= distances[t].1 by {
        assert(g.is_shortest(src, t, distances[t].1 as int));
        let r = choose|r: Seq<Edge>| #[trigger]
            g.is_walk(src, t, r) && walk_cost(r) == distances[t].1;
        assert(g.is_walk(src, t, r));
    }
}

/// Where A* finds nothing, Dijkstra's algorithm records no target.
pub proof fn lemma_astar_misses_what_dijkstra_misses<V: NodeVal>(
    g: &Graph<V>,
    src: NodeId,
    targets: Set<NodeId>,
    adm: bool,
    distances: Prevs,
)
    requires
        found_path(g, src, targets, adm, None),
        shortest_paths(g, src, distances),
    ensures
        forall|t: NodeId| targets.contains(t) ==> !(#[trigger] distances.contains_key(t)),
{
    assert forall|t: NodeId| targets.contains(t) implies !(#[trigger] distances.contains_key(
        t,
    )) by {
        if distances.contains_key(t) {
            assert(g.within_reach(src, t));
        }
    }
}

/// On a graph that holds every edge in both directions and that a walk
/// from node 0 covers, the tree of Prim's algorithm and the forest of
/// Kruskal's algorithm cost the same.
pub proof fn lemma_prim_and_kruskal_agree<V: NodeVal>(
    g: &Graph<V>,
    by_prim: Seq<Edge>,
    by_kruskal: Seq<Edge>,
)
    requires
        symmetric(g),
        rooted(g),
        prim_tree(g, by_prim),
        spanning_forest(g, by_kruskal),
        cheapest_spanning(g, by_kruskal),
    ensures
        total_cost(by_prim) == total_cost(by_kruskal),
{
    lemma_prim_tree_spans(g, by_prim);
    lemma_prim_tree_is_cut_greedy(g, by_prim);
    lemma_cut_greedy_is_cheapest(g, by_prim, by_kruskal);
    assert(total_cost(by_kruskal) <= total_cost(by_prim));
}

} // verus!
