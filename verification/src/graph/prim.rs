//! A minimum spanning tree by Prim's algorithm: the tree grows from node 0
//! along the cheapest edge that leaves it.
use crate::data_structure::binary_heap::{is_heap, BinaryHeap};
use crate::graph::forest::{
    acyclic, connected, crosses, joins, lemma_connected_grows, lemma_connected_refl,
    lemma_connected_sym, lemma_connected_trans, lemma_linked_connected, linked, total_cost,
};
use crate::graph::mst::{
    cheapest_spanning, cut_greedy, cut_step, has_cut, lemma_cut_greedy_is_cheapest, spanning_forest,
};
use crate::graph::model::{Edge, Graph, NodeId, NodeVal};
use crate::order::{at_most, less, weakly_ordered};
use crate::sets::{below, lemma_below_len};
use crate::vecs::{lemma_contains_after_insert, lemma_contains_after_remove};
use std::collections::HashSet;
use vstd::prelude::*;

verus! {

/// An edge of the frontier as the queue holds it: its cost first, then its
/// source and its end, so that the cheapest edge sorts first.
pub type FrontierEdge = (usize, NodeId, NodeId);

/// The edge that an entry of the queue stands for.
pub open spec fn edge_of(entry: FrontierEdge) -> Edge {
    Edge { src: entry.1, dst: entry.2, cost: entry.0 }
}

/// The nodes of the tree that grew from node 0 by the edges of `tree`.
pub open spec fn tree_nodes(tree: Seq<Edge>) -> Set<NodeId>
    decreases tree.len(),
{
    if tree.len() == 0 {
        set![0usize]
    } else {
        tree_nodes(tree.drop_last()).insert(tree.last().dst)
    }
}

/// `e` is an edge of the graph that leads out of `nodes`.
pub open spec fn crossing<V: NodeVal>(g: &Graph<V>, nodes: Set<NodeId>, e: Edge) -> bool {
    &&& g.has_edge(e)
    &&& nodes.contains(e.src)
    &&& !nodes.contains(e.dst)
}

/// `a` comes no later than `b` in the order in which the frontier gives
/// up its edges: by cost, then by source, then by end.
pub open spec fn comes_first(a: Edge, b: Edge) -> bool {
    a.cost < b.cost || (a.cost == b.cost && (a.src < b.src || (a.src == b.src && a.dst <= b.dst)))
}

/// The edge at `k` is the one that Prim's algorithm chooses after the edges
/// before it: an edge of the graph that leads out of the tree grown so far,
/// and the first of the edges that do so, which is a cheapest one.
pub open spec fn step_ok<V: NodeVal>(g: &Graph<V>, tree: Seq<Edge>, k: int) -> bool {
    &&& crossing(g, tree_nodes(tree.take(k)), tree[k])
    &&& forall|e: Edge| #[trigger]
        crossing(g, tree_nodes(tree.take(k)), e) ==> comes_first(tree[k], e)
}

/// `tree` is what Prim's algorithm grows from node 0: every edge is the
/// cheapest that leads out of the tree grown before it, and in the end no
/// edge of the graph leads out of the tree.
pub open spec fn prim_tree<V: NodeVal>(g: &Graph<V>, tree: Seq<Edge>) -> bool {
    &&& forall|k: int| 0 <= k < tree.len() ==> #[trigger] step_ok(g, tree, k)
    &&& forall|e: Edge| !(#[trigger] crossing(g, tree_nodes(tree), e))
}

/// The order of the entries is one that a heap can keep.
pub proof fn lemma_frontier_edges_ordered()
    ensures
        weakly_ordered::<FrontierEdge>(),
{
    assert forall|a: FrontierEdge, b: FrontierEdge| #[trigger] less(a, b) implies !less(b, a) by {}
    assert forall|a: FrontierEdge, b: FrontierEdge, c: FrontierEdge| #[trigger]
        at_most(a, b) && #[trigger] at_most(b, c) implies at_most(a, c) by {}
}

/// An entry that sorts no later than another stands for an edge that comes
/// no later.
pub proof fn lemma_at_most_comes_first(a: FrontierEdge, b: FrontierEdge)
    requires
        at_most(a, b),
    ensures
        comes_first(edge_of(a), edge_of(b)),
{
}

/// There is one tree that Prim's algorithm can grow.
pub proof fn lemma_prim_tree_is_unique<V: NodeVal>(g: &Graph<V>, a: Seq<Edge>, b: Seq<Edge>, k: int)
    requires
        prim_tree(g, a),
        prim_tree(g, b),
        0 <= k <= a.len(),
        k <= b.len(),
    ensures
        a.take(k) == b.take(k),
        k == a.len() ==> a == b,
    decreases k,
{
    if k == 0 {
        assert(a.take(0) =~= b.take(0));
    } else {
        lemma_prim_tree_is_unique(g, a, b, k - 1);
        assert(step_ok(g, a, k - 1));
        assert(step_ok(g, b, k - 1));
        assert(crossing(g, tree_nodes(a.take(k - 1)), b[k - 1]));
        assert(crossing(g, tree_nodes(b.take(k - 1)), a[k - 1]));
        assert(comes_first(a[k - 1], b[k - 1]) && comes_first(b[k - 1], a[k - 1]));
        assert(a[k - 1] == b[k - 1]);
        assert(a.take(k) =~= a.take(k - 1).push(a[k - 1]));
        assert(b.take(k) =~= b.take(k - 1).push(b[k - 1]));
    }
    if k == a.len() {
        assert(a.take(k) =~= a);
        if b.len() > k {
            // `b` would go on with an edge that leads out of the tree of `a`
            assert(step_ok(g, b, k));
            assert(!crossing(g, tree_nodes(a), b[k]));
        }
        assert(b.take(k) =~= b);
    }
}

/// The tree only grows.
pub proof fn lemma_tree_nodes_grow(tree: Seq<Edge>, k: int, v: NodeId)
    requires
        0 <= k <= tree.len(),
        tree_nodes(tree.take(k)).contains(v),
    ensures
        tree_nodes(tree).contains(v),
    decreases tree.len() - k,
{
    if k < tree.len() {
        assert(tree.take(k + 1).drop_last() =~= tree.take(k));
        lemma_tree_nodes_grow(tree, k + 1, v);
    } else {
        assert(tree.take(k) =~= tree);
    }
}

/// The nodes of the tree are node 0 and the ends of its edges.
pub proof fn lemma_tree_nodes_are_ends(tree: Seq<Edge>, v: NodeId)
    ensures
        tree_nodes(tree).contains(v) <==> v == 0 || exists|k: int|
            0 <= k < tree.len() && (#[trigger] tree[k]).dst == v,
        tree_nodes(tree).finite(),
        tree_nodes(tree).len() <= tree.len() + 1,
    decreases tree.len(),
{
    if tree.len() > 0 {
        let init = tree.drop_last();
        lemma_tree_nodes_are_ends(init, v);
        if tree_nodes(tree).contains(v) && v != 0 {
            if tree.last().dst == v {
                assert(tree[tree.len() - 1].dst == v);
            } else {
                let k = choose|k: int| 0 <= k < init.len() && (#[trigger] init[k]).dst == v;
                assert(tree[k].dst == v);
            }
        }
        if exists|k: int| 0 <= k < tree.len() && (#[trigger] tree[k]).dst == v {
            let k = choose|k: int| 0 <= k < tree.len() && (#[trigger] tree[k]).dst == v;
            if k < init.len() {
                assert(init[k].dst == v);
            }
        }
    }
}

/// What Prim's algorithm grows holds no cycle.
pub proof fn lemma_prim_tree_is_acyclic<V: NodeVal>(g: &Graph<V>, tree: Seq<Edge>)
    requires
        forall|k: int| 0 <= k < tree.len() ==> #[trigger] step_ok(g, tree, k),
    ensures
        acyclic(tree),
{
    assert forall|k: int| 0 <= k < tree.len() implies !connected(
        tree.take(k),
        (#[trigger] tree[k]).src,
        tree[k].dst,
    ) by {
        let part = tree.take(k);
        let a = tree[k].src;
        let b = tree[k].dst;
        assert(step_ok(g, tree, k));
        if connected(part, a, b) {
            let path = choose|path: Seq<NodeId>| #[trigger] joins(part, a, b, path);
            assert(path.len() > 1);
            let last = path.len() - 2;
            assert(linked(part, path[last], path[last + 1]));
            let i = choose|i: int|
                0 <= i < part.len() && ((#[trigger] part[i]).src == path[last] && part[i].dst
                    == b || part[i].src == b && part[i].dst == path[last]);
            assert(step_ok(g, tree, i));
            assert(part[i] == tree[i]);
            if part[i].dst == b {
                lemma_tree_nodes_are_ends(part, b);
            } else {
                assert(part.take(i) =~= tree.take(i));
                lemma_tree_nodes_grow(part, i, b);
            }
        }
    }
}

/// The graph holds every edge in both directions.
pub open spec fn symmetric<V: NodeVal>(g: &Graph<V>) -> bool {
    forall|e: Edge| #[trigger]
        g.has_edge(e) ==> g.has_edge(Edge { src: e.dst, dst: e.src, cost: e.cost })
}

/// A walk leads from node 0 to the source of every edge.
pub open spec fn rooted<V: NodeVal>(g: &Graph<V>) -> bool {
    forall|e: Edge| #[trigger] g.has_edge(e) ==> exists|p: Seq<Edge>| g.is_walk(0, e.src, p)
}

/// In a graph that holds every edge in both directions, each edge that
/// Prim's algorithm chooses is a cheapest edge across the border of the
/// tree grown before it.
pub proof fn lemma_prim_tree_is_cut_greedy<V: NodeVal>(g: &Graph<V>, tree: Seq<Edge>)
    requires
        symmetric(g),
        forall|k: int| 0 <= k < tree.len() ==> #[trigger] step_ok(g, tree, k),
    ensures
        cut_greedy(g, tree),
{
    assert forall|k: int| 0 <= k < tree.len() implies #[trigger] has_cut(g, tree, k) by {
        let part = tree.take(k);
        let s = tree_nodes(part);
        assert(step_ok(g, tree, k));
        assert forall|i: int| 0 <= i < k implies !crosses(s, #[trigger] tree[i]) by {
            assert(step_ok(g, tree, i));
            assert(part.take(i) =~= tree.take(i));
            lemma_tree_nodes_grow(part, i, tree[i].src);
            assert(part.take(i + 1) =~= tree.take(i + 1));
            assert(tree.take(i + 1).last() == tree[i]);
            lemma_tree_nodes_grow(part, i + 1, tree[i].dst);
        }
        assert forall|h: Edge| #[trigger] g.has_edge(h) && crosses(s, h) implies tree[k].cost
            <= h.cost by {
            if s.contains(h.src) {
                assert(crossing(g, s, h));
            } else {
                let back = Edge { src: h.dst, dst: h.src, cost: h.cost };
                assert(crossing(g, s, back));
            }
        }
        assert(cut_step(g, tree, k, s));
    }
}

/// Every node of the tree is joined to node 0 by the edges of the tree.
pub proof fn lemma_tree_node_joined<V: NodeVal>(g: &Graph<V>, tree: Seq<Edge>, v: NodeId)
    requires
        forall|k: int| 0 <= k < tree.len() ==> #[trigger] step_ok(g, tree, k),
        tree_nodes(tree).contains(v),
    ensures
        connected(tree, 0, v),
    decreases tree.len(),
{
    if tree.len() == 0 {
        lemma_connected_refl(tree, 0);
    } else {
        let init = tree.drop_last();
        let last = tree.last();
        assert forall|k: int| 0 <= k < init.len() implies #[trigger] step_ok(g, init, k) by {
            assert(step_ok(g, tree, k));
            assert(init.take(k) =~= tree.take(k));
        }
        assert forall|i: int| 0 <= i < init.len() implies tree.contains(#[trigger] init[i]) by {
            assert(tree[i] == init[i]);
        }
        if tree_nodes(init).contains(v) {
            lemma_tree_node_joined(g, init, v);
            lemma_connected_grows(init, tree, 0, v);
        } else {
            assert(step_ok(g, tree, tree.len() - 1));
            assert(tree.take(tree.len() - 1) =~= init);
            lemma_tree_node_joined(g, init, last.src);
            lemma_connected_grows(init, tree, 0, last.src);
            assert(tree[tree.len() - 1] == last);
            assert(linked(tree, last.src, last.dst));
            lemma_linked_connected(tree, last.src, last.dst);
            lemma_connected_trans(tree, 0, last.src, v);
        }
    }
}

/// A walk from node 0 does not leave a tree that no edge leads out of.
pub proof fn lemma_walk_stays_in_tree<V: NodeVal>(
    g: &Graph<V>,
    tree: Seq<Edge>,
    x: NodeId,
    p: Seq<Edge>,
)
    requires
        forall|e: Edge| !(#[trigger] crossing(g, tree_nodes(tree), e)),
        g.is_walk(0, x, p),
    ensures
        tree_nodes(tree).contains(x),
    decreases p.len(),
{
    if p.len() == 0 {
        lemma_tree_nodes_are_ends(tree, 0);
    } else {
        lemma_walk_stays_in_tree(g, tree, p.last().src, p.drop_last());
        assert(!crossing(g, tree_nodes(tree), p.last()));
    }
}

/// In a graph that a walk from node 0 covers, what Prim's algorithm grows
/// is a spanning forest.
pub proof fn lemma_prim_tree_spans<V: NodeVal>(g: &Graph<V>, tree: Seq<Edge>)
    requires
        rooted(g),
        prim_tree(g, tree),
    ensures
        spanning_forest(g, tree),
{
    lemma_prim_tree_is_acyclic(g, tree);
    assert forall|k: int| 0 <= k < tree.len() implies g.has_edge(#[trigger] tree[k]) by {
        assert(step_ok(g, tree, k));
    }
    assert forall|e: Edge| #[trigger] g.has_edge(e) implies connected(tree, e.src, e.dst) by {
        let p = choose|p: Seq<Edge>| g.is_walk(0, e.src, p);
        lemma_walk_stays_in_tree(g, tree, e.src, p);
        assert(!crossing(g, tree_nodes(tree), e));
        lemma_tree_node_joined(g, tree, e.src);
        lemma_tree_node_joined(g, tree, e.dst);
        lemma_connected_sym(tree, 0, e.src);
        lemma_connected_trans(tree, e.src, 0, e.dst);
    }
}

/// The queue holds every edge that leads out of `nodes`, and only edges of
/// the graph that start in `nodes`.
pub open spec fn queue_covers<V: NodeVal>(
    g: &Graph<V>,
    nodes: Set<NodeId>,
    queue: Seq<FrontierEdge>,
) -> bool {
    &&& forall|e: Edge| #[trigger]
        crossing(g, nodes, e) ==> queue.contains((e.cost, e.src, e.dst))
    &&& forall|i: int|
        0 <= i < queue.len() ==> g.has_edge(edge_of(#[trigger] queue[i])) && nodes.contains(
            queue[i].1,
        )
}

/// Enters into the queue the edges that leave `node` for a node that has
/// not been seen.
fn push_crossing<V: NodeVal>(
    graph: &Graph<V>,
    node: NodeId,
    seen: &HashSet<NodeId>,
    queue: &mut BinaryHeap<FrontierEdge>,
)
    requires
        graph.wf(),
        is_heap(old(queue)@),
        seen@.contains(node),
        forall|e: Edge| #[trigger]
            crossing(graph, seen@, e) && e.src != node ==> old(queue)@.contains(
                (e.cost, e.src, e.dst),
            ),
        forall|i: int|
            0 <= i < old(queue)@.len() ==> graph.has_edge(edge_of(#[trigger] old(queue)@[i]))
                && seen@.contains(old(queue)@[i].1),
    ensures
        is_heap(final(queue)@),
        queue_covers(graph, seen@, final(queue)@),
{
    proof {
        lemma_frontier_edges_ordered();
    }
    let edges = graph.edges(node);
    let mut i: usize = 0;
    while i < edges.len()
        invariant
            graph.wf(),
            i <= edges@.len(),
            edges@ == graph.out_edges(node),
            is_heap(queue@),
            weakly_ordered::<FrontierEdge>(),
            seen@.contains(node),
            forall|e: Edge| #[trigger]
                crossing(graph, seen@, e) && e.src != node ==> queue@.contains(
                    (e.cost, e.src, e.dst),
                ),
            forall|j: int|
                0 <= j < i && !seen@.contains((#[trigger] edges@[j]).dst) ==> queue@.contains(
                    (edges@[j].cost, edges@[j].src, edges@[j].dst),
                ),
            forall|j: int|
                0 <= j < queue@.len() ==> graph.has_edge(edge_of(#[trigger] queue@[j]))
                    && seen@.contains(queue@[j].1),
        decreases edges@.len() - i,
    {
        let edge = edges[i];
        proof {
            assert(graph.out_edges(node)[i as int] == edge);
            assert(graph.has_edge(edge));
        }
        if !seen.contains(&edge.dst) {
            let ghost queue_before = queue@;
            let entry = (edge.cost, edge.src, edge.dst);
            queue.push(entry);
            proof {
                lemma_contains_after_insert(queue@, queue_before, entry);
                assert forall|j: int| 0 <= j < queue@.len() implies graph.has_edge(
                    edge_of(#[trigger] queue@[j]),
                ) && seen@.contains(queue@[j].1) by {
                    assert(queue@.contains(queue@[j]));
                    if queue@[j] != entry {
                        let k = choose|k: int|
                            0 <= k < queue_before.len() && queue_before[k] == queue@[j];
                        assert(graph.has_edge(edge_of(queue_before[k])));
                    } else {
                        assert(edge_of(entry) == edge);
                    }
                }
            }
        }
        i += 1;
    }
    proof {
        assert forall|e: Edge| #[trigger] crossing(graph, seen@, e) implies queue@.contains(
            (e.cost, e.src, e.dst),
        ) by {
            if e.src == node {
                let j = choose|j: int|
                    0 <= j < graph.out_edges(node).len() && graph.out_edges(node)[j] == e;
                assert(edges@[j] == e);
            }
        }
    }
}

/// A minimum spanning tree of the part of the graph that can be reached
/// from node 0, grown from that node; the graph is to hold each edge in
/// both directions.
pub fn prim<V: NodeVal>(graph: &Graph<V>) -> (mst: Vec<Edge>)
    requires
        graph.wf(),
    ensures
        prim_tree(graph, mst@),
        acyclic(mst@),
        symmetric(graph) ==> cheapest_spanning(graph, mst@),
        rooted(graph) ==> spanning_forest(graph, mst@),
{
    let mut mst: Vec<Edge> = Vec::new();
    let mut q: BinaryHeap<FrontierEdge> = BinaryHeap::new();
    let mut seen: HashSet<NodeId> = HashSet::new();
    let n = graph.nodes.len();
    proof {
        lemma_frontier_edges_ordered();
        lemma_below_len(n as nat);
    }
    // start with node 0 and the edges that leave it
    seen.insert(0);
    push_crossing(graph, 0, &seen, &mut q);
    loop
        invariant
            graph.wf(),
            n == graph.nodes@.len(),
            is_heap(q@),
            weakly_ordered::<FrontierEdge>(),
            seen@ == tree_nodes(mst@),
            seen@.finite(),
            seen@.len() == mst@.len() + 1,
            seen@.subset_of(below(n as nat).insert(0)),
            below(n as nat).finite(),
            below(n as nat).len() == n,
            queue_covers(graph, seen@, q@),
            forall|k: int| 0 <= k < mst@.len() ==> #[trigger] step_ok(graph, mst@, k),
        ensures
            forall|k: int| 0 <= k < mst@.len() ==> #[trigger] step_ok(graph, mst@, k),
            forall|e: Edge| !(#[trigger] crossing(graph, tree_nodes(mst@), e)),
        decreases n + 1 - mst@.len(), q@.len(),
    {
        let ghost queue_before = q@;
        let ghost tree = mst@;
        let ghost seen_before = seen@;
        proof {
            vstd::set_lib::lemma_len_subset(seen@, below(n as nat).insert(0));
        }
        let popped = q.pop();
        match popped {
            None => {
                proof {
                    assert forall|e: Edge| !(#[trigger] crossing(
                        graph,
                        tree_nodes(mst@),
                        e,
                    )) by {
                        if crossing(graph, seen@, e) {
                            assert(q@.contains((e.cost, e.src, e.dst)));
                        }
                    }
                }
                break ;
            },
            Some(entry) => {
                let (cost, src, dst) = entry;
                let edge = Edge { src, dst, cost };
                proof {
                    lemma_contains_after_remove(q@, queue_before, entry);
                    vstd::seq_lib::to_multiset_len(q@);
                    vstd::seq_lib::to_multiset_len(queue_before);
                    assert(q@.len() + 1 == queue_before.len()) by {
                        broadcast use vstd::multiset::group_multiset_axioms;

                        vstd::seq_lib::to_multiset_contains(queue_before, entry);
                    }
                    assert(queue_before[0] == entry);
                    assert(graph.has_edge(edge_of(queue_before[0])));
                    assert(edge_of(entry) == edge);
                    let slot = choose|k: int|
                        0 <= k < graph.out_edges(src).len() && graph.out_edges(src)[k] == edge;
                    assert(graph.out_edges(src)[slot] == edge);
                    assert forall|j: int| 0 <= j < q@.len() implies graph.has_edge(
                        edge_of(#[trigger] q@[j]),
                    ) && seen@.contains(q@[j].1) by {
                        assert(q@.contains(q@[j]));
                        let k = choose|k: int|
                            0 <= k < queue_before.len() && queue_before[k] == q@[j];
                        assert(graph.has_edge(edge_of(queue_before[k])));
                    }
                }
                if seen.insert(dst) {
                    proof {
                        // no edge that leads out of the tree is cheaper
                        assert forall|e: Edge| #[trigger]
                            crossing(graph, seen_before, e) implies comes_first(edge, e) by {
                            let x = (e.cost, e.src, e.dst);
                            assert(queue_before.contains(x));
                            let k = choose|k: int|
                                0 <= k < queue_before.len() && queue_before[k] == x;
                            lemma_at_most_comes_first(queue_before[0], queue_before[k]);
                        }
                    }
                    mst.push(edge);
                    proof {
                        assert(mst@.drop_last() =~= tree);
                        assert(mst@.take(tree.len() as int) =~= tree);
                        assert forall|k: int| 0 <= k < mst@.len() implies #[trigger] step_ok(
                            graph,
                            mst@,
                            k,
                        ) by {
                            if k < tree.len() {
                                assert(step_ok(graph, tree, k));
                                assert(mst@.take(k) =~= tree.take(k));
                                assert(mst@[k] == tree[k]);
                            }
                        }
                        assert(seen@.subset_of(below(n as nat).insert(0)));
                        assert forall|e: Edge| #[trigger]
                            crossing(graph, seen@, e) && e.src != dst implies q@.contains(
                            (e.cost, e.src, e.dst),
                        ) by {
                            assert(crossing(graph, seen_before, e));
                            let x = (e.cost, e.src, e.dst);
                            assert(queue_before.contains(x));
                        }
                    }
                    if n > 0 && mst.len() == n - 1 {
                        proof {
                            vstd::set_lib::lemma_len_subset(seen@, below(n as nat).insert(0));
                            lemma_all_nodes_seen(n as nat, seen@);
                            assert forall|e: Edge| !(#[trigger] crossing(
                                graph,
                                tree_nodes(mst@),
                                e,
                            )) by {
                                if graph.has_edge(e) {
                                    let k = choose|k: int|
                                        0 <= k < graph.out_edges(e.src).len() && graph.out_edges(
                                            e.src,
                                        )[k] == e;
                                    assert(graph.out_edges(e.src)[k].dst < n);
                                }
                            }
                        }
                        break ;
                    }
                    push_crossing(graph, dst, &seen, &mut q);
                } else {
                    proof {
                        assert(seen@ =~= seen_before);
                        assert forall|e: Edge| #[trigger]
                            crossing(graph, seen@, e) implies q@.contains(
                            (e.cost, e.src, e.dst),
                        ) by {
                            let x = (e.cost, e.src, e.dst);
                            assert(queue_before.contains(x));
                            if x == entry {
                                assert(e == edge);
                            }
                        }
                    }
                }
            },
        }
    }
    proof {
        lemma_prim_tree_is_acyclic(graph, mst@);
        if symmetric(graph) {
            lemma_prim_tree_is_cut_greedy(graph, mst@);
            assert forall|other: Seq<Edge>| #[trigger] spanning_forest(
                graph,
                other,
            ) implies total_cost(mst@) <= total_cost(other) by {
                lemma_cut_greedy_is_cheapest(graph, mst@, other);
            }
        }
        if rooted(graph) {
            lemma_prim_tree_spans(graph, mst@);
        }
    }
    mst
}

/// A set of `n` nodes that are all below `n` or node 0 holds every node
/// below `n`.
pub proof fn lemma_all_nodes_seen(n: nat, seen: Set<NodeId>)
    requires
        0 < n <= usize::MAX,
        seen.finite(),
        seen.len() == n,
        seen.subset_of(below(n).insert(0)),
    ensures
        forall|v: NodeId| v < n ==> seen.contains(v),
{
    lemma_below_len(n);
    assert(below(n).insert(0) =~= below(n));
    vstd::set_lib::lemma_subset_equality(seen, below(n));
    assert forall|v: NodeId| v < n implies seen.contains(v) by {
        assert(below(n).contains(v));
    }
}

} // verus!
