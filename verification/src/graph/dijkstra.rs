//! Shortest paths from one source to every node, by Dijkstra's algorithm
//! with a queue that keeps overtaken entries.
use crate::data_structure::binary_heap::{is_heap, BinaryHeap};
use crate::graph::model::{Edge, Graph, NodeId, NodeVal};
use crate::graph::paths::{lemma_walk_push, walk_cost};
use crate::graph::search::{
    edge_relaxed, entry_inv, lemma_expanded_can_leave, lemma_potential_drops,
    lemma_relax_keeps_inv, lemma_relaxed_upto_stays, lemma_walk_meets_frontier, meets, node_inv,
    potential, relaxed_upto, search_inv, Frontier, Prevs,
};
use crate::order::{at_most, less, weakly_ordered};
use crate::vecs::{lemma_contains_after_insert, lemma_contains_after_remove};
use std::cmp::Ordering;
use std::collections::BTreeMap;
use vstd::prelude::*;
use vstd::std_specs::cmp::PartialOrdSpecImpl;

verus! {

broadcast use vstd::laws_cmp::group_laws_cmp;

/// A node to expand with the cost of the way found to it. Entries sort by
/// cost, and by node where the costs are equal.
#[derive(Debug, PartialEq, Eq, Ord)]
pub struct QueueEntry {
    pub cost: usize,
    pub node_id: NodeId,
}

impl PartialOrd for QueueEntry {
    fn partial_cmp(&self, other: &Self) -> (r: Option<Ordering>) {
        if self.cost < other.cost {
            Some(Ordering::Less)
        } else if self.cost > other.cost {
            Some(Ordering::Greater)
        } else if self.node_id < other.node_id {
            Some(Ordering::Less)
        } else if self.node_id > other.node_id {
            Some(Ordering::Greater)
        } else {
            Some(Ordering::Equal)
        }
    }
}

impl PartialOrdSpecImpl for QueueEntry {
    open spec fn obeys_partial_cmp_spec() -> bool {
        true
    }

    open spec fn partial_cmp_spec(&self, other: &Self) -> Option<Ordering> {
        if self.cost < other.cost {
            Some(Ordering::Less)
        } else if self.cost > other.cost {
            Some(Ordering::Greater)
        } else if self.node_id < other.node_id {
            Some(Ordering::Less)
        } else if self.node_id > other.node_id {
            Some(Ordering::Greater)
        } else {
            Some(Ordering::Equal)
        }
    }
}

/// The order of the entries is one that a heap can keep.
pub proof fn lemma_entries_ordered()
    ensures
        weakly_ordered::<QueueEntry>(),
{
    assert forall|a: QueueEntry, b: QueueEntry| #[trigger] less(a, b) implies !less(b, a) by {}
    assert forall|a: QueueEntry, b: QueueEntry, c: QueueEntry| #[trigger]
        at_most(a, b) && #[trigger] at_most(b, c) implies at_most(a, c) by {}
}

/// An entry that sorts no later than another costs no more.
pub proof fn lemma_at_most_costs_less(a: QueueEntry, b: QueueEntry)
    requires
        at_most(a, b),
    ensures
        a.cost <= b.cost,
{
}

/// The frontier that a queue stands for.
pub open spec fn frontier(queue: Seq<QueueEntry>) -> Frontier {
    Set::new(|pair: (NodeId, usize)| queue.contains(QueueEntry { cost: pair.1, node_id: pair.0 }))
}

/// What `dijkstra` returns for the source `src`: a record for each node
/// that a walk from the source reaches at a cost that fits in a `usize`, and
/// for no other; in it the least cost of a walk from the source, and the
/// node before it on a walk of that cost, which the source does not have.
pub open spec fn shortest_paths<V: NodeVal>(g: &Graph<V>, src: NodeId, result: Prevs) -> bool {
    &&& forall|v: NodeId| #[trigger] result.contains_key(v) <==> g.within_reach(src, v)
    &&& forall|v: NodeId| #[trigger]
        result.contains_key(v) ==> g.is_shortest(src, v, result[v].1 as int)
    &&& result[src].0 is None
    &&& forall|v: NodeId| #[trigger]
        result.contains_key(v) && v != src ==> on_shortest_walk(g, result, v)
}

/// The node recorded before `v` is recorded too, and an edge leads from it
/// to `v` at exactly the difference of the two costs.
pub open spec fn on_shortest_walk<V: NodeVal>(g: &Graph<V>, result: Prevs, v: NodeId) -> bool {
    exists|e: Edge|
        {
            &&& #[trigger] g.has_edge(e)
            &&& e.dst == v
            &&& result[v].0 == Some(e.src)
            &&& result.contains_key(e.src)
            &&& result[e.src].1 + e.cost == result[v].1
        }
}

/// When the frontier is empty, what is recorded are the shortest paths.
pub proof fn lemma_exhausted_is_shortest<V: NodeVal>(g: &Graph<V>, src: NodeId, prevs: Prevs)
    requires
        g.wf(),
        search_inv(g, src, Set::empty(), prevs, Set::empty()),
    ensures
        shortest_paths(g, src, prevs),
{
    let none = Set::<NodeId>::empty();
    let open = Set::<(NodeId, usize)>::empty();
    assert forall|v: NodeId| #[trigger] prevs.contains_key(v) <==> g.within_reach(src, v) by {
        if prevs.contains_key(v) {
            assert(node_inv(g, src, none, prevs, open, v));
            let p = choose|p: Seq<Edge>| #[trigger]
                g.is_walk(src, v, p) && walk_cost(p) == prevs[v].1;
            assert(g.is_walk(src, v, p) && walk_cost(p) <= usize::MAX);
        }
        if g.within_reach(src, v) {
            let p = choose|p: Seq<Edge>| #[trigger]
                g.is_walk(src, v, p) && walk_cost(p) <= usize::MAX;
            lemma_walk_meets_frontier(g, src, none, prevs, open, v, p);
        }
    }
    assert forall|v: NodeId| #[trigger] prevs.contains_key(v) implies g.is_shortest(
        src,
        v,
        prevs[v].1 as int,
    ) by {
        assert(node_inv(g, src, none, prevs, open, v));
        assert forall|p: Seq<Edge>| #[trigger] g.is_walk(src, v, p) implies prevs[v].1
            <= walk_cost(p) by {
            if walk_cost(p) <= usize::MAX {
                lemma_walk_meets_frontier(g, src, none, prevs, open, v, p);
            }
        }
    }
    assert forall|v: NodeId| #[trigger] prevs.contains_key(v) && v != src implies on_shortest_walk(
        g,
        prevs,
        v,
    ) by {
        assert(node_inv(g, src, none, prevs, open, v));
        let e = choose|e: Edge|
            {
                &&& #[trigger] g.has_edge(e)
                &&& e.dst == v
                &&& prevs[v].0 == Some(e.src)
                &&& prevs.contains_key(e.src)
                &&& prevs[e.src].1 + e.cost <= prevs[v].1
            };
        assert(node_inv(g, src, none, prevs, open, e.src));
        let p = choose|p: Seq<Edge>| #[trigger]
            g.is_walk(src, e.src, p) && walk_cost(p) == prevs[e.src].1;
        lemma_walk_push(g, src, p, e);
        assert(g.is_walk(src, v, p.push(e)));
        assert(g.is_shortest(src, v, prevs[v].1 as int));
        assert(g.has_edge(e) && e.dst == v && prevs[v].0 == Some(e.src) && prevs.contains_key(
            e.src,
        ) && prevs[e.src].1 + e.cost == prevs[v].1);
    }
}

/// The node of an entry that costs no more than any entry of the frontier
/// is recorded at the least cost of a walk from the source.
pub proof fn lemma_first_entry_is_settled<V: NodeVal>(
    g: &Graph<V>,
    src: NodeId,
    targets: Set<NodeId>,
    prevs: Prevs,
    open: Frontier,
    u: NodeId,
    c: usize,
)
    requires
        g.wf(),
        search_inv(g, src, targets, prevs, open),
        open.contains((u, c)),
        forall|v: NodeId, cv: usize| #[trigger] open.contains((v, cv)) ==> c <= cv,
    ensures
        g.is_shortest(src, u, prevs[u].1 as int),
{
    assert(entry_inv(g, src, prevs, u, c));
    assert(node_inv(g, src, targets, prevs, open, u));
    assert forall|p: Seq<Edge>| #[trigger] g.is_walk(src, u, p) implies prevs[u].1 <= walk_cost(
        p,
    ) by {
        if walk_cost(p) <= usize::MAX {
            lemma_walk_meets_frontier(g, src, targets, prevs, open, u, p);
            if !(prevs.contains_key(u) && prevs[u].1 <= walk_cost(p)) {
                let (v, cv, q) = choose|v: NodeId, cv: usize, q: Seq<Edge>| #[trigger]
                    meets(g, open, u, walk_cost(p) as int, v, cv, q);
                assert(open.contains((v, cv)));
            }
        }
    }
}

/// No cost that the search records for a node is below the least cost of
/// a walk to it: once a node is recorded at that cost, nothing cheaper is
/// recorded for it later.
pub proof fn lemma_recorded_is_no_less<V: NodeVal>(
    g: &Graph<V>,
    src: NodeId,
    targets: Set<NodeId>,
    prevs: Prevs,
    open: Frontier,
    v: NodeId,
    least: int,
)
    requires
        search_inv(g, src, targets, prevs, open),
        prevs.contains_key(v),
        g.is_shortest(src, v, least),
    ensures
        least <= prevs[v].1,
{
    assert(node_inv(g, src, targets, prevs, open, v));
    let p = choose|p: Seq<Edge>| #[trigger] g.is_walk(src, v, p) && walk_cost(p) == prevs[v].1;
    assert(g.is_walk(src, v, p));
}

/// Taking the edge `e` from a node reached at cost `c` gives a cheaper way
/// to its end than is recorded: the edge does not lead back to the source,
/// what it gives fits in a `usize`, and its end is recorded at more or not
/// at all.
pub open spec fn improves(src: NodeId, prevs: Prevs, c: usize, e: Edge) -> bool {
    &&& e.dst != src
    &&& c + e.cost <= usize::MAX
    &&& !prevs.contains_key(e.dst) || c + e.cost < prevs[e.dst].1
}

/// The records after the edges that leave the node `u`, reached at cost
/// `c`, have been taken in turn, each one that improves on the records being
/// recorded.
pub open spec fn records_after(
    src: NodeId,
    prevs: Prevs,
    u: NodeId,
    c: usize,
    edges: Seq<Edge>,
) -> Prevs
    decreases edges.len(),
{
    if edges.len() == 0 {
        prevs
    } else {
        let before = records_after(src, prevs, u, c, edges.drop_last());
        if improves(src, before, c, edges.last()) {
            before.insert(edges.last().dst, (Some(u), (c + edges.last().cost) as usize))
        } else {
            before
        }
    }
}

/// The entries that enter the queue while the edges that leave the node
/// `u`, reached at cost `c`, are taken in turn: one for each edge that
/// improves on the records.
pub open spec fn entered(
    src: NodeId,
    prevs: Prevs,
    u: NodeId,
    c: usize,
    edges: Seq<Edge>,
) -> Seq<QueueEntry>
    decreases edges.len(),
{
    if edges.len() == 0 {
        Seq::empty()
    } else {
        let before = records_after(src, prevs, u, c, edges.drop_last());
        let sooner = entered(src, prevs, u, c, edges.drop_last());
        if improves(src, before, c, edges.last()) {
            sooner.push(
                QueueEntry { cost: (c + edges.last().cost) as usize, node_id: edges.last().dst },
            )
        } else {
            sooner
        }
    }
}

/// Expands `entry`, which no entry of the queue sorts before: each edge
/// that leaves its node and gives a cheaper way to its end, at a cost that
/// fits in a `usize`, is recorded, and its end enters the queue. Edges
/// back to the source are passed over. The node of `entry` is recorded at
/// the least cost of a walk from the source, before the call and after it.
pub fn relax_edges<V: NodeVal>(
    graph: &Graph<V>,
    src: NodeId,
    entry: &QueueEntry,
    prevs: &mut BTreeMap<NodeId, (Option<NodeId>, usize)>,
    queue: &mut BinaryHeap<QueueEntry>,
)
    requires
        graph.wf(),
        is_heap(old(queue)@),
        search_inv(
            graph,
            src,
            Set::empty(),
            old(prevs)@,
            frontier(old(queue)@).insert((entry.node_id, entry.cost)),
        ),
        forall|i: int| 0 <= i < old(queue)@.len() ==> entry.cost <= (#[trigger] old(queue)@[i]).cost,
    ensures
        final(prevs)@ == records_after(
            src,
            old(prevs)@,
            entry.node_id,
            entry.cost,
            graph.out_edges(entry.node_id),
        ),
        final(queue)@.to_multiset() == old(queue)@.to_multiset().add(
            entered(
                src,
                old(prevs)@,
                entry.node_id,
                entry.cost,
                graph.out_edges(entry.node_id),
            ).to_multiset(),
        ),
        is_heap(final(queue)@),
        search_inv(graph, src, Set::empty(), final(prevs)@, frontier(final(queue)@)),
        graph.is_shortest(src, entry.node_id, old(prevs)@[entry.node_id].1 as int),
        final(prevs)@[entry.node_id] == old(prevs)@[entry.node_id],
        forall|v: NodeId| #[trigger]
            old(prevs)@.contains_key(v) ==> final(prevs)@.contains_key(v) && final(prevs)@[v].1
                <= old(prevs)@[v].1,
        potential(final(prevs)@, graph.nodes@.len()) < potential(
            old(prevs)@,
            graph.nodes@.len(),
        ) || (final(prevs)@ == old(prevs)@ && final(queue)@ == old(queue)@),
{
    let ghost none = Set::<NodeId>::empty();
    let ghost u = entry.node_id;
    let ghost c = entry.cost;
    let ghost n = graph.nodes@.len();
    let node_count = graph.nodes.len();
    proof {
        lemma_entries_ordered();
        let open = frontier(queue@).insert((u, c));
        assert forall|v: NodeId, cv: usize| #[trigger] open.contains((v, cv)) implies c <= cv by {
            if (v, cv) != (u, c) {
                let x = QueueEntry { cost: cv, node_id: v };
                assert(queue@.contains(x));
                let i = choose|i: int| 0 <= i < queue@.len() && queue@[i] == x;
                assert(c <= queue@[i].cost);
            }
        }
        assert(open.contains((u, c)));
        lemma_first_entry_is_settled(graph, src, none, prevs@, open, u, c);
        assert(entry_inv(graph, src, prevs@, u, c));
    }
    let edges = graph.edges(entry.node_id);
    let mut i: usize = 0;
    proof {
        assert(edges@.take(0) =~= Seq::<Edge>::empty());
        assert(queue@.to_multiset().add(Seq::<QueueEntry>::empty().to_multiset())
            =~= queue@.to_multiset()) by {
            broadcast use vstd::multiset::group_multiset_axioms;

            Seq::<QueueEntry>::empty().to_multiset_ensures();
        }
    }
    while i < edges.len()
        invariant
            prevs@ == records_after(src, old(prevs)@, u, c, edges@.take(i as int)),
            queue@.to_multiset() == old(queue)@.to_multiset().add(
                entered(src, old(prevs)@, u, c, edges@.take(i as int)).to_multiset(),
            ),
            graph.wf(),
            n == graph.nodes@.len(),
            n <= usize::MAX,
            u == entry.node_id,
            c == entry.cost,
            none == Set::<NodeId>::empty(),
            i <= edges@.len(),
            edges@ == graph.out_edges(u),
            is_heap(queue@),
            weakly_ordered::<QueueEntry>(),
            search_inv(graph, src, none, prevs@, frontier(queue@).insert((u, c))),
            relaxed_upto(graph, src, prevs@, u, c as int, i as int),
            prevs@.contains_key(u),
            prevs@[u] == old(prevs)@[u],
            forall|v: NodeId| #[trigger]
                old(prevs)@.contains_key(v) ==> prevs@.contains_key(v) && prevs@[v].1 <= old(
                    prevs,
                )@[v].1,
            potential(prevs@, n) < potential(old(prevs)@, n) || (prevs@ == old(prevs)@ && queue@
                == old(queue)@),
        decreases edges@.len() - i,
    {
        let edge = edges[i];
        let ghost prevs_before = prevs@;
        let ghost queue_before = queue@;
        proof {
            assert(graph.out_edges(u)[i as int] == edge);
            assert(graph.has_edge(edge));
            assert(edge.src == u);
            assert(edges@.take(i + 1).drop_last() =~= edges@.take(i as int));
            assert(edges@.take(i + 1).last() == edge);
        }
        let ghost entered_before = entered(src, old(prevs)@, u, c, edges@.take(i as int));
        i += 1;
        if edge.dst != src {
            if let Some(new_cost) = entry.cost.checked_add(edge.cost) {
                let improves = match prevs.get(&edge.dst) {
                    None => true,
                    Some(prev) => new_cost < prev.1,
                };
                if improves {
                    let found = (Some(entry.node_id), new_cost);
                    proof {
                        lemma_relax_keeps_inv(
                            graph,
                            src,
                            none,
                            prevs@,
                            frontier(queue@).insert((u, c)),
                            c,
                            edge,
                            new_cost,
                        );
                        lemma_relaxed_upto_stays(
                            graph,
                            src,
                            prevs@,
                            u,
                            c as int,
                            i as int - 1,
                            edge.dst,
                            found,
                        );
                        lemma_potential_drops(prevs@, n, edge.dst, found);
                    }
                    prevs.insert(edge.dst, found);
                    let pushed = QueueEntry { cost: new_cost, node_id: edge.dst };
                    queue.push(pushed);
                    proof {
                        vstd::seq_lib::to_multiset_build(entered_before, pushed);
                        assert(queue@.to_multiset() =~= old(queue)@.to_multiset().add(
                            entered_before.push(pushed).to_multiset(),
                        )) by {
                            broadcast use vstd::multiset::group_multiset_axioms;

                        }
                        lemma_contains_after_insert(queue@, queue_before, pushed);
                        assert(frontier(queue@).insert((u, c)) =~= frontier(queue_before).insert(
                            (u, c),
                        ).insert((edge.dst, new_cost)));
                    }
                }
            }
        }
        proof {
            assert forall|j: int|
                0 <= j < i && j < graph.out_edges(u).len() implies edge_relaxed(
                src,
                prevs@,
                c as int,
                #[trigger] graph.out_edges(u)[j],
            ) by {
                if j < i - 1 {
                    assert(relaxed_upto(graph, src, prevs@, u, c as int, i as int - 1));
                }
            }
        }
    }
    proof {
        assert(edges@.take(i as int) =~= edges@);
        lemma_expanded_can_leave(
            graph,
            src,
            none,
            prevs@,
            frontier(queue@).insert((u, c)),
            frontier(queue@),
            u,
            c,
        );
    }
}

/// The shortest paths from `src`: for each node within reach the node
/// before it on a shortest path, which the source does not have, and the
/// cost of that path.
pub fn dijkstra<V: NodeVal>(graph: &Graph<V>, src: NodeId) -> (prevs: BTreeMap<
    NodeId,
    (Option<NodeId>, usize),
>)
    requires
        graph.wf(),
    ensures
        shortest_paths(graph, src, prevs@),
{
    let ghost none = Set::<NodeId>::empty();
    let mut prevs: BTreeMap<NodeId, (Option<NodeId>, usize)> = BTreeMap::new();
    let mut queue: BinaryHeap<QueueEntry> = BinaryHeap::new();
    let node_count = graph.nodes.len();
    proof {
        lemma_entries_ordered();
    }
    let first = QueueEntry { cost: 0, node_id: src };
    queue.push(first);
    prevs.insert(src, (None, 0));
    proof {
        lemma_contains_after_insert(queue@, Seq::<QueueEntry>::empty(), first);
        let open = frontier(queue@);
        assert(open.contains((src, 0usize)));
        let stay = Seq::<Edge>::empty();
        assert(graph.is_walk(src, src, stay) && walk_cost(stay) == 0);
        assert forall|v: NodeId| prevs@.contains_key(v) implies #[trigger] node_inv(
            graph,
            src,
            none,
            prevs@,
            open,
            v,
        ) by {}
        assert forall|v: NodeId, c: usize| #[trigger] open.contains((v, c)) implies entry_inv(
            graph,
            src,
            prevs@,
            v,
            c,
        ) by {
            assert(queue@.contains(QueueEntry { cost: c, node_id: v }));
        }
    }
    loop
        invariant
            graph.wf(),
            none == Set::<NodeId>::empty(),
            node_count == graph.nodes@.len(),
            is_heap(queue@),
            weakly_ordered::<QueueEntry>(),
            search_inv(graph, src, none, prevs@, frontier(queue@)),
        ensures
            search_inv(graph, src, none, prevs@, frontier(queue@)),
            queue@.len() == 0,
        decreases potential(prevs@, node_count as nat), queue@.len(),
    {
        let ghost queue_before = queue@;
        let popped = queue.pop();
        match popped {
            None => {
                break ;
            },
            Some(entry) => {
                proof {
                    lemma_contains_after_remove(queue@, queue_before, entry);
                    assert(queue_before.contains(entry));
                    assert(frontier(queue@).insert((entry.node_id, entry.cost)) =~= frontier(
                        queue_before,
                    ));
                    assert forall|i: int| 0 <= i < queue@.len() implies entry.cost <= (
                    #[trigger] queue@[i]).cost by {
                        assert(queue@.contains(queue@[i]));
                        let j = choose|j: int|
                            0 <= j < queue_before.len() && queue_before[j] == queue@[i];
                        lemma_at_most_costs_less(queue_before[0], queue_before[j]);
                    }
                    vstd::seq_lib::to_multiset_len(queue@);
                    vstd::seq_lib::to_multiset_len(queue_before);
                    assert(queue@.len() + 1 == queue_before.len()) by {
                        broadcast use vstd::multiset::group_multiset_axioms;

                        vstd::seq_lib::to_multiset_contains(queue_before, entry);
                    }
                }
                let ghost queue_popped = queue@;
                let ghost prevs_before = prevs@;
                relax_edges(graph, src, &entry, &mut prevs, &mut queue);
                assert(potential(prevs@, node_count as nat) < potential(
                    prevs_before,
                    node_count as nat,
                ) || (prevs@ == prevs_before && queue@.len() < queue_before.len()));
            },
        }
    }
    proof {
        assert(frontier(queue@) =~= Set::<(NodeId, usize)>::empty());
        lemma_exhausted_is_shortest(graph, src, prevs@);
    }
    prevs
}

} // verus!
