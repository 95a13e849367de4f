//! The shortest path from a source to the nearest node of a given value,
//! by A*: a best-first search that a heuristic steers.
use crate::data_structure::binary_heap::{is_heap, BinaryHeap};
use crate::graph::model::{Edge, Graph, NodeId, NodeVal};
use crate::graph::paths::{lemma_walk_concat, lemma_walk_push, walk_cost, walk_nodes};
use crate::graph::search::{
    edge_relaxed, entry_inv, lemma_expanded_can_leave, lemma_potential_drops,
    lemma_relax_keeps_inv, lemma_relaxed_upto_stays, lemma_walk_meets_frontier, meets, node_inv,
    potential, relaxed_upto, search_inv, Frontier, Prevs,
};
use crate::order::{at_most, equality_computed, is_same, less, same, weakly_ordered};
use crate::vecs::{lemma_contains_after_insert, lemma_contains_after_remove, reversed};
use std::cmp::Ordering;
use std::collections::BTreeMap;
use vstd::prelude::*;
use vstd::std_specs::cmp::PartialOrdSpecImpl;

verus! {

broadcast use vstd::laws_cmp::group_laws_cmp;

/// A node to expand, with the cost of the way found to it and that cost
/// plus the heuristic's estimate of the way that is left. Entries sort by
/// the estimated total, then by the cost, then by the node.
#[derive(Debug, PartialEq, Eq, Ord)]
pub struct QueueEntry {
    pub heur_cost: usize,
    pub real_cost: usize,
    pub node_id: NodeId,
}

impl PartialOrd for QueueEntry {
    fn partial_cmp(&self, other: &Self) -> (r: Option<Ordering>) {
        if self.heur_cost < other.heur_cost {
            Some(Ordering::Less)
        } else if self.heur_cost > other.heur_cost {
            Some(Ordering::Greater)
        } else if self.real_cost < other.real_cost {
            Some(Ordering::Less)
        } else if self.real_cost > other.real_cost {
            Some(Ordering::Greater)
        } else if self.node_id < other.node_id {
            Some(Ordering::Less)
        } else if self.node_id > other.node_id {
            Some(Ordering::Greater)
        } else {
            Some(Ordering::Equal)
        }
    }
}

impl PartialOrdSpecImpl for QueueEntry {
    open spec fn obeys_partial_cmp_spec() -> bool {
        true
    }

    open spec fn partial_cmp_spec(&self, other: &Self) -> Option<Ordering> {
        if self.heur_cost < other.heur_cost {
            Some(Ordering::Less)
        } else if self.heur_cost > other.heur_cost {
            Some(Ordering::Greater)
        } else if self.real_cost < other.real_cost {
            Some(Ordering::Less)
        } else if self.real_cost > other.real_cost {
            Some(Ordering::Greater)
        } else if self.node_id < other.node_id {
            Some(Ordering::Less)
        } else if self.node_id > other.node_id {
            Some(Ordering::Greater)
        } else {
            Some(Ordering::Equal)
        }
    }
}

/// The order of the entries is one that a heap can keep.
pub proof fn lemma_entries_ordered()
    ensures
        weakly_ordered::<QueueEntry>(),
{
    assert forall|a: QueueEntry, b: QueueEntry| #[trigger] less(a, b) implies !less(b, a) by {}
    assert forall|a: QueueEntry, b: QueueEntry, c: QueueEntry| #[trigger]
        at_most(a, b) && #[trigger] at_most(b, c) implies at_most(a, c) by {}
}

/// An entry that sorts no later than another has no larger an estimate.
pub proof fn lemma_at_most_estimates_less(a: QueueEntry, b: QueueEntry)
    requires
        at_most(a, b),
    ensures
        a.heur_cost <= b.heur_cost,
{
}

/// The frontier that a queue stands for.
pub open spec fn frontier(queue: Seq<QueueEntry>) -> Frontier {
    Set::new(
        |pair: (NodeId, usize)|
            exists|i: int|
                0 <= i < queue.len() && (#[trigger] queue[i]).node_id == pair.0
                    && queue[i].real_cost == pair.1,
    )
}

/// The nodes that carry the value `target`.
pub open spec fn targets_of<V: NodeVal>(g: &Graph<V>, target: V) -> Set<NodeId> {
    Set::new(|v: NodeId| v < g.nodes@.len() && same(g.nodes@[v as int], target))
}

/// The heuristic is admissible: what it returns for a node is never more
/// than the cost of a walk from that node to a target.
pub open spec fn admissible<V: NodeVal, H: Fn(&Graph<V>, NodeId) -> usize>(
    g: &Graph<V>,
    targets: Set<NodeId>,
    heuristic: H,
) -> bool {
    forall|n: NodeId, estimate: usize, t: NodeId, q: Seq<Edge>|
        #![trigger call_ensures(heuristic, (g, n), estimate), g.is_walk(n, t, q)]
        call_ensures(heuristic, (g, n), estimate) && targets.contains(t) && g.is_walk(n, t, q)
            ==> estimate <= walk_cost(q)
}

/// The estimate of an entry is not below its cost and, where the heuristic
/// is admissible, not above the cost of a walk through its node to a target.
pub open spec fn bounded<V: NodeVal>(
    g: &Graph<V>,
    targets: Set<NodeId>,
    adm: bool,
    entry: QueueEntry,
) -> bool {
    &&& entry.real_cost <= entry.heur_cost
    &&& adm ==> forall|t: NodeId, q: Seq<Edge>|
        targets.contains(t) && #[trigger] g.is_walk(entry.node_id, t, q) ==> entry.heur_cost
            <= entry.real_cost + walk_cost(q)
}

/// No target can be reached for less than `cost`.
pub open spec fn nearest<V: NodeVal>(
    g: &Graph<V>,
    src: NodeId,
    targets: Set<NodeId>,
    cost: int,
) -> bool {
    forall|t: NodeId, p: Seq<Edge>|
        targets.contains(t) && #[trigger] g.is_walk(src, t, p) ==> cost <= walk_cost(p)
}

/// What `astar` returns. Nothing, if no walk from the source whose cost
/// fits in a `usize` ends in a target. Otherwise a cost and a path: the path
/// starts at the source and ends in a target, a walk of the graph visits
/// its nodes at no more than the cost, and some walk to that target costs
/// exactly the cost. If the heuristic is admissible, no target can be reached
/// for less.
pub open spec fn found_path<V: NodeVal>(
    g: &Graph<V>,
    src: NodeId,
    targets: Set<NodeId>,
    adm: bool,
    found: Option<(usize, Seq<NodeId>)>,
) -> bool {
    match found {
        None => forall|t: NodeId| targets.contains(t) ==> !(#[trigger] g.within_reach(src, t)),
        Some((cost, path)) => {
            &&& path.len() > 0
            &&& path[0] == src
            &&& targets.contains(path.last())
            &&& g.reaches(src, path.last(), cost as int)
            &&& along(g, src, path, cost as int)
            &&& adm ==> nearest(g, src, targets, cost as int)
        },
    }
}

/// A walk from `src` visits the nodes of `path`, at a cost of at most `cost`.
pub open spec fn along<V: NodeVal>(g: &Graph<V>, src: NodeId, path: Seq<NodeId>, cost: int) -> bool {
    exists|w: Seq<Edge>| #[trigger]
        g.is_walk(src, path.last(), w) && walk_nodes(src, w) == path && walk_cost(w) <= cost
}

/// The recorded way back from `v` comes nearer to the source with every
/// step: the node before `v` is recorded at less, or at the same cost and
/// earlier.
pub open spec fn chain_at(prevs: Prevs, src: NodeId, stamps: Map<NodeId, nat>, clock: nat, v: NodeId) -> bool {
    &&& stamps[v] < clock
    &&& v != src ==> match prevs[v].0 {
        Some(u) => prevs.contains_key(u) && (prevs[u].1 < prevs[v].1 || (prevs[u].1 == prevs[v].1
            && stamps[u] < stamps[v])),
        None => false,
    }
}

/// The recorded ways back all lead to the source.
pub open spec fn chain_ok(prevs: Prevs, src: NodeId, stamps: Map<NodeId, nat>, clock: nat) -> bool {
    forall|v: NodeId| prevs.contains_key(v) ==> #[trigger] chain_at(prevs, src, stamps, clock, v)
}

/// Recording a cheaper way to a node keeps the ways back in order.
pub proof fn lemma_chain_update(
    prevs: Prevs,
    src: NodeId,
    stamps: Map<NodeId, nat>,
    clock: nat,
    u: NodeId,
    v: NodeId,
    nc: usize,
)
    requires
        chain_ok(prevs, src, stamps, clock),
        prevs.contains_key(u),
        prevs[u].1 <= nc,
        v != src,
        v != u,
        !prevs.contains_key(v) || nc < prevs[v].1,
    ensures
        chain_ok(prevs.insert(v, (Some(u), nc)), src, stamps.insert(v, clock), clock + 1),
{
    let prevs2 = prevs.insert(v, (Some(u), nc));
    let stamps2 = stamps.insert(v, clock);
    assert forall|x: NodeId| prevs2.contains_key(x) implies #[trigger] chain_at(
        prevs2,
        src,
        stamps2,
        clock + 1,
        x,
    ) by {
        assert(chain_at(prevs, src, stamps, clock, u));
        if x != v {
            assert(chain_at(prevs, src, stamps, clock, x));
        }
    }
}

/// The path from `src` to `target_id` that the records lead back along.
fn reconstruct<V: NodeVal>(
    graph: &Graph<V>,
    prevs: &BTreeMap<NodeId, (Option<NodeId>, usize)>,
    src: NodeId,
    target_id: NodeId,
    Ghost(targets): Ghost<Set<NodeId>>,
    Ghost(open): Ghost<Frontier>,
    Ghost(stamps): Ghost<Map<NodeId, nat>>,
    Ghost(clock): Ghost<nat>,
) -> (path: Option<Vec<NodeId>>)
    requires
        graph.wf(),
        search_inv(graph, src, targets, prevs@, open),
        chain_ok(prevs@, src, stamps, clock),
        prevs@.contains_key(target_id),
    ensures
        path is Some,
        path->0@.len() > 0,
        path->0@[0] == src,
        path->0@.last() == target_id,
        along(graph, src, path->0@, prevs@[target_id].1 as int),
{
    let mut back: Vec<NodeId> = Vec::new();
    back.push(target_id);
    let mut cur = target_id;
    let ghost mut walk: Seq<Edge> = Seq::empty();
    proof {
        assert(walk_nodes(cur, walk) =~= back@.reverse());
    }
    while cur != src
        invariant
            graph.wf(),
            search_inv(graph, src, targets, prevs@, open),
            chain_ok(prevs@, src, stamps, clock),
            prevs@.contains_key(cur),
            prevs@.contains_key(target_id),
            back@.len() > 0,
            back@[0] == target_id,
            graph.is_walk(cur, target_id, walk),
            walk_nodes(cur, walk) == back@.reverse(),
            prevs@[cur].1 + walk_cost(walk) <= prevs@[target_id].1,
        decreases prevs@[cur].1, stamps[cur],
    {
        proof {
            assert(chain_at(prevs@, src, stamps, clock, cur));
            assert(node_inv(graph, src, targets, prevs@, open, cur));
        }
        let before = match prevs.get(&cur) {
            Some(record) => record.0,
            None => {
                return None;
            },
        };
        let ghost here = cur;
        cur =
        match before {
            Some(node) => node,
            None => {
                return None;
            },
        };
        proof {
            let e = choose|e: Edge|
                {
                    &&& #[trigger] graph.has_edge(e)
                    &&& e.dst == here
                    &&& prevs@[here].0 == Some(e.src)
                    &&& prevs@.contains_key(e.src)
                    &&& prevs@[e.src].1 + e.cost <= prevs@[here].1
                };
            let step = Seq::<Edge>::empty().push(e);
            lemma_walk_push(graph, cur, Seq::<Edge>::empty(), e);
            lemma_walk_concat(graph, cur, here, target_id, step, walk);
            assert(walk_nodes(cur, step + walk) =~= seq![cur] + walk_nodes(here, walk));
            assert(back@.push(cur).reverse() =~= seq![cur] + back@.reverse());
            walk = step + walk;
        }
        back.push(cur);
    }
    let path = reversed(&back);
    proof {
        assert(path@.last() == back@[0]);
        assert(graph.is_walk(src, path@.last(), walk) && walk_nodes(src, walk) == path@
            && walk_cost(walk) <= prevs@[target_id].1);
    }
    Some(path)
}

/// The cheapest way from `src` to a node whose value equals `target`: its
/// cost and the nodes on it, the source first. Nodes are expanded in the
/// order of the cost of the way to them plus what `heuristic` returns for
/// them; the search ends when a node of that value is taken from the queue.
/// An estimated total that does not fit in a `usize` counts as the largest
/// one, and a way that costs more than fits in a `usize` is not followed.
pub fn astar<V: NodeVal>(
    graph: &Graph<V>,
    src: NodeId,
    target: V,
    heuristic: impl Fn(&Graph<V>, NodeId) -> usize,
) -> (found: Option<(usize, Vec<NodeId>)>)
    requires
        graph.wf(),
        src < graph.nodes@.len(),
        equality_computed::<V>(),
        forall|n: NodeId| n < graph.nodes@.len() ==> call_requires(heuristic, (graph, n)),
    ensures
        found_path(
            graph,
            src,
            targets_of(graph, target),
            admissible(graph, targets_of(graph, target), heuristic),
            match found {
                Some((cost, path)) => Some((cost, path@)),
                None => None,
            },
        ),
{
    let ghost targets = targets_of(graph, target);
    let ghost adm = admissible(graph, targets, heuristic);
    let mut prevs: BTreeMap<NodeId, (Option<NodeId>, usize)> = BTreeMap::new();
    let mut queue: BinaryHeap<QueueEntry> = BinaryHeap::new();
    let node_count = graph.nodes.len();
    let ghost n = node_count as nat;
    let ghost mut stamps: Map<NodeId, nat> = Map::empty();
    let ghost mut clock: nat = 1;
    proof {
        lemma_entries_ordered();
    }
    let first_estimate = heuristic(graph, src);
    let first = QueueEntry { real_cost: 0, heur_cost: first_estimate, node_id: src };
    queue.push(first);
    prevs.insert(src, (None, 0));
    proof {
        stamps = stamps.insert(src, 0);
        lemma_contains_after_insert(queue@, Seq::<QueueEntry>::empty(), first);
        let open = frontier(queue@);
        assert(queue@.contains(first));
        let at = choose|i: int| 0 <= i < queue@.len() && queue@[i] == first;
        assert(queue@[at].node_id == src && queue@[at].real_cost == 0);
        assert(open.contains((src, 0usize)));
        let stay = Seq::<Edge>::empty();
        assert(graph.is_walk(src, src, stay) && walk_cost(stay) == 0);
        assert forall|v: NodeId| prevs@.contains_key(v) implies #[trigger] node_inv(
            graph,
            src,
            targets,
            prevs@,
            open,
            v,
        ) by {}
        assert forall|v: NodeId, c: usize| #[trigger] open.contains((v, c)) implies entry_inv(
            graph,
            src,
            prevs@,
            v,
            c,
        ) by {
            let i = choose|i: int|
                0 <= i < queue@.len() && (#[trigger] queue@[i]).node_id == v && queue@[i].real_cost
                    == c;
            assert(queue@.contains(queue@[i]));
        }
        assert forall|i: int| 0 <= i < queue@.len() implies bounded(
            graph,
            targets,
            adm,
            #[trigger] queue@[i],
        ) by {
            assert(queue@.contains(queue@[i]));
            assert(queue@[i] == first);
        }
        assert forall|v: NodeId| prevs@.contains_key(v) implies #[trigger] chain_at(
            prevs@,
            src,
            stamps,
            clock,
            v,
        ) by {}
    }
    let mut hit: Option<(NodeId, usize)> = None;
    let ghost mut open_at_end: Frontier = Set::empty();
    loop
        invariant_except_break
            hit is None,
            search_inv(graph, src, targets, prevs@, frontier(queue@)),
            forall|i: int| 0 <= i < queue@.len() ==> bounded(graph, targets, adm, #[trigger] queue@[i]),
        invariant
            graph.wf(),
            src < graph.nodes@.len(),
            equality_computed::<V>(),
            forall|k: NodeId| k < graph.nodes@.len() ==> call_requires(heuristic, (graph, k)),
            targets == targets_of(graph, target),
            adm == admissible(graph, targets, heuristic),
            n == graph.nodes@.len(),
            node_count == n,
            is_heap(queue@),
            weakly_ordered::<QueueEntry>(),
            chain_ok(prevs@, src, stamps, clock),
        ensures
            search_inv(graph, src, targets, prevs@, open_at_end),
            chain_ok(prevs@, src, stamps, clock),
            match hit {
                None => open_at_end == Set::<(NodeId, usize)>::empty(),
                Some((t, c)) => {
                    &&& targets.contains(t)
                    &&& open_at_end.contains((t, c))
                    &&& adm ==> nearest(graph, src, targets, c as int)
                },
            },
        decreases potential(prevs@, n), queue@.len(),
    {
        let ghost queue_before = queue@;
        let ghost prevs_before = prevs@;
        let popped = queue.pop();
        let entry = match popped {
            None => {
                proof {
                    open_at_end = frontier(queue@);
                    assert(frontier(queue@) =~= Set::<(NodeId, usize)>::empty());
                }
                break ;
            },
            Some(entry) => entry,
        };
        let ghost u = entry.node_id;
        let ghost c = entry.real_cost;
        let ghost open = frontier(queue@).insert((u, c));
        proof {
            lemma_contains_after_remove(queue@, queue_before, entry);
            assert(queue_before[0] == entry);
            assert(frontier(queue_before).contains((u, c)));
            assert(open =~= frontier(queue_before)) by {
                assert forall|pair: (NodeId, usize)| open.contains(pair) <==> frontier(
                    queue_before,
                ).contains(pair) by {
                    if frontier(queue@).contains(pair) {
                        let i = choose|i: int|
                            0 <= i < queue@.len() && (#[trigger] queue@[i]).node_id == pair.0
                                && queue@[i].real_cost == pair.1;
                        assert(queue@.contains(queue@[i]));
                        let j = choose|j: int|
                            0 <= j < queue_before.len() && queue_before[j] == queue@[i];
                        assert(queue_before[j].node_id == pair.0);
                    }
                    if frontier(queue_before).contains(pair) && pair != (u, c) {
                        let j = choose|j: int|
                            0 <= j < queue_before.len() && (#[trigger] queue_before[j]).node_id
                                == pair.0 && queue_before[j].real_cost == pair.1;
                        assert(queue_before.contains(queue_before[j]));
                        assert(queue_before[j] != entry);
                        let i = choose|i: int| 0 <= i < queue@.len() && queue@[i] == queue_before[j];
                        assert(queue@[i].node_id == pair.0);
                    }
                }
            }
            vstd::seq_lib::to_multiset_len(queue@);
            vstd::seq_lib::to_multiset_len(queue_before);
            assert(queue@.len() + 1 == queue_before.len()) by {
                broadcast use vstd::multiset::group_multiset_axioms;

                vstd::seq_lib::to_multiset_contains(queue_before, entry);
            }
            assert(entry_inv(graph, src, prevs@, u, c));
            assert(node_inv(graph, src, targets, prevs@, open, u));
            assert(bounded(graph, targets, adm, queue_before[0]));
            assert forall|i: int| 0 <= i < queue@.len() implies bounded(
                graph,
                targets,
                adm,
                #[trigger] queue@[i],
            ) by {
                assert(queue@.contains(queue@[i]));
                let j = choose|j: int| 0 <= j < queue_before.len() && queue_before[j] == queue@[i];
                assert(bounded(graph, targets, adm, queue_before[j]));
            }
        }
        let nval = graph.nodes[entry.node_id];
        if is_same(&nval, &target) {
            proof {
                open_at_end = open;
                if adm {
                    assert forall|t: NodeId, p: Seq<Edge>|
                        targets.contains(t) && #[trigger] graph.is_walk(
                            src,
                            t,
                            p,
                        ) implies c <= walk_cost(p) by {
                        if walk_cost(p) <= usize::MAX {
                            lemma_walk_meets_frontier(graph, src, targets, prevs@, open, t, p);
                            let (v, cv, q) = choose|v: NodeId, cv: usize, q: Seq<Edge>| #[trigger]
                                meets(graph, open, t, walk_cost(p) as int, v, cv, q);
                            let j = choose|j: int|
                                0 <= j < queue_before.len() && (#[trigger] queue_before[j]).node_id
                                    == v && queue_before[j].real_cost == cv;
                            assert(bounded(graph, targets, adm, queue_before[j]));
                            lemma_at_most_estimates_less(queue_before[0], queue_before[j]);
                        }
                    }
                }
            }
            hit = Some((entry.node_id, entry.real_cost));
            break ;
        }
        let edges = graph.edges(entry.node_id);
        let mut i: usize = 0;
        while i < edges.len()
            invariant
                graph.wf(),
                forall|k: NodeId| k < graph.nodes@.len() ==> call_requires(heuristic, (graph, k)),
                targets == targets_of(graph, target),
                adm == admissible(graph, targets, heuristic),
                n == graph.nodes@.len(),
                n <= usize::MAX,
                u == entry.node_id,
                c == entry.real_cost,
                i <= edges@.len(),
                edges@ == graph.out_edges(u),
                is_heap(queue@),
                weakly_ordered::<QueueEntry>(),
                search_inv(graph, src, targets, prevs@, frontier(queue@).insert((u, c))),
                forall|k: int|
                    0 <= k < queue@.len() ==> bounded(graph, targets, adm, #[trigger] queue@[k]),
                chain_ok(prevs@, src, stamps, clock),
                relaxed_upto(graph, src, prevs@, u, c as int, i as int),
                prevs@.contains_key(u),
                potential(prevs@, n) < potential(prevs_before, n) || (prevs@ == prevs_before
                    && queue@.len() + 1 == queue_before.len()),
            decreases edges@.len() - i,
        {
            let edge = edges[i];
            let ghost queue_mid = queue@;
            proof {
                assert(graph.out_edges(u)[i as int] == edge);
                assert(graph.has_edge(edge));
                assert(edge.src == u);
                assert(edge.dst < n);
                assert(frontier(queue@).insert((u, c)).contains((u, c)));
                assert(entry_inv(graph, src, prevs@, u, c));
            }
            i += 1;
            if edge.dst != src {
                if let Some(new_rcost) = entry.real_cost.checked_add(edge.cost) {
                    let improves = match prevs.get(&edge.dst) {
                        None => true,
                        Some(prev) => new_rcost < prev.1,
                    };
                    if improves {
                        let estimate = heuristic(graph, edge.dst);
                        let new_hcost = new_rcost.saturating_add(estimate);
                        let record = (Some(entry.node_id), new_rcost);
                        proof {
                            lemma_relax_keeps_inv(
                                graph,
                                src,
                                targets,
                                prevs@,
                                frontier(queue@).insert((u, c)),
                                c,
                                edge,
                                new_rcost,
                            );
                            lemma_relaxed_upto_stays(
                                graph,
                                src,
                                prevs@,
                                u,
                                c as int,
                                i as int - 1,
                                edge.dst,
                                record,
                            );
                            lemma_potential_drops(prevs@, n, edge.dst, record);
                            lemma_chain_update(prevs@, src, stamps, clock, u, edge.dst, new_rcost);
                            stamps = stamps.insert(edge.dst, clock);
                            clock = clock + 1;
                        }
                        prevs.insert(edge.dst, record);
                        let pushed = QueueEntry {
                            real_cost: new_rcost,
                            heur_cost: new_hcost,
                            node_id: edge.dst,
                        };
                        queue.push(pushed);
                        proof {
                            lemma_contains_after_insert(queue@, queue_mid, pushed);
                            assert(frontier(queue@).insert((u, c)) =~= frontier(queue_mid).insert(
                                (u, c),
                            ).insert((edge.dst, new_rcost))) by {
                                assert forall|pair: (NodeId, usize)|
                                    frontier(queue@).contains(pair) <==> frontier(
                                        queue_mid,
                                    ).contains(pair) || pair == (edge.dst, new_rcost) by {
                                    if frontier(queue@).contains(pair) {
                                        let a = choose|a: int|
                                            0 <= a < queue@.len() && (#[trigger] queue@[a]).node_id
                                                == pair.0 && queue@[a].real_cost == pair.1;
                                        assert(queue@.contains(queue@[a]));
                                        if queue@[a] != pushed {
                                            let b = choose|b: int|
                                                0 <= b < queue_mid.len() && queue_mid[b]
                                                    == queue@[a];
                                            assert(queue_mid[b].node_id == pair.0);
                                        }
                                    }
                                    if frontier(queue_mid).contains(pair) {
                                        let b = choose|b: int|
                                            0 <= b < queue_mid.len() && (
                                            #[trigger] queue_mid[b]).node_id == pair.0
                                                && queue_mid[b].real_cost == pair.1;
                                        assert(queue_mid.contains(queue_mid[b]));
                                        assert(queue@.contains(queue_mid[b]));
                                        let a = choose|a: int|
                                            0 <= a < queue@.len() && queue@[a] == queue_mid[b];
                                        assert(queue@[a].node_id == pair.0);
                                    }
                                    if pair == (edge.dst, new_rcost) {
                                        let a = choose|a: int|
                                            0 <= a < queue@.len() && queue@[a] == pushed;
                                        assert(queue@[a].node_id == pair.0);
                                    }
                                }
                            }
                            assert forall|k: int| 0 <= k < queue@.len() implies bounded(
                                graph,
                                targets,
                                adm,
                                #[trigger] queue@[k],
                            ) by {
                                assert(queue@.contains(queue@[k]));
                                if queue@[k] != pushed {
                                    let b = choose|b: int|
                                        0 <= b < queue_mid.len() && queue_mid[b] == queue@[k];
                                    assert(bounded(graph, targets, adm, queue_mid[b]));
                                }
                            }
                            vstd::seq_lib::to_multiset_len(queue@);
                            vstd::seq_lib::to_multiset_len(queue_mid);
                        }
                    }
                }
            }
            proof {
                assert forall|j: int|
                    0 <= j < i && j < graph.out_edges(u).len() implies edge_relaxed(
                    src,
                    prevs@,
                    c as int,
                    #[trigger] graph.out_edges(u)[j],
                ) by {
                    if j < i - 1 {
                        assert(relaxed_upto(graph, src, prevs@, u, c as int, i as int - 1));
                    }
                }
            }
        }
        proof {
            lemma_expanded_can_leave(
                graph,
                src,
                targets,
                prevs@,
                frontier(queue@).insert((u, c)),
                frontier(queue@),
                u,
                c,
            );
        }
    }
    match hit {
        None => {
            proof {
                assert forall|t: NodeId| targets.contains(t) implies !(#[trigger] graph.within_reach(
                    src,
                    t,
                )) by {
                    if graph.within_reach(src, t) {
                        let p = choose|p: Seq<Edge>| #[trigger]
                            graph.is_walk(src, t, p) && walk_cost(p) <= usize::MAX;
                        lemma_walk_meets_frontier(graph, src, targets, prevs@, open_at_end, t, p);
                    }
                }
            }
            None
        },
        Some((target_id, target_cost)) => {
            proof {
                assert(entry_inv(graph, src, prevs@, target_id, target_cost));
            }
            let path = reconstruct(
                graph,
                &prevs,
                src,
                target_id,
                Ghost(targets),
                Ghost(open_at_end),
                Ghost(stamps),
                Ghost(clock),
            );
            match path {
                Some(path) => {
                    proof {
                        let w = choose|w: Seq<Edge>| #[trigger]
                            graph.is_walk(src, path@.last(), w) && walk_nodes(src, w) == path@
                                && walk_cost(w) <= prevs@[target_id].1;
                        assert(graph.is_walk(src, path@.last(), w) && walk_nodes(src, w) == path@
                            && walk_cost(w) <= target_cost);
                    }
                    Some((target_cost, path))
                },
                None => None,
            }
        },
    }
}

} // verus!
