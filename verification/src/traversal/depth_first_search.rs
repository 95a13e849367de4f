//! Depth first search.
use crate::traversal::graph::{
    lemma_neighbours_are_ends, neighbours_of, search, search_result,
};
use vstd::prelude::*;

pub use crate::traversal::graph::{Edge, Graph, Node, NodeId};

verus! {

/// `rank` falls along every edge of the graph.
pub open spec fn ranks(g: &Graph, rank: spec_fn(NodeId) -> nat) -> bool {
    forall|i: int|
        0 <= i < g.edges@.len() ==> rank((#[trigger] g.edges@[i]).0) > rank(g.edges@[i].1)
}

/// The edges of the graph form no cycle.
pub open spec fn acyclic(g: &Graph) -> bool {
    exists|rank: spec_fn(NodeId) -> nat| #[trigger] ranks(g, rank)
}

/// A number for each node that falls along every edge, where the graph has
/// no cycle.
pub open spec fn depth(g: &Graph, v: NodeId) -> nat {
    (choose|rank: spec_fn(NodeId) -> nat| #[trigger] ranks(g, rank))(v)
}

/// `x` is the value of a node that can be reached from `cur`.
pub open spec fn value_reached(g: &Graph, cur: NodeId, x: usize) -> bool {
    exists|v: NodeId| #[trigger] g.reachable(cur, v) && g.value(v) == x
}

/// What the search without memory from `cur` for a node of value `wanted`
/// makes of `before` and returns: it adds the value of `cur` and then values
/// of nodes that can be reached from `cur`; if it finds a node, that node
/// can be reached from `cur` and has the value, which is the last one added
/// and the only one of the values added; if not, no node that can be reached
/// from `cur` has the value.
pub open spec fn walked(
    g: &Graph,
    cur: NodeId,
    wanted: usize,
    before: Seq<NodeId>,
    after: Seq<NodeId>,
    found: Option<NodeId>,
) -> bool {
    &&& after.len() > before.len()
    &&& after.take(before.len() as int) == before
    &&& after[before.len() as int] == g.value(cur)
    &&& forall|i: int| before.len() <= i < after.len() ==> value_reached(g, cur, #[trigger] after[i])
    &&& forall|i: int| before.len() <= i < after.len() - 1 ==> #[trigger] after[i] != wanted
    &&& match found {
        Some(id) => g.reachable(cur, id) && g.value(id) == wanted && after.last() == wanted,
        None => after.last() != wanted && forall|v: NodeId| #[trigger]
            g.reachable(cur, v) ==> g.value(v) != wanted,
    }
}

/// A path of more than one node starts with an edge, from whose end the
/// rest of the path leads on.
pub proof fn lemma_reachable_first_step(g: &Graph, a: NodeId, b: NodeId)
    requires
        g.reachable(a, b),
        a != b,
    ensures
        exists|next: NodeId| #[trigger] g.edges@.contains((a, next)) && g.reachable(next, b),
{
    let path = choose|path: Seq<NodeId>| #[trigger] g.leads(a, b, path);
    let rest = path.drop_first();
    assert forall|k: int| 0 <= k < rest.len() - 1 implies #[trigger] g.step_at(rest, k) by {
        assert(g.step_at(path, k + 1));
    }
    assert(g.leads(path[1], b, rest));
    assert(g.step_at(path, 0));
}

/// What can be reached from the end of an edge can be reached from its
/// source.
pub proof fn lemma_reachable_through(g: &Graph, a: NodeId, next: NodeId, b: NodeId)
    requires
        g.edges@.contains((a, next)),
        g.reachable(next, b),
    ensures
        g.reachable(a, b),
{
    let path = choose|path: Seq<NodeId>| #[trigger] g.leads(next, b, path);
    let longer = seq![a] + path;
    assert forall|k: int| 0 <= k < longer.len() - 1 implies #[trigger] g.step_at(longer, k) by {
        if k > 0 {
            assert(g.step_at(path, k - 1));
        }
    }
    assert(g.leads(a, b, longer));
}

/// Searches from `cur_node_id` for a node of the value of `target`,
/// going down from each node to its neighbours in turn, and adds to `path`
/// the values of the nodes in the order of the visits. It keeps no record
/// of the nodes met, so the graph must hold no cycle; a node that several
/// ways lead to is visited once for each.
pub fn depth_first_search_rec(
    graph: &Graph,
    path: &mut Vec<NodeId>,
    cur_node_id: NodeId,
    target: &Node,
) -> (found: Option<NodeId>)
    requires
        graph.wf(),
        acyclic(graph),
        cur_node_id < graph.nodes@.len(),
    ensures
        walked(graph, cur_node_id, target.0, old(path)@, final(path)@, found),
    decreases depth(graph, cur_node_id),
{
    let ghost before = path@;
    let cur_node = &graph.nodes[cur_node_id];
    path.push(cur_node.0);
    proof {
        assert(graph.leads(cur_node_id, cur_node_id, seq![cur_node_id]));
        assert(graph.reachable(cur_node_id, cur_node_id));
        assert(value_reached(graph, cur_node_id, graph.value(cur_node_id)));
        assert(path@.take(before.len() as int) =~= before);
    }
    if cur_node.0 == target.0 {
        return Some(cur_node_id);
    }
    let neighbours = graph.neighbours(cur_node_id);
    let mut k: usize = 0;
    let mut found: Option<NodeId> = None;
    while k < neighbours.len() && found.is_none()
        invariant
            graph.wf(),
            acyclic(graph),
            cur_node_id < graph.nodes@.len(),
            graph.value(cur_node_id) != target.0,
            neighbours@ == neighbours_of(graph.edges@, cur_node_id),
            k <= neighbours@.len(),
            path@.len() > before.len(),
            path@.take(before.len() as int) == before,
            path@[before.len() as int] == graph.value(cur_node_id),
            forall|i: int|
                before.len() <= i < path@.len() ==> value_reached(
                    graph,
                    cur_node_id,
                    #[trigger] path@[i],
                ),
            forall|i: int| before.len() <= i < path@.len() - 1 ==> #[trigger] path@[i] != target.0,
            match found {
                Some(id) => graph.reachable(cur_node_id, id) && graph.value(id) == target.0
                    && path@.last() == target.0,
                None => path@.last() != target.0 && forall|j: int, v: NodeId|
                    0 <= j < k && #[trigger] graph.reachable(neighbours@[j], v) ==> graph.value(v)
                        != target.0,
            },
        decreases neighbours@.len() - k,
    {
        let neighbour = neighbours[k];
        let ghost mid = path@;
        proof {
            assert(neighbours@.contains(neighbour));
            lemma_neighbours_are_ends(graph.edges@, cur_node_id, neighbour);
            let e = choose|e: int|
                0 <= e < graph.edges@.len() && graph.edges@[e] == (cur_node_id, neighbour);
            assert(graph.edges@[e].1 < graph.nodes@.len());
            let rank = choose|rank: spec_fn(NodeId) -> nat| #[trigger] ranks(graph, rank);
            assert(rank(graph.edges@[e].0) > rank(graph.edges@[e].1));
        }
        let below = depth_first_search_rec(graph, path, neighbour, target);
        proof {
            assert(path@.take(before.len() as int) =~= before) by {
                assert forall|i: int| 0 <= i < before.len() implies path@[i] == before[i] by {
                    assert(path@.take(mid.len() as int)[i] == mid[i]);
                    assert(mid.take(before.len() as int)[i] == before[i]);
                }
            }
            assert(path@[before.len() as int] == path@.take(mid.len() as int)[before.len() as int]);
            assert forall|i: int| before.len() <= i < path@.len() implies value_reached(
                graph,
                cur_node_id,
                #[trigger] path@[i],
            ) by {
                if i < mid.len() {
                    assert(path@[i] == path@.take(mid.len() as int)[i]);
                    assert(value_reached(graph, cur_node_id, mid[i]));
                } else {
                    assert(value_reached(graph, neighbour, path@[i]));
                    let v = choose|v: NodeId| #[trigger]
                        graph.reachable(neighbour, v) && graph.value(v) == path@[i];
                    lemma_reachable_through(graph, cur_node_id, neighbour, v);
                    assert(graph.reachable(cur_node_id, v) && graph.value(v) == path@[i]);
                }
            }
            assert forall|i: int| before.len() <= i < path@.len() - 1 implies #[trigger] path@[i]
                != target.0 by {
                if i < mid.len() {
                    assert(path@[i] == path@.take(mid.len() as int)[i]);
                    if i == mid.len() - 1 {
                        assert(mid.last() != target.0);
                    } else {
                        assert(mid[i] != target.0);
                    }
                }
            }
        }
        if let Some(v) = below {
            proof {
                lemma_reachable_through(graph, cur_node_id, neighbour, v);
            }
            found = Some(v);
        }
        k += 1;
    }
    proof {
        assert forall|v: NodeId|
            found is None && #[trigger] graph.reachable(cur_node_id, v) implies graph.value(v)
            != target.0 by {
            if v != cur_node_id {
                lemma_reachable_first_step(graph, cur_node_id, v);
                let next = choose|next: NodeId| #[trigger]
                    graph.edges@.contains((cur_node_id, next)) && graph.reachable(next, v);
                lemma_neighbours_are_ends(graph.edges@, cur_node_id, next);
                let j = choose|j: int| 0 <= j < neighbours@.len() && neighbours@[j] == next;
                assert(graph.reachable(neighbours@[j], v));
            }
        }
    }
    found
}

/// Searches from `root_id` for a node of the value of `target`, going on
/// from the node visited last as long as it has a neighbour that was not
/// met before. Returns the values of the nodes visited, in the order of
/// the visits, and the node found.
pub fn depth_first_search_it(graph: &Graph, root_id: NodeId, target: &Node) -> (result: (
    Vec<NodeId>,
    Option<NodeId>,
))
    requires
        graph.wf(),
        root_id < graph.nodes@.len(),
    ensures
        search_result(graph, root_id, target.0, result.0@, result.1),
{
    search(graph, root_id, target, true)
}

} // verus!
