//! Walks through a graph and what they cost.
use crate::graph::model::{Edge, Graph, NodeId, NodeVal};
use vstd::prelude::*;

verus! {

/// The sum of the costs of the edges of `p`.
pub open spec fn walk_cost(p: Seq<Edge>) -> nat
    decreases p.len(),
{
    if p.len() == 0 {
        0
    } else {
        walk_cost(p.drop_last()) + p.last().cost as nat
    }
}

/// The nodes that a walk from `from` along the edges of `p` visits, in order.
pub open spec fn walk_nodes(from: NodeId, p: Seq<Edge>) -> Seq<NodeId> {
    seq![from] + p.map_values(|e: Edge| e.dst)
}

impl<V: NodeVal> Graph<V> {
    /// `p` is a walk from `from` to `to`: a chain of edges of the graph, each
    /// starting where the one before it ends. The empty chain is a walk from
    /// a node to itself.
    pub open spec fn is_walk(&self, from: NodeId, to: NodeId, p: Seq<Edge>) -> bool
        decreases p.len(),
    {
        if p.len() == 0 {
            from == to
        } else {
            &&& self.has_edge(p.last())
            &&& p.last().dst == to
            &&& self.is_walk(from, p.last().src, p.drop_last())
        }
    }

    /// Some walk from `from` to `to` costs exactly `d`.
    pub open spec fn reaches(&self, from: NodeId, to: NodeId, d: int) -> bool {
        exists|p: Seq<Edge>| #[trigger] self.is_walk(from, to, p) && walk_cost(p) == d
    }

    /// Some walk from `from` to `to` has a cost that fits in a `usize`.
    pub open spec fn within_reach(&self, from: NodeId, to: NodeId) -> bool {
        exists|p: Seq<Edge>| #[trigger] self.is_walk(from, to, p) && walk_cost(p) <= usize::MAX
    }

    /// `d` is the least cost of a walk from `from` to `to`.
    pub open spec fn is_shortest(&self, from: NodeId, to: NodeId, d: int) -> bool {
        &&& self.reaches(from, to, d)
        &&& forall|p: Seq<Edge>| #[trigger] self.is_walk(from, to, p) ==> d <= walk_cost(p)
    }
}

/// A walk goes on along an edge that leaves its last node.
pub proof fn lemma_walk_push<V: NodeVal>(
    g: &Graph<V>,
    from: NodeId,
    p: Seq<Edge>,
    e: Edge,
)
    requires
        g.is_walk(from, e.src, p),
        g.has_edge(e),
    ensures
        g.is_walk(from, e.dst, p.push(e)),
        walk_cost(p.push(e)) == walk_cost(p) + e.cost,
{
    assert(p.push(e).drop_last() =~= p);
    assert(p.push(e).last() == e);
}

/// Two walks that meet make one walk, which costs what the two cost together.
pub proof fn lemma_walk_concat<V: NodeVal>(
    g: &Graph<V>,
    from: NodeId,
    mid: NodeId,
    to: NodeId,
    p: Seq<Edge>,
    q: Seq<Edge>,
)
    requires
        g.is_walk(from, mid, p),
        g.is_walk(mid, to, q),
    ensures
        g.is_walk(from, to, p + q),
        walk_cost(p + q) == walk_cost(p) + walk_cost(q),
    decreases q.len(),
{
    if q.len() == 0 {
        assert(p + q =~= p);
    } else {
        lemma_walk_concat(g, from, mid, q.last().src, p, q.drop_last());
        assert((p + q).drop_last() =~= p + q.drop_last());
        assert((p + q).last() == q.last());
    }
}

/// There is one least cost of a walk between two nodes, if any.
pub proof fn lemma_shortest_is_unique<V: NodeVal>(
    g: &Graph<V>,
    from: NodeId,
    to: NodeId,
    d1: int,
    d2: int,
)
    requires
        g.is_shortest(from, to, d1),
        g.is_shortest(from, to, d2),
    ensures
        d1 == d2,
{
    let first = choose|p: Seq<Edge>| #[trigger] g.is_walk(from, to, p) && walk_cost(p) == d1;
    let second = choose|p: Seq<Edge>| #[trigger] g.is_walk(from, to, p) && walk_cost(p) == d2;
    assert(g.is_walk(from, to, first));
    assert(g.is_walk(from, to, second));
}

} // verus!
