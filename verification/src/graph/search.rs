//! The state of a best-first search from one source, and what holds of it
//! between two steps.
//!
//! The search keeps for each node it has met the least cost found so far
//! with the node that it came from, and a frontier of nodes, each with a
//! cost, that it has yet to expand. A node may stand in the frontier more
//! than once: an entry that a cheaper one has overtaken is never removed,
//! only found useless when its turn comes.
use crate::graph::model::{Edge, Graph, NodeId, NodeVal};
use crate::graph::paths::{lemma_walk_push, walk_cost};
use vstd::prelude::*;

verus! {

/// For each node met, the node it was reached from and the cost found.
pub type Prevs = Map<NodeId, (Option<NodeId>, usize)>;

/// The nodes yet to expand, each with the cost it was entered with.
pub type Frontier = Set<(NodeId, usize)>;

/// The edge `e`, taken from a node reached at cost `base`, cannot improve
/// on what is recorded: it leads back to the source, or what it would give
/// does not fit in a `usize`, or its end is recorded at no more.
pub open spec fn edge_relaxed(src: NodeId, prevs: Prevs, base: int, e: Edge) -> bool {
    e.dst != src && base + e.cost <= usize::MAX ==> prevs.contains_key(e.dst) && prevs[e.dst].1
        <= base + e.cost
}

/// The first `k` edges that leave `u` are relaxed for the cost `base`.
pub open spec fn relaxed_upto<V: NodeVal>(
    g: &Graph<V>,
    src: NodeId,
    prevs: Prevs,
    u: NodeId,
    base: int,
    k: int,
) -> bool {
    forall|j: int|
        0 <= j < k && j < g.out_edges(u).len() ==> edge_relaxed(
            src,
            prevs,
            base,
            #[trigger] g.out_edges(u)[j],
        )
}

/// No edge that leaves `u` can improve on what is recorded.
pub open spec fn relaxed<V: NodeVal>(g: &Graph<V>, src: NodeId, prevs: Prevs, u: NodeId) -> bool {
    relaxed_upto(g, src, prevs, u, prevs[u].1 as int, g.out_edges(u).len() as int)
}

/// The node recorded before `v` is recorded too, and an edge leads from it
/// to `v` at no more than the difference of the two costs.
pub open spec fn pred_ok<V: NodeVal>(g: &Graph<V>, prevs: Prevs, v: NodeId) -> bool {
    exists|e: Edge|
        {
            &&& #[trigger] g.has_edge(e)
            &&& e.dst == v
            &&& prevs[v].0 == Some(e.src)
            &&& prevs.contains_key(e.src)
            &&& prevs[e.src].1 + e.cost <= prevs[v].1
        }
}

/// What holds of a recorded node.
pub open spec fn node_inv<V: NodeVal>(
    g: &Graph<V>,
    src: NodeId,
    targets: Set<NodeId>,
    prevs: Prevs,
    open: Frontier,
    v: NodeId,
) -> bool {
    &&& v < g.nodes@.len() || v == src
    &&& g.reaches(src, v, prevs[v].1 as int)
    &&& open.contains((v, prevs[v].1)) || (relaxed(g, src, prevs, v) && !targets.contains(v))
    &&& v != src ==> pred_ok(g, prevs, v)
}

/// What holds of an entry of the frontier.
pub open spec fn entry_inv<V: NodeVal>(
    g: &Graph<V>,
    src: NodeId,
    prevs: Prevs,
    v: NodeId,
    c: usize,
) -> bool {
    &&& prevs.contains_key(v)
    &&& prevs[v].1 <= c
    &&& g.reaches(src, v, c as int)
}

/// The invariant of the search from `src` that stops at the nodes in
/// `targets`: every recorded cost is the cost of a walk from the source;
/// every recorded node waits in the frontier at its recorded cost or has
/// been expanded at it, and is then no target; every entry of the frontier
/// is the cost of a walk and no less than what is recorded.
pub open spec fn search_inv<V: NodeVal>(
    g: &Graph<V>,
    src: NodeId,
    targets: Set<NodeId>,
    prevs: Prevs,
    open: Frontier,
) -> bool {
    &&& prevs.contains_key(src)
    &&& prevs[src] == (None::<NodeId>, 0usize)
    &&& forall|v: NodeId|
        prevs.contains_key(v) ==> #[trigger] node_inv(g, src, targets, prevs, open, v)
    &&& forall|v: NodeId, c: usize| #[trigger]
        open.contains((v, c)) ==> entry_inv(g, src, prevs, v, c)
}

/// The frontier holds `v` at cost `c`, from where the walk `q` leads on to
/// `x` at a cost of at most `bound` in all.
pub open spec fn meets<V: NodeVal>(
    g: &Graph<V>,
    open: Frontier,
    x: NodeId,
    bound: int,
    v: NodeId,
    c: usize,
    q: Seq<Edge>,
) -> bool {
    &&& open.contains((v, c))
    &&& g.is_walk(v, x, q)
    &&& c + walk_cost(q) <= bound
}

/// Every walk from the source whose cost fits in a `usize` either ends in a
/// node that has been expanded at no more than the cost of the walk, or
/// passes through a node that waits in the frontier at no more than the cost
/// of the walk up to it.
pub proof fn lemma_walk_meets_frontier<V: NodeVal>(
    g: &Graph<V>,
    src: NodeId,
    targets: Set<NodeId>,
    prevs: Prevs,
    open: Frontier,
    x: NodeId,
    p: Seq<Edge>,
)
    requires
        g.wf(),
        search_inv(g, src, targets, prevs, open),
        g.is_walk(src, x, p),
        walk_cost(p) <= usize::MAX,
    ensures
        (prevs.contains_key(x) && prevs[x].1 <= walk_cost(p) && relaxed(g, src, prevs, x)
            && !targets.contains(x)) || (exists|v: NodeId, c: usize, q: Seq<Edge>| #[trigger]
            meets(g, open, x, walk_cost(p) as int, v, c, q)),
    decreases p.len(),
{
    let stay = Seq::<Edge>::empty();
    if p.len() == 0 {
        assert(node_inv(g, src, targets, prevs, open, src));
        if open.contains((src, prevs[src].1)) {
            assert(g.is_walk(src, src, stay));
            assert(meets(g, open, x, walk_cost(p) as int, src, prevs[src].1, stay));
        }
    } else {
        let e = p.last();
        let y = e.src;
        let before = p.drop_last();
        lemma_walk_meets_frontier(g, src, targets, prevs, open, y, before);
        if exists|v: NodeId, c: usize, q: Seq<Edge>| #[trigger]
            meets(g, open, y, walk_cost(before) as int, v, c, q) {
            let (v, c, q) = choose|v: NodeId, c: usize, q: Seq<Edge>| #[trigger]
                meets(g, open, y, walk_cost(before) as int, v, c, q);
            lemma_walk_push(g, v, q, e);
            assert(meets(g, open, x, walk_cost(p) as int, v, c, q.push(e)));
        } else {
            // `y` has been expanded, so the edge `e` is relaxed
            let i = choose|i: int| 0 <= i < g.out_edges(y).len() && g.out_edges(y)[i] == e;
            assert(edge_relaxed(src, prevs, prevs[y].1 as int, g.out_edges(y)[i]));
            assert(prevs.contains_key(x) && prevs[x].1 <= walk_cost(p)) by {
                if x == src {
                }
            }
            assert(node_inv(g, src, targets, prevs, open, x));
            if open.contains((x, prevs[x].1)) {
                assert(g.is_walk(x, x, stay));
                assert(meets(g, open, x, walk_cost(p) as int, x, prevs[x].1, stay));
            }
        }
    }
}

/// Recording a cheaper way to the end of an edge, and entering that node
/// into the frontier, keeps the invariant.
pub proof fn lemma_relax_keeps_inv<V: NodeVal>(
    g: &Graph<V>,
    src: NodeId,
    targets: Set<NodeId>,
    prevs: Prevs,
    open: Frontier,
    c: usize,
    e: Edge,
    nc: usize,
)
    requires
        g.wf(),
        search_inv(g, src, targets, prevs, open),
        open.contains((e.src, c)),
        g.has_edge(e),
        e.dst != src,
        nc == c + e.cost,
        !prevs.contains_key(e.dst) || nc < prevs[e.dst].1,
    ensures
        search_inv(
            g,
            src,
            targets,
            prevs.insert(e.dst, (Some(e.src), nc)),
            open.insert((e.dst, nc)),
        ),
        e.dst != e.src,
{
    let u = e.src;
    let v = e.dst;
    let prevs2 = prevs.insert(v, (Some(u), nc));
    let open2 = open.insert((v, nc));
    assert(entry_inv(g, src, prevs, u, c));
    let slot = choose|i: int| 0 <= i < g.out_edges(u).len() && g.out_edges(u)[i] == e;
    assert(g.out_edges(u)[slot] == e);
    assert(v < g.nodes@.len());
    // the new cost is that of a walk
    assert(g.reaches(src, v, nc as int)) by {
        let p = choose|p: Seq<Edge>| #[trigger] g.is_walk(src, u, p) && walk_cost(p) == c;
        lemma_walk_push(g, src, p, e);
        assert(g.is_walk(src, v, p.push(e)));
    }
    assert forall|x: NodeId| prevs2.contains_key(x) implies #[trigger] node_inv(
        g,
        src,
        targets,
        prevs2,
        open2,
        x,
    ) by {
        if x == v {
            assert(g.has_edge(e) && e.dst == v && prevs2[v].0 == Some(e.src)
                && prevs2.contains_key(e.src) && prevs2[e.src].1 + e.cost <= prevs2[v].1);
        } else {
            assert(node_inv(g, src, targets, prevs, open, x));
            if !open.contains((x, prevs[x].1)) {
                assert forall|j: int|
                    0 <= j < g.out_edges(x).len() implies edge_relaxed(
                    src,
                    prevs2,
                    prevs2[x].1 as int,
                    #[trigger] g.out_edges(x)[j],
                ) by {
                    assert(edge_relaxed(src, prevs, prevs[x].1 as int, g.out_edges(x)[j]));
                }
            }
            if x != src {
                let w = choose|w: Edge|
                    {
                        &&& #[trigger] g.has_edge(w)
                        &&& w.dst == x
                        &&& prevs[x].0 == Some(w.src)
                        &&& prevs.contains_key(w.src)
                        &&& prevs[w.src].1 + w.cost <= prevs[x].1
                    };
                assert(g.has_edge(w) && w.dst == x && prevs2[x].0 == Some(w.src)
                    && prevs2.contains_key(w.src) && prevs2[w.src].1 + w.cost <= prevs2[x].1);
            }
        }
    }
    assert forall|x: NodeId, cx: usize| #[trigger] open2.contains((x, cx)) implies entry_inv(
        g,
        src,
        prevs2,
        x,
        cx,
    ) by {
        if (x, cx) != (v, nc) {
            assert(open.contains((x, cx)));
            assert(entry_inv(g, src, prevs, x, cx));
        }
    }
}

/// Recording a cheaper way to a node leaves relaxed what was relaxed.
pub proof fn lemma_relaxed_upto_stays<V: NodeVal>(
    g: &Graph<V>,
    src: NodeId,
    prevs: Prevs,
    u: NodeId,
    base: int,
    k: int,
    v: NodeId,
    entry: (Option<NodeId>, usize),
)
    requires
        relaxed_upto(g, src, prevs, u, base, k),
        !prevs.contains_key(v) || entry.1 <= prevs[v].1,
    ensures
        relaxed_upto(g, src, prevs.insert(v, entry), u, base, k),
{
    assert forall|j: int| 0 <= j < k && j < g.out_edges(u).len() implies edge_relaxed(
        src,
        prevs.insert(v, entry),
        base,
        #[trigger] g.out_edges(u)[j],
    ) by {
        assert(edge_relaxed(src, prevs, base, g.out_edges(u)[j]));
    }
}

/// Once every edge that leaves a node has been relaxed for the cost of one
/// of its entries, the frontier can do without that entry.
pub proof fn lemma_expanded_can_leave<V: NodeVal>(
    g: &Graph<V>,
    src: NodeId,
    targets: Set<NodeId>,
    prevs: Prevs,
    open: Frontier,
    rest: Frontier,
    u: NodeId,
    c: usize,
)
    requires
        search_inv(g, src, targets, prevs, open),
        relaxed_upto(g, src, prevs, u, c as int, g.out_edges(u).len() as int),
        !targets.contains(u),
        rest.subset_of(open),
        open.remove((u, c)).subset_of(rest),
    ensures
        search_inv(g, src, targets, prevs, rest),
{
    assert forall|v: NodeId| prevs.contains_key(v) implies #[trigger] node_inv(
        g,
        src,
        targets,
        prevs,
        rest,
        v,
    ) by {
        assert(node_inv(g, src, targets, prevs, open, v));
        if open.contains((v, prevs[v].1)) && (v, prevs[v].1) != (u, c) {
            assert(open.remove((u, c)).contains((v, prevs[v].1)));
        }
    }
    assert forall|v: NodeId, cv: usize| #[trigger] rest.contains((v, cv)) implies entry_inv(
        g,
        src,
        prevs,
        v,
        cv,
    ) by {
        assert(open.contains((v, cv)));
    }
}

/// What is left to improve: the recorded costs of the first `n` nodes
/// together, a node that is not recorded counting for more than any cost.
pub open spec fn potential(prevs: Prevs, n: nat) -> nat
    decreases n,
{
    if n == 0 {
        0
    } else {
        potential(prevs, (n - 1) as nat) + (if prevs.contains_key((n - 1) as usize) {
            prevs[(n - 1) as usize].1 as nat
        } else {
            usize::MAX as nat + 1
        })
    }
}

/// Recording a cheaper way to one of the first `n` nodes lowers the potential.
pub proof fn lemma_potential_drops(prevs: Prevs, n: nat, v: NodeId, entry: (Option<NodeId>, usize))
    requires
        n <= usize::MAX,
        !prevs.contains_key(v) || entry.1 < prevs[v].1,
    ensures
        v < n ==> potential(prevs.insert(v, entry), n) < potential(prevs, n),
        v >= n ==> potential(prevs.insert(v, entry), n) == potential(prevs, n),
    decreases n,
{
    if n > 0 {
        lemma_potential_drops(prevs, (n - 1) as nat, v, entry);
    }
}

} // verus!
