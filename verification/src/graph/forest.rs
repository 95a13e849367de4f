//! Edges read without direction: which nodes a set of edges joins, and
//! when it holds no cycle.
use crate::graph::model::{Edge, NodeId};
use vstd::prelude::*;

verus! {

/// One of the edges joins `a` and `b`, in either direction.
pub open spec fn linked(edges: Seq<Edge>, a: NodeId, b: NodeId) -> bool {
    exists|i: int|
        0 <= i < edges.len() && ((#[trigger] edges[i]).src == a && edges[i].dst == b || edges[i].src
            == b && edges[i].dst == a)
}

/// Each node of `path` is joined to the next by one of the edges.
pub open spec fn is_chain(edges: Seq<Edge>, path: Seq<NodeId>) -> bool {
    forall|k: int| 0 <= k < path.len() - 1 ==> linked(edges, #[trigger] path[k], path[k + 1])
}

/// `path` leads from `a` to `b` along the edges.
pub open spec fn joins(edges: Seq<Edge>, a: NodeId, b: NodeId, path: Seq<NodeId>) -> bool {
    &&& path.len() > 0
    &&& path[0] == a
    &&& path.last() == b
    &&& is_chain(edges, path)
}

/// The edges join `a` and `b`: some path leads from one to the other.
pub open spec fn connected(edges: Seq<Edge>, a: NodeId, b: NodeId) -> bool {
    exists|path: Seq<NodeId>| #[trigger] joins(edges, a, b, path)
}

/// The edges hold no cycle: none of them joins two nodes that the edges
/// before it join already.
pub open spec fn acyclic(edges: Seq<Edge>) -> bool {
    forall|k: int|
        0 <= k < edges.len() ==> !connected(
            edges.take(k),
            (#[trigger] edges[k]).src,
            edges[k].dst,
        )
}

/// The total cost of the edges.
pub open spec fn total_cost(edges: Seq<Edge>) -> nat
    decreases edges.len(),
{
    if edges.len() == 0 {
        0
    } else {
        total_cost(edges.drop_last()) + edges.last().cost as nat
    }
}

/// Every node is joined to itself.
pub proof fn lemma_connected_refl(edges: Seq<Edge>, a: NodeId)
    ensures
        connected(edges, a, a),
{
    assert(joins(edges, a, a, seq![a]));
}

/// Two nodes that an edge joins are connected.
pub proof fn lemma_linked_connected(edges: Seq<Edge>, a: NodeId, b: NodeId)
    requires
        linked(edges, a, b),
    ensures
        connected(edges, a, b),
        connected(edges, b, a),
{
    let ab = seq![a, b];
    assert forall|k: int| 0 <= k < ab.len() - 1 implies linked(edges, #[trigger] ab[k], ab[k + 1]) by {
        assert(ab[0] == a && ab[1] == b);
    }
    assert(joins(edges, a, b, ab));
    let ba = seq![b, a];
    assert forall|k: int| 0 <= k < ba.len() - 1 implies linked(edges, #[trigger] ba[k], ba[k + 1]) by {
        assert(ba[0] == b && ba[1] == a);
    }
    assert(joins(edges, b, a, ba));
}

/// A path can be walked back.
pub proof fn lemma_connected_sym(edges: Seq<Edge>, a: NodeId, b: NodeId)
    requires
        connected(edges, a, b),
    ensures
        connected(edges, b, a),
{
    let path = choose|path: Seq<NodeId>| #[trigger] joins(edges, a, b, path);
    let back = path.reverse();
    assert forall|k: int| 0 <= k < back.len() - 1 implies linked(
        edges,
        #[trigger] back[k],
        back[k + 1],
    ) by {
        let j = path.len() - 2 - k;
        assert(linked(edges, path[j], path[j + 1]));
    }
    assert(joins(edges, b, a, back));
}

/// Two paths that meet make one.
pub proof fn lemma_connected_trans(edges: Seq<Edge>, a: NodeId, b: NodeId, c: NodeId)
    requires
        connected(edges, a, b),
        connected(edges, b, c),
    ensures
        connected(edges, a, c),
{
    let p = choose|path: Seq<NodeId>| #[trigger] joins(edges, a, b, path);
    let q = choose|path: Seq<NodeId>| #[trigger] joins(edges, b, c, path);
    let r = p + q.drop_first();
    assert forall|k: int| 0 <= k < r.len() - 1 implies linked(edges, #[trigger] r[k], r[k + 1]) by {
        if k < p.len() - 1 {
            assert(linked(edges, p[k], p[k + 1]));
        } else {
            let j = k - (p.len() - 1);
            assert(linked(edges, q[j], q[j + 1]));
        }
    }
    assert(joins(edges, a, c, r));
}

/// What more edges join, more edges join too.
pub proof fn lemma_connected_grows(edges: Seq<Edge>, more: Seq<Edge>, a: NodeId, b: NodeId)
    requires
        connected(edges, a, b),
        forall|i: int| 0 <= i < edges.len() ==> more.contains(#[trigger] edges[i]),
    ensures
        connected(more, a, b),
{
    let path = choose|path: Seq<NodeId>| #[trigger] joins(edges, a, b, path);
    assert forall|k: int| 0 <= k < path.len() - 1 implies linked(
        more,
        #[trigger] path[k],
        path[k + 1],
    ) by {
        assert(linked(edges, path[k], path[k + 1]));
        let i = choose|i: int|
            0 <= i < edges.len() && ((#[trigger] edges[i]).src == path[k] && edges[i].dst == path[k
                + 1] || edges[i].src == path[k + 1] && edges[i].dst == path[k]);
        assert(more.contains(edges[i]));
        let j = choose|j: int| 0 <= j < more.len() && more[j] == edges[i];
        assert(more[j].src == edges[i].src);
    }
    assert(joins(more, a, b, path));
}

/// What a path along the edges and one more edge `e` joins: the two ends
/// were joined before, or each was joined to another end of `e`.
proof fn lemma_path_through_new_edge(
    edges: Seq<Edge>,
    e: Edge,
    a: NodeId,
    b: NodeId,
    path: Seq<NodeId>,
)
    requires
        joins(edges.push(e), a, b, path),
    ensures
        connected(edges, a, b) || (connected(edges, a, e.src) && connected(edges, e.dst, b)) || (
        connected(edges, a, e.dst) && connected(edges, e.src, b)),
    decreases path.len(),
{
    let all = edges.push(e);
    if path.len() == 1 {
        lemma_connected_refl(edges, a);
    } else {
        let next = path[1];
        let rest = path.drop_first();
        assert forall|k: int| 0 <= k < rest.len() - 1 implies linked(
            all,
            #[trigger] rest[k],
            rest[k + 1],
        ) by {
            assert(linked(all, path[k + 1], path[k + 2]));
        }
        assert(joins(all, next, b, rest));
        lemma_path_through_new_edge(edges, e, next, b, rest);
        assert(linked(all, path[0], path[1]));
        let i = choose|i: int|
            0 <= i < all.len() && ((#[trigger] all[i]).src == a && all[i].dst == next || all[i].src
                == next && all[i].dst == a);
        lemma_connected_refl(edges, a);
        lemma_connected_refl(edges, next);
        if i < edges.len() {
            assert(edges[i] == all[i]);
            assert(linked(edges, a, next));
            lemma_linked_connected(edges, a, next);
            if connected(edges, next, b) {
                lemma_connected_trans(edges, a, next, b);
            } else if connected(edges, next, e.src) && connected(edges, e.dst, b) {
                lemma_connected_trans(edges, a, next, e.src);
            } else {
                lemma_connected_trans(edges, a, next, e.dst);
            }
        } else {
            assert(all[i] == e);
            // the step from `a` to `next` is the new edge
            let (near, far) = if e.src == a {
                (e.src, e.dst)
            } else {
                (e.dst, e.src)
            };
            assert(near == a && far == next);
            if connected(edges, next, b) {
            } else if connected(edges, next, e.src) && connected(edges, e.dst, b) {
                if far == e.dst {
                    lemma_connected_sym(edges, next, e.src);
                    assert(connected(edges, e.src, e.dst));
                    lemma_connected_trans(edges, e.src, e.dst, b);
                } else {
                }
            } else {
                if far == e.src {
                    lemma_connected_sym(edges, next, e.dst);
                    lemma_connected_trans(edges, e.dst, e.src, b);
                } else {
                }
            }
        }
    }
}

/// What one more edge joins: two nodes are joined by the edges and `e`
/// exactly if they were joined before, or each was joined to another end
/// of `e`.
pub proof fn lemma_connected_push(edges: Seq<Edge>, e: Edge, a: NodeId, b: NodeId)
    ensures
        connected(edges.push(e), a, b) <==> connected(edges, a, b) || (connected(edges, a, e.src)
            && connected(edges, e.dst, b)) || (connected(edges, a, e.dst) && connected(
            edges,
            e.src,
            b,
        )),
{
    let all = edges.push(e);
    assert forall|i: int| 0 <= i < edges.len() implies all.contains(#[trigger] edges[i]) by {
        assert(all[i] == edges[i]);
    }
    if connected(all, a, b) {
        let path = choose|path: Seq<NodeId>| #[trigger] joins(all, a, b, path);
        lemma_path_through_new_edge(edges, e, a, b, path);
    }
    assert(all[edges.len() as int] == e);
    assert(linked(all, e.src, e.dst));
    lemma_linked_connected(all, e.src, e.dst);
    if connected(edges, a, b) {
        lemma_connected_grows(edges, all, a, b);
    }
    if connected(edges, a, e.src) && connected(edges, e.dst, b) {
        lemma_connected_grows(edges, all, a, e.src);
        lemma_connected_grows(edges, all, e.dst, b);
        lemma_connected_trans(all, a, e.src, e.dst);
        lemma_connected_trans(all, a, e.dst, b);
    }
    if connected(edges, a, e.dst) && connected(edges, e.src, b) {
        lemma_connected_grows(edges, all, a, e.dst);
        lemma_connected_grows(edges, all, e.src, b);
        lemma_connected_trans(all, a, e.dst, e.src);
        lemma_connected_trans(all, a, e.src, b);
    }
}

/// A forest stays one when it gets an edge between two nodes that it does
/// not join.
pub proof fn lemma_acyclic_push(edges: Seq<Edge>, e: Edge)
    requires
        acyclic(edges),
        !connected(edges, e.src, e.dst),
    ensures
        acyclic(edges.push(e)),
{
    let all = edges.push(e);
    assert forall|k: int| 0 <= k < all.len() implies !connected(
        all.take(k),
        (#[trigger] all[k]).src,
        all[k].dst,
    ) by {
        if k < edges.len() {
            assert(all.take(k) =~= edges.take(k));
            assert(all[k] == edges[k]);
        } else {
            assert(all.take(k) =~= edges);
        }
    }
}

/// Every edge of `a` is among the edges of `b`.
pub open spec fn within(a: Seq<Edge>, b: Seq<Edge>) -> bool {
    forall|i: int| 0 <= i < a.len() ==> b.contains(#[trigger] a[i])
}

/// The edge `e` leads across the border of `s`: one of its ends is in `s`
/// and the other is not.
pub open spec fn crosses(s: Set<NodeId>, e: Edge) -> bool {
    s.contains(e.src) != s.contains(e.dst)
}

/// What is left when an edge is taken out is among the edges that were there,
/// and holds each of them but the one taken out.
pub proof fn lemma_remove_within(edges: Seq<Edge>, j: int)
    requires
        0 <= j < edges.len(),
    ensures
        within(edges.remove(j), edges),
        within(edges, edges.remove(j).push(edges[j])),
        within(edges.remove(j).push(edges[j]), edges),
        forall|e: Edge| edges.contains(e) && e != edges[j] ==> #[trigger] edges.remove(j).contains(e),
{
    let rest = edges.remove(j);
    assert forall|i: int| 0 <= i < rest.len() implies edges.contains(#[trigger] rest[i]) by {
        if i < j {
            assert(edges[i] == rest[i]);
        } else {
            assert(edges[i + 1] == rest[i]);
        }
    }
    assert forall|e: Edge| edges.contains(e) && e != edges[j] implies #[trigger] rest.contains(
        e,
    ) by {
        let i = choose|i: int| 0 <= i < edges.len() && edges[i] == e;
        if i < j {
            assert(rest[i] == e);
        } else {
            assert(rest[i - 1] == e);
        }
    }
    let back = rest.push(edges[j]);
    assert forall|i: int| 0 <= i < edges.len() implies back.contains(#[trigger] edges[i]) by {
        if edges[i] == edges[j] {
            assert(back[rest.len() as int] == edges[j]);
        } else {
            assert(rest.contains(edges[i]));
            let k = choose|k: int| 0 <= k < rest.len() && rest[k] == edges[i];
            assert(back[k] == edges[i]);
        }
    }
    assert forall|i: int| 0 <= i < back.len() implies edges.contains(#[trigger] back[i]) by {
        if i < rest.len() {
            assert(back[i] == rest[i]);
            assert(edges.contains(rest[i]));
        }
    }
}

/// A forest stays one when an edge is taken out.
pub proof fn lemma_acyclic_remove(edges: Seq<Edge>, j: int)
    requires
        acyclic(edges),
        0 <= j < edges.len(),
    ensures
        acyclic(edges.remove(j)),
{
    let rest = edges.remove(j);
    assert forall|k: int| 0 <= k < rest.len() implies !connected(
        rest.take(k),
        (#[trigger] rest[k]).src,
        rest[k].dst,
    ) by {
        let at = if k < j {
            k
        } else {
            k + 1
        };
        assert(rest[k] == edges[at]);
        if connected(rest.take(k), rest[k].src, rest[k].dst) {
            assert forall|i: int| 0 <= i < rest.take(k).len() implies edges.take(at).contains(
                #[trigger] rest.take(k)[i],
            ) by {
                if i < j {
                    assert(edges.take(at)[i] == rest[i]);
                } else {
                    assert(edges.take(at)[i + 1] == rest[i]);
                }
            }
            lemma_connected_grows(rest.take(k), edges.take(at), rest[k].src, rest[k].dst);
            assert(!connected(edges.take(at), edges[at].src, edges[at].dst));
        }
    }
}

/// In a forest no edge joins two nodes that the other edges join.
pub proof fn lemma_no_edge_is_spare(edges: Seq<Edge>, k: int)
    requires
        acyclic(edges),
        0 <= k < edges.len(),
    ensures
        !connected(edges.remove(k), edges[k].src, edges[k].dst),
    decreases edges.len(),
{
    let last = edges.last();
    let init = edges.drop_last();
    assert(edges.take(edges.len() - 1) =~= init);
    assert(!connected(init, last.src, last.dst));
    if k == edges.len() - 1 {
        assert(edges.remove(k) =~= init);
    } else {
        assert(acyclic(init)) by {
            assert forall|i: int| 0 <= i < init.len() implies !connected(
                init.take(i),
                (#[trigger] init[i]).src,
                init[i].dst,
            ) by {
                assert(init.take(i) =~= edges.take(i));
                assert(init[i] == edges[i]);
            }
        }
        lemma_no_edge_is_spare(init, k);
        let rest = init.remove(k);
        let cut = edges[k];
        assert(edges.remove(k) =~= rest.push(last));
        if connected(rest.push(last), cut.src, cut.dst) {
            lemma_connected_push(rest, last, cut.src, cut.dst);
            lemma_remove_within(init, k);
            // the other edges and `cut` would join the ends of the last edge
            let all = rest.push(cut);
            assert(all[rest.len() as int] == cut);
            assert(linked(all, cut.src, cut.dst));
            lemma_linked_connected(all, cut.src, cut.dst);
            assert(within(rest, all)) by {
                assert forall|i: int| 0 <= i < rest.len() implies all.contains(
                    #[trigger] rest[i],
                ) by {
                    assert(all[i] == rest[i]);
                }
            }
            if connected(rest, cut.src, last.src) && connected(rest, last.dst, cut.dst) {
                lemma_connected_grows(rest, all, cut.src, last.src);
                lemma_connected_grows(rest, all, last.dst, cut.dst);
                lemma_connected_sym(all, cut.src, last.src);
                lemma_connected_trans(all, last.src, cut.src, cut.dst);
                lemma_connected_sym(all, last.dst, cut.dst);
                lemma_connected_trans(all, last.src, cut.dst, last.dst);
            } else {
                lemma_connected_grows(rest, all, cut.src, last.dst);
                lemma_connected_grows(rest, all, last.src, cut.dst);
                lemma_connected_trans(all, last.src, cut.dst, cut.src);
                lemma_connected_trans(all, last.src, cut.src, last.dst);
            }
            lemma_connected_grows(all, init, last.src, last.dst);
        }
    }
}

/// A path that leaves `s` goes along an edge that crosses the border of `s`.
pub proof fn lemma_path_crosses(
    edges: Seq<Edge>,
    s: Set<NodeId>,
    a: NodeId,
    b: NodeId,
    path: Seq<NodeId>,
)
    requires
        joins(edges, a, b, path),
        s.contains(a),
        !s.contains(b),
    ensures
        exists|i: int| 0 <= i < edges.len() && crosses(s, #[trigger] edges[i]),
    decreases path.len(),
{
    assert(path.len() > 1);
    let next = path[1];
    assert(linked(edges, path[0], path[1]));
    if s.contains(next) {
        let rest = path.drop_first();
        assert forall|k: int| 0 <= k < rest.len() - 1 implies linked(
            edges,
            #[trigger] rest[k],
            rest[k + 1],
        ) by {
            assert(linked(edges, path[k + 1], path[k + 2]));
        }
        assert(joins(edges, next, b, rest));
        lemma_path_crosses(edges, s, next, b, rest);
    } else {
        let i = choose|i: int|
            0 <= i < edges.len() && ((#[trigger] edges[i]).src == a && edges[i].dst == next
                || edges[i].src == next && edges[i].dst == a);
        assert(crosses(s, edges[i]));
    }
}

/// A forest holds no edge twice.
pub proof fn lemma_acyclic_no_duplicates(edges: Seq<Edge>)
    requires
        acyclic(edges),
    ensures
        edges.no_duplicates(),
{
    assert forall|i: int, k: int| 0 <= i < edges.len() && 0 <= k < edges.len() && i != k implies edges[i]
        != edges[k] by {
        let (lo, hi) = if i < k {
            (i, k)
        } else {
            (k, i)
        };
        if edges[lo] == edges[hi] {
            let part = edges.take(hi);
            assert(part[lo] == edges[lo]);
            assert(linked(part, edges[hi].src, edges[hi].dst));
            lemma_linked_connected(part, edges[hi].src, edges[hi].dst);
            assert(!connected(part, edges[hi].src, edges[hi].dst));
        }
    }
}

/// Without a second edge, a forest holds what is left without both edges,
/// and the first.
pub proof fn lemma_without_two(edges: Seq<Edge>, j: int, j2: int)
    requires
        acyclic(edges),
        0 <= j < edges.len(),
        0 <= j2 < edges.len() - 1,
    ensures
        within(
            edges.remove(if j2 < j {
                j2
            } else {
                j2 + 1
            }),
            edges.remove(j).remove(j2).push(edges[j]),
        ),
{
    let at = if j2 < j {
        j2
    } else {
        j2 + 1
    };
    let rest = edges.remove(j);
    let both = rest.remove(j2);
    let g = edges[j];
    let f = rest[j2];
    assert(edges[at] == f);
    lemma_acyclic_no_duplicates(edges);
    lemma_remove_within(edges, j);
    lemma_remove_within(edges, at);
    lemma_remove_within(rest, j2);
    let target = both.push(g);
    assert forall|i: int| 0 <= i < edges.remove(at).len() implies target.contains(
        #[trigger] edges.remove(at)[i],
    ) by {
        let e = edges.remove(at)[i];
        assert(edges.contains(e));
        let w = if i < at {
            i
        } else {
            i + 1
        };
        assert(edges[w] == e);
        assert(e != f);
        if e == g {
            assert(target[both.len() as int] == g);
        } else {
            assert(rest.contains(e));
            assert(both.contains(e));
            let b = choose|b: int| 0 <= b < both.len() && both[b] == e;
            assert(target[b] == e);
        }
    }
}

/// Two nodes that the edges do not join, but join with the edge `f` and
/// join with the edge `g`: then the edges with `f` join the ends of `g`.
pub proof fn lemma_two_bridges(edges: Seq<Edge>, f: Edge, g: Edge, u: NodeId, v: NodeId)
    requires
        !connected(edges, u, v),
        connected(edges.push(f), u, v),
        connected(edges.push(g), u, v),
    ensures
        connected(edges.push(f), g.src, g.dst),
{
    let with_f = edges.push(f);
    lemma_connected_push(edges, f, u, v);
    lemma_connected_push(edges, g, u, v);
    assert(within(edges, with_f)) by {
        assert forall|i: int| 0 <= i < edges.len() implies with_f.contains(#[trigger] edges[i]) by {
            assert(with_f[i] == edges[i]);
        }
    }
    assert(with_f[edges.len() as int] == f);
    assert(linked(with_f, f.src, f.dst));
    lemma_linked_connected(with_f, f.src, f.dst);
    // from one end of `g` to `u`, over `f` to `v`, and on to the other end
    let (near, far) = if connected(edges, u, g.src) && connected(edges, g.dst, v) {
        (g.src, g.dst)
    } else {
        (g.dst, g.src)
    };
    assert(connected(edges, u, near) && connected(edges, far, v));
    lemma_connected_grows(edges, with_f, u, near);
    lemma_connected_grows(edges, with_f, far, v);
    lemma_connected_sym(with_f, u, near);
    lemma_connected_sym(with_f, far, v);
    if connected(edges, u, f.src) && connected(edges, f.dst, v) {
        lemma_connected_grows(edges, with_f, u, f.src);
        lemma_connected_grows(edges, with_f, f.dst, v);
        lemma_connected_trans(with_f, near, u, f.src);
        lemma_connected_trans(with_f, near, f.src, f.dst);
        lemma_connected_trans(with_f, near, f.dst, v);
    } else {
        lemma_connected_grows(edges, with_f, u, f.dst);
        lemma_connected_grows(edges, with_f, f.src, v);
        lemma_connected_trans(with_f, near, u, f.dst);
        lemma_connected_trans(with_f, near, f.dst, f.src);
        lemma_connected_trans(with_f, near, f.src, v);
    }
    lemma_connected_trans(with_f, near, v, far);
    if near == g.dst {
        lemma_connected_sym(with_f, near, far);
    }
}

/// In a forest that joins a node in `s` and a node outside, one of the
/// edges across the border of `s` is one without which the two are not joined.
pub proof fn lemma_crossing_bridge(edges: Seq<Edge>, s: Set<NodeId>, u: NodeId, v: NodeId)
    requires
        acyclic(edges),
        connected(edges, u, v),
        s.contains(u),
        !s.contains(v),
    ensures
        exists|j: int|
            0 <= j < edges.len() && crosses(s, #[trigger] edges[j]) && !connected(
                edges.remove(j),
                u,
                v,
            ),
    decreases edges.len(),
{
    let path = choose|path: Seq<NodeId>| #[trigger] joins(edges, u, v, path);
    lemma_path_crosses(edges, s, u, v, path);
    let j = choose|j: int| 0 <= j < edges.len() && crosses(s, #[trigger] edges[j]);
    let g = edges[j];
    let rest = edges.remove(j);
    if connected(rest, u, v) {
        lemma_acyclic_remove(edges, j);
        lemma_crossing_bridge(rest, s, u, v);
        let j2 = choose|j2: int|
            0 <= j2 < rest.len() && crosses(s, #[trigger] rest[j2]) && !connected(
                rest.remove(j2),
                u,
                v,
            );
        let f = rest[j2];
        let at = if j2 < j {
            j2
        } else {
            j2 + 1
        };
        assert(edges[at] == f);
        let both = rest.remove(j2);
        if connected(edges.remove(at), u, v) {
            lemma_without_two(edges, j, j2);
            lemma_remove_within(rest, j2);
            lemma_connected_grows(edges.remove(at), both.push(g), u, v);
            lemma_connected_grows(rest, both.push(f), u, v);
            lemma_two_bridges(both, f, g, u, v);
            lemma_connected_grows(both.push(f), rest, g.src, g.dst);
            lemma_no_edge_is_spare(edges, j);
        }
        assert(crosses(s, edges[at]) && !connected(edges.remove(at), u, v));
    }
}

/// Where the edges with `f` join what the edges alone do not, the edge `e`
/// between two such nodes serves in place of `f`.
pub proof fn lemma_edge_in_place(edges: Seq<Edge>, f: Edge, e: Edge, a: NodeId, b: NodeId)
    requires
        connected(edges.push(f), a, b),
        connected(edges.push(f), e.src, e.dst),
        !connected(edges, e.src, e.dst),
    ensures
        connected(edges.push(e), a, b),
{
    let with_e = edges.push(e);
    lemma_connected_push(edges, e, a, b);
    if !connected(edges, a, b) {
        lemma_connected_refl(edges, e.src);
        lemma_connected_refl(edges, e.dst);
        lemma_connected_push(edges, e, e.src, e.dst);
        lemma_two_bridges(edges, e, f, e.src, e.dst);
        // the edges with `e` join the ends of `f`
        lemma_connected_push(edges, f, a, b);
        assert(within(edges, with_e)) by {
            assert forall|i: int| 0 <= i < edges.len() implies with_e.contains(
                #[trigger] edges[i],
            ) by {
                assert(with_e[i] == edges[i]);
            }
        }
        if connected(edges, a, f.src) && connected(edges, f.dst, b) {
            lemma_connected_grows(edges, with_e, a, f.src);
            lemma_connected_grows(edges, with_e, f.dst, b);
            lemma_connected_trans(with_e, a, f.src, f.dst);
            lemma_connected_trans(with_e, a, f.dst, b);
        } else {
            lemma_connected_grows(edges, with_e, a, f.dst);
            lemma_connected_grows(edges, with_e, f.src, b);
            lemma_connected_sym(with_e, f.src, f.dst);
            lemma_connected_trans(with_e, a, f.dst, f.src);
            lemma_connected_trans(with_e, a, f.src, b);
        }
    }
}

/// The cost of the edges without one of them.
pub proof fn lemma_total_cost_remove(edges: Seq<Edge>, j: int)
    requires
        0 <= j < edges.len(),
    ensures
        total_cost(edges) == total_cost(edges.remove(j)) + edges[j].cost,
    decreases edges.len(),
{
    if j == edges.len() - 1 {
        assert(edges.remove(j) =~= edges.drop_last());
    } else {
        lemma_total_cost_remove(edges.drop_last(), j);
        assert(edges.remove(j).drop_last() =~= edges.drop_last().remove(j));
        assert(edges.remove(j).last() == edges.last());
    }
}

/// Edges that are all different and all among the edges of `b` cost no
/// more together than the edges of `b`.
pub proof fn lemma_total_cost_within(a: Seq<Edge>, b: Seq<Edge>)
    requires
        a.no_duplicates(),
        within(a, b),
    ensures
        total_cost(a) <= total_cost(b),
    decreases a.len(),
{
    if a.len() > 0 {
        let last = a.last();
        let init = a.drop_last();
        assert(b.contains(a[a.len() - 1]));
        let j = choose|j: int| 0 <= j < b.len() && b[j] == last;
        lemma_remove_within(b, j);
        assert forall|i: int| 0 <= i < init.len() implies b.remove(j).contains(
            #[trigger] init[i],
        ) by {
            assert(init[i] == a[i]);
            assert(b.contains(a[i]));
            assert(a[i] != a[a.len() - 1]);
        }
        lemma_total_cost_within(init, b.remove(j));
        lemma_total_cost_remove(b, j);
    }
}

} // verus!
