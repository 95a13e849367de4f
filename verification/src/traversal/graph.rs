//! A directed graph kept as a list of edges, and the search over it that
//! the traversals share.
use crate::sets::{below, lemma_below_len};
use std::collections::{HashSet, VecDeque};
use vstd::prelude::*;

verus! {

/// A node with its value.
pub struct Node(pub usize);

/// The index of a node.
pub type NodeId = usize;

/// An edge from the first node to the second.
pub type Edge = (NodeId, NodeId);

/// The nodes and the edges between them.
pub struct Graph {
    pub nodes: Vec<Node>,
    pub edges: Vec<Edge>,
}

/// The ends of the edges of `edges` that leave `node`, in the order of the
/// edges.
pub open spec fn neighbours_of(edges: Seq<Edge>, node: NodeId) -> Seq<NodeId>
    decreases edges.len(),
{
    if edges.len() == 0 {
        Seq::empty()
    } else if edges.last().0 == node {
        neighbours_of(edges.drop_last(), node).push(edges.last().1)
    } else {
        neighbours_of(edges.drop_last(), node)
    }
}

/// The neighbours of a node are the ends of the edges that leave it.
pub proof fn lemma_neighbours_are_ends(edges: Seq<Edge>, node: NodeId, v: NodeId)
    ensures
        neighbours_of(edges, node).contains(v) <==> edges.contains((node, v)),
    decreases edges.len(),
{
    if edges.len() > 0 {
        let init = edges.drop_last();
        lemma_neighbours_are_ends(init, node, v);
        let found = neighbours_of(edges, node);
        if found.contains(v) {
            let i = choose|i: int| 0 <= i < found.len() && found[i] == v;
            if edges.last().0 == node && i == found.len() - 1 {
                assert(edges[edges.len() - 1] == (node, v));
            } else {
                assert(neighbours_of(init, node)[i] == v);
                let k = choose|k: int| 0 <= k < init.len() && init[k] == (node, v);
                assert(edges[k] == (node, v));
            }
        }
        if edges.contains((node, v)) {
            let k = choose|k: int| 0 <= k < edges.len() && edges[k] == (node, v);
            if k == edges.len() - 1 {
                assert(found[found.len() - 1] == v);
            } else {
                assert(init[k] == (node, v));
                let i = choose|i: int|
                    0 <= i < neighbours_of(init, node).len() && neighbours_of(init, node)[i] == v;
                assert(found[i] == v);
            }
        }
    }
}

impl Graph {
    /// Every edge ends in a node of the graph.
    pub open spec fn wf(&self) -> bool {
        forall|i: int| 0 <= i < self.edges@.len() ==> (#[trigger] self.edges@[i]).1 < self.nodes@.len()
    }

    /// The value of the node `v`.
    pub open spec fn value(&self, v: NodeId) -> usize {
        self.nodes@[v as int].0
    }

    /// An edge leads from the node at `k` of `path` to the next one.
    pub open spec fn step_at(&self, path: Seq<NodeId>, k: int) -> bool {
        self.edges@.contains((path[k], path[k + 1]))
    }

    /// `path` leads from `a` to `b` along the edges.
    pub open spec fn leads(&self, a: NodeId, b: NodeId, path: Seq<NodeId>) -> bool {
        &&& path.len() > 0
        &&& path[0] == a
        &&& path.last() == b
        &&& forall|k: int| 0 <= k < path.len() - 1 ==> #[trigger] self.step_at(path, k)
    }

    /// Some path leads from `a` to `b` along the edges.
    pub open spec fn reachable(&self, a: NodeId, b: NodeId) -> bool {
        exists|path: Seq<NodeId>| #[trigger] self.leads(a, b, path)
    }

    /// The nodes that the edges from `node_id` lead to, in the order of the
    /// edges.
    pub fn neighbours(&self, node_id: NodeId) -> (found: Vec<NodeId>)
        ensures
            found@ == neighbours_of(self.edges@, node_id),
    {
        let mut found: Vec<NodeId> = Vec::new();
        let mut i: usize = 0;
        while i < self.edges.len()
            invariant
                i <= self.edges@.len(),
                found@ == neighbours_of(self.edges@.take(i as int), node_id),
            decreases self.edges@.len() - i,
        {
            let (from, to) = self.edges[i];
            proof {
                assert(self.edges@.take(i + 1).drop_last() =~= self.edges@.take(i as int));
            }
            if from == node_id {
                found.push(to);
            }
            i += 1;
        }
        proof {
            assert(self.edges@.take(i as int) =~= self.edges@);
        }
        found
    }
}

/// A node reached goes on to be reached along an edge.
pub proof fn lemma_reachable_step(g: &Graph, a: NodeId, b: NodeId, c: NodeId)
    requires
        g.reachable(a, b),
        g.edges@.contains((b, c)),
    ensures
        g.reachable(a, c),
{
    let path = choose|path: Seq<NodeId>| #[trigger] g.leads(a, b, path);
    let longer = path.push(c);
    assert forall|k: int| 0 <= k < longer.len() - 1 implies #[trigger] g.step_at(longer, k) by {
        if k < path.len() - 1 {
            assert(g.step_at(path, k));
        }
    }
    assert(g.leads(a, c, longer));
}

/// A set of nodes that holds `a` and the end of every edge that leaves one
/// of its nodes holds every node that can be reached from `a`.
pub proof fn lemma_closed_holds_reachable(
    g: &Graph,
    nodes: Set<NodeId>,
    a: NodeId,
    b: NodeId,
    path: Seq<NodeId>,
)
    requires
        nodes.contains(a),
        forall|u: NodeId, v: NodeId|
            nodes.contains(u) && #[trigger] g.edges@.contains((u, v)) ==> nodes.contains(v),
        g.leads(a, b, path),
    ensures
        nodes.contains(b),
    decreases path.len(),
{
    if path.len() > 1 {
        let init = path.drop_last();
        assert forall|k: int| 0 <= k < init.len() - 1 implies #[trigger] g.step_at(init, k) by {
            assert(g.step_at(path, k));
        }
        assert(g.leads(a, init.last(), init));
        lemma_closed_holds_reachable(g, nodes, a, init.last(), init);
        assert(g.step_at(path, path.len() - 2));
    }
}

/// The nodes of `order` were visited in that order by a search from `root`
/// for a node of value `wanted`, `path` holds their values, and `found` is
/// what the search came to: every node visited can be reached from `root`,
/// none is visited twice, and none but the last has the value; either the
/// last one has the value and is `found`, or nothing is found, and then
/// every node that can be reached from `root` was visited.
pub open spec fn visited_in_order(
    g: &Graph,
    root: NodeId,
    wanted: usize,
    order: Seq<NodeId>,
    path: Seq<NodeId>,
    found: Option<NodeId>,
) -> bool {
    &&& order.len() > 0
    &&& order[0] == root
    &&& order.no_duplicates()
    &&& path.len() == order.len()
    &&& forall|i: int|
        0 <= i < order.len() ==> (#[trigger] order[i]) < g.nodes@.len() && g.reachable(
            root,
            order[i],
        ) && path[i] == g.value(order[i])
    &&& forall|i: int| 0 <= i < order.len() - 1 ==> g.value(#[trigger] order[i]) != wanted
    &&& match found {
        Some(id) => order.last() == id && g.value(id) == wanted,
        None => g.value(order.last()) != wanted && forall|v: NodeId| #[trigger]
            g.reachable(root, v) ==> order.contains(v),
    }
}

/// What a search from `root` for a node of value `wanted` returns: the
/// values of the nodes it visited, in the order of the visits, and the node
/// found.
pub open spec fn search_result(
    g: &Graph,
    root: NodeId,
    wanted: usize,
    path: Seq<NodeId>,
    found: Option<NodeId>,
) -> bool {
    exists|order: Seq<NodeId>| #[trigger] visited_in_order(g, root, wanted, order, path, found)
}

/// The node `v` has been visited or waits in the line.
pub open spec fn met(order: Seq<NodeId>, queue: Seq<NodeId>, v: NodeId) -> bool {
    order.contains(v) || queue.contains(v)
}

/// The place among `count` neighbours of the one that is looked at in the
/// step `j`: going depth first, the last neighbour comes first.
pub open spec fn slot(depth_first: bool, count: int, j: int) -> int {
    if depth_first {
        count - 1 - j
    } else {
        j
    }
}

/// Searches from `root_id` for a node of the value of `target`. The nodes
/// wait in a line: the one at its head is visited next, and its neighbours
/// that were not met before join the line, at its end or, going depth
/// first, at its head.
pub fn search(graph: &Graph, root_id: NodeId, target: &Node, depth_first: bool) -> (result: (
    Vec<NodeId>,
    Option<NodeId>,
))
    requires
        graph.wf(),
        root_id < graph.nodes@.len(),
    ensures
        search_result(graph, root_id, target.0, result.0@, result.1),
{
    let mut path: Vec<NodeId> = Vec::new();
    let mut visited: HashSet<NodeId> = HashSet::new();
    let mut queue: VecDeque<NodeId> = VecDeque::new();
    let n = graph.nodes.len();
    let ghost mut order: Seq<NodeId> = Seq::empty();
    queue.push_back(root_id);
    visited.insert(root_id);
    proof {
        lemma_below_len(n as nat);
        assert(graph.leads(root_id, root_id, seq![root_id]));
        assert(queue@[0] == root_id);
    }
    loop
        invariant
            graph.wf(),
            n == graph.nodes@.len(),
            root_id < n,
            below(n as nat).finite(),
            below(n as nat).len() == n,
            visited@.finite(),
            visited@.subset_of(below(n as nat)),
            path@.len() == order.len(),
            order.no_duplicates(),
            queue@.no_duplicates(),
            order.len() == 0 ==> queue@.len() == 1 && queue@[0] == root_id,
            order.len() > 0 ==> order[0] == root_id,
            forall|v: NodeId|
                #![trigger visited@.contains(v)]
                #![trigger met(order, queue@, v)]
                visited@.contains(v) <==> met(order, queue@, v),
            forall|i: int, j: int|
                0 <= i < order.len() && 0 <= j < queue@.len() ==> order[i] != queue@[j],
            forall|j: int| 0 <= j < queue@.len() ==> graph.reachable(root_id, #[trigger] queue@[j]),
            forall|i: int|
                0 <= i < order.len() ==> (#[trigger] order[i]) < n && graph.reachable(
                    root_id,
                    order[i],
                ) && path@[i] == graph.value(order[i]) && graph.value(order[i]) != target.0,
            forall|i: int, v: NodeId|
                0 <= i < order.len() && #[trigger] graph.edges@.contains((order[i], v))
                    ==> visited@.contains(v),
        ensures
            search_result(graph, root_id, target.0, path@, None),
        decreases n - visited@.len(), queue@.len(),
    {
        let ghost queue_before = queue@;
        let ghost visited_before = visited@;
        proof {
            vstd::set_lib::lemma_len_subset(visited@, below(n as nat));
        }
        let node_id = match queue.pop_front() {
            Some(node_id) => node_id,
            None => {
                proof {
                    assert(order.len() > 0);
                    assert forall|v: NodeId| #[trigger]
                        graph.reachable(root_id, v) implies order.contains(v) by {
                        let along = choose|along: Seq<NodeId>| #[trigger]
                            graph.leads(root_id, v, along);
                        assert(order.contains(order[0]));
                        assert(met(order, queue@, root_id));
                        assert forall|a: NodeId, b: NodeId|
                            visited@.contains(a) && #[trigger] graph.edges@.contains(
                                (a, b),
                            ) implies visited@.contains(b) by {
                            assert(met(order, queue@, a));
                            let i = choose|i: int| 0 <= i < order.len() && order[i] == a;
                            assert(graph.edges@.contains((order[i], b)));
                        }
                        lemma_closed_holds_reachable(graph, visited@, root_id, v, along);
                        assert(met(order, queue@, v));
                    }
                    assert(visited_in_order(graph, root_id, target.0, order, path@, None));
                }
                break ;
            },
        };
        proof {
            assert(queue_before[0] == node_id);
            assert(queue_before.contains(node_id));
            assert(met(order, queue_before, node_id));
            assert(visited@.contains(node_id));
            assert(graph.reachable(root_id, queue_before[0]));
            assert forall|j: int| 0 <= j < queue@.len() implies queue@[j] == queue_before[j + 1] by {}
        }
        let node = &graph.nodes[node_id];
        path.push(node.0);
        let ghost order_before = order;
        proof {
            order = order.push(node_id);
            assert(order.no_duplicates()) by {
                assert forall|i: int, j: int|
                    0 <= i < order.len() && 0 <= j < order.len() && i != j implies order[i]
                    != order[j] by {
                    if i < order_before.len() && j < order_before.len() {
                        assert(order_before[i] != order_before[j]);
                    } else if i < order_before.len() {
                        assert(order_before[i] != queue_before[0]);
                    } else if j < order_before.len() {
                        assert(order_before[j] != queue_before[0]);
                    }
                }
            }
        }
        if node.0 == target.0 {
            proof {
                assert forall|i: int| 0 <= i < order.len() implies (#[trigger] order[i]) < n
                    && graph.reachable(root_id, order[i]) && path@[i] == graph.value(order[i]) by {
                    if i < order_before.len() {
                        assert(order_before[i] == order[i]);
                    }
                }
                assert forall|i: int| 0 <= i < order.len() - 1 implies graph.value(
                    #[trigger] order[i],
                ) != target.0 by {
                    assert(order_before[i] == order[i]);
                }
                assert(visited_in_order(graph, root_id, target.0, order, path@, Some(node_id)));
            }
            return (path, Some(node_id));
        }
        let found = graph.neighbours(node_id);
        let count = found.len();
        let mut k: usize = 0;
        proof {
            assert forall|v: NodeId| visited@.contains(v) <==> met(order, queue@, v) by {
                assert(visited@.contains(v) <==> met(order_before, queue_before, v));
                if order_before.contains(v) {
                    let i = choose|i: int| 0 <= i < order_before.len() && order_before[i] == v;
                    assert(order[i] == v);
                }
                if queue_before.contains(v) && v != node_id {
                    let j = choose|j: int| 0 <= j < queue_before.len() && queue_before[j] == v;
                    assert(queue@[j - 1] == v);
                }
                if v == node_id {
                    assert(order[order.len() - 1] == v);
                }
                if order.contains(v) && !order_before.contains(v) {
                    let i = choose|i: int| 0 <= i < order.len() && order[i] == v;
                    if i < order_before.len() {
                        assert(order_before[i] == v);
                    }
                }
                if queue@.contains(v) {
                    let j = choose|j: int| 0 <= j < queue@.len() && queue@[j] == v;
                    assert(queue_before[j + 1] == v);
                }
            }
        }
        while k < count
            invariant
                graph.wf(),
                n == graph.nodes@.len(),
                root_id < n,
                node_id < n,
                count == found@.len(),
                k <= count,
                found@ == neighbours_of(graph.edges@, node_id),
                graph.reachable(root_id, node_id),
                below(n as nat).finite(),
                below(n as nat).len() == n,
                visited@.finite(),
                visited@.subset_of(below(n as nat)),
                visited_before.subset_of(visited@),
                visited@.len() > visited_before.len() || (visited@ == visited_before && queue@.len()
                    < queue_before.len()),
                order == order_before.push(node_id),
                order.no_duplicates(),
                queue@.no_duplicates(),
                forall|v: NodeId|
                #![trigger visited@.contains(v)]
                #![trigger met(order, queue@, v)]
                visited@.contains(v) <==> met(order, queue@, v),
                forall|i: int, j: int|
                    0 <= i < order.len() && 0 <= j < queue@.len() ==> order[i] != queue@[j],
                forall|j: int|
                    0 <= j < queue@.len() ==> graph.reachable(root_id, #[trigger] queue@[j]),
                forall|i: int, v: NodeId|
                    0 <= i < order_before.len() && #[trigger] graph.edges@.contains(
                        (order_before[i], v),
                    ) ==> visited@.contains(v),
                forall|j: int|
                    0 <= j < k ==> visited@.contains(
                        found@[#[trigger] slot(depth_first, count as int, j)],
                    ),
            decreases count - k,
        {
            let at = if depth_first {
                count - 1 - k
            } else {
                k
            };
            let neighbour = found[at];
            assert(at == slot(depth_first, count as int, k as int));
            let ghost queue_mid = queue@;
            let ghost visited_mid = visited@;
            proof {
                assert(found@.contains(neighbour));
                lemma_neighbours_are_ends(graph.edges@, node_id, neighbour);
                let e = choose|e: int|
                    0 <= e < graph.edges@.len() && graph.edges@[e] == (node_id, neighbour);
                assert(graph.edges@[e].1 < n);
                lemma_reachable_step(graph, root_id, node_id, neighbour);
                vstd::set_lib::lemma_len_subset(visited@, below(n as nat));
            }
            if visited.insert(neighbour) {
                if depth_first {
                    queue.push_front(neighbour);
                } else {
                    queue.push_back(neighbour);
                }
                proof {
                    assert(!met(order, queue_mid, neighbour));
                    assert(!queue_mid.contains(neighbour));
                    assert(!order.contains(neighbour));
                    assert forall|v: NodeId| queue@.contains(v) <==> queue_mid.contains(v) || v
                        == neighbour by {
                        if queue@.contains(v) {
                            let j = choose|j: int| 0 <= j < queue@.len() && queue@[j] == v;
                            if depth_first {
                                if j > 0 {
                                    assert(queue_mid[j - 1] == v);
                                }
                            } else {
                                if j < queue_mid.len() {
                                    assert(queue_mid[j] == v);
                                }
                            }
                        }
                        if queue_mid.contains(v) {
                            let j = choose|j: int| 0 <= j < queue_mid.len() && queue_mid[j] == v;
                            if depth_first {
                                assert(queue@[j + 1] == v);
                            } else {
                                assert(queue@[j] == v);
                            }
                        }
                        if v == neighbour {
                            if depth_first {
                                assert(queue@[0] == v);
                            } else {
                                assert(queue@[queue_mid.len() as int] == v);
                            }
                        }
                    }
                    assert forall|v: NodeId| visited@.contains(v) <==> met(order, queue@, v) by {
                        assert(visited_mid.contains(v) <==> met(order, queue_mid, v));
                    }
                    assert(queue@.no_duplicates()) by {
                        assert forall|i: int, j: int|
                            0 <= i < queue@.len() && 0 <= j < queue@.len() && i
                                != j implies queue@[i] != queue@[j] by {
                            if depth_first {
                                if i > 0 && j > 0 {
                                    assert(queue_mid[i - 1] != queue_mid[j - 1]);
                                } else if i > 0 {
                                    assert(queue_mid.contains(queue_mid[i - 1]));
                                } else {
                                    assert(queue_mid.contains(queue_mid[j - 1]));
                                }
                            } else {
                                if i < queue_mid.len() && j < queue_mid.len() {
                                    assert(queue_mid[i] != queue_mid[j]);
                                } else if i < queue_mid.len() {
                                    assert(queue_mid.contains(queue_mid[i]));
                                } else {
                                    assert(queue_mid.contains(queue_mid[j]));
                                }
                            }
                        }
                    }
                    assert forall|j: int| 0 <= j < queue@.len() implies graph.reachable(
                        root_id,
                        #[trigger] queue@[j],
                    ) by {
                        assert(queue@.contains(queue@[j]));
                        if queue@[j] != neighbour {
                            let b = choose|b: int|
                                0 <= b < queue_mid.len() && queue_mid[b] == queue@[j];
                            assert(graph.reachable(root_id, queue_mid[b]));
                        }
                    }
                    assert forall|i: int, j: int|
                        0 <= i < order.len() && 0 <= j < queue@.len() implies order[i]
                        != queue@[j] by {
                        assert(queue@.contains(queue@[j]));
                        assert(order.contains(order[i]));
                        if queue@[j] != neighbour {
                            let b = choose|b: int|
                                0 <= b < queue_mid.len() && queue_mid[b] == queue@[j];
                            assert(order[i] != queue_mid[b]);
                        }
                    }
                }
            } else {
                proof {
                    assert(visited@ =~= visited_mid);
                }
            }
            k += 1;
        }
        proof {
            assert forall|i: int, v: NodeId|
                0 <= i < order.len() && #[trigger] graph.edges@.contains(
                    (order[i], v),
                ) implies visited@.contains(v) by {
                if i < order_before.len() {
                    assert(order[i] == order_before[i]);
                    assert(graph.edges@.contains((order_before[i], v)));
                } else {
                    lemma_neighbours_are_ends(graph.edges@, node_id, v);
                    let j = choose|j: int| 0 <= j < found@.len() && found@[j] == v;
                    let step = slot(depth_first, count as int, j);
                    assert(slot(depth_first, count as int, step) == j);
                }
            }
            assert forall|i: int| 0 <= i < order.len() implies (#[trigger] order[i]) < n
                && graph.reachable(root_id, order[i]) && path@[i] == graph.value(order[i])
                && graph.value(order[i]) != target.0 by {
                if i < order_before.len() {
                    assert(order_before[i] == order[i]);
                }
            }
            vstd::set_lib::lemma_len_subset(visited_before, visited@);
            vstd::set_lib::lemma_len_subset(visited@, below(n as nat));
        }
    }
    (path, None)
}

} // verus!
