//! The graph that the algorithms of this crate read: nodes addressed by a
//! dense index, each with a value, and directed weighted edges kept by source.
use std::collections::HashMap;
use vstd::prelude::*;

verus! {

/// What a node can carry.
pub trait NodeVal: Ord + Copy + Default {

}

impl<T: Ord + Copy + Default> NodeVal for T {

}

/// The index of a node.
pub type NodeId = usize;

/// A directed edge from `src` to `dst` at a cost.
#[derive(Debug, Clone, Copy, PartialEq, Eq, Structural, Hash, PartialOrd, Ord)]
pub struct Edge {
    pub src: NodeId,
    pub dst: NodeId,
    pub cost: usize,
}

/// The values of the nodes, and for each node that has any the edges that
/// leave it.
pub struct Graph<V: NodeVal> {
    pub nodes: Vec<V>,
    pub edges: HashMap<NodeId, Vec<Edge>>,
}

impl<V: NodeVal> Default for Graph<V> {
    fn default() -> (graph: Self)
        ensures
            graph.nodes@ == Seq::<V>::empty(),
            graph.edges@ == Map::<NodeId, Vec<Edge>>::empty(),
            graph.wf(),
    {
        Self { nodes: Vec::new(), edges: HashMap::new() }
    }
}

impl<V: NodeVal> Graph<V> {
    /// The edges that leave `u`, in the order in which they were added.
    pub open spec fn out_edges(&self, u: NodeId) -> Seq<Edge> {
        if self.edges@.contains_key(u) {
            self.edges@[u]@
        } else {
            Seq::empty()
        }
    }

    /// Whether `e` is an edge of the graph.
    pub open spec fn has_edge(&self, e: Edge) -> bool {
        self.out_edges(e.src).contains(e)
    }

    /// Every edge is kept under its source, and both its ends are nodes.
    pub open spec fn wf(&self) -> bool {
        forall|u: NodeId, i: int|
            0 <= i < self.out_edges(u).len() ==> {
                let e = #[trigger] self.out_edges(u)[i];
                e.src == u && u < self.nodes@.len() && e.dst < self.nodes@.len()
            }
    }

    /// The edges that leave `node_id`.
    pub fn edges(&self, node_id: NodeId) -> (list: &[Edge])
        ensures
            list@ == self.out_edges(node_id),
    {
        if let Some(e) = self.edges.get(&node_id) {
            e.as_slice()
        } else {
            &[]
        }
    }

    /// Adds a directed edge from `src` to `dst`.
    pub fn add_edge(&mut self, src: NodeId, dst: NodeId, cost: usize)
        ensures
            final(self).nodes@ == old(self).nodes@,
            final(self).out_edges(src) == old(self).out_edges(src).push(Edge { src, dst, cost }),
            forall|u: NodeId| u != src ==> final(self).out_edges(u) == old(self).out_edges(u),
            old(self).wf() && src < old(self).nodes@.len() && dst < old(self).nodes@.len()
                ==> final(self).wf(),
    {
        self.edges.entry(src).or_insert(Vec::new()).push(Edge { src, dst, cost });
        proof {
            if old(self).wf() && src < old(self).nodes@.len() && dst < old(self).nodes@.len() {
                assert forall|u: NodeId, i: int| 0 <= i < self.out_edges(u).len() implies ({
                    let e = #[trigger] self.out_edges(u)[i];
                    e.src == u && u < self.nodes@.len() && e.dst < self.nodes@.len()
                }) by {
                    if u != src {
                        assert(self.out_edges(u) == old(self).out_edges(u));
                        assert(self.out_edges(u)[i] == old(self).out_edges(u)[i]);
                    } else if i < old(self).out_edges(u).len() {
                        assert(self.out_edges(u)[i] == old(self).out_edges(u)[i]);
                    }
                }
            }
        }
    }

    /// Adds an edge between `a` and `b` that can be walked both ways: one
    /// directed edge from `a` to `b` and one from `b` to `a`.
    pub fn add_undirected_edge(&mut self, a: NodeId, b: NodeId, cost: usize)
        ensures
            final(self).nodes@ == old(self).nodes@,
            old(self).wf() && a < old(self).nodes@.len() && b < old(self).nodes@.len()
                ==> final(self).wf(),
            a != b ==> final(self).out_edges(a) == old(self).out_edges(a).push(
                Edge { src: a, dst: b, cost },
            ) && final(self).out_edges(b) == old(self).out_edges(b).push(
                Edge { src: b, dst: a, cost },
            ),
            a == b ==> final(self).out_edges(a) == old(self).out_edges(a).push(
                Edge { src: a, dst: a, cost },
            ).push(Edge { src: a, dst: a, cost }),
            forall|u: NodeId| u != a && u != b ==> final(self).out_edges(u) == old(self).out_edges(u),
    {
        self.add_edge(a, b, cost);
        self.add_edge(b, a, cost);
    }
}

} // verus!
