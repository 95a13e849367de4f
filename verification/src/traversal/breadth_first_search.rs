//! Breadth first search.
use crate::traversal::graph::{search, search_result};
use vstd::prelude::*;

pub use crate::traversal::graph::{Edge, Graph, Node, NodeId};

verus! {

/// Searches from `root_id` for a node of the value of `target`, the
/// nearest nodes first. Returns the values of the nodes visited, in the
/// order of the visits, and the node found.
pub fn breadth_first_search(graph: &Graph, root_id: NodeId, target: &Node) -> (result: (
    Vec<NodeId>,
    Option<NodeId>,
))
    requires
        graph.wf(),
        root_id < graph.nodes@.len(),
    ensures
        search_result(graph, root_id, target.0, result.0@, result.1),
{
    search(graph, root_id, target, false)
}

} // verus!
