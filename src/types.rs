use vstd::prelude::*;

verus! {

/// Whether a port receives or emits connections; descriptive only.
#[derive(Debug, Clone, Copy, PartialEq, Eq, Structural)]
pub enum PortType {
    Input,
    Output,
}

/// A directed connection between two nodes, by index.
#[derive(Debug, Clone, Copy, PartialEq, Eq, Structural)]
pub struct GraphEdge {
    pub source: usize,
    pub target: usize,
}

impl GraphEdge {
    pub fn new(source: usize, target: usize) -> (r: GraphEdge)
        ensures
            r.source == source,
            r.target == target,
    {
        GraphEdge { source, target }
    }
}

/// Why a layout could not be written back or computed.
#[derive(Debug, Clone, PartialEq, Eq)]
pub enum LayoutError {
    /// The result holds a different number of nodes than the caller's buffer.
    InvalidNodeIndex,
    /// The result holds a different number of edges than the caller's buffer.
    InvalidEdgeIndex,
    /// Reserved for a layout that cannot be produced.
    LayoutFailed(String),
}

/// Checks that a layout result of `result_nodes` nodes and `result_edges` edges
/// fits caller buffers of `node_slots` nodes and `edge_slots` edges entry for entry.
pub fn check_write_back(
    result_nodes: usize,
    node_slots: usize,
    result_edges: usize,
    edge_slots: usize,
) -> (r: Result<(), LayoutError>)
    ensures
        result_nodes != node_slots ==> r == Err::<(), LayoutError>(LayoutError::InvalidNodeIndex),
        result_nodes == node_slots && result_edges != edge_slots ==> r == Err::<(), LayoutError>(
            LayoutError::InvalidEdgeIndex,
        ),
        result_nodes == node_slots && result_edges == edge_slots ==> r is Ok,
{
    if result_nodes != node_slots {
        Err(LayoutError::InvalidNodeIndex)
    } else if result_edges != edge_slots {
        Err(LayoutError::InvalidEdgeIndex)
    } else {
        Ok(())
    }
}

} // verus!
