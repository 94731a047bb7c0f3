//! The interfaces by which a search reads the edges an expander produces.
use vstd::prelude::*;
use crate::node::NodeRef;

verus! {

/// An edge leads to a successor node.
pub trait Successor {
    /// The node the edge leads to.
    fn successor(&self) -> NodeRef;
}

/// An edge has an id that tells it apart from the other edges out of the same node.
pub trait EdgeId {
    /// The id of the edge.
    fn edge_id(&self) -> usize;
}

} // verus!
