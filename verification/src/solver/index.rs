//! Typed indices used throughout the solver.
use vstd::prelude::*;

verus! {

/// Identifier of a node of a parity graph.
#[derive(Clone, Copy, Debug, PartialEq, Eq, Structural, Hash, PartialOrd, Ord, Default)]
pub struct NodeId(pub usize);

impl NodeId {
    /// The position of this node as a plain index.
    pub fn to_usize(self) -> (r: usize)
        ensures
            r == self.0,
    {
        self.0
    }
}

} // verus!
