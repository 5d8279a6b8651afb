//! The interface of a parity game solver that nodes can be added to and
//! removed from.
use vstd::prelude::*;

pub use crate::solver::strategy::Player;

verus! {

/// Identifier of a node given out by a solver.
#[derive(Clone, Copy, Debug, PartialEq, Eq, Structural, Hash, PartialOrd, Ord, Default)]
pub struct NodeId(pub usize);

/// The identifier that stands for no node.
pub const NODE_INVALID: usize = usize::MAX;

impl NodeId {
    pub fn to_usize(self) -> (r: usize)
        ensures
            r == self.0,
    {
        self.0
    }
}


/// A parity game solver to which nodes and edges can be added and from which
/// they can be removed between solving rounds. Iterators of the nodes are
/// given as vectors. A solver that obeys the solver specification answers
/// about its nodes what its spec functions name.
pub trait Solver: Sized {
    /// Whether the answers of the solver are those its spec functions name.
    open spec fn obeys_solver_spec() -> bool {
        false
    }

    /// The nodes in the solver.
    open spec fn spec_nodes(&self) -> Set<NodeId> {
        Set::empty()
    }

    /// The player moving at `n`.
    open spec fn spec_player(&self, n: NodeId) -> Player {
        Player::P0
    }

    /// The player winning from `n`, after the last round of solving.
    open spec fn spec_winner(&self, n: NodeId) -> Player {
        Player::P0
    }

    /// The nodes with an edge to `n`.
    open spec fn spec_predecessors(&self, n: NodeId) -> Seq<NodeId> {
        Seq::empty()
    }

    /// The nodes whose strategy moves to `n`.
    open spec fn spec_inverse_strategy(&self, n: NodeId) -> Seq<NodeId> {
        Seq::empty()
    }

    fn new() -> Self;

    fn add_node(&mut self, player: Player, priority: usize) -> NodeId;

    fn add_edge(&mut self, u: NodeId, v: NodeId);

    fn remove_edge(&mut self, u: NodeId, v: NodeId);

    fn remove_node(&mut self, n: NodeId)
        ensures
            Self::obeys_solver_spec() ==> final(self).spec_nodes() == old(self).spec_nodes().remove(n),
    ;

    fn predecessors(&self, n: NodeId) -> (r: Vec<NodeId>)
        ensures
            Self::obeys_solver_spec() ==> r@ == self.spec_predecessors(n),
    ;

    fn player(&self, n: NodeId) -> (r: Player)
        ensures
            Self::obeys_solver_spec() ==> r == self.spec_player(n),
    ;

    fn solve(&mut self);

    fn winner(&self, n: NodeId) -> (r: Player)
        ensures
            Self::obeys_solver_spec() ==> r == self.spec_winner(n),
    ;

    fn inverse_strategy(&self, n: NodeId) -> (r: Vec<NodeId>)
        ensures
            Self::obeys_solver_spec() ==> r@ == self.spec_inverse_strategy(n),
    ;
}

} // verus!
