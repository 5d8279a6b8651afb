//! Parity games in the PGSolver format, and their conversion into systems
//! of fixpoint equations.
use vstd::prelude::*;

use crate::solver::strategy::Player;

pub mod conv;
pub mod parser;

verus! {

/// A node of a parity game: its identifier, its priority (relevance), the
/// player owning it and the identifiers of its successors.
#[derive(Debug)]
pub struct Node {
    pub id: usize,
    pub relevance: usize,
    pub player: Player,
    pub successors: Vec<usize>,
}

/// A parity game, as the list of its nodes.
#[derive(Debug)]
pub struct ParityGame {
    pub nodes: Vec<Node>,
}

/// A node with its successors as a sequence.
pub struct NodeV {
    pub id: usize,
    pub relevance: usize,
    pub player: Player,
    pub successors: Seq<usize>,
}

pub open spec fn node_view(n: Node) -> NodeV {
    NodeV { id: n.id, relevance: n.relevance, player: n.player, successors: n.successors@ }
}

pub open spec fn nodes_view(ns: Seq<Node>) -> Seq<NodeV> {
    ns.map_values(|n: Node| node_view(n))
}

} // verus!
