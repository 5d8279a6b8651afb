use std::collections::HashMap;

use indexmap::IndexSet;
use mucalc::new_solver::local::{
    expand_step, start_expanding, update_winning_sets, ExpandAction, ExpandEvent,
};
use mucalc::new_solver::solver::{NodeId, Player, Solver, NODE_INVALID};
use rustc_hash::FxBuildHasher;

/// A solver with fixed answers, which records the nodes removed from it.
struct FixedSolver {
    players: Vec<Player>,
    winners: Vec<Player>,
    preds: Vec<Vec<NodeId>>,
    inverse: Vec<Vec<NodeId>>,
    removed: Vec<NodeId>,
}

impl Solver for FixedSolver {
    fn new() -> Self {
        FixedSolver { players: vec![], winners: vec![], preds: vec![], inverse: vec![], removed: vec![] }
    }

    fn add_node(&mut self, player: Player, _priority: usize) -> NodeId {
        self.players.push(player);
        self.winners.push(player);
        self.preds.push(vec![]);
        self.inverse.push(vec![]);
        NodeId(self.players.len() - 1)
    }

    fn add_edge(&mut self, u: NodeId, v: NodeId) {
        self.preds[v.0].push(u);
    }

    fn remove_edge(&mut self, _u: NodeId, _v: NodeId) {}

    fn remove_node(&mut self, n: NodeId) {
        self.removed.push(n);
    }

    fn predecessors(&self, n: NodeId) -> Vec<NodeId> {
        self.preds[n.0].clone()
    }

    fn player(&self, n: NodeId) -> Player {
        self.players[n.0]
    }

    fn solve(&mut self) {}

    fn winner(&self, n: NodeId) -> Player {
        self.winners[n.0]
    }

    fn inverse_strategy(&self, n: NodeId) -> Vec<NodeId> {
        self.inverse[n.0].clone()
    }
}

fn set(items: &[usize]) -> IndexSet<usize, FxBuildHasher> {
    items.iter().copied().collect()
}

#[test]
fn lost_positions_and_their_predecessors_are_decided() {
    let mut solver = FixedSolver::new();
    let n0 = solver.add_node(Player::P0, 1);
    let n1 = solver.add_node(Player::P1, 0);
    let n2 = solver.add_node(Player::P0, 0);
    solver.add_edge(n1, n0);
    solver.inverse[n1.0].push(n0);
    // Player 1 wins at n0, where player 0 moves.
    solver.winners[n0.0] = Player::P1;

    let mut nodes = vec![n0, n1, n2];
    let map: HashMap<usize, usize> = [(0, 0), (1, 1), (2, 2)].into_iter().collect();
    let mut win = vec![None, None, None];
    let mut b0 = set(&[0, 2]);
    let mut b1 = set(&[1]);

    update_winning_sets(&mut solver, &mut nodes, &map, &mut win, &mut b0, &mut b1);

    assert_eq!(nodes, vec![NodeId(NODE_INVALID), NodeId(NODE_INVALID), n2]);
    assert_eq!(win, vec![Some(Player::P1), Some(Player::P1), None]);
    assert_eq!(b0.iter().copied().collect::<Vec<_>>(), vec![2]);
    assert!(b1.is_empty());
    assert_eq!(solver.removed, vec![n0, n1]);
}

#[test]
fn nothing_is_decided_when_every_player_wins_where_it_moves() {
    let mut solver = FixedSolver::new();
    let n0 = solver.add_node(Player::P0, 0);
    let n1 = solver.add_node(Player::P1, 1);
    solver.add_edge(n0, n1);
    let mut nodes = vec![n0, n1];
    let map: HashMap<usize, usize> = [(0, 0), (1, 1)].into_iter().collect();
    let mut win = vec![None, None];
    let mut b0 = set(&[0]);
    let mut b1 = set(&[1]);

    update_winning_sets(&mut solver, &mut nodes, &map, &mut win, &mut b0, &mut b1);

    assert_eq!(nodes, vec![n0, n1]);
    assert_eq!(win, vec![None, None]);
    assert_eq!(b0.len(), 1);
    assert_eq!(b1.len(), 1);
    assert!(solver.removed.is_empty());
}


#[test]
fn exploring_walks_from_the_losing_boundary() {
    let (mut st, next_goal, act) = start_expanding(2);
    assert_eq!(next_goal, 4);
    assert!(matches!(act, ExpandAction::AskWinner));
    let mut b0 = set(&[0, 3]);
    let mut b1 = set(&[1, 2]);
    // Player 0 wins: the walk starts from the last position of player 1.
    let act = expand_step(&mut st, ExpandEvent::Winner(Player::P0), &mut b0, &mut b1);
    assert!(matches!(act, ExpandAction::NextMoveOf(2)));
    // A new position is followed and counts.
    let act = expand_step(&mut st, ExpandEvent::Moved { to: 4, new: true }, &mut b0, &mut b1);
    assert!(matches!(act, ExpandAction::NextMoveOf(4)));
    assert_eq!(st.explored, 1);
    // No move left at 4, where player 0 moves: it leaves its boundary.
    b0.insert(4);
    let act = expand_step(&mut st, ExpandEvent::NoMove(Player::P0), &mut b0, &mut b1);
    assert!(matches!(act, ExpandAction::AskWinner));
    assert_eq!(b0.iter().copied().collect::<Vec<_>>(), vec![0, 3]);
    // Player 1 wins: the walk starts from 3; a known position ends it.
    let act = expand_step(&mut st, ExpandEvent::Winner(Player::P1), &mut b0, &mut b1);
    assert!(matches!(act, ExpandAction::NextMoveOf(3)));
    let act = expand_step(&mut st, ExpandEvent::Moved { to: 1, new: false }, &mut b0, &mut b1);
    assert!(matches!(act, ExpandAction::AskWinner));
    let act = expand_step(&mut st, ExpandEvent::Winner(Player::P1), &mut b0, &mut b1);
    assert!(matches!(act, ExpandAction::NextMoveOf(3)));
    let act = expand_step(&mut st, ExpandEvent::Moved { to: 5, new: true }, &mut b0, &mut b1);
    assert!(matches!(act, ExpandAction::NextMoveOf(5)));
    let act = expand_step(&mut st, ExpandEvent::Moved { to: 0, new: false }, &mut b0, &mut b1);
    assert!(matches!(act, ExpandAction::Done));
    assert_eq!(st.explored, 2);
}
