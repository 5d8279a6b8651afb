use std::cmp::Ordering;

use mucalc::new_solver::solver::{NodeId, Player};
use mucalc::new_solver::strategy::{PlayProfile, SNodeId, StrategySolver, SNODE_W0, SNODE_W1};

#[test]
fn new_node_moves_to_the_opponents_win() {
    let mut s = StrategySolver::new();
    let a = s.add_node(Player::P0, 2);
    assert_eq!(a, NodeId(0));
    let sa = s.snode(a);
    assert_eq!(sa, SNodeId(4));
    assert_eq!(s.player(sa), Player::P0);
    // Without other edges a node of player 0 goes to W1; its profile has W1
    // as most relevant node, whose priority is odd.
    assert_eq!(s.winner(sa), Player::P1);

    let b = s.add_node(Player::P1, 1);
    assert_eq!(b, NodeId(1));
    let sb = s.snode(b);
    assert_eq!(sb, SNodeId(5));
    assert_eq!(s.player(sb), Player::P1);
    assert_eq!(s.winner(sb), Player::P0);
}

#[test]
fn special_nodes_have_fixed_winners() {
    let s = StrategySolver::new();
    // The special nodes start with the default profile, whose most relevant
    // node is W0, of priority 0.
    assert_eq!(s.winner(SNodeId(SNODE_W0)), Player::P0);
    assert_eq!(s.winner(SNodeId(SNODE_W1)), Player::P0);
    assert_eq!(s.player(SNodeId(0)), Player::P0);
    assert_eq!(s.player(SNodeId(1)), Player::P0);
    assert_eq!(s.player(SNodeId(2)), Player::P1);
    assert_eq!(s.player(SNodeId(3)), Player::P1);
}

#[test]
fn added_edge_replaces_the_default_one() {
    let mut s = StrategySolver::new();
    let a = s.add_node(Player::P0, 2);
    let b = s.add_node(Player::P1, 1);
    let (sa, sb) = (s.snode(a), s.snode(b));
    assert_eq!(s.inverse_strategy(SNodeId(SNODE_W1)).contains(&a), true);

    s.add_edge(sa, sb);
    // The strategy of `a` now goes to `b`, which is a predecessor of nothing else.
    assert_eq!(s.inverse_strategy(sb), vec![a]);
    assert_eq!(s.predecessors(sb), vec![a]);
    assert!(!s.inverse_strategy(SNodeId(SNODE_W1)).contains(&a));
    assert!(s.predecessors(SNodeId(SNODE_W1)).is_empty());
}

#[test]
fn predecessors_skip_special_nodes() {
    let mut s = StrategySolver::new();
    let a = s.add_node(Player::P1, 3);
    let sa = s.snode(a);
    // W1 moves to L0 and the new node of player 1 moves to W0.
    assert_eq!(s.predecessors(SNodeId(SNODE_W0)), vec![a]);
    assert_eq!(s.predecessors(sa), Vec::<NodeId>::new());
}

#[test]
fn strategy_can_be_updated_along_an_edge() {
    let mut s = StrategySolver::new();
    let a = s.add_node(Player::P0, 2);
    let b = s.add_node(Player::P1, 1);
    let c = s.add_node(Player::P1, 3);
    let (sa, sb, sc) = (s.snode(a), s.snode(b), s.snode(c));
    s.add_edge(sa, sb);
    s.add_edge(sa, sc);
    assert_eq!(s.inverse_strategy(sb), vec![a]);
    s.update_strategy(sa, sc);
    assert_eq!(s.inverse_strategy(sc), vec![a]);
    assert!(s.inverse_strategy(sb).is_empty());
}

#[test]
fn fresh_solver_has_nothing_to_improve() {
    let mut s = StrategySolver::new();
    assert!(!s.improve());
    let a = s.add_node(Player::P0, 2);
    let sa = s.snode(a);
    assert!(!s.improve());
    assert_eq!(PlayProfile::compare(&s, sa, SNodeId(SNODE_W1), SNodeId(SNODE_W1)), Ordering::Equal);
}

#[test]
fn removing_the_last_node_forgets_it() {
    let mut s = StrategySolver::new();
    let a = s.add_node(Player::P0, 2);
    let b = s.add_node(Player::P1, 1);
    let (sa, sb) = (s.snode(a), s.snode(b));
    s.add_edge(sa, sb);
    s.remove_node(sb);
    // The edge into the removed node is gone, and so is the node itself.
    assert!(s.predecessors(SNodeId(SNODE_W0)).is_empty());
    assert_eq!(s.player(sa), Player::P0);
}

#[test]
fn profile_winner_follows_the_priority_of_its_cycle() {
    let mut s = StrategySolver::new();
    let a = s.add_node(Player::P1, 3);
    let sa = s.snode(a);
    let p = PlayProfile {
        most_relevant: mucalc::solver::index::NodeId(sa.0),
        relevant_before: vec![],
        count_before: 0,
    };
    assert_eq!(p.winner(&s), Player::P1);
    // W0 has priority 0 and W1 priority 1: the play that stays at each is won
    // by the player it is named after.
    assert_eq!(PlayProfile::losing_for_player(Player::P1).winner(&s), Player::P0);
    assert_eq!(PlayProfile::losing_for_player(Player::P0).winner(&s), Player::P1);
}

#[test]
fn removing_a_node_moves_the_last_one_into_its_place() {
    let mut s = StrategySolver::new();
    let a = s.add_node(Player::P0, 2);
    let b = s.add_node(Player::P1, 1);
    let c = s.add_node(Player::P0, 4);
    let (sa, sb, sc) = (s.snode(a), s.snode(b), s.snode(c));
    s.add_edge(sa, sb);
    s.add_edge(sc, sb);
    s.remove_node(sa);
    // The last node takes the removed node's place, with its edge and its
    // strategy, and the node given out for it follows.
    assert_eq!(s.snode(c), sa);
    assert_eq!(s.player(sa), Player::P0);
    assert_eq!(s.predecessors(s.snode(b)), vec![c]);
    assert_eq!(s.inverse_strategy(s.snode(b)), vec![c]);
}
