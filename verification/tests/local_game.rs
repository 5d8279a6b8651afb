use mucalc::solver::local::game::{
    GameStrategy, Inserted, NodeKind, NodeP0Id, NodeP1Id, P1_L1, P1_W1,
};

#[test]
fn strategy_records_first_successor_only() {
    let mut s = GameStrategy::new();
    s.try_add(NodeP0Id(0), NodeP1Id(0));
    assert_eq!(s.direct, vec![NodeP1Id(0)]);
    assert_eq!(s.inverse.len(), 1);
    assert!(s.inverse[0].contains(&0));
    // A second successor for the same node does not replace the first.
    s.try_add(NodeP0Id(0), NodeP1Id(1));
    assert_eq!(s.direct, vec![NodeP1Id(0)]);
    assert_eq!(s.inverse.len(), 2);
    assert!(s.inverse[1].is_empty());
}

#[test]
fn strategy_to_special_nodes_is_kept_apart() {
    let mut s = GameStrategy::new();
    s.try_add(NodeP0Id(0), NodeP1Id(P1_W1));
    assert_eq!(s.direct, vec![NodeP1Id(P1_W1)]);
    assert!(s.inverse_w1.contains(&0));
    assert!(s.inverse.is_empty());
    s.update(NodeP0Id(0), NodeP1Id(P1_L1));
    assert!(!s.inverse_w1.contains(&0));
    assert!(s.inverse_l1.contains(&0));
}

#[test]
fn strategy_update_moves_the_inverse() {
    let mut s = GameStrategy::new();
    s.try_add(NodeP0Id(0), NodeP1Id(0));
    s.try_add(NodeP0Id(1), NodeP1Id(1));
    s.update(NodeP0Id(0), NodeP1Id(1));
    assert_eq!(s.direct, vec![NodeP1Id(1), NodeP1Id(1)]);
    assert!(s.inverse[0].is_empty());
    assert_eq!(s.inverse[1].len(), 2);
    assert!(s.inverse[1].contains(&0) && s.inverse[1].contains(&1));
}

#[test]
fn node_kinds_give_their_ids() {
    assert_eq!(NodeKind::P0(NodeP0Id(3)).expect_p0(), NodeP0Id(3));
    assert_eq!(NodeKind::P1(NodeP1Id(7)).expect_p1(), NodeP1Id(7));
}

#[test]
fn inserted_keeps_its_kind() {
    let n: Inserted<usize> = Inserted::New(2);
    assert_eq!(n.id(), 2);
    assert!(matches!(n.map(|x| x + 1), Inserted::New(3)));
    let e: Inserted<usize> = Inserted::Existing(5);
    assert!(matches!(e.map(|x| x * 2), Inserted::Existing(10)));
}

use indexmap::IndexSet;
use mucalc::solver::index::NodeId;
use mucalc::solver::local::escape::{definitely_losing_set, update_winning_sets};
use mucalc::solver::local::expansion::expand_one;
use mucalc::solver::local::game::{Game, WinState, NODE_L0, NODE_L1, NODE_W0, NODE_W1};
use mucalc::solver::local::improve::improve;
use mucalc::solver::local::profiles::update_profiles;
use mucalc::solver::strategy::{PlayProfile, Player, Strategy};
use mucalc::solver::symbolic::compose::{EqsFormulas, FunsFormulas};
use mucalc::solver::symbolic::eq::{Expr, FixEq, FixType, VarId};
use mucalc::solver::symbolic::formula::BasisElemId;
use mucalc::solver::symbolic::moves::P0Pos;
use rustc_hash::FxBuildHasher;

fn pos(b: usize, i: usize) -> P0Pos {
    P0Pos { b: BasisElemId(b), i: VarId(i) }
}

// X0 =max X0 or X1, X1 =min X1
fn sample_game() -> Game {
    let eqs = vec![
        FixEq { fix_type: FixType::Max, expr: Expr::Or(vec![Expr::Var(VarId(0)), Expr::Var(VarId(1))]) },
        FixEq { fix_type: FixType::Min, expr: Expr::Var(VarId(1)) },
    ];
    Game::new(pos(0, 0), EqsFormulas::new(eqs, FunsFormulas::new(vec![])))
}

fn default_profile() -> PlayProfile {
    PlayProfile { most_relevant: NodeId(0), relevant_before: vec![], count_before: 0 }
}

#[test]
fn new_game_has_the_initial_node() {
    let g = sample_game();
    assert_eq!(g.nodes.len(), 5);
    assert_eq!(g.resolve(NodeId(4)), NodeKind::P0(NodeP0Id(0)));
    assert_eq!(g.player_of(NodeId(4)), Player::P0);
    assert_eq!(g.player_of(NodeId(NODE_W1)), Player::P1);
    assert_eq!(g.p0.ids, vec![NodeId(4)]);
    assert!(g.p0.incomplete.contains(&0));
}

#[test]
fn relevance_follows_the_equations() {
    let g = sample_game();
    // Variable 0 has a greatest fixpoint: priority 2.
    assert_eq!(g.relevance_of(NodeId(4)).priority, 2);
    // Special nodes are above all variables: 2 * 2 + 1 and 2 * 2 + 2.
    assert_eq!(g.relevance_of(NodeId(NODE_W1)).priority, 5);
    assert_eq!(g.relevance_of(NodeId(NODE_L0)).priority, 5);
    assert_eq!(g.relevance_of(NodeId(NODE_W0)).priority, 6);
    assert_eq!(g.relevance_of(NodeId(NODE_L1)).priority, 6);
}

#[test]
fn special_nodes_cycle_and_fresh_nodes_lose() {
    let g = sample_game();
    assert_eq!(g.successors_of(NodeId(NODE_L0)), vec![NodeId(NODE_W1)]);
    assert_eq!(g.successors_of(NodeId(NODE_W0)), vec![NodeId(NODE_L1)]);
    // A node of player 0 without edges goes to W1.
    assert_eq!(g.successors_of(NodeId(4)), vec![NodeId(NODE_W1)]);
    assert_eq!(g.predecessors_of(NodeId(NODE_W1)), vec![NodeId(NODE_L0)]);
    assert_eq!(
        g.nodes_sorted_by_reward(),
        vec![NodeId(NODE_W1), NodeId(NODE_L0), NodeId(4), NodeId(NODE_W0), NodeId(NODE_L1)]
    );
}

#[test]
fn expanding_adds_moves_one_at_a_time() {
    let mut g = sample_game();
    let mut s = GameStrategy::new();
    // The first clause of X0's formula leads to the node of player 1 {X0 at 0}.
    let r = expand_one(NodeId(4), &mut g, &mut s);
    assert!(matches!(r, Some(Inserted::New(NodeId(5)))));
    assert_eq!(g.p1.pos[0].moves, vec![pos(0, 0)]);
    assert_eq!(s.direct, vec![NodeP1Id(0)]);
    assert_eq!(g.successors_of(NodeId(4)), vec![NodeId(5)]);
    // That node moves back to the initial node.
    let r = expand_one(NodeId(5), &mut g, &mut s);
    assert!(matches!(r, Some(Inserted::Existing(NodeId(4)))));
    assert_eq!(g.predecessors_of(NodeId(4)), vec![NodeId(5)]);
    // It has no move left: it is complete, with its edge.
    assert!(expand_one(NodeId(5), &mut g, &mut s).is_none());
    assert!(!g.p1.incomplete.contains(&0));
    // The second clause of X0's formula.
    let r = expand_one(NodeId(4), &mut g, &mut s);
    assert!(matches!(r, Some(Inserted::New(NodeId(6)))));
    assert_eq!(g.p1.pos[1].moves, vec![pos(0, 1)]);
    // The strategy keeps the first successor.
    assert_eq!(s.direct, vec![NodeP1Id(0)]);
    let r = expand_one(NodeId(6), &mut g, &mut s);
    assert!(matches!(r, Some(Inserted::New(NodeId(7)))));
    assert_eq!(g.p0.pos[1], pos(0, 1));
    assert_eq!(g.relevance_of(NodeId(7)).priority, 3);
    assert_eq!(
        g.nodes_sorted_by_reward(),
        vec![
            NodeId(NODE_W1),
            NodeId(NODE_L0),
            NodeId(7),
            NodeId(5),
            NodeId(6),
            NodeId(4),
            NodeId(NODE_W0),
            NodeId(NODE_L1)
        ]
    );
}

#[test]
fn profiles_follow_a_path_to_an_old_node() {
    let mut g = sample_game();
    let mut s = GameStrategy::new();
    expand_one(NodeId(4), &mut g, &mut s);
    let mut profiles: Vec<PlayProfile> = (0..5).map(|_| default_profile()).collect();
    let mut expanded: IndexSet<usize, FxBuildHasher> = IndexSet::default();
    expanded.insert(5);
    update_profiles(NodeId(4), &expanded, &g, &mut profiles);
    assert_eq!(profiles.len(), 6);
    assert_eq!(profiles[5].most_relevant, NodeId(0));
    assert!(profiles[5].relevant_before.is_empty());
    assert_eq!(profiles[5].count_before, 1);
}

#[test]
fn profiles_of_a_new_cycle_start_at_its_most_relevant_node() {
    let mut g = sample_game();
    let mut s = GameStrategy::new();
    expand_one(NodeId(4), &mut g, &mut s);
    let mut profiles: Vec<PlayProfile> = (0..5).map(|_| default_profile()).collect();
    let mut expanded: IndexSet<usize, FxBuildHasher> = IndexSet::default();
    expanded.insert(5);
    update_profiles(NodeId(5), &expanded, &g, &mut profiles);
    assert_eq!(profiles[5].most_relevant, NodeId(5));
    assert_eq!(profiles[5].count_before, 0);
}

#[test]
fn losing_nodes_without_escape() {
    let g = sample_game();
    // Every profile ends at W0, won by player 0: the nodes of player 1 lose.
    let profiles: Vec<PlayProfile> = (0..5).map(|_| default_profile()).collect();
    let fs = vec![NodeId(3), NodeId(2), NodeId(1), NodeId(0), NodeId(2)];
    let r = definitely_losing_set(&g, &profiles, &fs);
    let items: Vec<usize> = r.iter().copied().collect();
    assert_eq!(items, vec![2, 3]);
}

#[test]
fn incomplete_nodes_escape() {
    let g = sample_game();
    // Profiles won by player 1 everywhere: node 4 of player 0 loses, but it
    // still has moves to explore.
    let lose = PlayProfile { most_relevant: NodeId(NODE_W1), relevant_before: vec![], count_before: 0 };
    let profiles: Vec<PlayProfile> = (0..5).map(|_| lose.clone()).collect();
    let fs = vec![NodeId(3), NodeId(2), NodeId(1), NodeId(0), NodeId(2)];
    let r = definitely_losing_set(&g, &profiles, &fs);
    let items: Vec<usize> = r.iter().copied().collect();
    // W0 and L0 belong to player 0 and lose; nothing moves to node 4 under
    // the final strategy, so only node 4 escapes.
    assert_eq!(items, vec![0, 1]);
}

#[test]
fn deciding_a_node_for_player_one() {
    let mut g = sample_game();
    let mut s = GameStrategy::new();
    s.try_add(NodeP0Id(0), NodeP1Id(P1_W1));
    let mut fs = vec![NodeId(3), NodeId(2), NodeId(1), NodeId(0), NodeId(2)];
    g.set_p0_losing(NodeP0Id(0), &mut s, &mut fs);
    assert_eq!(g.p0.win[0], WinState::Win1);
    assert!(g.p0.w1.contains(&0));
    assert_eq!(fs[4], NodeId(NODE_W1));
    assert_eq!(g.successors_of(NodeId(4)), vec![NodeId(NODE_W1)]);
    assert_eq!(g.predecessors_of(NodeId(NODE_W1)), vec![NodeId(4), NodeId(NODE_L0)]);
}

#[test]
fn deciding_a_node_for_player_zero() {
    let mut g = sample_game();
    let mut s = GameStrategy::new();
    s.try_add(NodeP0Id(0), NodeP1Id(P1_W1));
    let mut fs = vec![NodeId(3), NodeId(2), NodeId(1), NodeId(0), NodeId(2)];
    g.set_p0_winning(NodeP0Id(0), &mut s, &mut fs);
    assert_eq!(g.p0.win[0], WinState::Win0);
    assert!(!g.p0.incomplete.contains(&0));
    assert_eq!(s.direct, vec![NodeP1Id(P1_L1)]);
    assert_eq!(fs[4], NodeId(NODE_L1));
    assert_eq!(g.successors_of(NodeId(4)), vec![NodeId(NODE_L1)]);
}

#[test]
fn winning_node_keeps_or_decides_the_predecessors_that_choose_it() {
    let mut g = sample_game();
    let mut s = GameStrategy::new();
    expand_one(NodeId(4), &mut g, &mut s);
    expand_one(NodeId(5), &mut g, &mut s);
    // Node 5 of player 1 moves only to node 4, and its final strategy does so.
    let mut fs = vec![NodeId(3), NodeId(2), NodeId(1), NodeId(0), NodeId(5), NodeId(4)];
    g.set_p0_winning(NodeP0Id(0), &mut s, &mut fs);
    assert!(g.p0.preds[0].contains(&0) || g.p1.win[0] == WinState::Win0);
    assert!(g.p1.succs[0].contains(&0) || g.p1.win[0] == WinState::Win0);
    // Its only move was to node 4 and it has none left: player 0 wins there.
    assert_eq!(g.p1.win[0], WinState::Win0);
    assert_eq!(fs[5], NodeId(NODE_W0));
    assert!(g.p0.succs[0].is_empty());
}

#[test]
fn winning_node_drops_the_predecessors_that_do_not_choose_it() {
    let mut g = sample_game();
    let mut s = GameStrategy::new();
    expand_one(NodeId(4), &mut g, &mut s);
    expand_one(NodeId(5), &mut g, &mut s);
    // The final strategy of node 5 does not follow its edge to node 4.
    let mut fs = vec![NodeId(3), NodeId(2), NodeId(1), NodeId(0), NodeId(5), NodeId(NODE_W0)];
    g.set_p0_winning(NodeP0Id(0), &mut s, &mut fs);
    assert!(!g.p1.succs[0].contains(&0));
    assert!(g.p0.preds[0].is_empty());
    assert_eq!(g.p1.win[0], WinState::Unknown);
}

#[test]
fn losing_node_is_lost_at_its_predecessors_too() {
    let mut g = sample_game();
    let mut s = GameStrategy::new();
    expand_one(NodeId(4), &mut g, &mut s);
    expand_one(NodeId(5), &mut g, &mut s);
    let mut fs = vec![NodeId(3), NodeId(2), NodeId(1), NodeId(0), NodeId(5), NodeId(4)];
    g.set_p0_losing(NodeP0Id(0), &mut s, &mut fs);
    // Node 5 of player 1 moves to node 4: player 1 wins there too.
    assert_eq!(g.p1.win[0], WinState::Win1);
    assert_eq!(fs[5], NodeId(NODE_L0));
    assert!(g.p0.succs[0].is_empty());
}

#[test]
fn node_won_by_player_zero_decides_its_predecessors() {
    let mut g = sample_game();
    let mut s = GameStrategy::new();
    expand_one(NodeId(4), &mut g, &mut s);
    expand_one(NodeId(5), &mut g, &mut s);
    let mut fs = vec![NodeId(3), NodeId(2), NodeId(1), NodeId(0), NodeId(5), NodeId(4)];
    g.set_p1_losing(NodeP1Id(0), &mut s, &mut fs);
    // Node 4 of player 0 moves to node 5: player 0 wins there too.
    assert_eq!(g.p0.win[0], WinState::Win0);
    assert_eq!(fs[5], NodeId(NODE_W0));
    assert_eq!(fs[4], NodeId(NODE_L1));
    assert!(g.p1.succs[0].is_empty());
}

#[test]
fn update_winning_sets_leaves_special_nodes() {
    let mut g = sample_game();
    let mut s = GameStrategy::new();
    s.try_add(NodeP0Id(0), NodeP1Id(P1_W1));
    let profiles: Vec<PlayProfile> = (0..5).map(|_| default_profile()).collect();
    let mut fs = vec![NodeId(3), NodeId(2), NodeId(1), NodeId(0), NodeId(2)];
    update_winning_sets(&mut g, &profiles, &mut fs, &mut s);
    assert_eq!(g.p0.win[0], WinState::Unknown);
}

#[test]
fn improving_moves_to_better_successors() {
    let mut g = sample_game();
    let mut s = GameStrategy::new();
    expand_one(NodeId(4), &mut g, &mut s);
    expand_one(NodeId(5), &mut g, &mut s);
    expand_one(NodeId(4), &mut g, &mut s);
    assert_eq!(g.nodes.len(), 7);
    assert_eq!(s.get_direct(NodeId(4), &g), NodeId(5));
    assert_eq!(s.get_inverse(NodeId(5), &g), vec![NodeId(4)]);
    assert_eq!(
        s.iter(&g),
        vec![(NodeId(4), NodeId(5)), (NodeId(NODE_L0), NodeId(NODE_W1)), (NodeId(NODE_W0), NodeId(NODE_L1))]
    );
    let lose = PlayProfile { most_relevant: NodeId(NODE_W1), relevant_before: vec![], count_before: 0 };
    let mut profiles: Vec<PlayProfile> = (0..7).map(|_| default_profile()).collect();
    profiles[5] = lose;
    // Node 6 leads to a play won by player 0, node 5 to one won by player 1.
    assert!(improve(&g, &mut s, &profiles));
    assert_eq!(s.direct, vec![NodeP1Id(1)]);
    assert_eq!(s.get_direct(NodeId(4), &g), NodeId(6));
    assert_eq!(s.successors_of(NodeId(4), &g), vec![NodeId(6)]);
    // Nothing better is left.
    assert!(!improve(&g, &mut s, &profiles));
}
