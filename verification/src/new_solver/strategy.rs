//! A parity game kept together with a strategy of player 0, the inverse of
//! that strategy and the play profiles of strategy improvement.
use indexmap::IndexSet;
use rustc_hash::FxBuildHasher;
use vstd::prelude::*;

use crate::index_set::{
    add_to, insert_into, remove_from, set_index, set_insert, set_items, set_len, set_new,
    set_to_vec,
};
use crate::new_solver::solver::{NodeId, Player, NODE_INVALID};
pub use crate::solver::strategy::{PlayProfile, Relevance, Reward};
use crate::solver::strategy::{
    profile_order, profile_order_antisymmetric, profile_order_reflexive, profile_order_transitive,
    profile_order_w, profile_order_w_antisymmetric, profile_order_w_reflexive,
    profile_order_w_transitive, profile_valid, spec_rewards_before, spec_winning, GetRelevance,
};
use std::cmp::Ordering;
use crate::solver::index::NodeId as ProfileNode;

verus! {

/// Identifier of a node inside the strategy solver.
#[derive(Clone, Copy, Debug, PartialEq, Eq, Structural, Hash, PartialOrd, Ord, Default)]
pub struct SNodeId(pub usize);

impl View for SNodeId {
    type V = int;

    open spec fn view(&self) -> int {
        self.0 as int
    }
}

/// The index of the special node won by player 0, where player 0 moves.
pub const SNODE_W0: usize = 0;
/// The index of the special node lost by player 0, where player 0 moves.
pub const SNODE_L0: usize = 1;
/// The index of the special node won by player 1, where player 1 moves.
pub const SNODE_W1: usize = 2;
/// The index of the special node lost by player 1, where player 1 moves.
pub const SNODE_L1: usize = 3;
/// The identifier that stands for no node.
pub const SNODE_INVALID: usize = usize::MAX;

/// The priority of a node.
#[derive(Clone, Copy, PartialEq, Eq, Structural)]
pub struct Priority(pub usize);

/// A set of indices of nodes.
pub type NodeSet = IndexSet<usize, FxBuildHasher>;

/// A parity game with a strategy for player 0 and the play profiles under it.
pub struct StrategySolver {
    node_to_snode: Vec<SNodeId>,
    snode_to_node: Vec<NodeId>,
    players: Vec<Player>,
    priorities: Vec<Priority>,
    preds: Vec<IndexSet<usize, FxBuildHasher>>,
    succs: Vec<IndexSet<usize, FxBuildHasher>>,
    strategy: Vec<SNodeId>,
    inverse_strategy: Vec<IndexSet<usize, FxBuildHasher>>,
    profiles: Vec<PlayProfile>,
    evaluated: Vec<bool>,
}

/// The node a node of `player` moves to when it has no other successor: the
/// special node won by the opponent.
pub open spec fn spec_default_succ(player: Player) -> usize {
    match player {
        Player::P0 => SNODE_W1,
        Player::P1 => SNODE_W0,
    }
}

impl StrategySolver {
    pub closed spec fn node_count(&self) -> nat {
        self.players@.len()
    }

    pub closed spec fn player_at(&self, u: int) -> Player {
        self.players@[u]
    }

    pub closed spec fn priority_at(&self, u: int) -> usize {
        self.priorities@[u].0
    }

    /// Whether the game has an edge from `u` to `v`.
    pub closed spec fn has_edge(&self, u: int, v: int) -> bool {
        set_items(self.succs@[u]).contains(v as usize)
    }

    /// The successor of `u` under the strategy.
    pub closed spec fn strategy_at(&self, u: int) -> int {
        self.strategy@[u].0 as int
    }

    /// The node that the solver gives out for the inner node `u`.
    pub closed spec fn node_of(&self, u: int) -> usize {
        self.snode_to_node@[u].0
    }

    /// The inner node of the node `m` given out, or `SNODE_INVALID`.
    pub closed spec fn snode_of(&self, m: int) -> usize {
        self.node_to_snode@[m].0
    }

    /// The only edge leaving `u` is the one to the special node that it moves
    /// to by default.
    pub closed spec fn only_default_edge(&self, u: int) -> bool {
        forall|y: int|
            0 <= y < self.node_count() ==> (#[trigger] self.has_edge(u, y) <==> y == spec_default_succ(
                self.player_at(u),
            ))
    }

    /// The number of predecessors of `v`.
    pub closed spec fn pred_count(&self, v: int) -> nat {
        set_items(self.preds@[v]).len()
    }

    pub closed spec fn given_count(&self) -> nat {
        self.node_to_snode@.len()
    }

    /// The graph is consistent: every node has successors and predecessors
    /// recorded on both ends, edges join nodes of different players, the
    /// strategy follows edges and its inverse is exact, the first four nodes
    /// are the special nodes W0, L0 (player 0) and W1, L1 (player 1), and the
    /// nodes given out and the inner nodes correspond.
    pub closed spec fn well_formed(&self) -> bool {
        let n = self.players@.len();
        &&& 4 <= n
        &&& self.snode_to_node@.len() == n
        &&& self.priorities@.len() == n
        &&& self.preds@.len() == n
        &&& self.succs@.len() == n
        &&& self.strategy@.len() == n
        &&& self.inverse_strategy@.len() == n
        &&& self.profiles@.len() == n
        &&& self.players@[0] == Player::P0 && self.players@[1] == Player::P0
        &&& self.players@[2] == Player::P1 && self.players@[3] == Player::P1
        &&& forall|u: int|
            0 <= u < n ==> {
                &&& set_items(#[trigger] self.succs@[u]).no_duplicates()
                &&& set_items(self.succs@[u]).len() >= 1
                &&& self.strategy@[u].0 < n
                &&& set_items(self.succs@[u]).contains(self.strategy@[u].0)
            }
        &&& forall|u: int| 0 <= u < n ==> set_items(#[trigger] self.preds@[u]).no_duplicates()
        &&& forall|u: int|
            0 <= u < n ==> set_items(#[trigger] self.inverse_strategy@[u]).no_duplicates()
        &&& forall|u: int, x: usize|
            0 <= u < n && #[trigger] set_items(self.succs@[u]).contains(x) ==> x < n
                && self.players@[x as int] != self.players@[u]
        &&& forall|v: int, x: usize|
            0 <= v < n && #[trigger] set_items(self.preds@[v]).contains(x) ==> x < n
        &&& forall|u: int, v: int|
            0 <= u < n && 0 <= v < n ==> (#[trigger] set_items(self.succs@[u]).contains(v as usize)
                <==> #[trigger] set_items(self.preds@[v]).contains(u as usize))
        &&& forall|v: int, x: usize|
            0 <= v < n ==> (#[trigger] set_items(self.inverse_strategy@[v]).contains(x) <==> (x < n
                && self.strategy@[x as int].0 == v))
        &&& forall|u: int|
            4 <= u < n ==> (#[trigger] self.snode_to_node@[u]).0 < self.node_to_snode@.len()
                && self.node_to_snode@[self.snode_to_node@[u].0 as int].0 == u
        &&& forall|m: int|
            0 <= m < self.node_to_snode@.len() ==> (#[trigger] self.node_to_snode@[m]).0 == SNODE_INVALID
                || (4 <= self.node_to_snode@[m].0 < n
                && self.snode_to_node@[self.node_to_snode@[m].0 as int].0 == m)
    }

    /// Every node that a play profile names is a node of the game.
    pub closed spec fn profiles_valid(&self) -> bool {
        let n = self.players@.len();
        &&& self.profiles@.len() == n
        &&& forall|u: int|
            0 <= u < n ==> (#[trigger] self.profiles@[u]).most_relevant.0 < n && forall|j: int|
                0 <= j < self.profiles@[u].relevant_before@.len()
                    ==> #[trigger] self.profiles@[u].relevant_before@[j].0 < n
    }

    /// The node a node of `player` moves to when it has no other successor.
    fn default_succ(player: Player) -> (r: SNodeId)
        ensures
            r.0 == spec_default_succ(player),
    {
        match player {
            Player::P0 => SNodeId(SNODE_W1),
            Player::P1 => SNodeId(SNODE_W0),
        }
    }
}

/// A set holding exactly `x`.
fn singleton(x: usize) -> (s: IndexSet<usize, FxBuildHasher>)
    ensures
        set_items(s) == seq![x],
{
    let mut s = set_new();
    set_insert(&mut s, x);
    proof {
        assert(Seq::<usize>::empty().push(x) =~= seq![x]);
    }
    s
}

impl PlayProfile {
    /// The profile of a play that stays on the special node won by the opponent.
    pub fn losing_for_player(player: Player) -> (r: Self)
        ensures
            r.most_relevant.0 == spec_default_succ(player),
            r.relevant_before@.len() == 0,
            r.count_before == 0,
    {
        let most_relevant = match player {
            Player::P0 => ProfileNode(SNODE_W1),
            Player::P1 => ProfileNode(SNODE_W0),
        };
        PlayProfile { most_relevant, relevant_before: Vec::new(), count_before: 0 }
    }

    /// Compares the play profiles of `n1` and `n2` as successors of `n0`: by
    /// the cycle alone where `n0` is the most relevant node of its own cycle,
    /// by the whole profile otherwise.
    pub fn compare(game: &StrategySolver, n0: SNodeId, n1: SNodeId, n2: SNodeId) -> (r: Ordering)
        requires
            game.well_formed(),
            game.profiles_valid(),
            n0.0 < game.node_count(),
            n1.0 < game.node_count(),
            n2.0 < game.node_count(),
        ensures
            r == game.order_at(n0@, n1@, n2@),
    {
        proof {
            game.lemma_profile_valid(n1@);
            game.lemma_profile_valid(n2@);
        }
        if game.profiles[n0.0].most_relevant.0 == n0.0 {
            game.profiles[n1.0].cmp_w(&game.profiles[n2.0], game)
        } else {
            game.profiles[n1.0].cmp(&game.profiles[n2.0], game)
        }
    }

    /// The player winning the play, by the priority of the most relevant node
    /// of its cycle in `game`.
    pub fn winner(&self, game: &StrategySolver) -> (r: Player)
        requires
            game.valid_node(self.most_relevant),
        ensures
            r == spec_winning(*self, game),
    {
        self.winning(game)
    }
}

impl GetRelevance for StrategySolver {
    closed spec fn valid_node(&self, u: ProfileNode) -> bool {
        u.0 < self.priorities@.len()
    }

    closed spec fn spec_relevance_of(&self, u: ProfileNode) -> Relevance {
        Relevance { priority: self.priorities@[u.0 as int].0, node: u }
    }

    fn relevance_of(&self, u: ProfileNode) -> (r: Relevance) {
        Relevance { priority: self.priorities[u.0].0, node: u }
    }
}

impl StrategySolver {
    /// A game with only the four special nodes.
    pub fn new() -> (r: Self)
        ensures
            r.well_formed(),
            r.profiles_valid(),
            r.node_count() == 4,
            r.given_count() == 0,
            r.priority_at(SNODE_W0 as int) == 0 && r.priority_at(SNODE_L0 as int) == 1,
            r.priority_at(SNODE_W1 as int) == 1 && r.priority_at(SNODE_L1 as int) == 0,
            forall|x: int, y: int|
                0 <= x < 4 && 0 <= y < 4 ==> (#[trigger] r.has_edge(x, y) <==> (x == SNODE_W0 && y == SNODE_L1)
                    || (x == SNODE_L1 && y == SNODE_W0) || (x == SNODE_L0 && y == SNODE_W1) || (x == SNODE_W1
                    && y == SNODE_L0)),
            r.strategy_at(SNODE_W0 as int) == SNODE_L1 && r.strategy_at(SNODE_L1 as int) == SNODE_W0,
            r.strategy_at(SNODE_L0 as int) == SNODE_W1 && r.strategy_at(SNODE_W1 as int) == SNODE_L0,
    {
        let mut snode_to_node: Vec<NodeId> = Vec::new();
        snode_to_node.push(NodeId(NODE_INVALID));
        snode_to_node.push(NodeId(NODE_INVALID));
        snode_to_node.push(NodeId(NODE_INVALID));
        snode_to_node.push(NodeId(NODE_INVALID));
        let mut players: Vec<Player> = Vec::new();
        players.push(Player::P0);
        players.push(Player::P0);
        players.push(Player::P1);
        players.push(Player::P1);
        let mut priorities: Vec<Priority> = Vec::new();
        priorities.push(Priority(0));
        priorities.push(Priority(1));
        priorities.push(Priority(1));
        priorities.push(Priority(0));
        let mut preds: Vec<IndexSet<usize, FxBuildHasher>> = Vec::new();
        preds.push(singleton(SNODE_L1));
        preds.push(singleton(SNODE_W1));
        preds.push(singleton(SNODE_L0));
        preds.push(singleton(SNODE_W0));
        let mut succs: Vec<IndexSet<usize, FxBuildHasher>> = Vec::new();
        succs.push(singleton(SNODE_L1));
        succs.push(singleton(SNODE_W1));
        succs.push(singleton(SNODE_L0));
        succs.push(singleton(SNODE_W0));
        let mut strategy: Vec<SNodeId> = Vec::new();
        strategy.push(SNodeId(SNODE_L1));
        strategy.push(SNodeId(SNODE_W1));
        strategy.push(SNodeId(SNODE_L0));
        strategy.push(SNodeId(SNODE_W0));
        let mut inverse_strategy: Vec<IndexSet<usize, FxBuildHasher>> = Vec::new();
        inverse_strategy.push(singleton(SNODE_L1));
        inverse_strategy.push(singleton(SNODE_W1));
        inverse_strategy.push(singleton(SNODE_L0));
        inverse_strategy.push(singleton(SNODE_W0));
        let mut profiles: Vec<PlayProfile> = Vec::new();
        profiles.push(PlayProfile { most_relevant: ProfileNode(0), relevant_before: Vec::new(), count_before: 0 });
        profiles.push(PlayProfile { most_relevant: ProfileNode(0), relevant_before: Vec::new(), count_before: 0 });
        profiles.push(PlayProfile { most_relevant: ProfileNode(0), relevant_before: Vec::new(), count_before: 0 });
        profiles.push(PlayProfile { most_relevant: ProfileNode(0), relevant_before: Vec::new(), count_before: 0 });
        let r = StrategySolver {
            node_to_snode: Vec::new(),
            snode_to_node,
            players,
            priorities,
            preds,
            succs,
            strategy,
            inverse_strategy,
            profiles,
            evaluated: Vec::new(),
        };
        proof {
            assert forall|u: int, x: usize|
                0 <= u < 4 && #[trigger] set_items(r.succs@[u]).contains(x) implies x < 4
                && r.players@[x as int] != r.players@[u] by {
                assert(set_items(r.succs@[u])[0] == x);
            }
            assert forall|v: int, x: usize|
                0 <= v < 4 && #[trigger] set_items(r.preds@[v]).contains(x) implies x < 4 by {
                assert(set_items(r.preds@[v])[0] == x);
            }
            assert forall|u: int, v: int|
                0 <= u < 4 && 0 <= v < 4 implies (#[trigger] set_items(r.succs@[u]).contains(v as usize)
                <==> #[trigger] set_items(r.preds@[v]).contains(u as usize)) by {
                if set_items(r.succs@[u]).contains(v as usize) {
                    assert(set_items(r.succs@[u])[0] == v);
                }
                if set_items(r.preds@[v]).contains(u as usize) {
                    assert(set_items(r.preds@[v])[0] == u);
                }
                assert(set_items(r.succs@[u])[0] == 3 - u);
                assert(set_items(r.preds@[v])[0] == 3 - v);
            }
            assert forall|v: int, x: usize|
                0 <= v < 4 implies (#[trigger] set_items(r.inverse_strategy@[v]).contains(x) <==> (x < 4
                && r.strategy@[x as int].0 == v)) by {
                if set_items(r.inverse_strategy@[v]).contains(x) {
                    assert(set_items(r.inverse_strategy@[v])[0] == x);
                }
                if x < 4 && r.strategy@[x as int].0 == v {
                    assert(set_items(r.inverse_strategy@[v])[0] == x);
                }
            }
            assert forall|u: int| 0 <= u < 4 implies set_items(#[trigger] r.succs@[u]).contains(
                r.strategy@[u].0,
            ) by {
                assert(set_items(r.succs@[u])[0] == r.strategy@[u].0);
            }
        }
        r
    }
}

impl StrategySolver {
    /// The other parts of the solver are left as they were.
    pub closed spec fn same_nodes(&self, other: &Self) -> bool {
        &&& self.players@ == other.players@
        &&& self.priorities@ == other.priorities@
        &&& self.snode_to_node@ == other.snode_to_node@
        &&& self.node_to_snode@ == other.node_to_snode@
        &&& self.profiles@ == other.profiles@
    }

    /// Removes the edge from `u` to `v`. A node left without successors moves
    /// to the special node won by its opponent; a node whose strategy used the
    /// edge moves to one of its remaining successors.
    fn remove_edge(&mut self, u: SNodeId, v: SNodeId)
        requires
            old(self).well_formed(),
            u.0 < old(self).node_count(),
            v.0 < old(self).node_count(),
        ensures
            final(self).well_formed(),
            final(self).same_nodes(old(self)),
            forall|x: int, y: int|
                0 <= x < old(self).node_count() && 0 <= y < old(self).node_count() && x != u.0
                    ==> #[trigger] final(self).has_edge(x, y) == old(self).has_edge(x, y),
            forall|y: int|
                0 <= y < old(self).node_count() ==> #[trigger] final(self).has_edge(u.0 as int, y) == if (
                exists|z: int|
                    0 <= z < old(self).node_count() && z != v.0 && #[trigger] old(self).has_edge(
                        u.0 as int,
                        z,
                    )) {
                    old(self).has_edge(u.0 as int, y) && y != v.0
                } else {
                    y == spec_default_succ(old(self).player_at(u.0 as int))
                },
            forall|x: int|
                0 <= x < old(self).node_count() && (x != u.0 || old(self).strategy_at(x) != v.0)
                    ==> #[trigger] final(self).strategy_at(x) == old(self).strategy_at(x),
            old(self).has_edge(u.0 as int, v.0 as int) && v.0 != spec_default_succ(
                old(self).player_at(u.0 as int),
            ) ==> final(self).pred_count(v.0 as int) < old(self).pred_count(v.0 as int),
    {
        let ghost old_self = *self;
        let ghost n = self.players@.len();
        assert(n == self.players.len());
        let (u, v) = (u.0, v.0);
        proof {
            old_self.lemma_edge(u as int, v as int);
        }
        remove_from(&mut self.preds[v], u);
        let ghost preds_v = self.preds@[v as int];
        remove_from(&mut self.succs[u], v);
        let ghost mid_succs = self.succs@;
        let ghost mid_preds = self.preds@;
        if set_len(&self.succs[u]) == 0 {
            let d = Self::default_succ(self.players[u]).0;
            insert_into(&mut self.succs[u], d);
            insert_into(&mut self.preds[d], u);
            proof {
                assert forall|z: int|
                    0 <= z < n && z != v && #[trigger] old_self.has_edge(u as int, z) implies false by {
                    assert(set_items(mid_succs[u as int]).contains(z as usize));
                }
            }
        } else {
            proof {
                let z0 = set_items(self.succs@[u as int])[0];
                assert(set_items(self.succs@[u as int]).contains(z0));
                assert(old_self.has_edge(u as int, z0 as int) && z0 != v);
            }
        }
        let ghost edges_done = *self;
        proof {
            assert forall|y: usize| #[trigger] set_items(self.succs@[u as int]).contains(y) implies y < n by {
                if y != spec_default_succ(self.players@[u as int]) {
                    assert(set_items(old_self.succs@[u as int]).contains(y));
                }
            }
        }
        proof {
            assert(set_items(self.succs@[u as int]).len() >= 1) by {
                if set_items(self.succs@[u as int]).len() == 0 {
                    assert(set_items(self.succs@[u as int]).contains(
                        spec_default_succ(self.players@[u as int]),
                    ));
                }
            }
        }
        if self.strategy[u].0 == v {
            let w = set_index(&self.succs[u], 0);
            assert(set_items(self.succs@[u as int]).contains(w));
            self.strategy.set(u, SNodeId(w));
            remove_from(&mut self.inverse_strategy[v], u);
            insert_into(&mut self.inverse_strategy[w], u);
            proof {
                assert(set_items(self.succs@[u as int]).contains(w));
            }
        }
        proof {
            assert forall|x: int, y: int|
                0 <= x < n && 0 <= y < n && x != u implies #[trigger] self.has_edge(x, y)
                == old_self.has_edge(x, y) by {
                assert(self.succs@[x] == old_self.succs@[x]);
            }
            assert forall|x: int, y: usize|
                0 <= x < n && #[trigger] set_items(self.succs@[x]).contains(y) implies y < n
                && self.players@[y as int] != self.players@[x] by {
                if x != u {
                    assert(self.succs@[x] == old_self.succs@[x]);
                } else if y != spec_default_succ(self.players@[u as int]) {
                    assert(set_items(old_self.succs@[x]).contains(y));
                }
            }
            assert forall|x: int, y: usize|
                0 <= x < n && #[trigger] set_items(self.preds@[x]).contains(y) implies y < n by {
                if !set_items(old_self.preds@[x]).contains(y) {
                    assert(y == u);
                }
            }
            assert forall|a: int, b: int|
                0 <= a < n && 0 <= b < n implies (#[trigger] set_items(self.succs@[a]).contains(
                b as usize,
            ) <==> #[trigger] set_items(self.preds@[b]).contains(a as usize)) by {
                assert(set_items(old_self.succs@[a]).contains(b as usize) <==> set_items(
                    old_self.preds@[b],
                ).contains(a as usize));
                if a != u {
                    assert(self.succs@[a] == old_self.succs@[a]);
                }
            }
            assert forall|x: int|
                0 <= x < n implies {
                &&& set_items(#[trigger] self.succs@[x]).no_duplicates()
                &&& set_items(self.succs@[x]).len() >= 1
                &&& self.strategy@[x].0 < n
                &&& set_items(self.succs@[x]).contains(self.strategy@[x].0)
            } by {
                if x != u {
                    assert(self.succs@[x] == old_self.succs@[x]);
                    assert(self.strategy@[x] == old_self.strategy@[x]);
                } else {
                    assert(self.succs@[x] == edges_done.succs@[x]);
                    if self.strategy@[x] == old_self.strategy@[x] {
                        assert(set_items(old_self.succs@[x]).contains(self.strategy@[x].0));
                    }
                }
            }
            assert forall|a: int, x: usize|
                0 <= a < n implies (#[trigger] set_items(self.inverse_strategy@[a]).contains(x) <==> (x
                < n && self.strategy@[x as int].0 == a)) by {
                if x < n && x != u {
                    assert(self.strategy@[x as int] == old_self.strategy@[x as int]);
                }
            }
            assert forall|x: int|
                0 <= x < n && (x != u || old_self.strategy_at(x) != v) implies #[trigger] self.strategy_at(
                x,
            ) == old_self.strategy_at(x) by {}
            if old_self.has_edge(u as int, v as int) && v != spec_default_succ(
                old_self.player_at(u as int),
            ) {
                assert(self.preds@[v as int] == preds_v);
            }
        }
    }
}


impl StrategySolver {
    /// Adds the edge from `u` to `v`. The first real edge of a node replaces
    /// the edge to the special node it moves to by default.
    pub fn add_edge(&mut self, u: SNodeId, v: SNodeId)
        requires
            old(self).well_formed(),
            u.0 < old(self).node_count(),
            v.0 < old(self).node_count(),
            old(self).player_at(u.0 as int) != old(self).player_at(v.0 as int),
        ensures
            final(self).well_formed(),
            final(self).same_nodes(old(self)),
            forall|x: int, y: int|
                0 <= x < old(self).node_count() && 0 <= y < old(self).node_count() && x != u.0
                    ==> #[trigger] final(self).has_edge(x, y) == old(self).has_edge(x, y),
            forall|y: int|
                0 <= y < old(self).node_count() ==> #[trigger] final(self).has_edge(u.0 as int, y)
                    == if old(self).only_default_edge(u.0 as int) {
                    y == v.0
                } else {
                    old(self).has_edge(u.0 as int, y) || y == v.0
                },
            final(self).strategy_at(u.0 as int) == if old(self).only_default_edge(u.0 as int) {
                v.0 as int
            } else {
                old(self).strategy_at(u.0 as int)
            },
            forall|x: int|
                0 <= x < old(self).node_count() && x != u.0 ==> #[trigger] final(self).strategy_at(x)
                    == old(self).strategy_at(x),
    {
        let ghost old_self = *self;
        let ghost n = self.players@.len();
        assert(n == self.players.len());
        let d = Self::default_succ(self.players[u.0]);
        let first_edge = set_len(&self.succs[u.0]) == 1 && set_index(&self.succs[u.0], 0) == d.0;
        proof {
            assert(first_edge == old_self.only_default_edge(u.0 as int)) by {
                let su = set_items(old_self.succs@[u.0 as int]);
                if old_self.only_default_edge(u.0 as int) {
                    assert(su.len() >= 1);
                    assert(su.contains(su[0]));
                    assert(old_self.has_edge(u.0 as int, su[0] as int));
                    if su.len() > 1 {
                        assert(su.contains(su[1]));
                        assert(old_self.has_edge(u.0 as int, su[1] as int));
                        assert(su[0] != su[1]);
                    }
                }
                if first_edge {
                    assert forall|y: int| 0 <= y < n implies (#[trigger] old_self.has_edge(u.0 as int, y)
                        <==> y == d.0) by {
                        if old_self.has_edge(u.0 as int, y) {
                            let j = choose|j: int| 0 <= j < su.len() && su[j] == y as usize;
                            assert(j == 0);
                        }
                        assert(su[0] == d.0);
                    }
                }
            }
        }
        insert_into(&mut self.preds[v.0], u.0);
        insert_into(&mut self.succs[u.0], v.0);
        proof {
            assert forall|x: int, y: usize|
                0 <= x < n && #[trigger] set_items(self.succs@[x]).contains(y) implies y < n
                && self.players@[y as int] != self.players@[x] by {
                if x != u.0 || y != v.0 {
                    assert(set_items(old_self.succs@[x]).contains(y));
                }
            }
            assert forall|x: int, y: usize|
                0 <= x < n && #[trigger] set_items(self.preds@[x]).contains(y) implies y < n by {
                if x != v.0 || y != u.0 {
                    assert(set_items(old_self.preds@[x]).contains(y));
                }
            }
            assert forall|a: int, b: int|
                0 <= a < n && 0 <= b < n implies (#[trigger] set_items(self.succs@[a]).contains(
                b as usize,
            ) <==> #[trigger] set_items(self.preds@[b]).contains(a as usize)) by {
                assert(set_items(old_self.succs@[a]).contains(b as usize) <==> set_items(
                    old_self.preds@[b],
                ).contains(a as usize));
            }
            assert forall|x: int|
                0 <= x < n implies {
                &&& set_items(#[trigger] self.succs@[x]).no_duplicates()
                &&& set_items(self.succs@[x]).len() >= 1
                &&& self.strategy@[x].0 < n
                &&& set_items(self.succs@[x]).contains(self.strategy@[x].0)
            } by {
                assert(set_items(old_self.succs@[x]).contains(self.strategy@[x].0));
                assert(set_items(self.succs@[x]).contains(self.strategy@[x].0));
            }
        }
        let ghost added = *self;
        if first_edge {
            self.remove_edge(u, d);
        }
        proof {
            if first_edge {
                assert(added.has_edge(u.0 as int, v.0 as int));
                if v.0 != d.0 {
                    assert(old_self.strategy_at(u.0 as int) == d.0) by {
                        assert(old_self.has_edge(u.0 as int, old_self.strategy_at(u.0 as int)));
                    }
                    assert(exists|z: int|
                        0 <= z < n && z != d.0 && #[trigger] added.has_edge(u.0 as int, z));
                    assert forall|y: int| 0 <= y < n implies #[trigger] self.has_edge(u.0 as int, y)
                        == (y == v.0) by {}
                    let w = self.strategy_at(u.0 as int);
                    assert(set_items(self.succs@[u.0 as int]).len() >= 1);
                    assert(0 <= w < n);
                    assert(self.has_edge(u.0 as int, w));
                    assert(w == v.0);
                } else {
                    assert forall|z: int| 0 <= z < n && z != d.0 implies !#[trigger] added.has_edge(
                        u.0 as int,
                        z,
                    ) by {}
                    assert(old_self.has_edge(u.0 as int, old_self.strategy_at(u.0 as int)));
                    let w = self.strategy_at(u.0 as int);
                    assert(set_items(self.succs@[u.0 as int]).len() >= 1);
                    assert(0 <= w < n);
                    assert(self.has_edge(u.0 as int, w));
                    assert(w == d.0);
                }
            }
        }
    }
}


impl StrategySolver {
    /// Adds a node of `player` with the given priority. It starts with a single
    /// edge, to the special node won by its opponent, which is also its strategy.
    #[verifier::spinoff_prover]
    pub fn add_node(&mut self, player: Player, priority: usize) -> (r: NodeId)
        requires
            old(self).well_formed(),
            old(self).node_count() < usize::MAX,
            old(self).given_count() < usize::MAX,
        ensures
            final(self).well_formed(),
            old(self).profiles_valid() ==> final(self).profiles_valid(),
            final(self).node_count() == old(self).node_count() + 1,
            final(self).given_count() == old(self).given_count() + 1,
            r.0 == old(self).given_count(),
            final(self).snode_of(r.0 as int) == old(self).node_count(),
            final(self).node_of(old(self).node_count() as int) == r.0,
            final(self).player_at(old(self).node_count() as int) == player,
            final(self).priority_at(old(self).node_count() as int) == priority,
            final(self).strategy_at(old(self).node_count() as int) == spec_default_succ(player),
            forall|y: int|
                0 <= y < final(self).node_count() ==> #[trigger] final(self).has_edge(
                    old(self).node_count() as int,
                    y,
                ) == (y == spec_default_succ(player)),
            forall|x: int|
                0 <= x < old(self).node_count() ==> {
                    &&& #[trigger] final(self).player_at(x) == old(self).player_at(x)
                    &&& final(self).priority_at(x) == old(self).priority_at(x)
                    &&& final(self).strategy_at(x) == old(self).strategy_at(x)
                    &&& final(self).node_of(x) == old(self).node_of(x)
                    &&& !final(self).has_edge(x, old(self).node_count() as int)
                },
            forall|x: int, y: int|
                0 <= x < old(self).node_count() && 0 <= y < old(self).node_count()
                    ==> #[trigger] final(self).has_edge(x, y) == old(self).has_edge(x, y),
            forall|m: int|
                0 <= m < old(self).given_count() ==> #[trigger] final(self).snode_of(m)
                    == old(self).snode_of(m),
    {
        let ghost old_self = *self;
        let ghost n = self.players@.len();
        assert(n == self.players.len());
        let node = NodeId(self.node_to_snode.len());
        self.node_to_snode.push(SNodeId(SNODE_INVALID));
        let snode = self.snode_to_node.len();
        self.snode_to_node.push(node);
        self.node_to_snode.set(node.0, SNodeId(snode));
        self.players.push(player);
        self.priorities.push(Priority(priority));
        self.preds.push(set_new());
        self.succs.push(set_new());
        let d = Self::default_succ(player);
        insert_into(&mut self.preds[d.0], snode);
        insert_into(&mut self.succs[snode], d.0);
        self.strategy.push(d);
        insert_into(&mut self.inverse_strategy[d.0], snode);
        self.inverse_strategy.push(set_new());
        self.profiles.push(PlayProfile::losing_for_player(player));
        proof {
            let n1 = n + 1;
            assert(set_items(self.succs@[n as int]).contains(d.0));
            assert forall|x: int, y: usize|
                0 <= x < n1 && #[trigger] set_items(self.succs@[x]).contains(y) implies y < n1
                && self.players@[y as int] != self.players@[x] by {
                if x < n {
                    assert(self.succs@[x] == old_self.succs@[x]);
                }
            }
            assert forall|x: int, y: usize|
                0 <= x < n1 && #[trigger] set_items(self.preds@[x]).contains(y) implies y < n1 by {
                if x < n && (x != d.0 || y != n) {
                    assert(set_items(old_self.preds@[x]).contains(y));
                }
            }
            assert forall|a: int, b: int|
                0 <= a < n1 && 0 <= b < n1 implies (#[trigger] set_items(self.succs@[a]).contains(
                b as usize,
            ) <==> #[trigger] set_items(self.preds@[b]).contains(a as usize)) by {
                if a < n && b < n {
                    assert(self.succs@[a] == old_self.succs@[a]);
                    assert(set_items(old_self.succs@[a]).contains(b as usize) <==> set_items(
                        old_self.preds@[b],
                    ).contains(a as usize));
                } else if a == n {
                } else {
                    assert(self.succs@[a] == old_self.succs@[a]);
                    assert(!set_items(self.preds@[b]).contains(a as usize));
                    if set_items(self.succs@[a]).contains(b as usize) {
                        assert(b < n);
                    }
                }
            }
            assert forall|x: int| 0 <= x < n1 implies {
                &&& set_items(#[trigger] self.succs@[x]).no_duplicates()
                &&& set_items(self.succs@[x]).len() >= 1
                &&& self.strategy@[x].0 < n1
                &&& set_items(self.succs@[x]).contains(self.strategy@[x].0)
            } by {
                if x < n {
                    assert(self.succs@[x] == old_self.succs@[x]);
                }
            }
            assert forall|x: int| 0 <= x < n1 implies set_items(#[trigger] self.preds@[x]).no_duplicates() by {
                if x == n {
                    assert(set_items(self.preds@[x]) =~= Seq::<usize>::empty());
                }
            }
            assert forall|x: int| 0 <= x < n1 implies set_items(#[trigger] self.inverse_strategy@[x]).no_duplicates() by {
                if x == n {
                    assert(set_items(self.inverse_strategy@[x]) =~= Seq::<usize>::empty());
                }
            }
            assert forall|a: int, x: usize|
                0 <= a < n1 implies (#[trigger] set_items(self.inverse_strategy@[a]).contains(x) <==> (x
                < n1 && self.strategy@[x as int].0 == a)) by {
                if a < n {
                    assert(set_items(old_self.inverse_strategy@[a]).contains(x) <==> (x < n
                        && old_self.strategy@[x as int].0 == a));
                    if x < n {
                        assert(self.strategy@[x as int] == old_self.strategy@[x as int]);
                    }
                    if a != d.0 {
                        assert(self.inverse_strategy@[a] == old_self.inverse_strategy@[a]);
                    }
                } else {
                    assert(set_items(self.inverse_strategy@[a]) =~= Seq::<usize>::empty());
                    if x < n {
                        assert(set_items(old_self.succs@[x as int]).len() >= 1);
                        assert(self.strategy@[x as int] == old_self.strategy@[x as int]);
                    }
                }
            }
            assert forall|u: int| 4 <= u < n1 implies (#[trigger] self.snode_to_node@[u]).0
                < self.node_to_snode@.len() && self.node_to_snode@[self.snode_to_node@[u].0 as int].0 == u by {
                if u < n {
                    assert(old_self.node_to_snode@[old_self.snode_to_node@[u].0 as int].0 == u);
                }
            }
            assert forall|m: int|
                0 <= m < self.node_to_snode@.len() implies (#[trigger] self.node_to_snode@[m]).0
                == SNODE_INVALID || (4 <= self.node_to_snode@[m].0 < n1
                && self.snode_to_node@[self.node_to_snode@[m].0 as int].0 == m) by {
                if m < old_self.node_to_snode@.len() {
                    assert(old_self.node_to_snode@[m] == self.node_to_snode@[m]);
                }
            }
            if old_self.profiles_valid() {
                assert forall|u: int| 0 <= u < n1 implies (#[trigger] self.profiles@[u]).most_relevant.0 < n1
                    && forall|j: int| 0 <= j < self.profiles@[u].relevant_before@.len()
                        ==> #[trigger] self.profiles@[u].relevant_before@[j].0 < n1 by {
                    if u < n {
                        assert(self.profiles@[u] == old_self.profiles@[u]);
                    }
                }
            }
            assert forall|x: int| 0 <= x < n implies !self.has_edge(x, n as int) by {
                assert(self.succs@[x] == old_self.succs@[x]);
            }
            assert forall|x: int, y: int| 0 <= x < n && 0 <= y < n implies #[trigger] self.has_edge(x, y)
                == old_self.has_edge(x, y) by {
                assert(self.succs@[x] == old_self.succs@[x]);
            }
            assert forall|y: int| 0 <= y < n1 implies #[trigger] self.has_edge(n as int, y) == (y
                == spec_default_succ(player)) by {
            }
            assert(self.well_formed());
        }
        node
    }
}


impl StrategySolver {
    /// How the profiles of `a` and `b` compare as successors of `x`: without
    /// the path length when `x` is the most relevant node of its own cycle.
    pub open spec fn order_at(&self, x: int, a: int, b: int) -> Ordering {
        if self.profile_at(x).most_relevant.0 == x {
            profile_order_w(self.profile_at(a), self.profile_at(b), self)
        } else {
            profile_order(self.profile_at(a), self.profile_at(b), self)
        }
    }

    /// `b` is a better successor of `x` than `a` for player 0.
    pub open spec fn improves_at(&self, x: int, a: int, b: int) -> bool {
        self.order_at(x, a, b) == Ordering::Less
    }

    /// The play profile recorded for `u`.
    pub closed spec fn profile_at(&self, u: int) -> PlayProfile {
        self.profiles@[u]
    }

    proof fn lemma_profile_valid(&self, u: int)
        requires
            self.well_formed(),
            self.profiles_valid(),
            0 <= u < self.node_count(),
        ensures
            profile_valid(self.profile_at(u), self),
    {
        assert(self.profiles@[u].most_relevant.0 < self.node_count());
    }

    /// Makes `v`, a successor of `u`, the strategy of `u`.
    pub fn update_strategy(&mut self, u: SNodeId, v: SNodeId)
        requires
            old(self).well_formed(),
            u.0 < old(self).node_count(),
            old(self).has_edge(u.0 as int, v.0 as int),
        ensures
            final(self).well_formed(),
            final(self).same_nodes(old(self)),
            forall|x: int, y: int| #[trigger] final(self).has_edge(x, y) == old(self).has_edge(x, y),
            final(self).strategy_at(u.0 as int) == v.0,
            forall|x: int|
                0 <= x < old(self).node_count() && x != u.0 ==> #[trigger] final(self).strategy_at(x)
                    == old(self).strategy_at(x),
    {
        let ghost old_self = *self;
        let ghost n = self.players@.len();
        assert(n == self.players.len());
        let (u, v) = (u.0, v.0);
        assert(set_items(self.succs@[u as int]).contains(v));
        let old_v = self.strategy[u].0;
        if old_v != v {
            self.strategy.set(u, SNodeId(v));
            remove_from(&mut self.inverse_strategy[old_v], u);
            insert_into(&mut self.inverse_strategy[v], u);
        }
        proof {
            assert forall|x: int| 0 <= x < n implies {
                &&& set_items(#[trigger] self.succs@[x]).no_duplicates()
                &&& set_items(self.succs@[x]).len() >= 1
                &&& self.strategy@[x].0 < n
                &&& set_items(self.succs@[x]).contains(self.strategy@[x].0)
            } by {
                assert(set_items(old_self.succs@[x]).len() >= 1);
            }
            assert forall|a: int, x: usize|
                0 <= a < n implies (#[trigger] set_items(self.inverse_strategy@[a]).contains(x) <==> (x
                < n && self.strategy@[x as int].0 == a)) by {
                assert(set_items(old_self.inverse_strategy@[a]).contains(x) <==> (x < n
                    && old_self.strategy@[x as int].0 == a));
                if x < n && x != u {
                    assert(self.strategy@[x as int] == old_self.strategy@[x as int]);
                }
            }
        }
    }

    /// Whether `n2` is a better successor of `n0` than `n1` for player 0.
    fn improves_on(&self, n0: SNodeId, n1: SNodeId, n2: SNodeId) -> (r: bool)
        requires
            self.well_formed(),
            self.profiles_valid(),
            n0.0 < self.node_count(),
            n1.0 < self.node_count(),
            n2.0 < self.node_count(),
        ensures
            r == self.improves_at(n0@, n1@, n2@),
    {
        match PlayProfile::compare(self, n0, n1, n2) {
            Ordering::Less => true,
            _ => false,
        }
    }
}


impl StrategySolver {
    /// Two solvers with the same priorities and profiles compare successors alike.
    proof fn lemma_same_order(&self, other: &Self, x: int, a: int, b: int)
        requires
            self.well_formed(),
            other.same_nodes(self),
            0 <= x < self.node_count(),
            0 <= a < self.node_count(),
            0 <= b < self.node_count(),
        ensures
            other.improves_at(x, a, b) == self.improves_at(x, a, b),
    {
        let pa = self.profiles@[a];
        let pb = self.profiles@[b];
        assert(spec_rewards_before(pa, self) =~= spec_rewards_before(pa, other));
        assert(spec_rewards_before(pb, self) =~= spec_rewards_before(pb, other));
    }

    /// The order of successors is a strict order: irreflexive, asymmetric and
    /// transitive.
    proof fn lemma_improves_order(&self, x: int, a: int, b: int, c: int)
        requires
            self.well_formed(),
            0 <= x < self.node_count(),
            0 <= a < self.node_count(),
            0 <= b < self.node_count(),
            0 <= c < self.node_count(),
        ensures
            !self.improves_at(x, a, a),
            self.improves_at(x, a, b) ==> !self.improves_at(x, b, a),
            self.improves_at(x, a, b) && self.improves_at(x, b, c) ==> self.improves_at(x, a, c),
    {
        let (pa, pb, pc) = (self.profiles@[a], self.profiles@[b], self.profiles@[c]);
        profile_order_reflexive(pa, self);
        profile_order_w_reflexive(pa, self);
        profile_order_antisymmetric(pa, pb, self);
        profile_order_w_antisymmetric(pa, pb, self);
        if profile_order(pa, pb, self) == Ordering::Less && profile_order(pb, pc, self) == Ordering::Less {
            profile_order_transitive(pa, pb, pc, self);
        }
        if profile_order_w(pa, pb, self) == Ordering::Less && profile_order_w(pb, pc, self)
            == Ordering::Less {
            profile_order_w_transitive(pa, pb, pc, self);
        }
    }
}


impl StrategySolver {
    /// One step of strategy improvement: every node of player 0 switches its
    /// strategy to its best successor according to the current play profiles.
    /// Tells whether some node of player 0 had a successor better than its
    /// strategy.
    pub fn improve(&mut self) -> (improved: bool)
        requires
            old(self).well_formed(),
            old(self).profiles_valid(),
        ensures
            final(self).well_formed(),
            final(self).profiles_valid(),
            final(self).same_nodes(old(self)),
            forall|x: int, y: int| #[trigger] final(self).has_edge(x, y) == old(self).has_edge(x, y),
            forall|x: int|
                0 <= x < old(self).node_count() && old(self).player_at(x) == Player::P1
                    ==> #[trigger] final(self).strategy_at(x) == old(self).strategy_at(x),
            forall|x: int, y: int|
                0 <= x < old(self).node_count() && 0 <= y < old(self).node_count()
                    && old(self).player_at(x) == Player::P0 && #[trigger] old(self).has_edge(x, y)
                    ==> !old(self).improves_at(x, final(self).strategy_at(x), y),
            forall|x: int|
                0 <= x < old(self).node_count() && old(self).player_at(x) == Player::P0
                    && #[trigger] final(self).strategy_at(x) != old(self).strategy_at(x)
                    ==> old(self).improves_at(x, old(self).strategy_at(x), final(self).strategy_at(x)),
            improved == exists|x: int, y: int|
                0 <= x < old(self).node_count() && 0 <= y < old(self).node_count()
                    && old(self).player_at(x) == Player::P0 && #[trigger] old(self).has_edge(x, y)
                    && old(self).improves_at(x, old(self).strategy_at(x), y),
    {
        let ghost old_self = *self;
        let ghost n = self.players@.len();
        let len = self.players.len();
        let mut improved = false;
        let mut u: usize = 0;
        while u < len
            invariant
                len == n,
                n == old_self.node_count(),
                0 <= u <= n,
                old_self.well_formed(),
                self.well_formed(),
                self.profiles_valid(),
                self.same_nodes(&old_self),
                self.node_count() == n,
                forall|x: int, y: int| #[trigger] self.has_edge(x, y) == old_self.has_edge(x, y),
                forall|x: int| u <= x < n ==> #[trigger] self.strategy_at(x) == old_self.strategy_at(x),
                forall|x: int|
                    0 <= x < u && old_self.player_at(x) == Player::P1
                        ==> #[trigger] self.strategy_at(x) == old_self.strategy_at(x),
                forall|x: int, y: int|
                    0 <= x < u && 0 <= y < n && old_self.player_at(x) == Player::P0
                        && #[trigger] old_self.has_edge(x, y)
                        ==> !old_self.improves_at(x, self.strategy_at(x), y),
                forall|x: int|
                    0 <= x < u && old_self.player_at(x) == Player::P0
                        && #[trigger] self.strategy_at(x) != old_self.strategy_at(x)
                        ==> old_self.improves_at(x, old_self.strategy_at(x), self.strategy_at(x)),
                improved == exists|x: int, y: int|
                    0 <= x < u && 0 <= y < n && old_self.player_at(x) == Player::P0
                        && #[trigger] old_self.has_edge(x, y)
                        && old_self.improves_at(x, old_self.strategy_at(x), y),
            decreases len - u,
        {
            let is_p0 = match self.players[u] {
                Player::P0 => true,
                Player::P1 => false,
            };
            if is_p0 {
                let ghost cur = *self;
                let v = self.strategy[u];
                proof {
                    assert(set_items(self.succs@[u as int]).len() >= 1);
                    assert(self.strategy_at(u as int) == old_self.strategy_at(u as int));
                }
                let mut best = v;
                proof {
                    assert(cur.has_edge(u as int, v@));
                }
                let succs = set_to_vec(&self.succs[u]);
                let ghost improved0 = improved;
                let mut i: usize = 0;
                while i < succs.len()
                    invariant
                        *self == cur,
                        cur.well_formed(),
                        cur.profiles_valid(),
                        cur.same_nodes(&old_self),
                        old_self.well_formed(),
                        n == old_self.node_count(),
                        cur.node_count() == n,
                        0 <= u < n,
                        old_self.player_at(u as int) == Player::P0,
                        v@ == old_self.strategy_at(u as int),
                        0 <= v@ < n,
                        succs@ == set_items(cur.succs@[u as int]),
                        0 <= i <= succs.len(),
                        0 <= best@ < n,
                        cur.has_edge(u as int, best@),
                        best == v || old_self.improves_at(u as int, v@, best@),
                        best != v ==> improved,
                        forall|j: int|
                            0 <= j < i ==> !old_self.improves_at(u as int, best@, #[trigger] succs@[j] as int),
                        improved == (improved0 || exists|j: int|
                            0 <= j < i && old_self.improves_at(u as int, v@, #[trigger] succs@[j] as int)),
                    decreases succs.len() - i,
                {
                    let w = succs[i];
                    proof {
                        assert(set_items(cur.succs@[u as int]).contains(w));
                        old_self.lemma_improves_order(u as int, v@, best@, w as int);
                        old_self.lemma_improves_order(u as int, best@, w as int, v@);
                        old_self.lemma_improves_order(u as int, v@, w as int, best@);
                    }
                    if w != v.0 {
                        proof {
                            old_self.lemma_same_order(&cur, u as int, best@, w as int);
                        }
                        if self.improves_on(SNodeId(u), best, SNodeId(w)) {
                            proof {
                                old_self.lemma_improves_order(u as int, w as int, w as int, w as int);
                                assert forall|j: int| 0 <= j < i implies !old_self.improves_at(
                                    u as int,
                                    w as int,
                                    #[trigger] succs@[j] as int,
                                ) by {
                                    assert(set_items(cur.succs@[u as int]).contains(succs@[j]));
                                    old_self.lemma_improves_order(u as int, best@, w as int, succs@[j] as int);
                                }
                                if best != v {
                                    old_self.lemma_improves_order(u as int, v@, best@, w as int);
                                }
                            }
                            best = SNodeId(w);
                            improved = true;
                        }
                    } else {
                        proof {
                            if best != v {
                                old_self.lemma_improves_order(u as int, v@, best@, v@);
                            }
                        }
                    }
                    proof {
                        assert(improved == (improved0 || exists|j: int|
                            0 <= j < i + 1 && old_self.improves_at(u as int, v@, #[trigger] succs@[j] as int))) by {
                            if improved0 || exists|j: int|
                                0 <= j < i && old_self.improves_at(u as int, v@, #[trigger] succs@[j] as int) {
                            } else if old_self.improves_at(u as int, v@, w as int) {
                                assert(improved);
                            }
                        }
                    }
                    i = i + 1;
                }
                proof {
                    assert forall|y: int| 0 <= y < n && #[trigger] old_self.has_edge(u as int, y)
                        implies !old_self.improves_at(u as int, best@, y) by {
                        assert(cur.has_edge(u as int, y));
                        let j = choose|j: int| 0 <= j < succs@.len() && succs@[j] == y as usize;
                        assert(succs@[j] as int == y);
                    }
                    assert(improved == (improved0 || exists|y: int|
                        0 <= y < n && #[trigger] old_self.has_edge(u as int, y)
                            && old_self.improves_at(u as int, old_self.strategy_at(u as int), y))) by {
                        if exists|j: int|
                            0 <= j < succs@.len() && old_self.improves_at(u as int, v@, #[trigger] succs@[j] as int) {
                            let j = choose|j: int|
                                0 <= j < succs@.len() && old_self.improves_at(u as int, v@, #[trigger] succs@[j] as int);
                            assert(set_items(cur.succs@[u as int]).contains(succs@[j]));
                            assert(cur.has_edge(u as int, succs@[j] as int));
                            assert(old_self.has_edge(u as int, succs@[j] as int));
                        }
                        if exists|y: int|
                            0 <= y < n && #[trigger] old_self.has_edge(u as int, y)
                                && old_self.improves_at(u as int, old_self.strategy_at(u as int), y) {
                            let y = choose|y: int|
                                0 <= y < n && #[trigger] old_self.has_edge(u as int, y)
                                    && old_self.improves_at(u as int, old_self.strategy_at(u as int), y);
                            assert(cur.has_edge(u as int, y));
                            let j = choose|j: int| 0 <= j < succs@.len() && succs@[j] == y as usize;
                            assert(succs@[j] as int == y);
                        }
                    }
                }
                if improved {
                    proof {
                        assert(old_self.has_edge(u as int, best@));
                    }
                    self.update_strategy(SNodeId(u), best);
                }
            }
            u = u + 1;
        }
        improved
    }
}


impl StrategySolver {
    /// The player winning from `n` according to its current play profile.
    pub fn winner(&self, n: SNodeId) -> (r: Player)
        requires
            self.well_formed(),
            self.profiles_valid(),
            n.0 < self.node_count(),
        ensures
            r == spec_winning(self.profile_at(n@), self),
    {
        proof {
            self.lemma_profile_valid(n@);
        }
        self.profiles[n.0].winner(self)
    }

    /// The player owning `n`.
    pub fn player(&self, n: SNodeId) -> (r: Player)
        requires
            self.well_formed(),
            n.0 < self.node_count(),
        ensures
            r == self.player_at(n@),
    {
        self.players[n.0]
    }

    /// The inner node of the node `n` given out by `add_node`.
    pub fn snode(&self, n: NodeId) -> (r: SNodeId)
        requires
            self.well_formed(),
            n.0 < self.given_count(),
        ensures
            r.0 == self.snode_of(n.0 as int),
    {
        self.node_to_snode[n.0]
    }

    proof fn lemma_edge(&self, u: int, v: int)
        requires
            self.well_formed(),
            0 <= u < self.node_count(),
            0 <= v < self.node_count(),
        ensures
            self.has_edge(u, v) <==> set_items(self.preds@[v]).contains(u as usize),
    {
        assert(set_items(self.succs@[u]).contains(v as usize) <==> set_items(self.preds@[v]).contains(
            u as usize,
        ));
    }

    /// The predecessors of `n` that are not special nodes, as given out by
    /// `add_node`, in the order the game keeps them.
    pub fn predecessors(&self, n: SNodeId) -> (r: Vec<NodeId>)
        requires
            self.well_formed(),
            n.0 < self.node_count(),
        ensures
            forall|m: NodeId| r@.contains(m) <==> exists|p: int|
                4 <= p < self.node_count() && #[trigger] self.has_edge(p, n@) && m.0 == self.node_of(p),
    {
        let preds = set_to_vec(&self.preds[n.0]);
        let mut out: Vec<NodeId> = Vec::new();
        let mut i: usize = 0;
        while i < preds.len()
            invariant
                self.well_formed(),
                n.0 < self.node_count(),
                preds@ == set_items(self.preds@[n.0 as int]),
                0 <= i <= preds.len(),
                forall|m: NodeId| out@.contains(m) <==> exists|j: int|
                    0 <= j < i && 4 <= #[trigger] preds@[j] && m.0 == self.node_of(preds@[j] as int),
            decreases preds.len() - i,
        {
            let p = preds[i];
            let ghost out0 = out@;
            proof {
                assert(set_items(self.preds@[n.0 as int]).contains(p));
            }
            if p > SNODE_L1 {
                out.push(self.snode_to_node[p]);
            }
            proof {
                assert forall|m: NodeId| out@.contains(m) <==> exists|j: int|
                    0 <= j < i + 1 && 4 <= #[trigger] preds@[j] && m.0 == self.node_of(preds@[j] as int) by {
                    if out@.contains(m) {
                        let k = choose|k: int| 0 <= k < out@.len() && out@[k] == m;
                        if k == out0.len() {
                            assert(preds@[i as int] == p);
                        } else {
                            assert(out0[k] == m);
                            assert(out0.contains(m));
                        }
                    }
                    if exists|j: int|
                        0 <= j < i + 1 && 4 <= #[trigger] preds@[j] && m.0 == self.node_of(preds@[j] as int) {
                        let j = choose|j: int|
                            0 <= j < i + 1 && 4 <= #[trigger] preds@[j] && m.0 == self.node_of(preds@[j] as int);
                        if j < i {
                            assert(out0.contains(m));
                            let k = choose|k: int| 0 <= k < out0.len() && out0[k] == m;
                            assert(out@[k] == m);
                        } else {
                            assert(out@[out@.len() - 1] == m);
                        }
                    }
                }
            }
            i = i + 1;
        }
        proof {
            assert forall|m: NodeId| out@.contains(m) <==> exists|p: int|
                4 <= p < self.node_count() && #[trigger] self.has_edge(p, n@) && m.0 == self.node_of(p) by {
                if out@.contains(m) {
                    let j = choose|j: int|
                        0 <= j < preds@.len() && 4 <= #[trigger] preds@[j] && m.0 == self.node_of(preds@[j] as int);
                    assert(set_items(self.preds@[n.0 as int]).contains(preds@[j]));
                    self.lemma_edge(preds@[j] as int, n@);
                }
                if exists|p: int|
                    4 <= p < self.node_count() && #[trigger] self.has_edge(p, n@) && m.0 == self.node_of(p) {
                    let p = choose|p: int|
                        4 <= p < self.node_count() && #[trigger] self.has_edge(p, n@) && m.0 == self.node_of(p);
                    self.lemma_edge(p, n@);
                    let j = choose|j: int| 0 <= j < preds@.len() && preds@[j] == p as usize;
                    assert(4 <= preds@[j]);
                }
            }
        }
        out
    }

    /// The nodes, as given out by `add_node`, whose strategy moves to `n`.
    pub fn inverse_strategy(&self, n: SNodeId) -> (r: Vec<NodeId>)
        requires
            self.well_formed(),
            n.0 < self.node_count(),
        ensures
            forall|m: NodeId| r@.contains(m) <==> exists|p: int|
                0 <= p < self.node_count() && #[trigger] self.strategy_at(p) == n@ && m.0 == self.node_of(p),
    {
        let inv = set_to_vec(&self.inverse_strategy[n.0]);
        let mut out: Vec<NodeId> = Vec::new();
        let mut i: usize = 0;
        while i < inv.len()
            invariant
                self.well_formed(),
                n.0 < self.node_count(),
                inv@ == set_items(self.inverse_strategy@[n.0 as int]),
                0 <= i <= inv.len(),
                out@.len() == i,
                forall|k: int| 0 <= k < i ==> #[trigger] out@[k].0 == self.node_of(inv@[k] as int),
            decreases inv.len() - i,
        {
            let p = inv[i];
            proof {
                assert(set_items(self.inverse_strategy@[n.0 as int]).contains(p));
            }
            out.push(self.snode_to_node[p]);
            i = i + 1;
        }
        proof {
            assert forall|m: NodeId| out@.contains(m) <==> exists|p: int|
                0 <= p < self.node_count() && #[trigger] self.strategy_at(p) == n@ && m.0 == self.node_of(p) by {
                if out@.contains(m) {
                    let k = choose|k: int| 0 <= k < out@.len() && out@[k] == m;
                    assert(set_items(self.inverse_strategy@[n.0 as int]).contains(inv@[k]));
                    assert(self.strategy_at(inv@[k] as int) == n@);
                }
                if exists|p: int|
                    0 <= p < self.node_count() && #[trigger] self.strategy_at(p) == n@ && m.0 == self.node_of(p) {
                    let p = choose|p: int|
                        0 <= p < self.node_count() && #[trigger] self.strategy_at(p) == n@ && m.0 == self.node_of(p);
                    assert(set_items(self.inverse_strategy@[n.0 as int]).contains(p as usize));
                    let k = choose|k: int| 0 <= k < inv@.len() && inv@[k] == p as usize;
                    assert(out@[k].0 == m.0);
                    assert(out@[k] == m);
                }
            }
        }
        out
    }
}


impl StrategySolver {
    /// The edges of `x` once the node `u` is gone: those that do not lead to
    /// `u`, or the edge to the special node won by the opponent of `x` when all
    /// of them led to `u`.
    pub open spec fn edge_after_removal(&self, x: int, u: int, y: int) -> bool {
        if exists|z: int| 0 <= z < self.node_count() && z != u && #[trigger] self.has_edge(x, z) {
            self.has_edge(x, y) && y != u
        } else {
            y == spec_default_succ(self.player_at(x))
        }
    }

    /// Removes every edge leading to `u`, predecessor by predecessor, starting
    /// from the last one recorded.
    fn remove_edges_to(&mut self, u: usize)
        requires
            old(self).well_formed(),
            4 <= u < old(self).node_count(),
        ensures
            final(self).well_formed(),
            final(self).same_nodes(old(self)),
            final(self).pred_count(u as int) == 0,
            forall|y: int|
                0 <= y < old(self).node_count() ==> #[trigger] final(self).has_edge(u as int, y)
                    == old(self).has_edge(u as int, y),
            forall|x: int, y: int|
                0 <= x < old(self).node_count() && 0 <= y < old(self).node_count() && x != u
                    ==> #[trigger] final(self).has_edge(x, y) == old(self).edge_after_removal(x, u as int, y),
            forall|x: int|
                0 <= x < old(self).node_count() && old(self).strategy_at(x) != u
                    ==> #[trigger] final(self).strategy_at(x) == old(self).strategy_at(x),
    {
        let ghost old_self = *self;
        let ghost n = self.players@.len();
        assert(n == self.players.len());
        proof {
            assert forall|x: int, y: int|
                0 <= x < n && 0 <= y < n && x != u && !self.has_edge(x, u as int)
                    implies #[trigger] self.has_edge(x, y) == old_self.edge_after_removal(x, u as int, y) by {
                assert(set_items(self.succs@[x]).len() >= 1);
                let z = set_items(self.succs@[x])[0];
                assert(set_items(self.succs@[x]).contains(z));
                assert(self.has_edge(x, z as int));
            }
        }
        while set_len(&self.preds[u]) > 0
            invariant
                old_self.well_formed(),
                n == old_self.node_count(),
                4 <= u < n,
                self.well_formed(),
                self.same_nodes(&old_self),
                self.node_count() == n,
                forall|y: int|
                    0 <= y < n ==> #[trigger] self.has_edge(u as int, y) == old_self.has_edge(u as int, y),
                forall|x: int, y: int|
                    0 <= x < n && 0 <= y < n && x != u && self.has_edge(x, u as int)
                        ==> #[trigger] self.has_edge(x, y) == old_self.has_edge(x, y),
                forall|x: int, y: int|
                    0 <= x < n && 0 <= y < n && x != u && !self.has_edge(x, u as int)
                        ==> #[trigger] self.has_edge(x, y) == old_self.edge_after_removal(x, u as int, y),
                forall|x: int|
                    0 <= x < n && old_self.strategy_at(x) != u
                        ==> #[trigger] self.strategy_at(x) == old_self.strategy_at(x),
            decreases self.pred_count(u as int),
        {
            let i = set_len(&self.preds[u]) - 1;
            let p = set_index(&self.preds[u], i);
            let ghost cur = *self;
            proof {
                assert(set_items(self.preds@[u as int]).contains(p));
                assert(p < n);
                self.lemma_edge(p as int, u as int);
                assert(self.players@[p as int] != self.players@[u as int]);
            }
            self.remove_edge(SNodeId(p), SNodeId(u));
            proof {
                assert forall|x: int, y: int|
                    0 <= x < n && 0 <= y < n && x != u && !self.has_edge(x, u as int)
                        implies #[trigger] self.has_edge(x, y) == old_self.edge_after_removal(x, u as int, y) by {
                    if x == p {
                        assert forall|z: int| 0 <= z < n implies #[trigger] cur.has_edge(x, z)
                            == old_self.has_edge(x, z) by {}
                        let e_cur = exists|z: int| 0 <= z < n && z != u && #[trigger] cur.has_edge(x, z);
                        let e_old = exists|z: int|
                            0 <= z < n && z != u && #[trigger] old_self.has_edge(x, z);
                        if e_cur {
                            let z = choose|z: int| 0 <= z < n && z != u && #[trigger] cur.has_edge(x, z);
                            assert(old_self.has_edge(x, z));
                        }
                        if e_old {
                            let z = choose|z: int|
                                0 <= z < n && z != u && #[trigger] old_self.has_edge(x, z);
                            assert(cur.has_edge(x, z));
                        }
                        assert(e_cur == e_old);
                    } else {
                        assert(cur.has_edge(x, y) == self.has_edge(x, y));
                        assert(cur.has_edge(x, u as int) == self.has_edge(x, u as int));
                    }
                }
                assert forall|x: int, y: int|
                    0 <= x < n && 0 <= y < n && x != u && self.has_edge(x, u as int)
                        implies #[trigger] self.has_edge(x, y) == old_self.has_edge(x, y) by {
                    if x == p {
                        assert(!self.has_edge(x, u as int));
                    } else {
                        assert(cur.has_edge(x, u as int) == self.has_edge(x, u as int));
                    }
                }
            }
        }
        proof {
            assert forall|x: int, y: int|
                0 <= x < n && 0 <= y < n && x != u implies #[trigger] self.has_edge(x, y)
                == old_self.edge_after_removal(x, u as int, y) by {
                self.lemma_edge(x, u as int);
                assert(set_items(self.preds@[u as int]).len() == 0);
            }
        }
    }
}


/// The index that the node at `x` had before the node at `u` was removed
/// and the last node, at `last`, took its place.
pub open spec fn moved_from(x: int, u: int, last: int) -> int {
    if x == u {
        last
    } else {
        x
    }
}

/// The index of the node that was at `z` once the last node, at `last`, has
/// taken the place of the removed one at `u`.
pub open spec fn renamed_to(z: int, u: int, last: int) -> int {
    if z == last {
        u
    } else {
        z
    }
}

/// `new` holds the items of `old` with `last` renamed to `u`.
pub open spec fn renamed_items(new: Seq<usize>, old: Seq<usize>, u: usize, last: usize) -> bool {
    &&& new.no_duplicates()
    &&& forall|z: usize| #[trigger] new.contains(z) <==> (if z == u {
        old.contains(last)
    } else {
        z != last && old.contains(z)
    })
}

impl StrategySolver {
    /// Removes the node `u`: first the edges leading to it, then those leaving
    /// it; the last node then takes its place. The edges and the strategy of the
    /// node that moves are carried over to its new place, and so are the
    /// strategies of the nodes moving to it and the node given out for it.
    pub fn remove_node(&mut self, u: SNodeId)
        requires
            old(self).well_formed(),
            4 <= u.0 < old(self).node_count(),
        ensures
            final(self).node_count() == old(self).node_count() - 1,
            final(self).given_count() == old(self).given_count(),
            final(self).snode_of(old(self).node_of(u@) as int) == SNODE_INVALID,
            forall|x: int|
                0 <= x < final(self).node_count() ==> {
                    let y = if x == u@ {
                        old(self).node_count() - 1
                    } else {
                        x
                    };
                    &&& #[trigger] final(self).player_at(x) == old(self).player_at(y)
                    &&& final(self).priority_at(x) == old(self).priority_at(y)
                },
            final(self).well_formed(),
            forall|x: int, y: int|
                0 <= x < final(self).node_count() && 0 <= y < final(self).node_count() ==> #[trigger] final(self).has_edge(x, y)
                    == old(self).edge_after_removal(
                    moved_from(x, u@, final(self).node_count() as int),
                    u@,
                    moved_from(y, u@, final(self).node_count() as int),
                ),
            forall|x: int|
                0 <= x < final(self).node_count() && old(self).strategy_at(
                    moved_from(x, u@, final(self).node_count() as int),
                ) != u@ ==> #[trigger] final(self).strategy_at(x) == renamed_to(
                    old(self).strategy_at(moved_from(x, u@, final(self).node_count() as int)),
                    u@,
                    final(self).node_count() as int,
                ),
            forall|m: int|
                0 <= m < old(self).given_count() && m != old(self).node_of(u@) ==> #[trigger] final(self).snode_of(m)
                    == renamed_to(old(self).snode_of(m) as int, u@, final(self).node_count() as int),
    {
        let ghost old_self = *self;
        let ghost n = self.players@.len();
        assert(n == self.players.len());
        let u = u.0;
        self.remove_edges_to(u);
        let ghost s1 = *self;
        let mut taken = set_new();
        std::mem::swap(&mut taken, &mut self.succs[u]);
        let succs_u = set_to_vec(&taken);
        proof {
            assert(set_items(s1.succs@[u as int]).no_duplicates());
        }
        let mut k: usize = 0;
        while k < succs_u.len()
            invariant
                s1.well_formed(),
                s1.node_count() == n,
                4 <= u < n,
                succs_u@ == set_items(s1.succs@[u as int]),
                0 <= k <= succs_u.len(),
                self.players@ == s1.players@,
                self.priorities@ == s1.priorities@,
                self.strategy@ == s1.strategy@,
                self.inverse_strategy@ == s1.inverse_strategy@,
                self.snode_to_node@ == s1.snode_to_node@,
                self.node_to_snode@ == s1.node_to_snode@,
                self.profiles@ == s1.profiles@,
                self.preds@.len() == n,
                self.succs@.len() == n,
                set_items(self.succs@[u as int]) == Seq::<usize>::empty(),
                forall|v: int| 0 <= v < n && v != u ==> #[trigger] self.succs@[v] == s1.succs@[v],
                forall|v: int| 0 <= v < n ==> set_items(#[trigger] self.preds@[v]).no_duplicates(),
                forall|v: int, x: usize|
                    0 <= v < n ==> (#[trigger] set_items(self.preds@[v]).contains(x) <==> (set_items(
                        s1.preds@[v],
                    ).contains(x) && (x != u || !exists|j: int| 0 <= j < k && succs_u@[j] == v))),
            decreases succs_u.len() - k,
        {
            let v = succs_u[k];
            proof {
                assert(set_items(s1.succs@[u as int]).contains(v));
            }
            remove_from(&mut self.preds[v], u);
            k = k + 1;
        }
        proof {
            assert forall|v: int, x: usize|
                0 <= v < n implies (#[trigger] set_items(self.preds@[v]).contains(x) <==> (set_items(
                    s1.preds@[v],
                ).contains(x) && x != u)) by {
                if x == u && set_items(s1.preds@[v]).contains(x) {
                    s1.lemma_edge(u as int, v);
                    assert(set_items(s1.succs@[u as int]).contains(v as usize));
                    let j = choose|j: int| 0 <= j < succs_u@.len() && succs_u@[j] == v as usize;
                    assert(succs_u@[j] == v);
                }
            }
        }
        let sv = self.strategy[u].0;
        proof {
            assert(set_items(s1.succs@[u as int]).len() >= 1);
            assert(set_items(self.inverse_strategy@[sv as int]).no_duplicates());
        }
        remove_from(&mut self.inverse_strategy[sv], u);
        let node = self.snode_to_node[u].0;
        self.node_to_snode.set(node, SNodeId(SNODE_INVALID));
        let ghost s3 = *self;
        self.snode_to_node.swap_remove(u);
        self.players.swap_remove(u);
        self.priorities.swap_remove(u);
        self.preds.swap_remove(u);
        self.succs.swap_remove(u);
        self.strategy.swap_remove(u);
        self.inverse_strategy.swap_remove(u);
        self.profiles.swap_remove(u);
        let last = self.players.len();
        let ghost s4 = *self;
        proof {
            assert(last == n - 1);
            assert forall|x: int| 0 <= x < n - 1 implies {
                &&& set_items(#[trigger] self.succs@[x]).no_duplicates()
                &&& set_items(#[trigger] self.preds@[x]).no_duplicates()
                &&& set_items(#[trigger] self.inverse_strategy@[x]).no_duplicates()
            } by {
                let y = if x == u { n - 1 } else { x };
                assert(set_items(s1.succs@[y]).no_duplicates());
                assert(set_items(s1.preds@[y]).no_duplicates());
                assert(set_items(s1.inverse_strategy@[y]).no_duplicates());
                if y == sv {
                    assert(set_items(s3.inverse_strategy@[y]).no_duplicates());
                } else {
                    assert(s3.inverse_strategy@[y] == s1.inverse_strategy@[y]);
                }
            }
        }
        if u != last {
            proof {
                assert(last == n - 1);
                // The removed node is isolated in s3, and s3 keeps the edges of s1 elsewhere.
                assert forall|x: int| 0 <= x < n implies !#[trigger] set_items(s3.succs@[x]).contains(u) by {
                    if x != u {
                        assert(s3.succs@[x] == s1.succs@[x]);
                        s1.lemma_edge(x, u as int);
                    }
                }
                assert forall|x: int| 0 <= x < n implies !#[trigger] set_items(s3.preds@[x]).contains(u) by {}
                assert forall|x: int| 0 <= x < n implies !#[trigger] set_items(s3.inverse_strategy@[x]).contains(u) by {
                    if x != sv {
                        assert(s3.inverse_strategy@[x] == s1.inverse_strategy@[x]);
                    }
                }
                assert forall|a: int, b: int|
                    0 <= a < n && 0 <= b < n implies (#[trigger] set_items(s3.succs@[a]).contains(b as usize)
                    <==> #[trigger] set_items(s3.preds@[b]).contains(a as usize)) by {
                    if a != u {
                        assert(s3.succs@[a] == s1.succs@[a]);
                        s1.lemma_edge(a, b);
                    }
                }
                assert forall|x: int| 0 <= x < n && x != u implies {
                    &&& #[trigger] s3.strategy@[x].0 < n
                    &&& s3.strategy@[x].0 != u
                    &&& s3.strategy@[x].0 != x
                    &&& set_items(s3.succs@[x]).contains(s3.strategy@[x].0)
                    &&& set_items(s3.succs@[x]).len() >= 1
                } by {
                    assert(s3.succs@[x] == s1.succs@[x]);
                    assert(set_items(s1.succs@[x]).contains(s1.strategy@[x].0));
                    assert(s1.players@[s1.strategy@[x].0 as int] != s1.players@[x]);
                }
                assert forall|v: int, x: usize|
                    0 <= v < n implies (#[trigger] set_items(s3.inverse_strategy@[v]).contains(x) <==> (x < n
                        && s3.strategy@[x as int].0 == v && x != u)) by {
                    assert(set_items(s1.inverse_strategy@[v]).contains(x) <==> (x < n && s1.strategy@[x as int].0 == v));
                    if v != sv {
                        assert(s3.inverse_strategy@[v] == s1.inverse_strategy@[v]);
                    }
                }
                assert forall|x: int| 0 <= x < last implies {
                    &&& #[trigger] self.succs@[x] == s3.succs@[moved_from(x, u as int, last as int)]
                    &&& self.preds@[x] == s3.preds@[moved_from(x, u as int, last as int)]
                    &&& self.inverse_strategy@[x] == s3.inverse_strategy@[moved_from(x, u as int, last as int)]
                    &&& self.strategy@[x] == s3.strategy@[moved_from(x, u as int, last as int)]
                    &&& self.players@[x] == s3.players@[moved_from(x, u as int, last as int)]
                    &&& self.snode_to_node@[x] == s3.snode_to_node@[moved_from(x, u as int, last as int)]
                } by {}
            }
            // Edges into the moved node now lead to `u`.
            let pv = set_to_vec(&self.preds[u]);
            proof {
                assert forall|i: int| 0 <= i < pv@.len() implies #[trigger] pv@[i] < last && pv@[i] != u by {
                    assert(set_items(s3.preds@[last as int]).contains(pv@[i]));
                    assert(set_items(s1.preds@[last as int]).contains(pv@[i]));
                    s1.lemma_edge(pv@[i] as int, last as int);
                }
            }
            let mut j: usize = 0;
            while j < pv.len()
                invariant
                    4 <= u < last,
                    last == n - 1,
                    0 <= j <= pv.len(),
                    pv@ == set_items(s3.preds@[last as int]),
                    s1.well_formed(),
                    s1.node_count() == n,
                    forall|x: int| 0 <= x < n && x != u ==> #[trigger] s3.succs@[x] == s1.succs@[x],
                    forall|x: int, z: usize|
                        0 <= x < n ==> (#[trigger] set_items(s3.preds@[x]).contains(z) <==> (set_items(s1.preds@[x]).contains(z)
                            && z != u)),
                    pv@.no_duplicates(),
                    forall|i: int| 0 <= i < pv@.len() ==> #[trigger] pv@[i] < last && pv@[i] != u,
                    forall|a: int, b: int|
                        0 <= a < n && 0 <= b < n ==> (#[trigger] set_items(s3.succs@[a]).contains(b as usize)
                        <==> #[trigger] set_items(s3.preds@[b]).contains(a as usize)),
                    forall|x: int| 0 <= x < n ==> !#[trigger] set_items(s3.succs@[x]).contains(u),
                    forall|x: int| 0 <= x < last ==> #[trigger] s4.succs@[x] == s3.succs@[moved_from(x, u as int, last as int)],
                    forall|x: int| 0 <= x < last ==> set_items(#[trigger] s4.succs@[x]).no_duplicates(),
                    self.succs@.len() == last,
                    self.preds@ == s4.preds@,
                    self.inverse_strategy@ == s4.inverse_strategy@,
                    self.strategy@ == s4.strategy@,
                    self.players@ == s4.players@,
                    self.priorities@ == s4.priorities@,
                    self.snode_to_node@ == s4.snode_to_node@,
                    self.node_to_snode@ == s4.node_to_snode@,
                    self.profiles@ == s4.profiles@,
                    forall|x: int|
                        0 <= x < last && pv@.take(j as int).contains(x as usize) ==> renamed_items(
                            set_items(#[trigger] self.succs@[x]),
                            set_items(s4.succs@[x]),
                            u,
                            last,
                        ),
                    forall|x: int| 0 <= x < last && !pv@.take(j as int).contains(x as usize) ==> #[trigger] self.succs@[x] == s4.succs@[x],
                decreases pv.len() - j,
            {
                let v = pv[j];
                proof {
                    assert(!pv@.take(j as int).contains(v)) by {
                        if pv@.take(j as int).contains(v) {
                            let i = choose|i: int| 0 <= i < j && pv@.take(j as int)[i] == v;
                            assert(pv@[i] == pv@[j as int]);
                        }
                    }
                    assert(set_items(s3.preds@[last as int]).contains(v));
                    assert(set_items(s1.preds@[last as int]).contains(v));
                    s1.lemma_edge(v as int, last as int);
                    assert(s3.succs@[v as int] == s1.succs@[v as int]);
                    assert(set_items(s3.succs@[v as int]).contains(last));
                    assert(self.succs@[v as int] == s4.succs@[v as int]);
                }
                let ghost before = self.succs@[v as int];
                insert_into(&mut self.succs[v], u);
                remove_from(&mut self.succs[v], last);
                proof {
                    assert(pv@.take(j + 1) == pv@.take(j as int).push(v));
                    assert forall|x: int|
                        0 <= x < last && pv@.take(j + 1).contains(x as usize) implies renamed_items(
                            set_items(#[trigger] self.succs@[x]),
                            set_items(s4.succs@[x]),
                            u,
                            last,
                        ) by {
                        if x != v {
                            assert(pv@.take(j as int).contains(x as usize));
                        } else {
                            assert(!set_items(before).contains(u));
                        }
                    }
                    assert(pv@.take(j + 1)[j as int] == v);
                    assert forall|x: int| 0 <= x < last && !pv@.take(j + 1).contains(x as usize) implies #[trigger] self.succs@[x]
                        == s4.succs@[x] by {
                        assert(!pv@.take(j as int).contains(x as usize));
                        assert(x != v);
                    }
                }
                j = j + 1;
            }
            proof {
                assert(pv@.take(pv@.len() as int) == pv@);
                assert forall|x: int| 0 <= x < last implies renamed_items(
                    set_items(#[trigger] self.succs@[x]),
                    set_items(s4.succs@[x]),
                    u,
                    last,
                ) by {
                    if !pv@.contains(x as usize) {
                        let y = moved_from(x, u as int, last as int);
                        assert(!set_items(s3.succs@[y]).contains(last)) by {
                            if set_items(s3.succs@[y]).contains(last) {
                                if x != u {
                                    assert(s3.succs@[y] == s1.succs@[y]);
                                    s1.lemma_edge(y, last as int);
                                    assert(set_items(s1.preds@[last as int]).contains(y as usize));
                                }
                                assert(set_items(s3.preds@[last as int]).contains(y as usize));
                                if x == u {
                                    assert(set_items(s1.succs@[last as int]).contains(last));
                                    assert(s1.players@[last as int] != s1.players@[last as int]);
                                }
                            }
                        }
                        assert(!set_items(s3.succs@[y]).contains(u));
                    }
                }
            }
            let ghost s5 = *self;
            // Edges out of the moved node now come from `u`.
            let sv2 = set_to_vec(&self.succs[u]);
            proof {
                assert(self.succs@[u as int] == s4.succs@[u as int]);
                assert forall|i: int| 0 <= i < sv2@.len() implies #[trigger] sv2@[i] < last && sv2@[i] != u by {
                    assert(set_items(s3.succs@[last as int]).contains(sv2@[i]));
                    s1.lemma_edge(last as int, sv2@[i] as int);
                    assert(set_items(s3.preds@[sv2@[i] as int]).contains(last));
                    assert(s1.players@[sv2@[i] as int] != s1.players@[last as int]);
                }
            }
            let mut j: usize = 0;
            while j < sv2.len()
                invariant
                    4 <= u < last,
                    last == n - 1,
                    0 <= j <= sv2.len(),
                    sv2@ == set_items(s3.succs@[last as int]),
                    s1.well_formed(),
                    s1.node_count() == n,
                    forall|x: int| 0 <= x < n && x != u ==> #[trigger] s3.succs@[x] == s1.succs@[x],
                    forall|x: int, z: usize|
                        0 <= x < n ==> (#[trigger] set_items(s3.preds@[x]).contains(z) <==> (set_items(s1.preds@[x]).contains(z)
                            && z != u)),
                    sv2@.no_duplicates(),
                    forall|i: int| 0 <= i < sv2@.len() ==> #[trigger] sv2@[i] < last && sv2@[i] != u,
                    forall|a: int, b: int|
                        0 <= a < n && 0 <= b < n ==> (#[trigger] set_items(s3.succs@[a]).contains(b as usize)
                        <==> #[trigger] set_items(s3.preds@[b]).contains(a as usize)),
                    forall|x: int| 0 <= x < n ==> !#[trigger] set_items(s3.preds@[x]).contains(u),
                    forall|x: int| 0 <= x < last ==> #[trigger] s4.preds@[x] == s3.preds@[moved_from(x, u as int, last as int)],
                    forall|x: int| 0 <= x < last ==> set_items(#[trigger] s4.preds@[x]).no_duplicates(),
                    self.preds@.len() == last,
                    self.succs@ == s5.succs@,
                    self.inverse_strategy@ == s4.inverse_strategy@,
                    self.strategy@ == s4.strategy@,
                    self.players@ == s4.players@,
                    self.priorities@ == s4.priorities@,
                    self.snode_to_node@ == s4.snode_to_node@,
                    self.node_to_snode@ == s4.node_to_snode@,
                    self.profiles@ == s4.profiles@,
                    forall|x: int|
                        0 <= x < last && sv2@.take(j as int).contains(x as usize) ==> renamed_items(
                            set_items(#[trigger] self.preds@[x]),
                            set_items(s4.preds@[x]),
                            u,
                            last,
                        ),
                    forall|x: int| 0 <= x < last && !sv2@.take(j as int).contains(x as usize) ==> #[trigger] self.preds@[x] == s4.preds@[x],
                decreases sv2.len() - j,
            {
                let v = sv2[j];
                proof {
                    assert(!sv2@.take(j as int).contains(v)) by {
                        if sv2@.take(j as int).contains(v) {
                            let i = choose|i: int| 0 <= i < j && sv2@.take(j as int)[i] == v;
                            assert(sv2@[i] == sv2@[j as int]);
                        }
                    }
                    assert(set_items(s3.succs@[last as int]).contains(v));
                    s1.lemma_edge(last as int, v as int);
                    assert(set_items(s3.preds@[v as int]).contains(last));
                    assert(self.preds@[v as int] == s4.preds@[v as int]);
                }
                let ghost before = self.preds@[v as int];
                insert_into(&mut self.preds[v], u);
                remove_from(&mut self.preds[v], last);
                proof {
                    assert(sv2@.take(j + 1) == sv2@.take(j as int).push(v));
                    assert forall|x: int|
                        0 <= x < last && sv2@.take(j + 1).contains(x as usize) implies renamed_items(
                            set_items(#[trigger] self.preds@[x]),
                            set_items(s4.preds@[x]),
                            u,
                            last,
                        ) by {
                        if x != v {
                            assert(sv2@.take(j as int).contains(x as usize));
                        } else {
                            assert(!set_items(before).contains(u));
                        }
                    }
                    assert(sv2@.take(j + 1)[j as int] == v);
                    assert forall|x: int| 0 <= x < last && !sv2@.take(j + 1).contains(x as usize) implies #[trigger] self.preds@[x]
                        == s4.preds@[x] by {
                        assert(!sv2@.take(j as int).contains(x as usize));
                        assert(x != v);
                    }
                }
                j = j + 1;
            }
            proof {
                assert(sv2@.take(sv2@.len() as int) == sv2@);
                assert forall|x: int| 0 <= x < last implies renamed_items(
                    set_items(#[trigger] self.preds@[x]),
                    set_items(s4.preds@[x]),
                    u,
                    last,
                ) by {
                    if !sv2@.contains(x as usize) {
                        let y = moved_from(x, u as int, last as int);
                        assert(!set_items(s3.preds@[y]).contains(last)) by {
                            if set_items(s3.preds@[y]).contains(last) {
                                assert(set_items(s1.preds@[y]).contains(last));
                                s1.lemma_edge(last as int, y);
                                assert(set_items(s3.succs@[last as int]).contains(y as usize));
                                if x == u {
                                    assert(set_items(s1.succs@[last as int]).contains(last));
                                    assert(s1.players@[last as int] != s1.players@[last as int]);
                                }
                            }
                        }
                        assert(!set_items(s3.preds@[y]).contains(u));
                    }
                }
            }
            let ghost s6 = *self;
            // The moved node is recorded under its new index by the node its
            // strategy leads to.
            let v = self.strategy[u].0;
            proof {
                assert(self.strategy@[u as int] == s3.strategy@[last as int]);
                assert(v < n && v != u && v != last);
                assert(set_items(s3.inverse_strategy@[v as int]).contains(last));
                assert(self.inverse_strategy@[v as int] == s3.inverse_strategy@[v as int]);
            }
            let ghost before_inv = self.inverse_strategy@[v as int];
            insert_into(&mut self.inverse_strategy[v], u);
            remove_from(&mut self.inverse_strategy[v], last);
            proof {
                assert forall|x: int| 0 <= x < last implies renamed_items(
                    set_items(#[trigger] self.inverse_strategy@[x]),
                    set_items(s4.inverse_strategy@[x]),
                    u,
                    last,
                ) by {
                    let y = moved_from(x, u as int, last as int);
                    if x == v as int {
                        assert(!set_items(before_inv).contains(u));
                    } else {
                        assert(self.inverse_strategy@[x] == s4.inverse_strategy@[x]);
                        assert(!set_items(s3.inverse_strategy@[y]).contains(last)) by {
                            if set_items(s3.inverse_strategy@[y]).contains(last) {
                                assert(s3.strategy@[last as int].0 == y);
                                if x == u {
                                    assert(s3.strategy@[last as int].0 != last);
                                }
                            }
                        }
                        assert(!set_items(s3.inverse_strategy@[y]).contains(u));
                    }
                }
            }
            // The nodes whose strategy led to the moved node now lead to `u`.
            let iv = set_to_vec(&self.inverse_strategy[u]);
            proof {
                assert(self.inverse_strategy@[u as int] == s4.inverse_strategy@[u as int]);
                assert forall|i: int| 0 <= i < iv@.len() implies #[trigger] iv@[i] < last && iv@[i] != u
                    && s3.strategy@[iv@[i] as int].0 == last by {
                    assert(set_items(s3.inverse_strategy@[last as int]).contains(iv@[i]));
                    if iv@[i] == last {
                        assert(s3.strategy@[last as int].0 != last);
                    }
                }
            }
            let ghost s7 = *self;
            let mut j: usize = 0;
            while j < iv.len()
                invariant
                    4 <= u < last,
                    last == n - 1,
                    0 <= j <= iv.len(),
                    iv@ == set_items(s3.inverse_strategy@[last as int]),
                    forall|i: int| 0 <= i < iv@.len() ==> #[trigger] iv@[i] < last && iv@[i] != u
                        && s3.strategy@[iv@[i] as int].0 == last,
                    self.strategy@.len() == last,
                    self.succs@ == s7.succs@,
                    self.preds@ == s7.preds@,
                    self.inverse_strategy@ == s7.inverse_strategy@,
                    self.players@ == s7.players@,
                    self.priorities@ == s7.priorities@,
                    self.snode_to_node@ == s7.snode_to_node@,
                    self.node_to_snode@ == s7.node_to_snode@,
                    self.profiles@ == s7.profiles@,
                    forall|x: int|
                        0 <= x < last ==> #[trigger] self.strategy@[x] == if iv@.take(j as int).contains(x as usize) {
                            SNodeId(u)
                        } else {
                            s4.strategy@[x]
                        },
                decreases iv.len() - j,
            {
                let x = iv[j];
                let ghost st = self.strategy@;
                self.strategy.set(x, SNodeId(u));
                proof {
                    assert(iv@.take(j + 1) == iv@.take(j as int).push(x));
                    assert forall|y: int| 0 <= y < last implies #[trigger] self.strategy@[y] == if iv@.take(j + 1).contains(
                        y as usize,
                    ) {
                        SNodeId(u)
                    } else {
                        s4.strategy@[y]
                    } by {
                        if y != x {
                            assert(self.strategy@[y] == st[y]);
                            assert(iv@.take(j + 1).contains(y as usize) == iv@.take(j as int).contains(y as usize));
                        } else {
                            assert(iv@.take(j + 1)[j as int] == x);
                        }
                    }
                }
                j = j + 1;
            }
            let nd = self.snode_to_node[u].0;
            proof {
                assert(iv@.take(iv@.len() as int) == iv@);
                assert(nd == s3.snode_to_node@[last as int].0);
                assert(s1.node_to_snode@[s1.snode_to_node@[last as int].0 as int].0 == last);
            }
            self.node_to_snode.set(nd, SNodeId(u));
            proof {
                let m = last as int;
                assert forall|x: int| 0 <= x < m implies #[trigger] self.strategy@[x].0 == renamed_to(
                    s3.strategy@[moved_from(x, u as int, m)].0 as int,
                    u as int,
                    m,
                ) by {
                    let y = moved_from(x, u as int, m);
                    if iv@.contains(x as usize) {
                        let i = choose|i: int| 0 <= i < iv@.len() && iv@[i] == x as usize;
                        assert(iv@[i] == x);
                    } else if s3.strategy@[y].0 == last {
                        if x == u {
                            assert(s3.strategy@[last as int].0 != last);
                        } else {
                            assert(set_items(s3.inverse_strategy@[last as int]).contains(x as usize));
                        }
                    }
                }
                let uu = u as int;
                assert forall|x: int| 0 <= x < m implies {
                    &&& set_items(#[trigger] self.succs@[x]).no_duplicates()
                    &&& set_items(self.succs@[x]).len() >= 1
                    &&& self.strategy@[x].0 < m
                    &&& set_items(self.succs@[x]).contains(self.strategy@[x].0)
                } by {
                    let y = moved_from(x, uu, m);
                    assert(renamed_items(set_items(self.succs@[x]), set_items(s4.succs@[x]), u, last));
                    assert(s4.succs@[x] == s3.succs@[y]);
                    let t = s3.strategy@[y].0;
                    assert(t < n && t != u && set_items(s3.succs@[y]).contains(t));
                    if t == last {
                        assert(set_items(self.succs@[x]).contains(u));
                    } else {
                        assert(set_items(self.succs@[x]).contains(t));
                    }
                }
                assert forall|a: int, x: usize|
                    0 <= a < m && #[trigger] set_items(self.succs@[a]).contains(x) implies x < m
                    && self.players@[x as int] != self.players@[a] by {
                    let y = moved_from(a, uu, m);
                    assert(renamed_items(set_items(self.succs@[a]), set_items(s4.succs@[a]), u, last));
                    assert(s4.succs@[a] == s3.succs@[y]);
                    assert(s3.succs@[y] == s1.succs@[y]);
                    if x == u {
                        assert(set_items(s1.succs@[y]).contains(last));
                        assert(s1.players@[last as int] != s1.players@[y]);
                    } else {
                        assert(set_items(s1.succs@[y]).contains(x));
                        assert(s1.players@[x as int] != s1.players@[y]);
                    }
                }
                assert forall|v: int, x: usize|
                    0 <= v < m && #[trigger] set_items(self.preds@[v]).contains(x) implies x < m by {
                    let y = moved_from(v, uu, m);
                    assert(renamed_items(set_items(self.preds@[v]), set_items(s4.preds@[v]), u, last));
                    assert(s4.preds@[v] == s3.preds@[y]);
                    if x != u {
                        assert(set_items(s1.preds@[y]).contains(x));
                    }
                }
                assert forall|x: int| 0 <= x < m implies set_items(#[trigger] self.preds@[x]).no_duplicates() by {
                    assert(renamed_items(set_items(self.preds@[x]), set_items(s4.preds@[x]), u, last));
                }
                assert forall|x: int| 0 <= x < m implies set_items(#[trigger] self.inverse_strategy@[x]).no_duplicates() by {
                    assert(renamed_items(set_items(self.inverse_strategy@[x]), set_items(s4.inverse_strategy@[x]), u, last));
                }
                assert forall|a: int, b: int|
                    0 <= a < m && 0 <= b < m implies (#[trigger] set_items(self.succs@[a]).contains(b as usize)
                    <==> #[trigger] set_items(self.preds@[b]).contains(a as usize)) by {
                    let ya = moved_from(a, uu, m);
                    let yb = moved_from(b, uu, m);
                    assert(renamed_items(set_items(self.succs@[a]), set_items(s4.succs@[a]), u, last));
                    assert(renamed_items(set_items(self.preds@[b]), set_items(s4.preds@[b]), u, last));
                    assert(s4.succs@[a] == s3.succs@[ya]);
                    assert(s4.preds@[b] == s3.preds@[yb]);
                    assert(set_items(s3.succs@[ya]).contains(yb as usize) <==> set_items(s3.preds@[yb]).contains(
                        ya as usize,
                    ));
                }
                assert forall|v: int, x: usize|
                    0 <= v < m implies (#[trigger] set_items(self.inverse_strategy@[v]).contains(x) <==> (x < m
                        && self.strategy@[x as int].0 == v)) by {
                    let yv = moved_from(v, uu, m);
                    assert(renamed_items(set_items(self.inverse_strategy@[v]), set_items(s4.inverse_strategy@[v]), u, last));
                    assert(s4.inverse_strategy@[v] == s3.inverse_strategy@[yv]);
                    if x < m {
                        let yx = moved_from(x as int, uu, m);
                        let t = s3.strategy@[yx].0;
                        assert(t < n && t != u);
                        assert(self.strategy@[x as int].0 == renamed_to(t as int, uu, m));
                        assert(set_items(s3.inverse_strategy@[yv]).contains(yx as usize) <==> t == yv);
                    } else if x != u {
                        assert(!set_items(s3.inverse_strategy@[yv]).contains(x) || x < n);
                    }
                }
                assert forall|w: int| 4 <= w < m implies (#[trigger] self.snode_to_node@[w]).0
                    < self.node_to_snode@.len() && self.node_to_snode@[self.snode_to_node@[w].0 as int].0 == w by {
                    let y = moved_from(w, uu, m);
                    assert(self.snode_to_node@[w] == s1.snode_to_node@[y]);
                    assert(s1.node_to_snode@[s1.snode_to_node@[y].0 as int].0 == y);
                    if w != uu {
                        assert(s1.snode_to_node@[y].0 != node);
                        assert(s1.snode_to_node@[y].0 != nd);
                    }
                }
                assert forall|k: int|
                    0 <= k < self.node_to_snode@.len() implies (#[trigger] self.node_to_snode@[k]).0
                    == SNODE_INVALID || (4 <= self.node_to_snode@[k].0 < m
                    && self.snode_to_node@[self.node_to_snode@[k].0 as int].0 == k) by {
                    if k != node && k != nd {
                        assert(self.node_to_snode@[k] == s1.node_to_snode@[k]);
                        let w = s1.node_to_snode@[k].0;
                        if w != SNODE_INVALID {
                            assert(s1.snode_to_node@[w as int].0 == k);
                            assert(w != u && w != last);
                        }
                    }
                }
                assert(self.well_formed());
                assert forall|x: int, y: int| 0 <= x < m && 0 <= y < m implies #[trigger] self.has_edge(x, y)
                    == old_self.edge_after_removal(moved_from(x, uu, m), uu, moved_from(y, uu, m)) by {
                    let ya = moved_from(x, uu, m);
                    let yb = moved_from(y, uu, m);
                    assert(renamed_items(set_items(self.succs@[x]), set_items(s4.succs@[x]), u, last));
                    assert(s4.succs@[x] == s1.succs@[ya]);
                    assert(s1.has_edge(ya, yb) == old_self.edge_after_removal(ya, uu, yb));
                }
                assert forall|x: int|
                    0 <= x < m && old_self.strategy_at(moved_from(x, uu, m)) != uu implies #[trigger] self.strategy_at(x)
                    == renamed_to(old_self.strategy_at(moved_from(x, uu, m)), uu, m) by {
                    let y = moved_from(x, uu, m);
                    assert(s1.strategy_at(y) == old_self.strategy_at(y));
                }
                assert forall|k: int| 0 <= k < old_self.given_count() && k != old_self.node_of(uu) implies #[trigger] self.snode_of(k)
                    == renamed_to(old_self.snode_of(k) as int, uu, m) by {
                    if k != nd {
                        assert(self.node_to_snode@[k] == s1.node_to_snode@[k]);
                    }
                }
            }
        } else {
            proof {
                let m = last as int;
                assert(set_items(s1.preds@[u as int]).len() == 0);
                assert forall|x: int| 0 <= x < n implies !#[trigger] s1.has_edge(x, u as int) by {
                    s1.lemma_edge(x, u as int);
                }
                assert forall|x: int| 0 <= x < m implies {
                    &&& set_items(#[trigger] self.succs@[x]).no_duplicates()
                    &&& set_items(self.succs@[x]).len() >= 1
                    &&& self.strategy@[x].0 < m
                    &&& set_items(self.succs@[x]).contains(self.strategy@[x].0)
                } by {
                    assert(self.succs@[x] == s1.succs@[x]);
                    assert(set_items(s1.succs@[x]).len() >= 1);
                    assert(s1.has_edge(x, s1.strategy_at(x)));
                }
                assert forall|x: int, y: usize|
                    0 <= x < m && #[trigger] set_items(self.succs@[x]).contains(y) implies y < m
                    && self.players@[y as int] != self.players@[x] by {
                    assert(self.succs@[x] == s1.succs@[x]);
                    assert(s1.has_edge(x, y as int));
                }
                assert forall|x: int, y: usize|
                    0 <= x < m && #[trigger] set_items(self.preds@[x]).contains(y) implies y < m by {
                    assert(set_items(s1.preds@[x]).contains(y));
                }
                assert forall|a: int, b: int|
                    0 <= a < m && 0 <= b < m implies (#[trigger] set_items(self.succs@[a]).contains(
                    b as usize,
                ) <==> #[trigger] set_items(self.preds@[b]).contains(a as usize)) by {
                    assert(self.succs@[a] == s1.succs@[a]);
                    s1.lemma_edge(a, b);
                }
                assert forall|v: int, x: usize|
                    0 <= v < m implies (#[trigger] set_items(self.inverse_strategy@[v]).contains(x) <==> (x
                    < m && self.strategy@[x as int].0 == v)) by {
                    assert(set_items(s1.inverse_strategy@[v]).contains(x) <==> (x < n
                        && s1.strategy@[x as int].0 == v));
                    if v != sv {
                        assert(self.inverse_strategy@[v] == s1.inverse_strategy@[v]);
                        assert(!set_items(s1.inverse_strategy@[v]).contains(u));
                    }
                }
                assert forall|w: int| 4 <= w < m implies (#[trigger] self.snode_to_node@[w]).0
                    < self.node_to_snode@.len() && self.node_to_snode@[self.snode_to_node@[w].0 as int].0 == w by {
                    assert(s1.node_to_snode@[s1.snode_to_node@[w].0 as int].0 == w);
                    assert(s1.node_to_snode@[s1.snode_to_node@[u as int].0 as int].0 == u);
                }
                assert forall|k: int|
                    0 <= k < self.node_to_snode@.len() implies (#[trigger] self.node_to_snode@[k]).0
                    == SNODE_INVALID || (4 <= self.node_to_snode@[k].0 < m
                    && self.snode_to_node@[self.node_to_snode@[k].0 as int].0 == k) by {
                    if k != node {
                        assert(self.node_to_snode@[k] == s1.node_to_snode@[k]);
                        if s1.node_to_snode@[k].0 != SNODE_INVALID {
                            assert(s1.snode_to_node@[s1.node_to_snode@[k].0 as int].0 == k);
                        }
                    }
                }
                assert forall|x: int| 0 <= x < m implies set_items(#[trigger] self.preds@[x]).no_duplicates() by {
                    assert(set_items(s1.preds@[x]).no_duplicates());
                }
                assert forall|x: int| 0 <= x < m implies set_items(#[trigger] self.inverse_strategy@[x]).no_duplicates() by {
                    assert(set_items(s1.inverse_strategy@[x]).no_duplicates());
                    if x != sv {
                        assert(self.inverse_strategy@[x] == s1.inverse_strategy@[x]);
                    }
                }
                assert(self.well_formed());
                assert forall|x: int, y: int| 0 <= x < m && 0 <= y < m implies #[trigger] self.has_edge(x, y)
                    == old_self.edge_after_removal(x, u as int, y) by {
                    assert(self.succs@[x] == s1.succs@[x]);
                    assert(s1.has_edge(x, y) == old_self.edge_after_removal(x, u as int, y));
                }
                assert forall|x: int| 0 <= x < m && old_self.strategy_at(x) != u implies #[trigger] self.strategy_at(x)
                    == old_self.strategy_at(x) by {
                    assert(self.strategy@[x] == s1.strategy@[x]);
                    assert(s1.strategy_at(x) == old_self.strategy_at(x));
                }
            }
        }
    }
}

} // verus!
