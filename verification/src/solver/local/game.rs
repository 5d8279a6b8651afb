//! The explicit game built during local solving.
use indexmap::IndexSet;
use rustc_hash::FxBuildHasher;
use vstd::prelude::*;

use crate::index_set::{add_to, insert_into, remove_from, set_items, set_len, set_new, set_to_vec};
use crate::solver::index::NodeId;
use crate::solver::strategy::{GetRelevance, ParityGraph, Player, Relevance, Strategy};
use crate::solver::symbolic::compose::EqsFormulas;
use crate::solver::symbolic::eq::{FixType, VarId};
use crate::solver::symbolic::moves::{P0Moves, P0Pos, P1Moves, P1Pos};

verus! {

/// The index of the special node won by player 0, where player 0 moves.
pub const NODE_W0: usize = 0;
/// The index of the special node lost by player 0, where player 0 moves.
pub const NODE_L0: usize = 1;
/// The index of the special node won by player 1, where player 1 moves.
pub const NODE_W1: usize = 2;
/// The index of the special node lost by player 1, where player 1 moves.
pub const NODE_L1: usize = 3;
/// The index of the initial node.
pub const NODE_INIT: usize = 4;

/// Identifier of a node of player 0.
#[derive(Clone, Copy, Debug, PartialEq, Eq, Structural, Hash, PartialOrd, Ord, Default)]
pub struct NodeP0Id(pub usize);

/// Identifier of a node of player 1.
#[derive(Clone, Copy, Debug, PartialEq, Eq, Structural, Hash, PartialOrd, Ord, Default)]
pub struct NodeP1Id(pub usize);

/// The index of the initial node of player 0.
pub const P0_INIT: usize = 0;
/// The identifier of player 1 nodes that stands for the special node W1.
pub const P1_W1: usize = usize::MAX;
/// The identifier of player 1 nodes that stands for the special node L1.
pub const P1_L1: usize = usize::MAX - 1;

/// What a node of the game is: one of the four special nodes or a node of
/// either player.
#[derive(Clone, Copy, Debug, PartialEq, Eq, Structural, Hash)]
pub enum NodeKind {
    L0,
    L1,
    W0,
    W1,
    P0(NodeP0Id),
    P1(NodeP1Id),
}

impl NodeKind {
    /// The node of player 0 this is.
    pub fn expect_p0(self) -> (r: NodeP0Id)
        requires
            self is P0,
        ensures
            self == NodeKind::P0(r),
    {
        match self {
            NodeKind::P0(p0) => p0,
            _ => NodeP0Id(0),
        }
    }

    /// The node of player 1 this is.
    pub fn expect_p1(self) -> (r: NodeP1Id)
        requires
            self is P1,
        ensures
            self == NodeKind::P1(r),
    {
        match self {
            NodeKind::P1(p1) => p1,
            _ => NodeP1Id(0),
        }
    }
}

/// Which player definitely wins on a node, if known.
#[derive(Debug, PartialEq, Eq, Structural)]
pub enum WinState {
    Unknown,
    Win0,
    Win1,
}

/// The outcome of inserting a position: a new node or an existing one.
pub enum Inserted<I> {
    New(I),
    Existing(I),
}

impl<I: Copy> Inserted<I> {
    /// The identifier of the node, new or existing.
    pub fn id(&self) -> (r: I)
        ensures
            r == match *self {
                Inserted::New(i) => i,
                Inserted::Existing(i) => i,
            },
    {
        match *self {
            Inserted::New(i) => i,
            Inserted::Existing(i) => i,
        }
    }

    /// Applies `f` to the identifier, keeping whether it is new.
    pub fn map<O, F: FnOnce(I) -> O>(&self, f: F) -> (r: Inserted<O>)
        requires
            f.requires((self.spec_id(),)),
        ensures
            (self is New) == (r is New),
            f.ensures((self.spec_id(),), r.spec_id()),
    {
        match *self {
            Inserted::New(i) => Inserted::New(f(i)),
            Inserted::Existing(i) => Inserted::Existing(f(i)),
        }
    }
}

impl<I> Inserted<I> {
    pub open spec fn spec_id(self) -> I {
        match self {
            Inserted::New(i) => i,
            Inserted::Existing(i) => i,
        }
    }
}

/// The strategy of player 0 on the explicit game, with its inverse.
pub struct GameStrategy {
    // The successor of each node of player 0, possibly the special W1 or L1.
    pub direct: Vec<NodeP1Id>,
    // The nodes of player 0 whose successor is each node of player 1.
    pub inverse: Vec<IndexSet<usize, FxBuildHasher>>,
    // The nodes of player 0 whose successor is W1.
    pub inverse_w1: IndexSet<usize, FxBuildHasher>,
    // The nodes of player 0 whose successor is L1.
    pub inverse_l1: IndexSet<usize, FxBuildHasher>,
}

/// The nodes of player 0 that the strategy sends to `p1`.
pub open spec fn preimage(direct: Seq<NodeP1Id>, p1: usize) -> Set<usize> {
    Set::new(|p0: usize| p0 < direct.len() && direct[p0 as int].0 == p1)
}

/// The items of `s` are exactly the elements of `t`, once each.
pub open spec fn holds_exactly(s: IndexSet<usize, FxBuildHasher>, t: Set<usize>) -> bool {
    set_items(s).no_duplicates() && forall|x: usize| set_items(s).contains(x) <==> t.contains(x)
}

impl GameStrategy {
    /// Every successor is a known node of player 1 or a special one, and the
    /// inverse sets hold exactly the predecessors under the strategy.
    pub open spec fn well_formed(&self) -> bool {
        &&& forall|p0: int|
            0 <= p0 < self.direct@.len() ==> {
                let p1 = #[trigger] self.direct@[p0];
                p1.0 == P1_W1 || p1.0 == P1_L1 || p1.0 < self.inverse@.len()
            }
        &&& self.inverse@.len() < P1_L1
        &&& forall|p1: int|
            0 <= p1 < self.inverse@.len() ==> holds_exactly(
                #[trigger] self.inverse@[p1],
                preimage(self.direct@, p1 as usize),
            )
        &&& holds_exactly(self.inverse_w1, preimage(self.direct@, P1_W1))
        &&& holds_exactly(self.inverse_l1, preimage(self.direct@, P1_L1))
    }

    /// An empty strategy.
    pub fn new() -> (r: Self)
        ensures
            r.well_formed(),
            r.direct@.len() == 0,
            r.inverse@.len() == 0,
    {
        GameStrategy {
            direct: Vec::new(),
            inverse: Vec::new(),
            inverse_w1: set_new(),
            inverse_l1: set_new(),
        }
    }
}

impl GameStrategy {
    /// Gives `p0` the successor `p1` if `p0` has none yet, making room for `p1`
    /// in the inverse if it is the next node of player 1.
    pub fn try_add(&mut self, p0: NodeP0Id, p1: NodeP1Id)
        requires
            old(self).well_formed(),
            p0.0 <= old(self).direct@.len(),
            p1.0 <= old(self).inverse@.len() || p1.0 == P1_W1,
            old(self).inverse@.len() + 1 < P1_L1,
        ensures
            final(self).well_formed(),
            final(self).direct@ == if p0.0 == old(self).direct@.len() {
                old(self).direct@.push(p1)
            } else {
                old(self).direct@
            },
            final(self).inverse@.len() == if p1.0 == old(self).inverse@.len() {
                old(self).inverse@.len() + 1
            } else {
                old(self).inverse@.len()
            },
    {
        if p1.0 == self.inverse.len() {
            self.inverse.push(set_new());
            proof {
                let d = self.direct@;
                assert forall|p1x: int| 0 <= p1x < self.inverse@.len() implies holds_exactly(
                    #[trigger] self.inverse@[p1x],
                    preimage(d, p1x as usize),
                ) by {
                    if p1x == self.inverse@.len() - 1 {
                        assert(set_items(self.inverse@[p1x]) =~= Seq::<usize>::empty());
                        assert forall|x: usize| !#[trigger] preimage(d, p1x as usize).contains(x) by {
                            if x < d.len() {
                                assert(d[x as int].0 == P1_W1 || d[x as int].0 == P1_L1 || d[x as int].0
                                    < old(self).inverse@.len());
                            }
                        }
                    }
                }
            }
        }
        if p0.0 == self.direct.len() {
            let ghost d0 = self.direct@;
            let ghost inv0 = self.inverse@;
            proof {
                assert(!preimage(d0, p1.0).contains(p0.0));
            }
            if p1.0 == P1_W1 {
                add_to(&mut self.inverse_w1, p0.0);
            } else if p1.0 == P1_L1 {
                add_to(&mut self.inverse_l1, p0.0);
            } else {
                add_to(&mut self.inverse[p1.0], p0.0);
            }
            self.direct.push(p1);
            proof {
                let d = self.direct@;
                assert forall|q: usize, x: usize| #[trigger] preimage(d, q).contains(x) <==> (preimage(
                    d0,
                    q,
                ).contains(x) || (x == p0.0 && q == p1.0)) by {
                    if x < d0.len() {
                        assert(d[x as int] == d0[x as int]);
                    }
                }
                assert forall|p1x: int| 0 <= p1x < self.inverse@.len() implies holds_exactly(
                    #[trigger] self.inverse@[p1x],
                    preimage(d, p1x as usize),
                ) by {
                    if p1x != p1.0 {
                        assert(self.inverse@[p1x] == inv0[p1x]);
                    }
                }
            }
        }
    }

    /// Changes the successor of `p0` to `p1`.
    pub fn update(&mut self, p0: NodeP0Id, p1: NodeP1Id)
        requires
            old(self).well_formed(),
            p0.0 < old(self).direct@.len(),
            p1.0 == P1_W1 || p1.0 == P1_L1 || p1.0 < old(self).inverse@.len(),
        ensures
            final(self).well_formed(),
            final(self).direct@ == old(self).direct@.update(p0.0 as int, p1),
            final(self).inverse@.len() == old(self).inverse@.len(),
    {
        let ghost d0 = self.direct@;
        let op1 = self.direct[p0.0];
        if op1.0 == P1_W1 {
            remove_from(&mut self.inverse_w1, p0.0);
        } else if op1.0 == P1_L1 {
            remove_from(&mut self.inverse_l1, p0.0);
        } else {
            remove_from(&mut self.inverse[op1.0], p0.0);
        }
        let ghost inv1 = self.inverse@;
        proof {
            assert forall|p1x: int| 0 <= p1x < inv1.len() implies holds_exactly(
                #[trigger] inv1[p1x],
                preimage(d0, p1x as usize).remove(p0.0),
            ) by {
                if p1x != op1.0 {
                    assert(inv1[p1x] == old(self).inverse@[p1x]);
                    assert(!preimage(d0, p1x as usize).contains(p0.0));
                    assert(preimage(d0, p1x as usize).remove(p0.0) =~= preimage(d0, p1x as usize));
                }
            }
            assert(holds_exactly(self.inverse_w1, preimage(d0, P1_W1).remove(p0.0))) by {
                if op1.0 != P1_W1 {
                    assert(preimage(d0, P1_W1).remove(p0.0) =~= preimage(d0, P1_W1));
                }
            }
            assert(holds_exactly(self.inverse_l1, preimage(d0, P1_L1).remove(p0.0))) by {
                if op1.0 != P1_L1 {
                    assert(preimage(d0, P1_L1).remove(p0.0) =~= preimage(d0, P1_L1));
                }
            }
        }
        self.direct.set(p0.0, p1);
        let ghost d = self.direct@;
        proof {
            assert forall|q: usize, x: usize| #[trigger] preimage(d, q).contains(x) <==> ((preimage(
                d0,
                q,
            ).contains(x) && x != p0.0) || (x == p0.0 && q == p1.0)) by {
                if x < d0.len() && x != p0.0 {
                    assert(d[x as int] == d0[x as int]);
                }
            }
        }
        proof {
            assert(!preimage(d0, P1_W1).remove(p0.0).contains(p0.0));
            assert(!preimage(d0, P1_L1).remove(p0.0).contains(p0.0));
            assert(!set_items(self.inverse_w1).contains(p0.0));
            assert(!set_items(self.inverse_l1).contains(p0.0));
            if p1.0 < inv1.len() {
                assert(!preimage(d0, p1.0).remove(p0.0).contains(p0.0));
                assert(holds_exactly(inv1[p1.0 as int], preimage(d0, p1.0).remove(p0.0)));
                assert(!set_items(inv1[p1.0 as int]).contains(p0.0));
            }
        }
        if p1.0 == P1_W1 {
            add_to(&mut self.inverse_w1, p0.0);
        } else if p1.0 == P1_L1 {
            add_to(&mut self.inverse_l1, p0.0);
        } else {
            add_to(&mut self.inverse[p1.0], p0.0);
        }
        proof {
            assert(holds_exactly(self.inverse_w1, preimage(d, P1_W1))) by {
                assert(preimage(d, P1_W1) =~= if p1.0 == P1_W1 {
                    preimage(d0, P1_W1).remove(p0.0).insert(p0.0)
                } else {
                    preimage(d0, P1_W1).remove(p0.0)
                });
            }
            assert(holds_exactly(self.inverse_l1, preimage(d, P1_L1))) by {
                assert(preimage(d, P1_L1) =~= if p1.0 == P1_L1 {
                    preimage(d0, P1_L1).remove(p0.0).insert(p0.0)
                } else {
                    preimage(d0, P1_L1).remove(p0.0)
                });
            }
            assert forall|p1x: int| 0 <= p1x < self.inverse@.len() implies holds_exactly(
                #[trigger] self.inverse@[p1x],
                preimage(d, p1x as usize),
            ) by {
                if p1x != p1.0 {
                    assert(self.inverse@[p1x] == inv1[p1x]);
                    assert(preimage(d0, p1x as usize).remove(p0.0) =~= preimage(d, p1x as usize));
                }
            }
            assert forall|q: int| 0 <= q < d.len() implies {
                let x = #[trigger] d[q];
                x.0 == P1_W1 || x.0 == P1_L1 || x.0 < self.inverse@.len()
            } by {
                if q != p0.0 {
                    assert(d[q] == d0[q]);
                }
            }
        }
    }
}


/// Every item of the set is below `n`, and no item is there twice.
pub open spec fn set_below(s: IndexSet<usize, FxBuildHasher>, n: nat) -> bool {
    &&& set_items(s).no_duplicates()
    &&& forall|x: usize| #[trigger] set_items(s).contains(x) ==> x < n
}

/// What the game records of the nodes of one player.
pub struct NodesData<P, M> {
    // The positions of the nodes, each once; a node's index is that of its position.
    pub pos: Vec<P>,
    // The identifier of each node among all the nodes of the game.
    pub ids: Vec<NodeId>,
    // The moves left to explore from each node.
    pub moves: Vec<M>,
    // The predecessors of each node, nodes of the other player.
    pub preds: Vec<IndexSet<usize, FxBuildHasher>>,
    // The successors of each node, nodes of the other player.
    pub succs: Vec<IndexSet<usize, FxBuildHasher>>,
    // The nodes that still have moves to explore.
    pub incomplete: IndexSet<usize, FxBuildHasher>,
    // Which player is known to win from each node.
    pub win: Vec<WinState>,
    // The nodes of this player where player 0 wins.
    pub w0: IndexSet<usize, FxBuildHasher>,
    // The nodes of this player where player 1 wins.
    pub w1: IndexSet<usize, FxBuildHasher>,
}

impl<P, M> NodesData<P, M> {
    /// The number of nodes.
    pub open spec fn count(&self) -> nat {
        self.pos@.len()
    }

    /// Every vector has an entry per node, and the sets name nodes of this
    /// player or, for edges, some of the `m` nodes of the other player.
    pub open spec fn well_formed(&self, m: nat) -> bool {
        let n = self.count();
        &&& self.ids@.len() == n
        &&& self.moves@.len() == n
        &&& self.preds@.len() == n
        &&& self.succs@.len() == n
        &&& self.win@.len() == n
        &&& forall|k: int| 0 <= k < n ==> set_below(#[trigger] self.preds@[k], m)
        &&& forall|k: int| 0 <= k < n ==> set_below(#[trigger] self.succs@[k], m)
        &&& set_below(self.incomplete, n)
        &&& set_below(self.w0, n)
        &&& set_below(self.w1, n)
    }
}

impl<P, M> Default for NodesData<P, M> {
    fn default() -> (r: Self)
        ensures
            r.count() == 0,
            r.well_formed(0),
    {
        NodesData {
            pos: Vec::new(),
            ids: Vec::new(),
            moves: Vec::new(),
            preds: Vec::new(),
            succs: Vec::new(),
            incomplete: set_new(),
            win: Vec::new(),
            w0: set_new(),
            w1: set_new(),
        }
    }
}

/// The game being built: the nodes of both players met so far, with their
/// edges, and the four special nodes.
pub struct Game {
    // The equations whose formulas give the moves.
    pub formulas: EqsFormulas,
    // The nodes of player 0.
    pub p0: NodesData<P0Pos, P0Moves>,
    // The nodes of player 1.
    pub p1: NodesData<P1Pos, P1Moves>,
    // What each node is, by its identifier.
    pub nodes: Vec<NodeKind>,
    // The nodes of player 0 of each variable, in the order they were added.
    pub var_to_p0: Vec<Vec<NodeP0Id>>,
    // When each node of player 0 was last simplified.
    pub last_simplified: Vec<usize>,
}

impl Game {
    /// The number of variables of the equations.
    pub open spec fn var_count(&self) -> nat {
        self.formulas.eqs().len()
    }

    /// The nodes and the data of both players agree.
    pub open spec fn well_formed(&self) -> bool {
        let n0 = self.p0.count();
        let n1 = self.p1.count();
        let vc = self.var_count();
        &&& self.formulas.well_formed()
        &&& 2 * vc + 2 <= usize::MAX
        &&& self.nodes@.len() <= usize::MAX
        &&& self.p0.well_formed(n1)
        &&& self.p1.well_formed(n0)
        &&& self.nodes@.len() == 4 + n0 + n1
        &&& self.nodes@[NODE_W0 as int] == NodeKind::W0
        &&& self.nodes@[NODE_L0 as int] == NodeKind::L0
        &&& self.nodes@[NODE_W1 as int] == NodeKind::W1
        &&& self.nodes@[NODE_L1 as int] == NodeKind::L1
        &&& forall|k: int|
            0 <= k < n0 ==> 4 <= (#[trigger] self.p0.ids@[k]).0 < self.nodes@.len()
                && self.nodes@[self.p0.ids@[k].0 as int] == NodeKind::P0(NodeP0Id(k as usize))
        &&& forall|k: int|
            0 <= k < n1 ==> 4 <= (#[trigger] self.p1.ids@[k]).0 < self.nodes@.len()
                && self.nodes@[self.p1.ids@[k].0 as int] == NodeKind::P1(NodeP1Id(k as usize))
        &&& forall|x: int|
            4 <= x < self.nodes@.len() ==> match #[trigger] self.nodes@[x] {
                NodeKind::P0(p) => p.0 < n0 && self.p0.ids@[p.0 as int].0 == x,
                NodeKind::P1(p) => p.0 < n1 && self.p1.ids@[p.0 as int].0 == x,
                _ => false,
            }
        &&& self.p0.pos@.no_duplicates()
        &&& forall|a: int, b: int|
            0 <= a < b < n1 ==> (#[trigger] self.p1.pos@[a]).moves@ != (#[trigger] self.p1.pos@[b]).moves@
        &&& forall|k: int| 0 <= k < n0 ==> (#[trigger] self.p0.pos@[k]).i.0 < vc
        &&& forall|k: int|
            0 <= k < n0 ==> (#[trigger] self.p0.moves@[k]).well_formed() && self.p0.moves@[k].vars_below(vc)
        &&& forall|k: int, j: int|
            0 <= k < n1 && 0 <= j < self.p1.pos@[k].moves@.len() ==> (
            #[trigger] self.p1.pos@[k].moves@[j]).i.0 < vc
        &&& forall|k: int, j: int|
            0 <= k < n1 && 0 <= j < self.p1.moves@[k].remaining().len() ==> (
            #[trigger] self.p1.moves@[k].remaining()[j]).i.0 < vc
        &&& self.var_to_p0@.len() == vc
        &&& forall|v: int, j: int|
            0 <= v < vc && 0 <= j < self.var_to_p0@[v]@.len() ==> (
            #[trigger] self.var_to_p0@[v]@[j]).0 < n0
        &&& self.last_simplified@.len() == n0
    }

    /// What the node `n` is.
    pub open spec fn kind(&self, n: NodeId) -> NodeKind {
        self.nodes@[n.0 as int]
    }

    /// The player moving at a node of the given kind.
    pub open spec fn spec_player_of(&self, n: NodeId) -> Player {
        match self.kind(n) {
            NodeKind::L0 | NodeKind::W0 | NodeKind::P0(_) => Player::P0,
            NodeKind::L1 | NodeKind::W1 | NodeKind::P1(_) => Player::P1,
        }
    }

    /// The priority of a node: above every node of player 0 for the special
    /// nodes (odd where player 1 wins, even where player 0 wins), from 1 to
    /// twice the number of variables for the nodes of player 0 by the index of
    /// their variable (even for greatest fixpoints), and 0 for the nodes of
    /// player 1.
    pub open spec fn priority(&self, n: NodeId) -> nat {
        let vc = self.var_count();
        match self.kind(n) {
            NodeKind::L0 | NodeKind::W1 => 2 * vc + 1,
            NodeKind::W0 | NodeKind::L1 => 2 * vc + 2,
            NodeKind::P0(p) => {
                let i = self.p0.pos@[p.0 as int].i.0;
                (2 * i + if self.formulas.eqs()[i as int].0 == FixType::Max {
                    2int
                } else {
                    1int
                }) as nat
            },
            NodeKind::P1(_) => 0,
        }
    }

    /// What the node `n` is.
    pub fn resolve(&self, n: NodeId) -> (r: NodeKind)
        requires
            n.0 < self.nodes@.len(),
        ensures
            r == self.kind(n),
    {
        self.nodes[n.0]
    }

    /// The player moving at `n`.
    pub fn player_of(&self, n: NodeId) -> (r: Player)
        requires
            n.0 < self.nodes@.len(),
        ensures
            r == self.spec_player_of(n),
    {
        match self.resolve(n) {
            NodeKind::L0 | NodeKind::W0 | NodeKind::P0(_) => Player::P0,
            NodeKind::L1 | NodeKind::W1 | NodeKind::P1(_) => Player::P1,
        }
    }

    /// The relevance of `node`: its priority, with the node as tie breaker.
    pub fn relevance_of(&self, node: NodeId) -> (r: Relevance)
        requires
            self.well_formed(),
            node.0 < self.nodes@.len(),
        ensures
            r.priority == self.priority(node),
            r.node == node,
    {
        let vc = self.formulas.var_count();
        let priority = match self.resolve(node) {
            NodeKind::L0 | NodeKind::W1 => 2 * vc + 1,
            NodeKind::W0 | NodeKind::L1 => 2 * vc + 2,
            NodeKind::P0(n) => {
                let i = self.p0.pos[n.0].i;
                let fix_type = self.formulas.eq_fix_type(i);
                2 * i.to_usize() + match fix_type {
                    FixType::Max => 2,
                    FixType::Min => 1,
                }
            },
            NodeKind::P1(_) => 0,
        };
        Relevance { priority, node }
    }

    /// A count that grows as nodes of player 0 are found to be won by player 0.
    pub fn simplification_epoch(&self) -> (r: usize)
        requires
            2 * set_items(self.p0.w0).len() <= usize::MAX,
        ensures
            r == 2 * set_items(self.p0.w0).len(),
    {
        let a = set_len(&self.p0.w0);
        a + a
    }
}

impl GetRelevance for Game {
    open spec fn valid_node(&self, u: NodeId) -> bool {
        self.well_formed() && u.0 < self.nodes@.len()
    }

    open spec fn spec_relevance_of(&self, u: NodeId) -> Relevance {
        Relevance { priority: self.priority(u) as usize, node: u }
    }

    fn relevance_of(&self, u: NodeId) -> (r: Relevance) {
        Game::relevance_of(self, u)
    }
}


/// Whether two clauses are the same.
fn same_moves(a: &Vec<P0Pos>, b: &Vec<P0Pos>) -> (r: bool)
    ensures
        r == (a@ == b@),
{
    if a.len() != b.len() {
        return false;
    }
    let mut k: usize = 0;
    while k < a.len()
        invariant
            k <= a@.len(),
            a@.len() == b@.len(),
            forall|j: int| 0 <= j < k ==> a@[j] == b@[j],
        decreases a@.len() - k,
    {
        if a[k] != b[k] {
            return false;
        }
        k = k + 1;
    }
    proof {
        assert(a@ =~= b@);
    }
    true
}

impl Game {
    /// The data of the nodes of player 1, and the formulas, are those of `other`.
    pub open spec fn same_p1(&self, other: &Game) -> bool {
        &&& self.p1 == other.p1
        &&& self.formulas == other.formulas
    }

    /// Adds the node of player 0 at `pos`, unless there is one, and tells
    /// which node it is. A new node has the moves of its position, no edges,
    /// and is incomplete and undecided.
    pub fn insert_p0(&mut self, pos: P0Pos) -> (r: Inserted<NodeP0Id>)
        requires
            old(self).well_formed(),
            pos.i.0 < old(self).var_count(),
            old(self).nodes@.len() < usize::MAX,
        ensures
            final(self).well_formed(),
            final(self).same_p1(old(self)),
            r.spec_id().0 < final(self).p0.count(),
            final(self).p0.pos@[r.spec_id().0 as int] == pos,
            r is Existing ==> *final(self) == *old(self),
            r is New ==> {
                let n = old(self).p0.count();
                &&& !old(self).p0.pos@.contains(pos)
                &&& r.spec_id().0 == n
                &&& final(self).p0.pos@ == old(self).p0.pos@.push(pos)
                &&& final(self).p0.ids@ == old(self).p0.ids@.push(NodeId(old(self).nodes@.len() as usize))
                &&& final(self).nodes@ == old(self).nodes@.push(NodeKind::P0(NodeP0Id(n as usize)))
                &&& final(self).p0.preds@ == old(self).p0.preds@.push(final(self).p0.preds@[n as int])
                &&& final(self).p0.succs@ == old(self).p0.succs@.push(final(self).p0.succs@[n as int])
                &&& set_items(final(self).p0.preds@[n as int]).len() == 0
                &&& set_items(final(self).p0.succs@[n as int]).len() == 0
                &&& final(self).p0.win@ == old(self).p0.win@.push(WinState::Unknown)
                &&& forall|k: int| 0 <= k < n ==> #[trigger] final(self).p0.moves@[k] == old(self).p0.moves@[k]
                &&& forall|x: usize|
                    #[trigger] set_items(final(self).p0.incomplete).contains(x) <==> (set_items(
                        old(self).p0.incomplete,
                    ).contains(x) || x == n)
                &&& final(self).p0.w0 == old(self).p0.w0
                &&& final(self).p0.w1 == old(self).p0.w1
                &&& final(self).var_to_p0@.len() == old(self).var_to_p0@.len()
                &&& final(self).var_to_p0@[pos.i.0 as int]@ == old(self).var_to_p0@[pos.i.0 as int]@.push(
                    NodeP0Id(n as usize),
                )
                &&& forall|v: int|
                    0 <= v < old(self).var_to_p0@.len() && v != pos.i.0 ==> #[trigger] final(self).var_to_p0@[v]
                        == old(self).var_to_p0@[v]
            },
    {
        let mut k: usize = 0;
        while k < self.p0.pos.len()
            invariant
                k <= self.p0.pos@.len(),
                *self == *old(self),
                old(self).well_formed(),
                forall|j: int| 0 <= j < k ==> self.p0.pos@[j] != pos,
            decreases self.p0.pos@.len() - k,
        {
            if self.p0.pos[k] == pos {
                return Inserted::Existing(NodeP0Id(k));
            }
            k = k + 1;
        }
        proof {
            assert(!self.p0.pos@.contains(pos));
        }
        let ghost g0 = *self;
        let n = self.p0.pos.len();
        let id = NodeId(self.nodes.len());
        self.nodes.push(NodeKind::P0(NodeP0Id(n)));
        self.p0.pos.push(pos);
        self.p0.ids.push(id);
        let moves = pos.moves(&self.formulas);
        self.p0.moves.push(moves);
        self.p0.preds.push(set_new());
        self.p0.succs.push(set_new());
        add_to(&mut self.p0.incomplete, n);
        self.p0.win.push(WinState::Unknown);
        self.var_to_p0[pos.i.0].push(NodeP0Id(n));
        self.last_simplified.push(0);
        proof {
            self.lemma_push_p0(g0, pos);
        }
        Inserted::New(NodeP0Id(n))
    }

    /// The game with a new node of player 0 at `pos` is well formed.
    proof fn lemma_push_p0(&self, g0: Game, pos: P0Pos)
        requires
            g0.well_formed(),
            !g0.p0.pos@.contains(pos),
            pos.i.0 < g0.var_count(),
            g0.nodes@.len() < usize::MAX,
            self.formulas == g0.formulas,
            self.p1 == g0.p1,
            self.nodes@ == g0.nodes@.push(NodeKind::P0(NodeP0Id(g0.p0.count() as usize))),
            self.p0.pos@ == g0.p0.pos@.push(pos),
            self.p0.ids@ == g0.p0.ids@.push(NodeId(g0.nodes@.len() as usize)),
            self.p0.moves@.len() == g0.p0.moves@.len() + 1,
            forall|k: int| 0 <= k < g0.p0.count() ==> #[trigger] self.p0.moves@[k] == g0.p0.moves@[k],
            self.p0.moves@.last().well_formed(),
            self.p0.moves@.last().vars_below(g0.var_count()),
            self.p0.preds@ == g0.p0.preds@.push(self.p0.preds@.last()),
            self.p0.succs@ == g0.p0.succs@.push(self.p0.succs@.last()),
            set_items(self.p0.preds@.last()).len() == 0,
            set_items(self.p0.succs@.last()).len() == 0,
            set_below(self.p0.incomplete, g0.p0.count() + 1),
            self.p0.win@.len() == g0.p0.win@.len() + 1,
            self.p0.w0 == g0.p0.w0,
            self.p0.w1 == g0.p0.w1,
            self.var_to_p0@.len() == g0.var_to_p0@.len(),
            forall|v: int| 0 <= v < g0.var_count() && v != pos.i.0 ==> #[trigger] self.var_to_p0@[v] == g0.var_to_p0@[v],
            self.var_to_p0@[pos.i.0 as int]@ == g0.var_to_p0@[pos.i.0 as int]@.push(NodeP0Id(g0.p0.count() as usize)),
            self.last_simplified@.len() == g0.last_simplified@.len() + 1,
        ensures
            self.well_formed(),
    {
        let n0 = g0.p0.count();
        let n1 = g0.p1.count();
        assert forall|k: int| 0 <= k < n0 + 1 implies set_below(#[trigger] self.p0.preds@[k], n1) by {
            if k < n0 {
                assert(self.p0.preds@[k] == g0.p0.preds@[k]);
            }
        }
        assert forall|k: int| 0 <= k < n0 + 1 implies set_below(#[trigger] self.p0.succs@[k], n1) by {
            if k < n0 {
                assert(self.p0.succs@[k] == g0.p0.succs@[k]);
            }
        }
        assert forall|k: int| 0 <= k < n1 implies set_below(#[trigger] self.p1.preds@[k], n0 + 1) by {
            assert(set_below(g0.p1.preds@[k], n0));
        }
        assert forall|k: int| 0 <= k < n1 implies set_below(#[trigger] self.p1.succs@[k], n0 + 1) by {
            assert(set_below(g0.p1.succs@[k], n0));
        }
        assert(self.p0.pos@.no_duplicates()) by {
            assert forall|a: int, b: int| 0 <= a < b < n0 + 1 implies self.p0.pos@[a] != self.p0.pos@[b] by {
                if b == n0 {
                    assert(g0.p0.pos@.contains(g0.p0.pos@[a]));
                } else {
                    assert(self.p0.pos@[a] == g0.p0.pos@[a]);
                    assert(self.p0.pos@[b] == g0.p0.pos@[b]);
                }
            }
        }
        assert forall|k: int| 0 <= k < n0 + 1 implies 4 <= (#[trigger] self.p0.ids@[k]).0 < self.nodes@.len()
            && self.nodes@[self.p0.ids@[k].0 as int] == NodeKind::P0(NodeP0Id(k as usize)) by {
            if k < n0 {
                assert(self.p0.ids@[k] == g0.p0.ids@[k]);
                assert(self.nodes@[g0.p0.ids@[k].0 as int] == g0.nodes@[g0.p0.ids@[k].0 as int]);
            } else {
                assert(self.p0.ids@[k].0 == g0.nodes@.len());
                assert(self.nodes@[g0.nodes@.len() as int] == NodeKind::P0(NodeP0Id(n0 as usize)));
            }
        }
        assert forall|k: int| 0 <= k < n1 implies 4 <= (#[trigger] self.p1.ids@[k]).0 < self.nodes@.len()
            && self.nodes@[self.p1.ids@[k].0 as int] == NodeKind::P1(NodeP1Id(k as usize)) by {
            assert(self.p1.ids@[k] == g0.p1.ids@[k]);
            assert(self.nodes@[g0.p1.ids@[k].0 as int] == g0.nodes@[g0.p1.ids@[k].0 as int]);
        }
        assert forall|x: int| 4 <= x < self.nodes@.len() implies match #[trigger] self.nodes@[x] {
            NodeKind::P0(p) => p.0 < n0 + 1 && self.p0.ids@[p.0 as int].0 == x,
            NodeKind::P1(p) => p.0 < n1 && self.p1.ids@[p.0 as int].0 == x,
            _ => false,
        } by {
            if x < g0.nodes@.len() {
                assert(self.nodes@[x] == g0.nodes@[x]);
                match g0.nodes@[x] {
                    NodeKind::P0(p) => {
                        assert(p.0 < n0 && g0.p0.ids@[p.0 as int].0 == x);
                        assert(self.p0.ids@[p.0 as int] == g0.p0.ids@[p.0 as int]);
                    },
                    NodeKind::P1(p) => {
                        assert(p.0 < n1 && g0.p1.ids@[p.0 as int].0 == x);
                    },
                    _ => {
                        assert(false);
                    },
                }
            } else {
                assert(self.nodes@[x] == NodeKind::P0(NodeP0Id(n0 as usize)));
                assert(self.p0.ids@[n0 as int].0 == x);
            }
        }
        assert forall|k: int| 0 <= k < n0 + 1 implies (#[trigger] self.p0.moves@[k]).well_formed()
            && self.p0.moves@[k].vars_below(self.var_count()) by {
            if k < n0 {
                assert(self.p0.moves@[k] == g0.p0.moves@[k]);
            }
        }
        assert forall|k: int| 0 <= k < n0 + 1 implies (#[trigger] self.p0.pos@[k]).i.0 < self.var_count() by {
            if k < n0 {
                assert(self.p0.pos@[k] == g0.p0.pos@[k]);
            }
        }
        assert forall|v: int, j: int|
            0 <= v < self.var_count() && 0 <= j < self.var_to_p0@[v]@.len() implies (
            #[trigger] self.var_to_p0@[v]@[j]).0 < n0 + 1 by {
            if v != pos.i.0 {
                assert(self.var_to_p0@[v] == g0.var_to_p0@[v]);
            } else if j < g0.var_to_p0@[v]@.len() {
                assert(self.var_to_p0@[v]@[j] == g0.var_to_p0@[v]@[j]);
            }
        }
    }
}


impl Game {
    /// The data of the nodes of player 0, the variables' nodes, and the
    /// formulas, are those of `other`.
    pub open spec fn same_p0(&self, other: &Game) -> bool {
        &&& self.p0 == other.p0
        &&& self.formulas == other.formulas
        &&& self.var_to_p0 == other.var_to_p0
        &&& self.last_simplified == other.last_simplified
    }

    /// Adds the node of player 1 at `pos`, unless there is one, and tells
    /// which node it is. A new node has the moves of its position, no edges,
    /// and is incomplete and undecided.
    pub fn insert_p1(&mut self, pos: P1Pos) -> (r: Inserted<NodeP1Id>)
        requires
            old(self).well_formed(),
            forall|j: int| 0 <= j < pos.moves@.len() ==> (#[trigger] pos.moves@[j]).i.0 < old(self).var_count(),
            old(self).nodes@.len() < usize::MAX,
        ensures
            final(self).well_formed(),
            final(self).same_p0(old(self)),
            r.spec_id().0 < final(self).p1.count(),
            final(self).p1.pos@[r.spec_id().0 as int].moves@ == pos.moves@,
            r is Existing ==> *final(self) == *old(self),
            r is New ==> {
                let n = old(self).p1.count();
                &&& forall|k: int| 0 <= k < n ==> (#[trigger] old(self).p1.pos@[k]).moves@ != pos.moves@
                &&& r.spec_id().0 == n
                &&& final(self).p1.pos@ == old(self).p1.pos@.push(pos)
                &&& final(self).p1.ids@ == old(self).p1.ids@.push(NodeId(old(self).nodes@.len() as usize))
                &&& final(self).nodes@ == old(self).nodes@.push(NodeKind::P1(NodeP1Id(n as usize)))
                &&& final(self).p1.preds@ == old(self).p1.preds@.push(final(self).p1.preds@[n as int])
                &&& final(self).p1.succs@ == old(self).p1.succs@.push(final(self).p1.succs@[n as int])
                &&& set_items(final(self).p1.preds@[n as int]).len() == 0
                &&& set_items(final(self).p1.succs@[n as int]).len() == 0
                &&& final(self).p1.win@ == old(self).p1.win@.push(WinState::Unknown)
                &&& final(self).p1.moves@ == old(self).p1.moves@.push(final(self).p1.moves@[n as int])
                &&& final(self).p1.moves@[n as int].remaining() == pos.moves@
                &&& forall|x: usize|
                    #[trigger] set_items(final(self).p1.incomplete).contains(x) <==> (set_items(
                        old(self).p1.incomplete,
                    ).contains(x) || x == n)
                &&& final(self).p1.w0 == old(self).p1.w0
                &&& final(self).p1.w1 == old(self).p1.w1
            },
    {
        let mut k: usize = 0;
        while k < self.p1.pos.len()
            invariant
                k <= self.p1.pos@.len(),
                *self == *old(self),
                old(self).well_formed(),
                forall|j: int| 0 <= j < k ==> (#[trigger] self.p1.pos@[j]).moves@ != pos.moves@,
            decreases self.p1.pos@.len() - k,
        {
            if same_moves(&self.p1.pos[k].moves, &pos.moves) {
                return Inserted::Existing(NodeP1Id(k));
            }
            k = k + 1;
        }
        let ghost g0 = *self;
        let n = self.p1.pos.len();
        let id = NodeId(self.nodes.len());
        let moves = pos.moves();
        self.nodes.push(NodeKind::P1(NodeP1Id(n)));
        self.p1.pos.push(pos);
        self.p1.ids.push(id);
        self.p1.moves.push(moves);
        self.p1.preds.push(set_new());
        self.p1.succs.push(set_new());
        add_to(&mut self.p1.incomplete, n);
        self.p1.win.push(WinState::Unknown);
        proof {
            self.lemma_push_p1(g0);
        }
        Inserted::New(NodeP1Id(n))
    }

    /// The game with a new node of player 1 is well formed.
    proof fn lemma_push_p1(&self, g0: Game)
        requires
            g0.well_formed(),
            g0.nodes@.len() < usize::MAX,
            self.formulas == g0.formulas,
            self.p0 == g0.p0,
            self.var_to_p0 == g0.var_to_p0,
            self.last_simplified == g0.last_simplified,
            self.nodes@ == g0.nodes@.push(NodeKind::P1(NodeP1Id(g0.p1.count() as usize))),
            self.p1.pos@ == g0.p1.pos@.push(self.p1.pos@.last()),
            forall|k: int| 0 <= k < g0.p1.count() ==> (#[trigger] g0.p1.pos@[k]).moves@ != self.p1.pos@.last().moves@,
            forall|j: int|
                0 <= j < self.p1.pos@.last().moves@.len() ==> (#[trigger] self.p1.pos@.last().moves@[j]).i.0
                    < g0.var_count(),
            self.p1.ids@ == g0.p1.ids@.push(NodeId(g0.nodes@.len() as usize)),
            self.p1.moves@ == g0.p1.moves@.push(self.p1.moves@.last()),
            self.p1.moves@.last().remaining() == self.p1.pos@.last().moves@,
            self.p1.preds@ == g0.p1.preds@.push(self.p1.preds@.last()),
            self.p1.succs@ == g0.p1.succs@.push(self.p1.succs@.last()),
            set_items(self.p1.preds@.last()).len() == 0,
            set_items(self.p1.succs@.last()).len() == 0,
            set_below(self.p1.incomplete, g0.p1.count() + 1),
            self.p1.win@.len() == g0.p1.win@.len() + 1,
            self.p1.w0 == g0.p1.w0,
            self.p1.w1 == g0.p1.w1,
        ensures
            self.well_formed(),
    {
        let n0 = g0.p0.count();
        let n1 = g0.p1.count();
        assert forall|k: int| 0 <= k < n1 + 1 implies set_below(#[trigger] self.p1.preds@[k], n0) by {
            if k < n1 {
                assert(self.p1.preds@[k] == g0.p1.preds@[k]);
            }
        }
        assert forall|k: int| 0 <= k < n1 + 1 implies set_below(#[trigger] self.p1.succs@[k], n0) by {
            if k < n1 {
                assert(self.p1.succs@[k] == g0.p1.succs@[k]);
            }
        }
        assert forall|k: int| 0 <= k < n0 implies set_below(#[trigger] self.p0.preds@[k], n1 + 1) by {
            assert(set_below(g0.p0.preds@[k], n1));
        }
        assert forall|k: int| 0 <= k < n0 implies set_below(#[trigger] self.p0.succs@[k], n1 + 1) by {
            assert(set_below(g0.p0.succs@[k], n1));
        }
        assert forall|a: int, b: int| 0 <= a < b < n1 + 1 implies (#[trigger] self.p1.pos@[a]).moves@
            != (#[trigger] self.p1.pos@[b]).moves@ by {
            assert(self.p1.pos@[a] == g0.p1.pos@[a]);
            if b < n1 {
                assert(self.p1.pos@[b] == g0.p1.pos@[b]);
            }
        }
        assert forall|k: int| 0 <= k < n1 + 1 implies 4 <= (#[trigger] self.p1.ids@[k]).0 < self.nodes@.len()
            && self.nodes@[self.p1.ids@[k].0 as int] == NodeKind::P1(NodeP1Id(k as usize)) by {
            if k < n1 {
                assert(self.p1.ids@[k] == g0.p1.ids@[k]);
                assert(self.nodes@[g0.p1.ids@[k].0 as int] == g0.nodes@[g0.p1.ids@[k].0 as int]);
            } else {
                assert(self.p1.ids@[k].0 == g0.nodes@.len());
            }
        }
        assert forall|k: int| 0 <= k < n0 implies 4 <= (#[trigger] self.p0.ids@[k]).0 < self.nodes@.len()
            && self.nodes@[self.p0.ids@[k].0 as int] == NodeKind::P0(NodeP0Id(k as usize)) by {
            assert(self.nodes@[g0.p0.ids@[k].0 as int] == g0.nodes@[g0.p0.ids@[k].0 as int]);
        }
        assert forall|x: int| 4 <= x < self.nodes@.len() implies match #[trigger] self.nodes@[x] {
            NodeKind::P0(p) => p.0 < n0 && self.p0.ids@[p.0 as int].0 == x,
            NodeKind::P1(p) => p.0 < n1 + 1 && self.p1.ids@[p.0 as int].0 == x,
            _ => false,
        } by {
            if x < g0.nodes@.len() {
                assert(self.nodes@[x] == g0.nodes@[x]);
                match g0.nodes@[x] {
                    NodeKind::P0(p) => {
                        assert(p.0 < n0 && g0.p0.ids@[p.0 as int].0 == x);
                    },
                    NodeKind::P1(p) => {
                        assert(p.0 < n1 && g0.p1.ids@[p.0 as int].0 == x);
                        assert(self.p1.ids@[p.0 as int] == g0.p1.ids@[p.0 as int]);
                    },
                    _ => {
                        assert(false);
                    },
                }
            } else {
                assert(self.nodes@[x] == NodeKind::P1(NodeP1Id(n1 as usize)));
                assert(self.p1.ids@[n1 as int].0 == g0.nodes@.len());
            }
        }
        assert forall|k: int, j: int|
            0 <= k < n1 + 1 && 0 <= j < self.p1.pos@[k].moves@.len() implies (
            #[trigger] self.p1.pos@[k].moves@[j]).i.0 < self.var_count() by {
            if k < n1 {
                assert(self.p1.pos@[k] == g0.p1.pos@[k]);
            }
        }
        assert forall|k: int, j: int|
            0 <= k < n1 + 1 && 0 <= j < self.p1.moves@[k].remaining().len() implies (
            #[trigger] self.p1.moves@[k].remaining()[j]).i.0 < self.var_count() by {
            if k < n1 {
                assert(self.p1.moves@[k] == g0.p1.moves@[k]);
            } else {
                assert(self.p1.moves@[k].remaining()[j] == self.p1.pos@[k].moves@[j]);
            }
        }
    }
}


impl<P, M> NodesData<P, M> {
    /// Everything but the moves is as in `other`.
    pub open spec fn same_but_moves(&self, other: &Self) -> bool {
        &&& self.pos == other.pos
        &&& self.ids == other.ids
        &&& self.preds == other.preds
        &&& self.succs == other.succs
        &&& self.win == other.win
        &&& self.incomplete == other.incomplete
        &&& self.w0 == other.w0
        &&& self.w1 == other.w1
    }

    /// Everything but the edges is as in `other`.
    pub open spec fn same_but_edges(&self, other: &Self) -> bool {
        &&& self.pos == other.pos
        &&& self.ids == other.ids
        &&& self.moves == other.moves
        &&& self.win == other.win
        &&& self.incomplete == other.incomplete
        &&& self.w0 == other.w0
        &&& self.w1 == other.w1
    }
}

impl Game {
    /// The nodes, the formulas and the variables' nodes are as in `other`.
    pub open spec fn same_frame(&self, other: &Game) -> bool {
        &&& self.formulas == other.formulas
        &&& self.nodes == other.nodes
        &&& self.var_to_p0 == other.var_to_p0
        &&& self.last_simplified == other.last_simplified
    }

    /// Records the edge from the node of player 1 `pred` to the node of
    /// player 0 `succ`.
    pub fn insert_p1_to_p0_edge(&mut self, pred: NodeP1Id, succ: NodeP0Id)
        requires
            old(self).well_formed(),
            pred.0 < old(self).p1.count(),
            succ.0 < old(self).p0.count(),
        ensures
            final(self).well_formed(),
            final(self).same_frame(old(self)),
            final(self).p0.same_but_edges(&old(self).p0),
            final(self).p1.same_but_edges(&old(self).p1),
            final(self).p0.succs == old(self).p0.succs,
            final(self).p1.preds == old(self).p1.preds,
            final(self).p0.preds@ == old(self).p0.preds@.update(succ.0 as int, final(self).p0.preds@[succ.0 as int]),
            final(self).p1.succs@ == old(self).p1.succs@.update(pred.0 as int, final(self).p1.succs@[pred.0 as int]),
            forall|x: usize|
                #[trigger] set_items(final(self).p0.preds@[succ.0 as int]).contains(x) <==> (set_items(
                    old(self).p0.preds@[succ.0 as int],
                ).contains(x) || x == pred.0),
            forall|x: usize|
                #[trigger] set_items(final(self).p1.succs@[pred.0 as int]).contains(x) <==> (set_items(
                    old(self).p1.succs@[pred.0 as int],
                ).contains(x) || x == succ.0),
    {
        insert_into(&mut self.p0.preds[succ.0], pred.0);
        insert_into(&mut self.p1.succs[pred.0], succ.0);
        proof {
            assert(self.p0.preds@ =~= old(self).p0.preds@.update(succ.0 as int, self.p0.preds@[succ.0 as int]));
            assert(self.p1.succs@ =~= old(self).p1.succs@.update(pred.0 as int, self.p1.succs@[pred.0 as int]));
            assert forall|k: int| 0 <= k < self.p0.count() implies set_below(#[trigger] self.p0.preds@[k], self.p1.count()) by {
                if k != succ.0 {
                    assert(self.p0.preds@[k] == old(self).p0.preds@[k]);
                }
            }
            assert forall|k: int| 0 <= k < self.p1.count() implies set_below(#[trigger] self.p1.succs@[k], self.p0.count()) by {
                if k != pred.0 {
                    assert(self.p1.succs@[k] == old(self).p1.succs@[k]);
                }
            }
        }
    }

    /// Records the edge from the node of player 0 `pred` to the node of
    /// player 1 `succ`.
    pub fn insert_p0_to_p1_edge(&mut self, pred: NodeP0Id, succ: NodeP1Id)
        requires
            old(self).well_formed(),
            pred.0 < old(self).p0.count(),
            succ.0 < old(self).p1.count(),
        ensures
            final(self).well_formed(),
            final(self).same_frame(old(self)),
            final(self).p0.same_but_edges(&old(self).p0),
            final(self).p1.same_but_edges(&old(self).p1),
            final(self).p1.succs == old(self).p1.succs,
            final(self).p0.preds == old(self).p0.preds,
            final(self).p1.preds@ == old(self).p1.preds@.update(succ.0 as int, final(self).p1.preds@[succ.0 as int]),
            final(self).p0.succs@ == old(self).p0.succs@.update(pred.0 as int, final(self).p0.succs@[pred.0 as int]),
            forall|x: usize|
                #[trigger] set_items(final(self).p1.preds@[succ.0 as int]).contains(x) <==> (set_items(
                    old(self).p1.preds@[succ.0 as int],
                ).contains(x) || x == pred.0),
            forall|x: usize|
                #[trigger] set_items(final(self).p0.succs@[pred.0 as int]).contains(x) <==> (set_items(
                    old(self).p0.succs@[pred.0 as int],
                ).contains(x) || x == succ.0),
    {
        insert_into(&mut self.p1.preds[succ.0], pred.0);
        insert_into(&mut self.p0.succs[pred.0], succ.0);
        proof {
            assert(self.p1.preds@ =~= old(self).p1.preds@.update(succ.0 as int, self.p1.preds@[succ.0 as int]));
            assert(self.p0.succs@ =~= old(self).p0.succs@.update(pred.0 as int, self.p0.succs@[pred.0 as int]));
            assert forall|k: int| 0 <= k < self.p1.count() implies set_below(#[trigger] self.p1.preds@[k], self.p0.count()) by {
                if k != succ.0 {
                    assert(self.p1.preds@[k] == old(self).p1.preds@[k]);
                }
            }
            assert forall|k: int| 0 <= k < self.p0.count() implies set_below(#[trigger] self.p0.succs@[k], self.p1.count()) by {
                if k != pred.0 {
                    assert(self.p0.succs@[k] == old(self).p0.succs@[k]);
                }
            }
        }
    }

    /// The game with the four special nodes and the node of player 0 at
    /// `init`.
    pub fn new(init: P0Pos, formulas: EqsFormulas) -> (r: Self)
        requires
            formulas.well_formed(),
            init.i.0 < formulas.eqs().len(),
            2 * formulas.eqs().len() + 2 <= usize::MAX,
        ensures
            r.well_formed(),
            r.formulas == formulas,
            r.p0.pos@ == seq![init],
            r.p1.count() == 0,
            r.nodes@.len() == NODE_INIT + 1,
            r.p0.ids@[0].0 == NODE_INIT,
    {
        let var_count = formulas.var_count();
        let mut var_to_p0: Vec<Vec<NodeP0Id>> = Vec::new();
        let mut k: usize = 0;
        while k < var_count
            invariant
                k <= var_count,
                var_to_p0@.len() == k,
                forall|v: int| 0 <= v < k ==> (#[trigger] var_to_p0@[v])@.len() == 0,
            decreases var_count - k,
        {
            var_to_p0.push(Vec::new());
            k = k + 1;
        }
        let mut nodes: Vec<NodeKind> = Vec::new();
        nodes.push(NodeKind::W0);
        nodes.push(NodeKind::L0);
        nodes.push(NodeKind::W1);
        nodes.push(NodeKind::L1);
        let mut game = Game {
            formulas,
            p0: NodesData::default(),
            p1: NodesData::default(),
            nodes,
            var_to_p0,
            last_simplified: Vec::new(),
        };
        proof {
            assert forall|x: int| 4 <= x < game.nodes@.len() implies match #[trigger] game.nodes@[x] {
                NodeKind::P0(p) => p.0 < 0 && game.p0.ids@[p.0 as int].0 == x,
                NodeKind::P1(p) => p.0 < 0 && game.p1.ids@[p.0 as int].0 == x,
                _ => false,
            } by {}
        }
        game.insert_p0(init);
        game
    }
}


/// The identifiers of the nodes at the positions `items`.
pub open spec fn ids_of(items: Seq<usize>, ids: Seq<NodeId>) -> Seq<NodeId> {
    items.map_values(|q: usize| ids[q as int])
}

/// The identifiers of the nodes that the set holds, in the set's order.
fn set_ids(s: &IndexSet<usize, FxBuildHasher>, ids: &Vec<NodeId>) -> (r: Vec<NodeId>)
    requires
        set_below(*s, ids@.len()),
    ensures
        r@ == ids_of(set_items(*s), ids@),
{
    let items = set_to_vec(s);
    let mut r: Vec<NodeId> = Vec::new();
    let mut k: usize = 0;
    while k < items.len()
        invariant
            k <= items@.len(),
            items@ == set_items(*s),
            set_below(*s, ids@.len()),
            r@ == ids_of(items@.take(k as int), ids@),
        decreases items@.len() - k,
    {
        let q = items[k];
        proof {
            assert(set_items(*s).contains(q));
        }
        r.push(ids[q]);
        k = k + 1;
        proof {
            assert(ids_of(items@.take(k as int), ids@) =~= ids_of(items@.take(k - 1), ids@).push(ids@[q as int]));
        }
    }
    proof {
        assert(items@.take(k as int) =~= items@);
    }
    r
}

/// The nodes of player 0 of the variables below `v` whose equation has the
/// fixpoint `ft`, variable by variable, each variable's nodes in order.
pub open spec fn p0_of_type(g: Game, ft: FixType, v: int) -> Seq<NodeId>
    decreases v,
{
    if v <= 0 {
        Seq::empty()
    } else {
        let prev = p0_of_type(g, ft, v - 1);
        if g.formulas.eqs()[v - 1].0 == ft {
            prev + g.var_to_p0@[v - 1]@.map_values(|n: NodeP0Id| g.p0.ids@[n.0 as int])
        } else {
            prev
        }
    }
}

impl Game {
    /// The successors of `n`: the special nodes follow each other, a decided
    /// node goes to the special node of its winner, an undecided node without
    /// edges goes to the special node won by the opponent, and otherwise to
    /// its recorded successors.
    pub open spec fn spec_successors(&self, n: NodeId) -> Seq<NodeId> {
        match self.kind(n) {
            NodeKind::L0 => seq![NodeId(NODE_W1)],
            NodeKind::L1 => seq![NodeId(NODE_W0)],
            NodeKind::W0 => seq![NodeId(NODE_L1)],
            NodeKind::W1 => seq![NodeId(NODE_L0)],
            NodeKind::P0(p) => match self.p0.win@[p.0 as int] {
                WinState::Win0 => seq![NodeId(NODE_L1)],
                WinState::Win1 => seq![NodeId(NODE_W1)],
                WinState::Unknown => if set_items(self.p0.succs@[p.0 as int]).len() == 0 {
                    seq![NodeId(NODE_W1)]
                } else {
                    ids_of(set_items(self.p0.succs@[p.0 as int]), self.p1.ids@)
                },
            },
            NodeKind::P1(p) => match self.p1.win@[p.0 as int] {
                WinState::Win0 => seq![NodeId(NODE_W0)],
                WinState::Win1 => seq![NodeId(NODE_L0)],
                WinState::Unknown => if set_items(self.p1.succs@[p.0 as int]).len() == 0 {
                    seq![NodeId(NODE_W0)]
                } else {
                    ids_of(set_items(self.p1.succs@[p.0 as int]), self.p0.ids@)
                },
            },
        }
    }

    /// The predecessors of `n`: for a special node the other special node
    /// before it and the nodes decided for the player it favours, and for
    /// other nodes their recorded predecessors.
    pub open spec fn spec_predecessors(&self, n: NodeId) -> Seq<NodeId> {
        match self.kind(n) {
            NodeKind::L0 => ids_of(set_items(self.p1.w1), self.p1.ids@).push(NodeId(NODE_W1)),
            NodeKind::L1 => ids_of(set_items(self.p0.w0), self.p0.ids@).push(NodeId(NODE_W0)),
            NodeKind::W0 => ids_of(set_items(self.p1.w0), self.p1.ids@).push(NodeId(NODE_L1)),
            NodeKind::W1 => ids_of(set_items(self.p0.w1), self.p0.ids@).push(NodeId(NODE_L0)),
            NodeKind::P0(p) => ids_of(set_items(self.p0.preds@[p.0 as int]), self.p1.ids@),
            NodeKind::P1(p) => ids_of(set_items(self.p1.preds@[p.0 as int]), self.p0.ids@),
        }
    }

    /// The successors of `n`.
    pub fn successors_of(&self, n: NodeId) -> (r: Vec<NodeId>)
        requires
            self.well_formed(),
            n.0 < self.nodes@.len(),
        ensures
            r@ == self.spec_successors(n),
    {
        match self.resolve(n) {
            NodeKind::L0 => vec![NodeId(NODE_W1)],
            NodeKind::L1 => vec![NodeId(NODE_W0)],
            NodeKind::W0 => vec![NodeId(NODE_L1)],
            NodeKind::W1 => vec![NodeId(NODE_L0)],
            NodeKind::P0(p) => {
                proof {
                    assert(self.p0.succs@.len() == self.p0.count());
                }
                match self.p0.win[p.0] {
                    WinState::Win0 => vec![NodeId(NODE_L1)],
                    WinState::Win1 => vec![NodeId(NODE_W1)],
                    WinState::Unknown => {
                        if set_len(&self.p0.succs[p.0]) == 0 {
                            vec![NodeId(NODE_W1)]
                        } else {
                            set_ids(&self.p0.succs[p.0], &self.p1.ids)
                        }
                    },
                }
            },
            NodeKind::P1(p) => {
                match self.p1.win[p.0] {
                    WinState::Win0 => vec![NodeId(NODE_W0)],
                    WinState::Win1 => vec![NodeId(NODE_L0)],
                    WinState::Unknown => {
                        if set_len(&self.p1.succs[p.0]) == 0 {
                            vec![NodeId(NODE_W0)]
                        } else {
                            set_ids(&self.p1.succs[p.0], &self.p0.ids)
                        }
                    },
                }
            },
        }
    }

    /// The predecessors of `n`.
    pub fn predecessors_of(&self, n: NodeId) -> (r: Vec<NodeId>)
        requires
            self.well_formed(),
            n.0 < self.nodes@.len(),
        ensures
            r@ == self.spec_predecessors(n),
    {
        match self.resolve(n) {
            NodeKind::L0 => {
                let mut r = set_ids(&self.p1.w1, &self.p1.ids);
                r.push(NodeId(NODE_W1));
                r
            },
            NodeKind::L1 => {
                let mut r = set_ids(&self.p0.w0, &self.p0.ids);
                r.push(NodeId(NODE_W0));
                r
            },
            NodeKind::W0 => {
                let mut r = set_ids(&self.p1.w0, &self.p1.ids);
                r.push(NodeId(NODE_L1));
                r
            },
            NodeKind::W1 => {
                let mut r = set_ids(&self.p0.w1, &self.p0.ids);
                r.push(NodeId(NODE_L0));
                r
            },
            NodeKind::P0(p) => set_ids(&self.p0.preds[p.0], &self.p1.ids),
            NodeKind::P1(p) => set_ids(&self.p1.preds[p.0], &self.p0.ids),
        }
    }

    /// The nodes of player 0 of the variables whose equation has the
    /// fixpoint `ft`.
    fn p0_nodes_of_type(&self, ft: FixType) -> (r: Vec<NodeId>)
        requires
            self.well_formed(),
        ensures
            r@ == p0_of_type(*self, ft, self.var_count() as int),
    {
        let mut r: Vec<NodeId> = Vec::new();
        let mut v: usize = 0;
        while v < self.var_to_p0.len()
            invariant
                v <= self.var_to_p0@.len(),
                self.well_formed(),
                r@ == p0_of_type(*self, ft, v as int),
            decreases self.var_to_p0@.len() - v,
        {
            if self.formulas.eq_fix_type(VarId(v)) == ft {
                let row = &self.var_to_p0[v];
                let ghost r0 = r@;
                let mut j: usize = 0;
                while j < row.len()
                    invariant
                        j <= row@.len(),
                        v < self.var_count(),
                        *row == self.var_to_p0@[v as int],
                        self.well_formed(),
                        r@ == r0 + row@.take(j as int).map_values(|n: NodeP0Id| self.p0.ids@[n.0 as int]),
                    decreases row@.len() - j,
                {
                    let n0 = row[j];
                    proof {
                        assert(n0.0 < self.p0.count());
                    }
                    r.push(self.p0.ids[n0.0]);
                    j = j + 1;
                    proof {
                        assert(row@.take(j as int).map_values(|n: NodeP0Id| self.p0.ids@[n.0 as int])
                            =~= row@.take(j - 1).map_values(|n: NodeP0Id| self.p0.ids@[n.0 as int]).push(
                            self.p0.ids@[n0.0 as int],
                        ));
                    }
                }
                proof {
                    assert(row@.take(j as int) =~= row@);
                }
            }
            v = v + 1;
        }
        r
    }

    /// All the nodes, from the most favourable to player 1 to the most
    /// favourable to player 0: the special nodes won by player 1, the nodes
    /// of player 0 of least fixpoints latest first, the nodes of player 1,
    /// the nodes of player 0 of greatest fixpoints, the special nodes won by
    /// player 0.
    pub fn nodes_sorted_by_reward(&self) -> (r: Vec<NodeId>)
        requires
            self.well_formed(),
        ensures
            r@ == seq![NodeId(NODE_W1), NodeId(NODE_L0)] + p0_of_type(
                *self,
                FixType::Min,
                self.var_count() as int,
            ).reverse() + self.p1.ids@ + p0_of_type(*self, FixType::Max, self.var_count() as int)
                + seq![NodeId(NODE_W0), NodeId(NODE_L1)],
    {
        let mut r: Vec<NodeId> = Vec::new();
        r.push(NodeId(NODE_W1));
        r.push(NodeId(NODE_L0));
        let mins = self.p0_nodes_of_type(FixType::Min);
        let ghost r0 = r@;
        let mut k: usize = mins.len();
        while k > 0
            invariant
                k <= mins@.len(),
                r@ == r0 + mins@.subrange(k as int, mins@.len() as int).reverse(),
            decreases k,
        {
            k = k - 1;
            r.push(mins[k]);
            proof {
                assert(mins@.subrange(k as int, mins@.len() as int).reverse() =~= mins@.subrange(
                    k + 1,
                    mins@.len() as int,
                ).reverse().push(mins@[k as int]));
            }
        }
        proof {
            assert(mins@.subrange(0, mins@.len() as int) =~= mins@);
        }
        let ghost r1 = r@;
        let mut j: usize = 0;
        while j < self.p1.ids.len()
            invariant
                j <= self.p1.ids@.len(),
                r@ == r1 + self.p1.ids@.take(j as int),
            decreases self.p1.ids@.len() - j,
        {
            r.push(self.p1.ids[j]);
            j = j + 1;
            proof {
                assert(self.p1.ids@.take(j as int) =~= self.p1.ids@.take(j - 1).push(self.p1.ids@[j - 1]));
            }
        }
        proof {
            assert(self.p1.ids@.take(j as int) =~= self.p1.ids@);
        }
        let maxs = self.p0_nodes_of_type(FixType::Max);
        let ghost r2 = r@;
        let mut i: usize = 0;
        while i < maxs.len()
            invariant
                i <= maxs@.len(),
                r@ == r2 + maxs@.take(i as int),
            decreases maxs@.len() - i,
        {
            r.push(maxs[i]);
            i = i + 1;
            proof {
                assert(maxs@.take(i as int) =~= maxs@.take(i - 1).push(maxs@[i - 1]));
            }
        }
        proof {
            assert(maxs@.take(i as int) =~= maxs@);
        }
        r.push(NodeId(NODE_W0));
        r.push(NodeId(NODE_L1));
        proof {
            assert(r@ =~= seq![NodeId(NODE_W1), NodeId(NODE_L0)] + mins@.reverse() + self.p1.ids@ + maxs@
                + seq![NodeId(NODE_W0), NodeId(NODE_L1)]);
        }
        r
    }
}


impl ParityGraph for Game {
    open spec fn graph_wf(&self) -> bool {
        self.well_formed()
    }

    open spec fn spec_player(&self, n: NodeId) -> Player {
        self.spec_player_of(n)
    }

    open spec fn spec_succs(&self, n: NodeId) -> Seq<NodeId> {
        self.spec_successors(n)
    }

    open spec fn spec_preds(&self, n: NodeId) -> Seq<NodeId> {
        self.spec_predecessors(n)
    }

    fn node_count(&self) -> (r: usize)
        ensures
            r == self.nodes@.len(),
    {
        self.nodes.len()
    }

    fn player_of(&self, n: NodeId) -> (r: Player)
        ensures
            r == self.spec_player_of(n),
    {
        Game::player_of(self, n)
    }

    fn successors_of(&self, n: NodeId) -> (r: Vec<NodeId>)
        ensures
            r@ == self.spec_successors(n),
    {
        Game::successors_of(self, n)
    }

    fn predecessors_of(&self, n: NodeId) -> (r: Vec<NodeId>)
        ensures
            r@ == self.spec_predecessors(n),
    {
        Game::predecessors_of(self, n)
    }

    fn nodes_sorted_by_reward(&self) -> (r: Vec<NodeId>)
        ensures
            r@ == seq![NodeId(NODE_W1), NodeId(NODE_L0)] + p0_of_type(
                *self,
                FixType::Min,
                self.var_count() as int,
            ).reverse() + self.p1.ids@ + p0_of_type(*self, FixType::Max, self.var_count() as int)
                + seq![NodeId(NODE_W0), NodeId(NODE_L1)],
    {
        Game::nodes_sorted_by_reward(self)
    }
}


/// The node that a successor recorded by the strategy stands for.
pub open spec fn succ_node(game: &Game, d: NodeP1Id) -> NodeId {
    if d.0 == P1_W1 {
        NodeId(NODE_W1)
    } else if d.0 == P1_L1 {
        NodeId(NODE_L1)
    } else {
        game.p1.ids@[d.0 as int]
    }
}

/// How the strategy records a move to `s`, a special node of player 1 or a
/// node of player 1.
pub open spec fn succ_id(game: &Game, s: NodeId) -> NodeP1Id {
    match game.kind(s) {
        NodeKind::W1 => NodeP1Id(P1_W1),
        NodeKind::L1 => NodeP1Id(P1_L1),
        NodeKind::P1(q) => q,
        _ => NodeP1Id(0),
    }
}

/// `s` is a node where player 1 moves: W1, L1, or a node of player 1.
pub open spec fn p1_target(game: &Game, s: NodeId) -> bool {
    &&& s.0 < game.nodes@.len()
    &&& (game.kind(s) is W1 || game.kind(s) is L1 || game.kind(s) is P1)
}

/// `d` records an answer of `f` for the node `key` moving to `cur`.
pub open spec fn answered<F: Fn(NodeId, NodeId) -> NodeId>(
    f: F,
    graph: &Game,
    key: NodeId,
    cur: NodeId,
    d: NodeP1Id,
) -> bool {
    exists|r: NodeId| #[trigger] call_ensures(f, (key, cur), r) && d == succ_id(graph, r)
}

impl GameStrategy {
    /// Asks `f`, for every node of player 0 with a successor, what its new
    /// successor is given the current one, and records the answer.
    pub fn update_each<F: Fn(NodeId, NodeId) -> NodeId>(&mut self, graph: &Game, f: F)
        requires
            old(self).well_formed(),
            graph.well_formed(),
            old(self).inverse@.len() == graph.p1.count(),
            old(self).direct@.len() <= graph.p0.count(),
            forall|k: int|
                0 <= k < old(self).direct@.len() ==> call_requires(
                    f,
                    (graph.p0.ids@[k], succ_node(graph, #[trigger] old(self).direct@[k])),
                ),
            forall|k: int, r: NodeId|
                0 <= k < old(self).direct@.len() && #[trigger] call_ensures(
                    f,
                    (graph.p0.ids@[k], succ_node(graph, old(self).direct@[k])),
                    r,
                ) ==> p1_target(graph, r),
        ensures
            final(self).well_formed(),
            final(self).inverse@.len() == old(self).inverse@.len(),
            final(self).direct@.len() == old(self).direct@.len(),
            forall|k: int|
                0 <= k < old(self).direct@.len() ==> answered(
                    f,
                    graph,
                    graph.p0.ids@[k],
                    succ_node(graph, old(self).direct@[k]),
                    #[trigger] final(self).direct@[k],
                ),
    {
        let ghost d0 = self.direct@;
        let mut k: usize = 0;
        while k < self.direct.len()
            invariant
                k <= self.direct@.len(),
                self.direct@.len() == d0.len(),
                self.well_formed(),
                graph.well_formed(),
                self.inverse@.len() == graph.p1.count(),
                d0.len() <= graph.p0.count(),
                forall|j: int|
                    0 <= j < d0.len() ==> call_requires(f, (graph.p0.ids@[j], succ_node(graph, #[trigger] d0[j]))),
                forall|j: int, r: NodeId|
                    0 <= j < d0.len() && #[trigger] call_ensures(f, (graph.p0.ids@[j], succ_node(graph, d0[j])), r)
                        ==> p1_target(graph, r),
                forall|j: int| k <= j < d0.len() ==> #[trigger] self.direct@[j] == d0[j],
                forall|j: int|
                    0 <= j < k ==> answered(
                        f,
                        graph,
                        graph.p0.ids@[j],
                        succ_node(graph, d0[j]),
                        #[trigger] self.direct@[j],
                    ),
            decreases d0.len() - k,
        {
            let p1 = self.direct[k];
            let n1 = if p1.0 == P1_W1 {
                NodeId(NODE_W1)
            } else if p1.0 == P1_L1 {
                NodeId(NODE_L1)
            } else {
                graph.p1.ids[p1.0]
            };
            proof {
                assert(n1 == succ_node(graph, d0[k as int]));
            }
            let nn1 = f(graph.p0.ids[k], n1);
            proof {
                assert(p1_target(graph, nn1));
            }
            let ghost before = self.direct@;
            if nn1 != n1 {
                let np1 = match graph.resolve(nn1) {
                    NodeKind::L1 => NodeP1Id(P1_L1),
                    NodeKind::W1 => NodeP1Id(P1_W1),
                    NodeKind::P1(q) => q,
                    _ => {
                        proof {
                            assert(false);
                        }
                        NodeP1Id(0)
                    },
                };
                self.update(NodeP0Id(k), np1);
            } else {
                proof {
                    if p1.0 != P1_W1 && p1.0 != P1_L1 {
                        assert(graph.nodes@[graph.p1.ids@[p1.0 as int].0 as int] == NodeKind::P1(p1));
                    }
                }
            }
            proof {
                assert(self.direct@[k as int] == succ_id(graph, nn1));
                assert forall|j: int| 0 <= j < k + 1 implies answered(
                    f,
                    graph,
                    graph.p0.ids@[j],
                    succ_node(graph, d0[j]),
                    #[trigger] self.direct@[j],
                ) by {
                    if j < k {
                        assert(self.direct@[j] == before[j]);
                    } else {
                        assert(call_ensures(f, (graph.p0.ids@[j], succ_node(graph, d0[j])), nn1));
                    }
                }
            }
            k = k + 1;
        }
    }
}


/// The node that the strategy's successor `p1` stands for.
pub fn p1_to_node(p1: NodeP1Id, ids: &Vec<NodeId>) -> (r: NodeId)
    requires
        p1.0 == P1_W1 || p1.0 == P1_L1 || p1.0 < ids@.len(),
    ensures
        r == if p1.0 == P1_W1 {
            NodeId(NODE_W1)
        } else if p1.0 == P1_L1 {
            NodeId(NODE_L1)
        } else {
            ids@[p1.0 as int]
        },
{
    if p1.0 == P1_W1 {
        NodeId(NODE_W1)
    } else if p1.0 == P1_L1 {
        NodeId(NODE_L1)
    } else {
        ids[p1.0]
    }
}

impl GameStrategy {
    /// The strategy has a successor for every node of player 0 and a set of
    /// predecessors for every node of player 1 of `game`.
    pub open spec fn fits_game(&self, game: &Game) -> bool {
        &&& game.well_formed()
        &&& self.well_formed()
        &&& self.inverse@.len() == game.p1.count()
        &&& self.direct@.len() == game.p0.count()
    }

    /// The successor of a node where player 0 moves: L0 moves to W1, W0 to
    /// L1, and a node of player 0 as the strategy says.
    pub open spec fn spec_direct(&self, n: NodeId, game: &Game) -> NodeId {
        match game.kind(n) {
            NodeKind::L0 => NodeId(NODE_W1),
            NodeKind::W0 => NodeId(NODE_L1),
            NodeKind::P0(p) => succ_node(game, self.direct@[p.0 as int]),
            _ => NodeId(0),
        }
    }

    /// The nodes that move to a node where player 1 moves: those of player 0
    /// that the strategy sends there, and W0 for L1 and L0 for W1.
    pub open spec fn spec_inverse(&self, n: NodeId, game: &Game) -> Seq<NodeId> {
        match game.kind(n) {
            NodeKind::L1 => ids_of(set_items(self.inverse_l1), game.p0.ids@).push(NodeId(NODE_W0)),
            NodeKind::W1 => ids_of(set_items(self.inverse_w1), game.p0.ids@).push(NodeId(NODE_L0)),
            NodeKind::P1(p) => ids_of(set_items(self.inverse@[p.0 as int]), game.p0.ids@),
            _ => Seq::empty(),
        }
    }
}

/// The sets of the inverse strategy name nodes of player 0.
proof fn lemma_inverse_below(s: GameStrategy, game: Game)
    requires
        s.fits_game(&game),
    ensures
        set_below(s.inverse_w1, game.p0.count()),
        set_below(s.inverse_l1, game.p0.count()),
        forall|k: int| 0 <= k < game.p1.count() ==> set_below(#[trigger] s.inverse@[k], game.p0.count()),
{
    assert forall|k: int| 0 <= k < game.p1.count() implies set_below(#[trigger] s.inverse@[k], game.p0.count()) by {
        assert(holds_exactly(s.inverse@[k], preimage(s.direct@, k as usize)));
        assert forall|x: usize| #[trigger] set_items(s.inverse@[k]).contains(x) implies x < game.p0.count() by {
            assert(preimage(s.direct@, k as usize).contains(x));
        }
    }
    assert forall|x: usize| #[trigger] set_items(s.inverse_w1).contains(x) implies x < game.p0.count() by {
        assert(preimage(s.direct@, P1_W1).contains(x));
    }
    assert forall|x: usize| #[trigger] set_items(s.inverse_l1).contains(x) implies x < game.p0.count() by {
        assert(preimage(s.direct@, P1_L1).contains(x));
    }
}

impl Strategy for GameStrategy {
    type Graph = Game;

    open spec fn fits(&self, graph: &Game) -> bool {
        self.fits_game(graph)
    }

    fn iter(&self, game: &Game) -> (r: Vec<(NodeId, NodeId)>)
        ensures
            r@.len() == self.direct@.len() + 2,
            forall|k: int|
                0 <= k < self.direct@.len() ==> #[trigger] r@[k] == (game.p0.ids@[k], succ_node(game, self.direct@[k])),
            r@[self.direct@.len() as int] == (NodeId(NODE_L0), NodeId(NODE_W1)),
            r@[self.direct@.len() + 1int] == (NodeId(NODE_W0), NodeId(NODE_L1)),
    {
        let mut r: Vec<(NodeId, NodeId)> = Vec::new();
        let mut k: usize = 0;
        while k < self.direct.len()
            invariant
                k <= self.direct@.len(),
                self.fits_game(game),
                r@.len() == k,
                forall|j: int| 0 <= j < k ==> #[trigger] r@[j] == (game.p0.ids@[j], succ_node(game, self.direct@[j])),
            decreases self.direct@.len() - k,
        {
            let d = self.direct[k];
            r.push((game.p0.ids[k], p1_to_node(d, &game.p1.ids)));
            k = k + 1;
        }
        r.push((NodeId(NODE_L0), NodeId(NODE_W1)));
        r.push((NodeId(NODE_W0), NodeId(NODE_L1)));
        r
    }

    fn get_direct(&self, n: NodeId, game: &Game) -> (r: NodeId)
        ensures
            r == self.spec_direct(n, game),
    {
        match game.resolve(n) {
            NodeKind::L0 => NodeId(NODE_W1),
            NodeKind::W0 => NodeId(NODE_L1),
            NodeKind::P0(p) => p1_to_node(self.direct[p.0], &game.p1.ids),
            _ => {
                proof {
                    assert(false);
                }
                NodeId(0)
            },
        }
    }

    fn get_inverse(&self, n: NodeId, game: &Game) -> (r: Vec<NodeId>)
        ensures
            r@ == self.spec_inverse(n, game),
    {
        proof {
            lemma_inverse_below(*self, *game);
        }
        match game.resolve(n) {
            NodeKind::L1 => {
                let mut r = set_ids(&self.inverse_l1, &game.p0.ids);
                r.push(NodeId(NODE_W0));
                r
            },
            NodeKind::W1 => {
                let mut r = set_ids(&self.inverse_w1, &game.p0.ids);
                r.push(NodeId(NODE_L0));
                r
            },
            NodeKind::P1(p) => set_ids(&self.inverse[p.0], &game.p0.ids),
            _ => {
                proof {
                    assert(false);
                }
                Vec::new()
            },
        }
    }

    fn predecessors_of(&self, n: NodeId, game: &Game) -> (r: Vec<NodeId>)
        ensures
            game.spec_player_of(n) == Player::P0 ==> r@ == game.spec_predecessors(n),
            game.spec_player_of(n) == Player::P1 ==> r@ == self.spec_inverse(n, game),
    {
        match game.player_of(n) {
            Player::P0 => game.predecessors_of(n),
            Player::P1 => self.get_inverse(n, game),
        }
    }

    fn successors_of(&self, n: NodeId, game: &Game) -> (r: Vec<NodeId>)
        ensures
            game.spec_player_of(n) == Player::P0 ==> r@ == seq![self.spec_direct(n, game)],
            game.spec_player_of(n) == Player::P1 ==> r@ == game.spec_successors(n),
    {
        match game.player_of(n) {
            Player::P0 => vec![self.get_direct(n, game)],
            Player::P1 => game.successors_of(n),
        }
    }
}

} // verus!
