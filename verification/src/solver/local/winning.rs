//! Deciding nodes: once a node is known to be won by a player, the edges that
//! no longer matter are dropped and the decision spreads to its neighbours.
use indexmap::IndexSet;
use rustc_hash::FxBuildHasher;
use vstd::prelude::*;

use crate::index_set::{insert_into, remove_from, set_items, set_len, set_new, set_to_vec};
use crate::solver::index::NodeId;

use super::game::{
    set_below, Game, GameStrategy, NodeP0Id, NodeP1Id, WinState, NODE_L0, NODE_L1, NODE_W0, NODE_W1,
    P1_L1, P1_W1,
};

verus! {

/// The number of items of the sets.
pub open spec fn set_sizes(v: Seq<IndexSet<usize, FxBuildHasher>>) -> nat
    decreases v.len(),
{
    if v.len() == 0 {
        0
    } else {
        set_sizes(v.drop_last()) + set_items(v.last()).len()
    }
}

/// The number of recorded edge ends: the predecessors and the successors of
/// every node.
pub open spec fn edge_count(g: Game) -> nat {
    set_sizes(g.p0.preds@) + set_sizes(g.p0.succs@) + set_sizes(g.p1.preds@) + set_sizes(g.p1.succs@)
}

proof fn lemma_set_sizes_update(v: Seq<IndexSet<usize, FxBuildHasher>>, k: int, s: IndexSet<usize, FxBuildHasher>)
    requires
        0 <= k < v.len(),
    ensures
        set_sizes(v.update(k, s)) + set_items(v[k]).len() == set_sizes(v) + set_items(s).len(),
    decreases v.len(),
{
    if k < v.len() - 1 {
        lemma_set_sizes_update(v.drop_last(), k, s);
        assert(v.update(k, s).drop_last() =~= v.drop_last().update(k, s));
    } else {
        assert(v.update(k, s).drop_last() =~= v.drop_last());
    }
}

/// The strategy has a successor for every node of player 0 and a set of
/// predecessors for every node of player 1, and the final strategy has a
/// successor for every node.
pub open spec fn strategies_fit(g: &Game, strategy: &GameStrategy, fs: Seq<NodeId>) -> bool {
    &&& strategy.well_formed()
    &&& strategy.inverse@.len() == g.p1.count()
    &&& strategy.direct@.len() == g.p0.count()
    &&& fs.len() == g.nodes@.len()
}

/// The nodes, their positions and their moves are those of `other`.
pub open spec fn same_nodes(g: &Game, other: &Game) -> bool {
    &&& g.nodes == other.nodes
    &&& g.formulas == other.formulas
    &&& g.var_to_p0 == other.var_to_p0
    &&& g.last_simplified == other.last_simplified
    &&& g.p0.pos == other.p0.pos
    &&& g.p0.ids == other.p0.ids
    &&& g.p0.moves == other.p0.moves
    &&& g.p0.preds@.len() == other.p0.preds@.len()
    &&& g.p0.succs@.len() == other.p0.succs@.len()
    &&& g.p0.win@.len() == other.p0.win@.len()
    &&& g.p1.pos == other.p1.pos
    &&& g.p1.ids == other.p1.ids
    &&& g.p1.moves == other.p1.moves
    &&& g.p1.preds@.len() == other.p1.preds@.len()
    &&& g.p1.succs@.len() == other.p1.succs@.len()
    &&& g.p1.win@.len() == other.p1.win@.len()
}

/// A game with the nodes of a well formed one is well formed if its sets
/// name nodes that exist.
proof fn lemma_wf_frame(g: Game, g2: Game)
    requires
        g.well_formed(),
        same_nodes(&g2, &g),
        forall|k: int| 0 <= k < g2.p0.count() ==> set_below(#[trigger] g2.p0.preds@[k], g2.p1.count()),
        forall|k: int| 0 <= k < g2.p0.count() ==> set_below(#[trigger] g2.p0.succs@[k], g2.p1.count()),
        forall|k: int| 0 <= k < g2.p1.count() ==> set_below(#[trigger] g2.p1.preds@[k], g2.p0.count()),
        forall|k: int| 0 <= k < g2.p1.count() ==> set_below(#[trigger] g2.p1.succs@[k], g2.p0.count()),
        set_below(g2.p0.incomplete, g2.p0.count()),
        set_below(g2.p0.w0, g2.p0.count()),
        set_below(g2.p0.w1, g2.p0.count()),
        set_below(g2.p1.incomplete, g2.p1.count()),
        set_below(g2.p1.w0, g2.p1.count()),
        set_below(g2.p1.w1, g2.p1.count()),
    ensures
        g2.well_formed(),
{
}

/// Empties the set at `k` and gives its items.
fn take_set(v: &mut Vec<IndexSet<usize, FxBuildHasher>>, k: usize) -> (items: Vec<usize>)
    requires
        k < old(v)@.len(),
    ensures
        final(v)@ == old(v)@.update(k as int, final(v)@[k as int]),
        set_items(final(v)@[k as int]).len() == 0,
        items@ == set_items(old(v)@[k as int]),
{
    let mut s = set_new();
    v.set_and_swap(k, &mut s);
    set_to_vec(&s)
}

/// Removes `x` from the set at `k`.
fn remove_at(v: &mut Vec<IndexSet<usize, FxBuildHasher>>, k: usize, x: usize, m: Ghost<nat>)
    requires
        k < old(v)@.len(),
        set_below(old(v)@[k as int], m@),
    ensures
        final(v)@ == old(v)@.update(k as int, final(v)@[k as int]),
        set_below(final(v)@[k as int], m@),
        set_sizes(final(v)@) <= set_sizes(old(v)@),
        forall|y: usize| #[trigger] set_items(final(v)@[k as int]).contains(y) <==> (set_items(old(v)@[k as int]).contains(y) && y != x),
{
    let ghost v0 = v@;
    remove_from(&mut v[k], x);
    proof {
        assert(v@ =~= v0.update(k as int, v@[k as int]));
        lemma_set_sizes_update(v0, k as int, v@[k as int]);
    }
}

/// Adds `x` to the set at `k`.
fn insert_at(v: &mut Vec<IndexSet<usize, FxBuildHasher>>, k: usize, x: usize, m: Ghost<nat>)
    requires
        k < old(v)@.len(),
        set_below(old(v)@[k as int], m@),
        x < m@,
    ensures
        final(v)@ == old(v)@.update(k as int, final(v)@[k as int]),
        set_below(final(v)@[k as int], m@),
        set_sizes(final(v)@) <= set_sizes(old(v)@) + 1,
        forall|y: usize| #[trigger] set_items(final(v)@[k as int]).contains(y) <==> (set_items(old(v)@[k as int]).contains(y) || y == x),
{
    let ghost v0 = v@;
    let ghost s0 = set_items(v0[k as int]);
    insert_into(&mut v[k], x);
    proof {
        assert(v@ =~= v0.update(k as int, v@[k as int]));
        lemma_set_sizes_update(v0, k as int, v@[k as int]);
        if !s0.contains(x) {
            lemma_len_push(s0, x, set_items(v@[k as int]));
        } else {
            lemma_len_same(s0, set_items(v@[k as int]));
        }
    }
}

proof fn lemma_len_push(s: Seq<usize>, x: usize, t: Seq<usize>)
    requires
        s.no_duplicates(),
        t.no_duplicates(),
        forall|y: usize| #[trigger] t.contains(y) <==> (s.contains(y) || y == x),
    ensures
        t.len() <= s.len() + 1,
{
    s.unique_seq_to_set();
    t.unique_seq_to_set();
    assert(t.to_set() =~= s.to_set().insert(x));
}

proof fn lemma_len_same(s: Seq<usize>, t: Seq<usize>)
    requires
        s.no_duplicates(),
        t.no_duplicates(),
        forall|y: usize| #[trigger] t.contains(y) <==> s.contains(y),
    ensures
        t.len() == s.len(),
{
    s.unique_seq_to_set();
    t.unique_seq_to_set();
    assert(t.to_set() =~= s.to_set());
}


/// No node decided in `g0` is undecided in `g`.
pub open spec fn keeps_decided(g: &Game, g0: &Game) -> bool {
    &&& forall|k: int| 0 <= k < g0.p0.count() && g0.p0.win@[k] != WinState::Unknown ==> #[trigger] g.p0.win@[k] != WinState::Unknown
    &&& forall|k: int| 0 <= k < g0.p1.count() && g0.p1.win@[k] != WinState::Unknown ==> #[trigger] g.p1.win@[k] != WinState::Unknown
}

/// The state stays well formed, with the nodes of `g0`, and the strategies fit it.
pub open spec fn cascade_ok(g: &Game, g0: &Game, s: &GameStrategy, fs: Seq<NodeId>) -> bool {
    &&& g.well_formed()
    &&& same_nodes(g, g0)
    &&& strategies_fit(g, s, fs)
}

/// Every node decided for player 0 in `g0` still is in `g`.
pub open spec fn keeps_win0(g: &Game, g0: &Game) -> bool {
    &&& forall|k: int| 0 <= k < g0.p0.count() && g0.p0.win@[k] == WinState::Win0 ==> #[trigger] g.p0.win@[k] == WinState::Win0
    &&& forall|k: int| 0 <= k < g0.p1.count() && g0.p1.win@[k] == WinState::Win0 ==> #[trigger] g.p1.win@[k] == WinState::Win0
}

/// Nodes decided in `g0`, other than `e0` (of player 0) and `e1` (of player
/// 1), keep their winner in `g`, and the nodes undecided in `g0` are
/// undecided in `g` or decided as `w`.
pub open spec fn keeps_winners(g: &Game, g0: &Game, e0: int, e1: int, w: WinState) -> bool {
    &&& forall|k: int|
        0 <= k < g0.p0.count() && k != e0 && g0.p0.win@[k] != WinState::Unknown ==> #[trigger] g.p0.win@[k]
            == g0.p0.win@[k]
    &&& forall|k: int|
        0 <= k < g0.p1.count() && k != e1 && g0.p1.win@[k] != WinState::Unknown ==> #[trigger] g.p1.win@[k]
            == g0.p1.win@[k]
    &&& forall|k: int|
        0 <= k < g0.p0.count() && g0.p0.win@[k] == WinState::Unknown ==> #[trigger] g.p0.win@[k]
            == WinState::Unknown || g.p0.win@[k] == w
    &&& forall|k: int|
        0 <= k < g0.p1.count() && g0.p1.win@[k] == WinState::Unknown ==> #[trigger] g.p1.win@[k]
            == WinState::Unknown || g.p1.win@[k] == w
}

/// A cascade started inside another one, from an undecided node, keeps the
/// winners as the outer one does.
proof fn lemma_keeps_winners_trans(
    g: Game,
    gb: Game,
    g0: Game,
    e0: int,
    e1: int,
    i0: int,
    i1: int,
    w: WinState,
)
    requires
        keeps_winners(&gb, &g0, e0, e1, w),
        keeps_winners(&g, &gb, i0, i1, w),
        gb.p0.count() == g0.p0.count(),
        gb.p1.count() == g0.p1.count(),
        i0 == -1 || (0 <= i0 < gb.p0.count() && gb.p0.win@[i0] == WinState::Unknown),
        i1 == -1 || (0 <= i1 < gb.p1.count() && gb.p1.win@[i1] == WinState::Unknown),
    ensures
        keeps_winners(&g, &g0, e0, e1, w),
{
    assert forall|k: int| 0 <= k < g0.p0.count() && g0.p0.win@[k] == WinState::Unknown implies #[trigger] g.p0.win@[k]
        == WinState::Unknown || g.p0.win@[k] == w by {
        if gb.p0.win@[k] != WinState::Unknown {
            assert(gb.p0.win@[k] == w);
            assert(k != i0);
        }
    }
    assert forall|k: int| 0 <= k < g0.p1.count() && g0.p1.win@[k] == WinState::Unknown implies #[trigger] g.p1.win@[k]
        == WinState::Unknown || g.p1.win@[k] == w by {
        if gb.p1.win@[k] != WinState::Unknown {
            assert(gb.p1.win@[k] == w);
            assert(k != i1);
        }
    }
    assert forall|k: int| 0 <= k < g0.p0.count() && k != e0 && g0.p0.win@[k] != WinState::Unknown implies #[trigger] g.p0.win@[k]
        == g0.p0.win@[k] by {
        assert(gb.p0.win@[k] == g0.p0.win@[k]);
        assert(k != i0);
    }
    assert forall|k: int| 0 <= k < g0.p1.count() && k != e1 && g0.p1.win@[k] != WinState::Unknown implies #[trigger] g.p1.win@[k]
        == g0.p1.win@[k] by {
        assert(gb.p1.win@[k] == g0.p1.win@[k]);
        assert(k != i1);
    }
}

impl Game {
    /// Records that player 1 wins at `p0`: its strategy moves to W1, its edges
    /// to successors are dropped, and its undecided predecessors, which can
    /// move to it, are won by player 1 too. No other winner recorded before
    /// changes.
    pub fn set_p0_losing(&mut self, p0: NodeP0Id, strategy: &mut GameStrategy, final_strategy: &mut Vec<NodeId>)
        requires
            old(self).well_formed(),
            p0.0 < old(self).p0.count(),
            strategies_fit(old(self), old(strategy), old(final_strategy)@),
        ensures
            cascade_ok(final(self), old(self), final(strategy), final(final_strategy)@),
            edge_count(*final(self)) <= edge_count(*old(self)),
            keeps_decided(final(self), old(self)),
            p0_succs_shrink(final(self), old(self)),
            p1_succs_shrink(final(self), old(self)),
            p1_fs_frame(final(self), old(self), final(final_strategy)@, old(final_strategy)@),
            final(self).p0.win@[p0.0 as int] == WinState::Win1,
            set_items(final(self).p0.w1).contains(p0.0),
            final(strategy).direct@[p0.0 as int] == NodeP1Id(P1_W1),
            final(final_strategy)@[old(self).p0.ids@[p0.0 as int].0 as int] == NodeId(NODE_W1),
            forall|k: int| 0 <= k < old(self).p0.count() && k != p0.0 ==> #[trigger] final(self).p0.win@[k] == old(self).p0.win@[k],
            forall|y: usize| !(#[trigger] set_items(final(self).p0.succs@[p0.0 as int]).contains(y)),
            forall|q: usize|
                #[trigger] set_items(old(self).p0.preds@[p0.0 as int]).contains(q) && old(self).p1.win@[q as int]
                    != WinState::Win0 ==> final(self).p1.win@[q as int] == WinState::Win1,
            keeps_winners(final(self), old(self), p0.0 as int, -1, WinState::Win1),
        decreases edge_count(*old(self)),
    {
        let ghost g0 = *self;
        let n0 = self.p0.pos.len();
        let n1 = self.p1.pos.len();
        self.p0.win.set(p0.0, WinState::Win1);
        insert_into(&mut self.p0.w1, p0.0);
        strategy.update(p0, NodeP1Id(P1_W1));
        let id = self.p0.ids[p0.0];
        final_strategy.set(id.0, NodeId(NODE_W1));
        let succs = take_set(&mut self.p0.succs, p0.0);
        proof {
            lemma_set_sizes_update(g0.p0.succs@, p0.0 as int, self.p0.succs@[p0.0 as int]);
            lemma_wf_frame(g0, *self);
        }
        let ghost g1 = *self;
        let mut k: usize = 0;
        while k < succs.len()
            invariant
                keeps_winners(self, &g0, p0.0 as int, -1, WinState::Win1),
                k <= succs@.len(),
                succs@ == set_items(g0.p0.succs@[p0.0 as int]),
                set_below(g0.p0.succs@[p0.0 as int], n1 as nat),
                n0 == g0.p0.count(),
                n1 == g0.p1.count(),
                p0.0 < n0,
                cascade_ok(self, &g0, strategy, final_strategy@),
                keeps_decided(self, &g0),
                p0_succs_shrink(self, &g0),
                p1_succs_shrink(self, &g0),
                p1_fs_frame(self, &g0, final_strategy@, old(final_strategy)@),
                edge_count(*self) <= edge_count(g1),
                self.p0 == g1.p0,
                self.p1.win == g1.p1.win,
            decreases succs@.len() - k,
        {
            let p1 = succs[k];
            proof {
                assert(set_items(g0.p0.succs@[p0.0 as int]).contains(p1));
            }
            let ghost gb = *self;
            remove_at(&mut self.p1.preds, p1, p0.0, Ghost(n0 as nat));
            proof {
                lemma_wf_frame(gb, *self);
            }
            k = k + 1;
        }
        let ghost g2 = *self;
        let preds = take_set(&mut self.p0.preds, p0.0);
        proof {
            lemma_set_sizes_update(g2.p0.preds@, p0.0 as int, self.p0.preds@[p0.0 as int]);
            lemma_wf_frame(g2, *self);
            assert(edge_count(g1) + set_items(g0.p0.succs@[p0.0 as int]).len() <= edge_count(g0));
        }
        let mut k: usize = 0;
        while k < preds.len()
            invariant
                keeps_winners(self, &g0, p0.0 as int, -1, WinState::Win1),
                k <= preds@.len(),
                preds@ == set_items(g2.p0.preds@[p0.0 as int]),
                set_below(g2.p0.preds@[p0.0 as int], n1 as nat),
                n0 == g0.p0.count(),
                n1 == g0.p1.count(),
                p0.0 < n0,
                id == g0.p0.ids@[p0.0 as int],
                cascade_ok(self, &g0, strategy, final_strategy@),
                keeps_decided(self, &g0),
                p0_succs_shrink(self, &g0),
                p1_succs_shrink(self, &g0),
                p1_fs_frame(self, &g0, final_strategy@, old(final_strategy)@),
                edge_count(*self) + preds@.len() <= edge_count(g0),
                self.p0.win@[p0.0 as int] == WinState::Win1,
                set_items(self.p0.w1).contains(p0.0),
                strategy.direct@[p0.0 as int] == NodeP1Id(P1_W1),
                final_strategy@[id.0 as int] == NodeId(NODE_W1),
                forall|j: int| 0 <= j < n0 && j != p0.0 ==> #[trigger] self.p0.win@[j] == g0.p0.win@[j],
                forall|y: usize| !(#[trigger] set_items(self.p0.succs@[p0.0 as int]).contains(y)),
                forall|j: int|
                    0 <= j < k ==> self.p1.win@[#[trigger] preds@[j] as int] == WinState::Win1 || g0.p1.win@[preds@[j] as int]
                        == WinState::Win0,
            decreases preds@.len() - k,
        {
            let p1 = preds[k];
            proof {
                assert(set_items(g2.p0.preds@[p0.0 as int]).contains(p1));
            }
            let ghost gk = *self;
            if self.p1.win[p1] == WinState::Unknown {
                let ghost gb = *self;
                self.set_p1_winning(NodeP1Id(p1), strategy, final_strategy);
                proof {
                    lemma_keeps_winners_trans(*self, gb, g0, p0.0 as int, -1, -1, p1 as int, WinState::Win1);
                    assert(final_strategy@[id.0 as int] == NodeId(NODE_W1)) by {
                        assert(id.0 != gb.p1.ids@[p1 as int].0) by {
                            assert(gb.nodes@[id.0 as int] == super::game::NodeKind::P0(p0));
                        }
                    }
                    assert forall|y: usize| !(#[trigger] set_items(self.p0.succs@[p0.0 as int]).contains(y)) by {
                        if set_items(self.p0.succs@[p0.0 as int]).contains(y) {
                            assert(set_items(gb.p0.succs@[p0.0 as int]).contains(y));
                        }
                    }
                }
            }
            proof {
                assert forall|j: int| 0 <= j < k + 1 implies self.p1.win@[#[trigger] preds@[j] as int] == WinState::Win1
                    || g0.p1.win@[preds@[j] as int] == WinState::Win0 by {
                    assert(set_items(g2.p0.preds@[p0.0 as int]).contains(preds@[j]));
                    let q = preds@[j] as int;
                    assert(q < n1);
                    if j < k {
                        if gk.p1.win@[q] == WinState::Win1 {
                            assert(self.p1.win@[q] == WinState::Win1);
                        }
                    } else if g0.p1.win@[q] == WinState::Unknown {
                        assert(gk.p1.win@[q] == WinState::Unknown || gk.p1.win@[q] == WinState::Win1);
                    } else {
                        assert(gk.p1.win@[q] == g0.p1.win@[q]);
                    }
                }
            }
            k = k + 1;
        }
        proof {
            assert(g2.p0.preds == g0.p0.preds);
            assert forall|q: usize|
                #[trigger] set_items(g0.p0.preds@[p0.0 as int]).contains(q) && g0.p1.win@[q as int] != WinState::Win0
                    implies self.p1.win@[q as int] == WinState::Win1 by {
                let j = preds@.index_of(q);
                assert(preds@[j] == q);
            }
        }
    }

    /// Records that player 1 wins at `p1`: its final strategy moves to L0, and
    /// all its edges are dropped, to its successors and from its
    /// predecessors. (A predecessor's edge would stay if the final strategy
    /// of `p1` led to it, but that strategy has just been set to L0.)
    pub fn set_p1_winning(&mut self, p1: NodeP1Id, strategy: &mut GameStrategy, final_strategy: &mut Vec<NodeId>)
        requires
            old(self).well_formed(),
            p1.0 < old(self).p1.count(),
            strategies_fit(old(self), old(strategy), old(final_strategy)@),
        ensures
            cascade_ok(final(self), old(self), final(strategy), final(final_strategy)@),
            edge_count(*final(self)) <= edge_count(*old(self)),
            keeps_decided(final(self), old(self)),
            p0_succs_shrink(final(self), old(self)),
            p1_succs_shrink(final(self), old(self)),
            p1_fs_frame(final(self), old(self), final(final_strategy)@, old(final_strategy)@),
            final(self).p1.win@[p1.0 as int] == WinState::Win1,
            set_items(final(self).p1.w1).contains(p1.0),
            !set_items(final(self).p1.incomplete).contains(p1.0),
            final(final_strategy)@ == old(final_strategy)@.update(old(self).p1.ids@[p1.0 as int].0 as int, NodeId(NODE_L0)),
            *final(strategy) == *old(strategy),
            final(self).p0.win == old(self).p0.win,
            final(self).p0.w0 == old(self).p0.w0,
            final(self).p0.w1 == old(self).p0.w1,
            forall|k: int| 0 <= k < old(self).p1.count() && k != p1.0 ==> #[trigger] final(self).p1.win@[k] == old(self).p1.win@[k],
            set_items(final(self).p1.succs@[p1.0 as int]).len() == 0,
            set_items(final(self).p1.preds@[p1.0 as int]).len() == 0,
            forall|k: int| 0 <= k < old(self).p1.count() && k != p1.0 ==> #[trigger] final(self).p1.succs@[k] == old(self).p1.succs@[k]
                && final(self).p1.preds@[k] == old(self).p1.preds@[k],
            forall|x: int, y: usize|
                0 <= x < old(self).p0.count() ==> (#[trigger] set_items(final(self).p0.preds@[x]).contains(y) <==> (set_items(
                    old(self).p0.preds@[x],
                ).contains(y) && !(y == p1.0 && set_items(old(self).p1.succs@[p1.0 as int]).contains(x as usize)))),
            forall|x: int, y: usize|
                0 <= x < old(self).p0.count() ==> (#[trigger] set_items(final(self).p0.succs@[x]).contains(y) <==> (set_items(
                    old(self).p0.succs@[x],
                ).contains(y) && !(y == p1.0 && set_items(old(self).p1.preds@[p1.0 as int]).contains(x as usize)))),
            keeps_winners(final(self), old(self), -1, p1.0 as int, WinState::Win1),
        decreases edge_count(*old(self)),
    {
        let ghost g0 = *self;
        let n0 = self.p0.pos.len();
        let n1 = self.p1.pos.len();
        self.p1.win.set(p1.0, WinState::Win1);
        insert_into(&mut self.p1.w1, p1.0);
        remove_from(&mut self.p1.incomplete, p1.0);
        let id = self.p1.ids[p1.0];
        final_strategy.set(id.0, NodeId(NODE_L0));
        let succs = take_set(&mut self.p1.succs, p1.0);
        proof {
            lemma_set_sizes_update(g0.p1.succs@, p1.0 as int, self.p1.succs@[p1.0 as int]);
            lemma_wf_frame(g0, *self);
        }
        let ghost g1 = *self;
        let ghost fs1 = final_strategy@;
        let mut k: usize = 0;
        while k < succs.len()
            invariant
                keeps_winners(self, &g0, -1, p1.0 as int, WinState::Win1),
                k <= succs@.len(),
                succs@ == set_items(g0.p1.succs@[p1.0 as int]),
                set_below(g0.p1.succs@[p1.0 as int], n0 as nat),
                n0 == g0.p0.count(),
                n1 == g0.p1.count(),
                p1.0 < n1,
                cascade_ok(self, &g0, strategy, final_strategy@),
                keeps_decided(self, &g0),
                p0_succs_shrink(self, &g0),
                p1_succs_shrink(self, &g0),
                p1_fs_frame(self, &g0, final_strategy@, old(final_strategy)@),
                edge_count(*self) <= edge_count(g1),
                self.p1 == g1.p1,
                self.p0.win == g1.p0.win,
                *strategy == *old(strategy),
                final_strategy@ == fs1,
                self.p0.w0 == g0.p0.w0,
                self.p0.w1 == g0.p0.w1,
                self.p0.succs == g0.p0.succs,
                self.p0.preds@.len() == g0.p0.preds@.len(),
                forall|x: int, y: usize|
                    0 <= x < n0 ==> (#[trigger] set_items(self.p0.preds@[x]).contains(y) <==> (set_items(
                        g0.p0.preds@[x],
                    ).contains(y) && !(y == p1.0 && succs@.take(k as int).contains(x as usize)))),
            decreases succs@.len() - k,
        {
            let p0 = succs[k];
            proof {
                assert(set_items(g0.p1.succs@[p1.0 as int]).contains(p0));
            }
            let ghost gb = *self;
            remove_at(&mut self.p0.preds, p0, p1.0, Ghost(n1 as nat));
            proof {
                lemma_wf_frame(gb, *self);
                assert(succs@.take(k + 1) =~= succs@.take(k as int).push(p0));
                assert forall|x: int, y: usize|
                    0 <= x < n0 implies (#[trigger] set_items(self.p0.preds@[x]).contains(y) <==> (set_items(
                        g0.p0.preds@[x],
                    ).contains(y) && !(y == p1.0 && succs@.take(k + 1).contains(x as usize)))) by {
                    if x != p0 {
                        assert(self.p0.preds@[x] == gb.p0.preds@[x]);
                        if succs@.take(k + 1).contains(x as usize) {
                            let i = choose|i: int| 0 <= i < k + 1 && #[trigger] succs@.take(k + 1)[i] == x as usize;
                            assert(succs@.take(k as int)[i] == x as usize);
                        }
                    } else {
                        assert(succs@.take(k + 1)[k as int] == p0);
                    }
                }
            }
            k = k + 1;
        }
        proof {
            assert(succs@.take(k as int) =~= succs@);
        }
        let ghost g2 = *self;
        let preds = take_set(&mut self.p1.preds, p1.0);
        proof {
            lemma_set_sizes_update(g2.p1.preds@, p1.0 as int, self.p1.preds@[p1.0 as int]);
            lemma_wf_frame(g2, *self);
        }
        let mut k: usize = 0;
        while k < preds.len()
            invariant
                keeps_winners(self, &g0, -1, p1.0 as int, WinState::Win1),
                k <= preds@.len(),
                preds@ == set_items(g2.p1.preds@[p1.0 as int]),
                set_below(g2.p1.preds@[p1.0 as int], n0 as nat),
                n0 == g0.p0.count(),
                n1 == g0.p1.count(),
                p1.0 < n1,
                id == g0.p1.ids@[p1.0 as int],
                cascade_ok(self, &g0, strategy, final_strategy@),
                keeps_decided(self, &g0),
                p0_succs_shrink(self, &g0),
                p1_succs_shrink(self, &g0),
                p1_fs_frame(self, &g0, final_strategy@, old(final_strategy)@),
                edge_count(*self) + (preds@.len() - k) <= edge_count(g0),
                self.p1.win@[p1.0 as int] == WinState::Win1,
                set_items(self.p1.w1).contains(p1.0),
                !set_items(self.p1.incomplete).contains(p1.0),
                final_strategy@ == fs1,
                fs1 == old(final_strategy)@.update(id.0 as int, NodeId(NODE_L0)),
                old(final_strategy)@.len() == g0.nodes@.len(),
                self.p0.preds == g2.p0.preds,
                self.p1.succs == g2.p1.succs,
                self.p1.preds@.len() == n1,
                set_items(self.p1.preds@[p1.0 as int]).len() == 0,
                forall|j: int| 0 <= j < n1 && j != p1.0 ==> #[trigger] self.p1.preds@[j] == g0.p1.preds@[j],
                forall|x: int, y: usize|
                    0 <= x < n0 ==> (#[trigger] set_items(self.p0.succs@[x]).contains(y) <==> (set_items(
                        g0.p0.succs@[x],
                    ).contains(y) && !(y == p1.0 && preds@.take(k as int).contains(x as usize)))),
                *strategy == *old(strategy),
                self.p0.win == g0.p0.win,
                self.p0.w0 == g0.p0.w0,
                self.p0.w1 == g0.p0.w1,
                forall|j: int| 0 <= j < n1 && j != p1.0 ==> #[trigger] self.p1.win@[j] == g0.p1.win@[j],
            decreases preds@.len() - k,
        {
            let p0 = preds[k];
            proof {
                assert(set_items(g2.p1.preds@[p1.0 as int]).contains(p0));
                assert(self.nodes@[self.p0.ids@[p0 as int].0 as int] == super::game::NodeKind::P0(NodeP0Id(p0)));
                assert(4 <= self.p0.ids@[p0 as int].0);
                assert(self.p1.ids@[p1.0 as int] == id);
                assert(id.0 < self.nodes@.len());
                assert(final_strategy@[id.0 as int] == NodeId(NODE_L0));
            }
            if final_strategy[self.p1.ids[p1.0].0] == self.p0.ids[p0] {
                proof {
                    assert(false);
                }
            } else {
                let ghost gb = *self;
                remove_at(&mut self.p0.succs, p0, p1.0, Ghost(n1 as nat));
                proof {
                    lemma_wf_frame(gb, *self);
                    assert(preds@.take(k + 1) =~= preds@.take(k as int).push(p0));
                    assert forall|x: int, y: usize|
                        0 <= x < n0 implies (#[trigger] set_items(self.p0.succs@[x]).contains(y) <==> (set_items(
                            g0.p0.succs@[x],
                        ).contains(y) && !(y == p1.0 && preds@.take(k + 1).contains(x as usize)))) by {
                        if x != p0 {
                            assert(self.p0.succs@[x] == gb.p0.succs@[x]);
                            if preds@.take(k + 1).contains(x as usize) {
                                let i = choose|i: int| 0 <= i < k + 1 && #[trigger] preds@.take(k + 1)[i] == x as usize;
                                assert(preds@.take(k as int)[i] == x as usize);
                            }
                        } else {
                            assert(preds@.take(k + 1)[k as int] == p0);
                        }
                    }
                }
            }
            k = k + 1;
        }
        proof {
            assert(preds@.take(k as int) =~= preds@);
        }
    }
}


/// The successors of every node of player 0 in `g` were successors in `g0`.
pub open spec fn p0_succs_shrink(g: &Game, g0: &Game) -> bool {
    forall|x: int, y: usize|
        0 <= x < g0.p0.count() && #[trigger] set_items(g.p0.succs@[x]).contains(y) ==> set_items(g0.p0.succs@[x]).contains(
            y,
        )
}

/// The successors of every node of player 1 in `g` were successors in `g0`.
pub open spec fn p1_succs_shrink(g: &Game, g0: &Game) -> bool {
    forall|x: int, y: usize|
        0 <= x < g0.p1.count() && #[trigger] set_items(g.p1.succs@[x]).contains(y) ==> set_items(g0.p1.succs@[x]).contains(
            y,
        )
}

/// A node of player 1 whose final strategy changed from `fs0` to `fs` has no
/// successor left in `g`.
pub open spec fn p1_fs_frame(g: &Game, g0: &Game, fs: Seq<NodeId>, fs0: Seq<NodeId>) -> bool {
    forall|x: int, y: usize|
        0 <= x < g0.p1.count() && fs[g0.p1.ids@[x].0 as int] != fs0[g0.p1.ids@[x].0 as int] ==> !(
        #[trigger] set_items(g.p1.succs@[x]).contains(y))
}

/// Every predecessor that a node of player 0 lost from `g0` to `g` is won by
/// player 0 in `g`, unless the node is `e` or was not won by player 0 in
/// `g0`.
pub open spec fn preds_kept_w0(g: &Game, g0: &Game, e: int) -> bool {
    forall|y: int, q: usize|
        0 <= y < g0.p0.count() && set_items(g0.p0.preds@[y]).contains(q) && !(#[trigger] set_items(
            g.p0.preds@[y],
        ).contains(q)) ==> g.p1.win@[q as int] == WinState::Win0 || y == e || g0.p0.win@[y] != WinState::Win0
}

proof fn lemma_kept_trans(g: Game, gb: Game, g0: Game, e: int, e2: int)
    requires
        preds_kept_w0(&gb, &g0, e),
        preds_kept_w0(&g, &gb, e2),
        keeps_win0(&g, &gb),
        keeps_win0(&gb, &g0),
        g0.well_formed(),
        gb.p0.count() == g0.p0.count(),
        gb.p1.count() == g0.p1.count(),
        e2 == -1 || e2 == e || (0 <= e2 < gb.p0.count() && gb.p0.win@[e2] != WinState::Win0),
    ensures
        preds_kept_w0(&g, &g0, e),
{
    assert forall|y: int, q: usize|
        0 <= y < g0.p0.count() && set_items(g0.p0.preds@[y]).contains(q) && !(#[trigger] set_items(
            g.p0.preds@[y],
        ).contains(q)) implies g.p1.win@[q as int] == WinState::Win0 || y == e || g0.p0.win@[y] != WinState::Win0 by {
        assert(set_below(g0.p0.preds@[y], g0.p1.count()));
        assert(q < g0.p1.count());
        if !set_items(gb.p0.preds@[y]).contains(q) {
            if gb.p1.win@[q as int] == WinState::Win0 {
                assert(g.p1.win@[q as int] == WinState::Win0);
            }
        } else {
            if g.p1.win@[q as int] != WinState::Win0 && y != e {
                assert(y == e2 || gb.p0.win@[y] != WinState::Win0);
                assert(gb.p0.win@[y] != WinState::Win0);
                if g0.p0.win@[y] == WinState::Win0 {
                    assert(gb.p0.win@[y] == WinState::Win0);
                }
            }
        }
    }
}

/// Every successor that a node of player 1 lost from `g0` to `g` is `e` or
/// was not won by player 0 in `g0`, unless the node is won by player 0 in `g`.
pub open spec fn succs_kept_w0(g: &Game, g0: &Game, e: int) -> bool {
    forall|x: int, y: usize|
        0 <= x < g0.p1.count() && set_items(g0.p1.succs@[x]).contains(y) && !(#[trigger] set_items(
            g.p1.succs@[x],
        ).contains(y)) ==> g.p1.win@[x] == WinState::Win0 || y == e || g0.p0.win@[y as int] != WinState::Win0
}

proof fn lemma_succs_kept_trans(g: Game, gb: Game, g0: Game, e: int, e2: int)
    requires
        succs_kept_w0(&gb, &g0, e),
        succs_kept_w0(&g, &gb, e2),
        keeps_win0(&g, &gb),
        keeps_win0(&gb, &g0),
        g0.well_formed(),
        gb.p0.count() == g0.p0.count(),
        gb.p1.count() == g0.p1.count(),
        e2 == -1 || e2 == e || (0 <= e2 < gb.p0.count() && gb.p0.win@[e2] != WinState::Win0),
    ensures
        succs_kept_w0(&g, &g0, e),
{
    assert forall|x: int, y: usize|
        0 <= x < g0.p1.count() && set_items(g0.p1.succs@[x]).contains(y) && !(#[trigger] set_items(
            g.p1.succs@[x],
        ).contains(y)) implies g.p1.win@[x] == WinState::Win0 || y == e || g0.p0.win@[y as int] != WinState::Win0 by {
        assert(set_below(g0.p1.succs@[x], g0.p0.count()));
        assert(y < g0.p0.count());
        if !set_items(gb.p1.succs@[x]).contains(y) {
            if gb.p1.win@[x] == WinState::Win0 {
                assert(g.p1.win@[x] == WinState::Win0);
            }
        } else {
            if g.p1.win@[x] != WinState::Win0 && y != e {
                assert(y == e2 || gb.p0.win@[y as int] != WinState::Win0);
                assert(gb.p0.win@[y as int] != WinState::Win0);
                if g0.p0.win@[y as int] == WinState::Win0 {
                    assert(gb.p0.win@[y as int] == WinState::Win0);
                }
            }
        }
    }
}

/// A node of player 1 whose final strategy changed from `fs0` to `fs` is won
/// by player 0 in `g`.
pub open spec fn p1_fs_w0(g: &Game, g0: &Game, fs: Seq<NodeId>, fs0: Seq<NodeId>) -> bool {
    forall|x: int|
        0 <= x < g0.p1.count() && #[trigger] fs[g0.p1.ids@[x].0 as int] != fs0[g0.p1.ids@[x].0 as int] ==> g.p1.win@[x]
            == WinState::Win0
}

/// What a cascade of decisions for player 0 leaves alone: the nodes already
/// won by player 0 keep their winner, and those of player 0 but `e0`, where
/// the cascade may start, keep their strategies; decided sets only grow and
/// incomplete sets only shrink.
pub open spec fn win0_frame(
    g: &Game,
    g0: &Game,
    s: &GameStrategy,
    s0: &GameStrategy,
    fs: Seq<NodeId>,
    fs0: Seq<NodeId>,
    e0: int,
) -> bool {
    &&& keeps_win0(g, g0)
    &&& forall|k: int|
        0 <= k < g0.p0.count() && k != e0 && g0.p0.win@[k] == WinState::Win0 ==> #[trigger] s.direct@[k] == s0.direct@[k]
            && fs[g0.p0.ids@[k].0 as int] == fs0[g0.p0.ids@[k].0 as int]
    &&& forall|k: int|
        0 <= k < g0.p1.count() && g0.p1.win@[k] == WinState::Win0 && fs0[g0.p1.ids@[k].0 as int] == NodeId(NODE_W0)
            ==> #[trigger] fs[g0.p1.ids@[k].0 as int] == NodeId(NODE_W0)
    &&& forall|x: usize| set_items(g0.p0.w0).contains(x) ==> #[trigger] set_items(g.p0.w0).contains(x)
    &&& forall|x: usize| set_items(g0.p1.w0).contains(x) ==> #[trigger] set_items(g.p1.w0).contains(x)
    &&& forall|x: usize| #[trigger] set_items(g.p0.incomplete).contains(x) ==> set_items(g0.p0.incomplete).contains(x)
}

/// Distinct nodes of player 0 have distinct identifiers, apart from those of
/// the nodes of player 1 and of the special nodes.
proof fn lemma_ids_distinct(g: Game)
    requires
        g.well_formed(),
    ensures
        forall|a: int, b: int|
            0 <= a < g.p0.count() && 0 <= b < g.p0.count() && a != b ==> #[trigger] g.p0.ids@[a] != #[trigger] g.p0.ids@[b],
        forall|a: int, b: int|
            0 <= a < g.p1.count() && 0 <= b < g.p1.count() && a != b ==> #[trigger] g.p1.ids@[a] != #[trigger] g.p1.ids@[b],
        forall|a: int, b: int|
            0 <= a < g.p0.count() && 0 <= b < g.p1.count() ==> #[trigger] g.p0.ids@[a] != #[trigger] g.p1.ids@[b],
{
    assert forall|a: int, b: int|
        0 <= a < g.p0.count() && 0 <= b < g.p0.count() && a != b implies #[trigger] g.p0.ids@[a] != #[trigger] g.p0.ids@[b] by {
        assert(g.nodes@[g.p0.ids@[a].0 as int] == super::game::NodeKind::P0(NodeP0Id(a as usize)));
        assert(g.nodes@[g.p0.ids@[b].0 as int] == super::game::NodeKind::P0(NodeP0Id(b as usize)));
    }
    assert forall|a: int, b: int|
        0 <= a < g.p1.count() && 0 <= b < g.p1.count() && a != b implies #[trigger] g.p1.ids@[a] != #[trigger] g.p1.ids@[b] by {
        assert(g.nodes@[g.p1.ids@[a].0 as int] == super::game::NodeKind::P1(NodeP1Id(a as usize)));
        assert(g.nodes@[g.p1.ids@[b].0 as int] == super::game::NodeKind::P1(NodeP1Id(b as usize)));
    }
    assert forall|a: int, b: int|
        0 <= a < g.p0.count() && 0 <= b < g.p1.count() implies #[trigger] g.p0.ids@[a] != #[trigger] g.p1.ids@[b] by {
        assert(g.nodes@[g.p0.ids@[a].0 as int] == super::game::NodeKind::P0(NodeP0Id(a as usize)));
        assert(g.nodes@[g.p1.ids@[b].0 as int] == super::game::NodeKind::P1(NodeP1Id(b as usize)));
    }
}


/// Cascades compose: the frame of a cascade inside another, started from a
/// node not yet won by player 0, gives the frame of the outer one.
proof fn lemma_win0_frame_trans(
    g: Game,
    gb: Game,
    g0: Game,
    s: GameStrategy,
    sb: GameStrategy,
    s0: GameStrategy,
    fs: Seq<NodeId>,
    fsb: Seq<NodeId>,
    fs0: Seq<NodeId>,
    inner: int,
    outer: int,
)
    requires
        win0_frame(&g, &gb, &s, &sb, fs, fsb, inner),
        win0_frame(&gb, &g0, &sb, &s0, fsb, fs0, outer),
        same_nodes(&gb, &g0),
        inner == -1 || (0 <= inner < gb.p0.count() && gb.p0.win@[inner] != WinState::Win0),
    ensures
        win0_frame(&g, &g0, &s, &s0, fs, fs0, outer),
{
    assert forall|k: int|
        0 <= k < g0.p0.count() && k != outer && g0.p0.win@[k] == WinState::Win0 implies #[trigger] s.direct@[k] == s0.direct@[k]
            && fs[g0.p0.ids@[k].0 as int] == fs0[g0.p0.ids@[k].0 as int] by {
        assert(gb.p0.win@[k] == WinState::Win0);
        assert(sb.direct@[k] == s0.direct@[k]);
        assert(k != inner);
        assert(gb.p0.ids@[k] == g0.p0.ids@[k]);
        assert(s.direct@[k] == sb.direct@[k]);
    }
    assert forall|k: int|
        0 <= k < g0.p1.count() && g0.p1.win@[k] == WinState::Win0 && fs0[g0.p1.ids@[k].0 as int] == NodeId(NODE_W0)
            implies #[trigger] fs[g0.p1.ids@[k].0 as int] == NodeId(NODE_W0) by {
        assert(gb.p1.win@[k] == WinState::Win0);
        assert(gb.p1.ids@[k] == g0.p1.ids@[k]);
        assert(fsb[gb.p1.ids@[k].0 as int] == NodeId(NODE_W0));
    }
}

impl Game {
    /// Records that player 0 wins at `p0`: its strategy moves to L1, it is
    /// complete, its edges to successors are dropped, and so are the edges
    /// from its predecessors that the final strategy does not follow; an
    /// undecided predecessor whose only move left is to `p0` is lost by
    /// player 1, and the other predecessors that the final strategy moves to
    /// `p0` keep their edge unless player 0 wins there by the end. No other
    /// winner recorded before changes.
    pub fn set_p0_winning(&mut self, p0: NodeP0Id, strategy: &mut GameStrategy, final_strategy: &mut Vec<NodeId>)
        requires
            old(self).well_formed(),
            p0.0 < old(self).p0.count(),
            strategies_fit(old(self), old(strategy), old(final_strategy)@),
        ensures
            cascade_ok(final(self), old(self), final(strategy), final(final_strategy)@),
            edge_count(*final(self)) <= edge_count(*old(self)),
            keeps_decided(final(self), old(self)),
            p0_succs_shrink(final(self), old(self)),
            p1_succs_shrink(final(self), old(self)),
            p1_fs_frame(final(self), old(self), final(final_strategy)@, old(final_strategy)@),
            preds_kept_w0(final(self), old(self), p0.0 as int),
            succs_kept_w0(final(self), old(self), p0.0 as int),
            p1_fs_w0(final(self), old(self), final(final_strategy)@, old(final_strategy)@),
            final(self).p0.win@[p0.0 as int] == WinState::Win0,
            forall|q: usize|
                #[trigger] set_items(old(self).p0.preds@[p0.0 as int]).contains(q) && old(final_strategy)@[old(
                    self,
                ).p1.ids@[q as int].0 as int] == old(self).p0.ids@[p0.0 as int] ==> set_items(
                    final(self).p0.preds@[p0.0 as int],
                ).contains(q) || final(self).p1.win@[q as int] == WinState::Win0,
            forall|x: int|
                0 <= x < old(self).p1.count() && set_items(old(self).p1.succs@[x]).contains(p0.0) && old(
                    final_strategy,
                )@[old(self).p1.ids@[x].0 as int] == old(self).p0.ids@[p0.0 as int] ==> #[trigger] set_items(
                    final(self).p1.succs@[x],
                ).contains(p0.0) || final(self).p1.win@[x] == WinState::Win0,
            set_items(final(self).p0.w0).contains(p0.0),
            !set_items(final(self).p0.incomplete).contains(p0.0),
            final(strategy).direct@[p0.0 as int] == NodeP1Id(P1_L1),
            forall|y: usize| !(#[trigger] set_items(final(self).p0.succs@[p0.0 as int]).contains(y)),
            forall|q: usize|
                #[trigger] set_items(old(self).p0.preds@[p0.0 as int]).contains(q) && old(final_strategy)@[old(
                    self,
                ).p1.ids@[q as int].0 as int] != old(self).p0.ids@[p0.0 as int] ==> !set_items(
                    final(self).p1.succs@[q as int],
                ).contains(p0.0),
            final(final_strategy)@[old(self).p0.ids@[p0.0 as int].0 as int] == NodeId(NODE_L1),
            win0_frame(
                final(self),
                old(self),
                final(strategy),
                old(strategy),
                final(final_strategy)@,
                old(final_strategy)@,
                p0.0 as int,
            ),
            keeps_winners(final(self), old(self), p0.0 as int, -1, WinState::Win0),
        decreases edge_count(*old(self)),
    {
        let ghost g0 = *self;
        let ghost s0 = *strategy;
        let ghost fs0 = final_strategy@;
        proof {
            lemma_ids_distinct(g0);
        }
        let n0 = self.p0.pos.len();
        let n1 = self.p1.pos.len();
        self.p0.win.set(p0.0, WinState::Win0);
        insert_into(&mut self.p0.w0, p0.0);
        remove_from(&mut self.p0.incomplete, p0.0);
        strategy.update(p0, NodeP1Id(P1_L1));
        let id = self.p0.ids[p0.0];
        final_strategy.set(id.0, NodeId(NODE_L1));
        let succs = take_set(&mut self.p0.succs, p0.0);
        proof {
            lemma_set_sizes_update(g0.p0.succs@, p0.0 as int, self.p0.succs@[p0.0 as int]);
            lemma_wf_frame(g0, *self);
        }
        let ghost g1 = *self;
        let ghost s1 = *strategy;
        let ghost fs1 = final_strategy@;
        let mut k: usize = 0;
        while k < succs.len()
            invariant
                keeps_winners(self, &g0, p0.0 as int, -1, WinState::Win0),
                k <= succs@.len(),
                succs@ == set_items(g0.p0.succs@[p0.0 as int]),
                set_below(g0.p0.succs@[p0.0 as int], n1 as nat),
                n0 == g0.p0.count(),
                n1 == g0.p1.count(),
                p0.0 < n0,
                cascade_ok(self, &g0, strategy, final_strategy@),
                keeps_decided(self, &g0),
                p0_succs_shrink(self, &g0),
                p1_succs_shrink(self, &g0),
                p1_fs_frame(self, &g0, final_strategy@, old(final_strategy)@),
                preds_kept_w0(self, &g0, p0.0 as int),
                succs_kept_w0(self, &g0, p0.0 as int),
                p1_fs_w0(self, &g0, final_strategy@, old(final_strategy)@),
                forall|y: usize| !(#[trigger] set_items(self.p0.succs@[p0.0 as int]).contains(y)),
                edge_count(*self) <= edge_count(g1),
                self.p1.succs == g0.p1.succs,
                self.p0 == g1.p0,
                self.p1.win == g1.p1.win,
                self.p1.w0 == g1.p1.w0,
                *strategy == s1,
                final_strategy@ == fs1,
            decreases succs@.len() - k,
        {
            let p1 = succs[k];
            proof {
                assert(set_items(g0.p0.succs@[p0.0 as int]).contains(p1));
            }
            let ghost gb = *self;
            remove_at(&mut self.p1.preds, p1, p0.0, Ghost(n0 as nat));
            proof {
                lemma_wf_frame(gb, *self);
            }
            k = k + 1;
        }
        let ghost g2 = *self;
        let preds = take_set(&mut self.p0.preds, p0.0);
        proof {
            lemma_set_sizes_update(g2.p0.preds@, p0.0 as int, self.p0.preds@[p0.0 as int]);
            lemma_wf_frame(g2, *self);
            assert(edge_count(g1) <= edge_count(g0));
            assert forall|j: int|
                0 <= j < n0 && j != p0.0 && g0.p0.win@[j] == WinState::Win0 implies #[trigger] strategy.direct@[j] == s0.direct@[j]
                    && final_strategy@[g0.p0.ids@[j].0 as int] == fs0[g0.p0.ids@[j].0 as int] by {
                assert(g0.p0.ids@[j] != g0.p0.ids@[p0.0 as int]);
            }
        }
        let mut k: usize = 0;
        while k < preds.len()
            invariant
                keeps_winners(self, &g0, p0.0 as int, -1, WinState::Win0),
                k <= preds@.len(),
                preds@ == set_items(g2.p0.preds@[p0.0 as int]),
                set_below(g2.p0.preds@[p0.0 as int], n1 as nat),
                n0 == g0.p0.count(),
                n1 == g0.p1.count(),
                p0.0 < n0,
                id == g0.p0.ids@[p0.0 as int],
                cascade_ok(self, &g0, strategy, final_strategy@),
                keeps_decided(self, &g0),
                p0_succs_shrink(self, &g0),
                p1_succs_shrink(self, &g0),
                p1_fs_frame(self, &g0, final_strategy@, old(final_strategy)@),
                preds_kept_w0(self, &g0, p0.0 as int),
                succs_kept_w0(self, &g0, p0.0 as int),
                p1_fs_w0(self, &g0, final_strategy@, old(final_strategy)@),
                forall|y: usize| !(#[trigger] set_items(self.p0.succs@[p0.0 as int]).contains(y)),
                edge_count(*self) + (preds@.len() - k) <= edge_count(g0),
                self.p0.win@[p0.0 as int] == WinState::Win0,
                set_items(self.p0.w0).contains(p0.0),
                !set_items(self.p0.incomplete).contains(p0.0),
                strategy.direct@[p0.0 as int] == NodeP1Id(P1_L1),
                final_strategy@[id.0 as int] == NodeId(NODE_L1),
                win0_frame(self, &g0, strategy, &s0, final_strategy@, fs0, p0.0 as int),
                g0 == *old(self),
                g0.well_formed(),
                fs0 == old(final_strategy)@,
                preds@.no_duplicates(),
                forall|i: int|
                    0 <= i < k && fs0[g0.p1.ids@[#[trigger] preds@[i] as int].0 as int] != g0.p0.ids@[p0.0 as int]
                        ==> !set_items(self.p1.succs@[preds@[i] as int]).contains(p0.0),
                forall|i: int|
                    0 <= i < k && fs0[g0.p1.ids@[#[trigger] preds@[i] as int].0 as int] == g0.p0.ids@[p0.0 as int]
                        ==> set_items(self.p0.preds@[p0.0 as int]).contains(preds@[i])
                        || self.p1.win@[preds@[i] as int] == WinState::Win0,
                forall|x: int|
                    0 <= x < n1 && set_items(g0.p1.succs@[x]).contains(p0.0) && !(#[trigger] set_items(
                        self.p1.succs@[x],
                    ).contains(p0.0)) && fs0[g0.p1.ids@[x].0 as int] == g0.p0.ids@[p0.0 as int]
                        ==> self.p1.win@[x] == WinState::Win0,
            decreases preds@.len() - k,
        {
            let p1 = preds[k];
            proof {
                assert(set_items(g2.p0.preds@[p0.0 as int]).contains(p1));
            }
            let ghost gb = *self;
            let ghost sb = *strategy;
            let ghost fsb = final_strategy@;
            proof {
                assert(self.p1.ids == g0.p1.ids);
                assert(self.p0.ids == g0.p0.ids);
            }
            if final_strategy[self.p1.ids[p1].0] == self.p0.ids[p0.0] {
                if set_len(&self.p1.succs[p1]) == 1 && self.p1.moves[p1].is_exhausted() && self.p1.win[p1]
                    == WinState::Unknown {
                    self.set_p1_losing(NodeP1Id(p1), strategy, final_strategy);
                    proof {
                        lemma_keeps_winners_trans(*self, gb, g0, p0.0 as int, -1, -1, p1 as int, WinState::Win0);
                        assert forall|y: usize| !(#[trigger] set_items(self.p0.succs@[p0.0 as int]).contains(y)) by {
                            if set_items(self.p0.succs@[p0.0 as int]).contains(y) {
                                assert(set_items(gb.p0.succs@[p0.0 as int]).contains(y));
                            }
                        }
                        assert(gb.p0.win@[p0.0 as int] == WinState::Win0);
                        assert(strategy.direct@[p0.0 as int] == sb.direct@[p0.0 as int]);
                        lemma_win0_frame_trans(*self, gb, g0, *strategy, sb, s0, final_strategy@, fsb, fs0, -1, p0.0 as int);
                        lemma_kept_trans(*self, gb, g0, p0.0 as int, -1);
                        lemma_succs_kept_trans(*self, gb, g0, p0.0 as int, -1);
                    }
                } else {
                    insert_at(&mut self.p0.preds, p0.0, p1, Ghost(n1 as nat));
                    proof {
                        lemma_wf_frame(gb, *self);
                        assert(self.p0.win == gb.p0.win && self.p1.win == gb.p1.win && self.p0.w0 == gb.p0.w0
                            && self.p1.w0 == gb.p1.w0 && self.p0.incomplete == gb.p0.incomplete);
                        assert(win0_frame(self, &g0, strategy, &s0, final_strategy@, fs0, p0.0 as int));
                        assert forall|y: int, q: usize|
                            0 <= y < g0.p0.count() && set_items(g0.p0.preds@[y]).contains(q) && !(#[trigger] set_items(
                                self.p0.preds@[y],
                            ).contains(q)) implies self.p1.win@[q as int] == WinState::Win0 || y == p0.0 || g0.p0.win@[y]
                            != WinState::Win0 by {
                            if y != p0.0 {
                                assert(self.p0.preds@[y] == gb.p0.preds@[y]);
                            }
                        }
                    }
                }
            } else {
                remove_at(&mut self.p1.succs, p1, p0.0, Ghost(n0 as nat));
                proof {
                    lemma_wf_frame(gb, *self);
                    assert(self.p0.preds == gb.p0.preds);
                    assert(self.p0.win == gb.p0.win && self.p1.win == gb.p1.win && self.p0.w0 == gb.p0.w0
                        && self.p1.w0 == gb.p1.w0 && self.p0.incomplete == gb.p0.incomplete);
                    assert(win0_frame(self, &g0, strategy, &s0, final_strategy@, fs0, p0.0 as int));
                }
            }
            proof {
                assert(self.p1.ids == g0.p1.ids);
                assert forall|i: int|
                    0 <= i < k + 1 && fs0[g0.p1.ids@[#[trigger] preds@[i] as int].0 as int] != g0.p0.ids@[p0.0 as int]
                        implies !set_items(self.p1.succs@[preds@[i] as int]).contains(p0.0) by {
                    let q = preds@[i];
                    assert(set_items(g2.p0.preds@[p0.0 as int]).contains(q));
                    if i < k {
                        assert(!set_items(gb.p1.succs@[q as int]).contains(p0.0));
                    } else if fsb[g0.p1.ids@[q as int].0 as int] != fs0[g0.p1.ids@[q as int].0 as int] {
                        assert(!set_items(gb.p1.succs@[q as int]).contains(p0.0));
                    }
                }
                assert forall|i: int|
                    0 <= i < k + 1 && fs0[g0.p1.ids@[#[trigger] preds@[i] as int].0 as int] == g0.p0.ids@[p0.0 as int]
                        implies set_items(self.p0.preds@[p0.0 as int]).contains(preds@[i])
                        || self.p1.win@[preds@[i] as int] == WinState::Win0 by {
                    let q = preds@[i];
                    assert(set_items(g2.p0.preds@[p0.0 as int]).contains(q));
                    assert(q < n1);
                    if i < k {
                        if gb.p1.win@[q as int] == WinState::Win0 {
                            assert(self.p1.win@[q as int] == WinState::Win0);
                        } else {
                            assert(set_items(gb.p0.preds@[p0.0 as int]).contains(q));
                        }
                    } else if fsb[g0.p1.ids@[q as int].0 as int] != fs0[g0.p1.ids@[q as int].0 as int] {
                        assert(gb.p1.win@[q as int] == WinState::Win0);
                        assert(self.p1.win@[q as int] == WinState::Win0);
                    }
                }
                assert forall|x: int|
                    0 <= x < n1 && set_items(g0.p1.succs@[x]).contains(p0.0) && !(#[trigger] set_items(
                        self.p1.succs@[x],
                    ).contains(p0.0)) && fs0[g0.p1.ids@[x].0 as int] == g0.p0.ids@[p0.0 as int]
                        implies self.p1.win@[x] == WinState::Win0 by {
                    if !set_items(gb.p1.succs@[x]).contains(p0.0) {
                        assert(gb.p1.win@[x] == WinState::Win0);
                    } else if x == p1 as int && fsb[g0.p1.ids@[x].0 as int] != fs0[g0.p1.ids@[x].0 as int] {
                        assert(gb.p1.win@[x] == WinState::Win0);
                    }
                }
            }
            k = k + 1;
        }
        proof {
            assert(g2.p0.preds == g0.p0.preds);
            assert forall|q: usize|
                #[trigger] set_items(g0.p0.preds@[p0.0 as int]).contains(q) && fs0[g0.p1.ids@[q as int].0 as int]
                    == g0.p0.ids@[p0.0 as int] implies set_items(self.p0.preds@[p0.0 as int]).contains(q)
                    || self.p1.win@[q as int] == WinState::Win0 by {
                let i = preds@.index_of(q);
                assert(preds@[i] == q);
            }
        }
    }

    /// Records that player 0 wins at `p1`: its final strategy moves to W0, its
    /// edges to successors are dropped, and its undecided predecessors, which
    /// can move to it, are won by player 0 too. No other winner recorded
    /// before changes.
    pub fn set_p1_losing(&mut self, p1: NodeP1Id, strategy: &mut GameStrategy, final_strategy: &mut Vec<NodeId>)
        requires
            old(self).well_formed(),
            p1.0 < old(self).p1.count(),
            strategies_fit(old(self), old(strategy), old(final_strategy)@),
        ensures
            cascade_ok(final(self), old(self), final(strategy), final(final_strategy)@),
            edge_count(*final(self)) <= edge_count(*old(self)),
            keeps_decided(final(self), old(self)),
            p0_succs_shrink(final(self), old(self)),
            p1_succs_shrink(final(self), old(self)),
            p1_fs_frame(final(self), old(self), final(final_strategy)@, old(final_strategy)@),
            preds_kept_w0(final(self), old(self), -1),
            succs_kept_w0(final(self), old(self), -1),
            p1_fs_w0(final(self), old(self), final(final_strategy)@, old(final_strategy)@),
            final(self).p1.win@[p1.0 as int] == WinState::Win0,
            set_items(final(self).p1.w0).contains(p1.0),
            final(final_strategy)@[old(self).p1.ids@[p1.0 as int].0 as int] == NodeId(NODE_W0),
            forall|y: usize| !(#[trigger] set_items(final(self).p1.succs@[p1.0 as int]).contains(y)),
            forall|y: usize|
                #[trigger] set_items(old(self).p1.preds@[p1.0 as int]).contains(y) && old(self).p0.win@[y as int]
                    != WinState::Win1 ==> final(self).p0.win@[y as int] == WinState::Win0,
            win0_frame(
                final(self),
                old(self),
                final(strategy),
                old(strategy),
                final(final_strategy)@,
                old(final_strategy)@,
                -1,
            ),
            keeps_winners(final(self), old(self), -1, p1.0 as int, WinState::Win0),
        decreases edge_count(*old(self)),
    {
        let ghost g0 = *self;
        let ghost s0 = *strategy;
        let ghost fs0 = final_strategy@;
        proof {
            lemma_ids_distinct(g0);
        }
        let n0 = self.p0.pos.len();
        let n1 = self.p1.pos.len();
        self.p1.win.set(p1.0, WinState::Win0);
        insert_into(&mut self.p1.w0, p1.0);
        let id = self.p1.ids[p1.0];
        final_strategy.set(id.0, NodeId(NODE_W0));
        let succs = take_set(&mut self.p1.succs, p1.0);
        proof {
            lemma_set_sizes_update(g0.p1.succs@, p1.0 as int, self.p1.succs@[p1.0 as int]);
            lemma_wf_frame(g0, *self);
        }
        let ghost g1 = *self;
        let ghost fs1 = final_strategy@;
        let mut k: usize = 0;
        while k < succs.len()
            invariant
                keeps_winners(self, &g0, -1, p1.0 as int, WinState::Win0),
                k <= succs@.len(),
                succs@ == set_items(g0.p1.succs@[p1.0 as int]),
                set_below(g0.p1.succs@[p1.0 as int], n0 as nat),
                n0 == g0.p0.count(),
                n1 == g0.p1.count(),
                p1.0 < n1,
                cascade_ok(self, &g0, strategy, final_strategy@),
                keeps_decided(self, &g0),
                p0_succs_shrink(self, &g0),
                p1_succs_shrink(self, &g0),
                p1_fs_frame(self, &g0, final_strategy@, old(final_strategy)@),
                preds_kept_w0(self, &g0, -1),
                succs_kept_w0(self, &g0, -1),
                p1_fs_w0(self, &g0, final_strategy@, old(final_strategy)@),
                edge_count(*self) <= edge_count(g1),
                self.p1 == g1.p1,
                self.p0.win == g1.p0.win,
                self.p1.win@[p1.0 as int] == WinState::Win0,
                self.p0.w0 == g1.p0.w0,
                self.p0.incomplete == g1.p0.incomplete,
                *strategy == s0,
                final_strategy@ == fs1,
            decreases succs@.len() - k,
        {
            let p0 = succs[k];
            proof {
                assert(set_items(g0.p1.succs@[p1.0 as int]).contains(p0));
            }
            let ghost gb = *self;
            remove_at(&mut self.p0.preds, p0, p1.0, Ghost(n1 as nat));
            proof {
                lemma_wf_frame(gb, *self);
                assert(self.p1.win@[p1.0 as int] == WinState::Win0);
                assert forall|y: int, q: usize|
                    0 <= y < g0.p0.count() && set_items(g0.p0.preds@[y]).contains(q) && !(#[trigger] set_items(
                        self.p0.preds@[y],
                    ).contains(q)) implies self.p1.win@[q as int] == WinState::Win0 || y == -1 || g0.p0.win@[y]
                    != WinState::Win0 by {
                    if y != p0 {
                        assert(self.p0.preds@[y] == gb.p0.preds@[y]);
                    } else if q != p1.0 {
                        assert(!set_items(gb.p0.preds@[y]).contains(q));
                    }
                }
            }
            k = k + 1;
        }
        let ghost g2 = *self;
        let preds = take_set(&mut self.p1.preds, p1.0);
        proof {
            lemma_set_sizes_update(g2.p1.preds@, p1.0 as int, self.p1.preds@[p1.0 as int]);
            lemma_wf_frame(g2, *self);
            assert forall|j: int|
                0 <= j < n1 && j != p1.0 && g0.p1.win@[j] == WinState::Win0 implies #[trigger] final_strategy@[g0.p1.ids@[j].0 as int]
                    == fs0[g0.p1.ids@[j].0 as int] by {
                assert(g0.p1.ids@[j] != g0.p1.ids@[p1.0 as int]);
            }
            assert forall|j: int|
                0 <= j < n0 && g0.p0.win@[j] == WinState::Win0 implies #[trigger] strategy.direct@[j] == s0.direct@[j]
                    && final_strategy@[g0.p0.ids@[j].0 as int] == fs0[g0.p0.ids@[j].0 as int] by {
                assert(g0.p0.ids@[j] != g0.p1.ids@[p1.0 as int]);
            }
        }
        let mut k: usize = 0;
        while k < preds.len()
            invariant
                keeps_winners(self, &g0, -1, p1.0 as int, WinState::Win0),
                k <= preds@.len(),
                preds@ == set_items(g2.p1.preds@[p1.0 as int]),
                set_below(g2.p1.preds@[p1.0 as int], n0 as nat),
                n0 == g0.p0.count(),
                n1 == g0.p1.count(),
                p1.0 < n1,
                id == g0.p1.ids@[p1.0 as int],
                cascade_ok(self, &g0, strategy, final_strategy@),
                keeps_decided(self, &g0),
                p0_succs_shrink(self, &g0),
                p1_succs_shrink(self, &g0),
                p1_fs_frame(self, &g0, final_strategy@, old(final_strategy)@),
                preds_kept_w0(self, &g0, -1),
                succs_kept_w0(self, &g0, -1),
                p1_fs_w0(self, &g0, final_strategy@, old(final_strategy)@),
                edge_count(*self) + (preds@.len() - k) <= edge_count(g0),
                self.p1.win@[p1.0 as int] == WinState::Win0,
                set_items(self.p1.w0).contains(p1.0),
                final_strategy@[id.0 as int] == NodeId(NODE_W0),
                win0_frame(self, &g0, strategy, &s0, final_strategy@, fs0, -1),
                g0 == *old(self),
                g0.well_formed(),
                forall|y: usize| !(#[trigger] set_items(self.p1.succs@[p1.0 as int]).contains(y)),
                forall|j: int|
                    0 <= j < k ==> self.p0.win@[#[trigger] preds@[j] as int] == WinState::Win0 || g0.p0.win@[preds@[j] as int]
                        == WinState::Win1,
            decreases preds@.len() - k,
        {
            let p0 = preds[k];
            proof {
                assert(set_items(g2.p1.preds@[p1.0 as int]).contains(p0));
            }
            let ghost gk = *self;
            if self.p0.win[p0] == WinState::Unknown {
                let ghost gb = *self;
                let ghost sb = *strategy;
                let ghost fsb = final_strategy@;
                self.set_p0_winning(NodeP0Id(p0), strategy, final_strategy);
                proof {
                    lemma_keeps_winners_trans(*self, gb, g0, -1, p1.0 as int, p0 as int, -1, WinState::Win0);
                    assert(gb.p1.win@[p1.0 as int] == WinState::Win0);
                    assert(fsb[gb.p1.ids@[p1.0 as int].0 as int] == NodeId(NODE_W0));
                    assert(final_strategy@[gb.p1.ids@[p1.0 as int].0 as int] == NodeId(NODE_W0));
                    lemma_win0_frame_trans(*self, gb, g0, *strategy, sb, s0, final_strategy@, fsb, fs0, p0 as int, -1);
                    lemma_kept_trans(*self, gb, g0, -1, p0 as int);
                    lemma_succs_kept_trans(*self, gb, g0, -1, p0 as int);
                    assert forall|y: usize| !(#[trigger] set_items(self.p1.succs@[p1.0 as int]).contains(y)) by {
                        if set_items(self.p1.succs@[p1.0 as int]).contains(y) {
                            assert(set_items(gb.p1.succs@[p1.0 as int]).contains(y));
                        }
                    }
                }
            }
            proof {
                assert forall|j: int| 0 <= j < k + 1 implies self.p0.win@[#[trigger] preds@[j] as int] == WinState::Win0
                    || g0.p0.win@[preds@[j] as int] == WinState::Win1 by {
                    assert(set_items(g2.p1.preds@[p1.0 as int]).contains(preds@[j]));
                    let q = preds@[j] as int;
                    assert(q < n0);
                    if j < k {
                        if gk.p0.win@[q] == WinState::Win0 {
                            assert(self.p0.win@[q] == WinState::Win0);
                        }
                    } else if g0.p0.win@[q] == WinState::Unknown {
                        assert(gk.p0.win@[q] == WinState::Unknown || gk.p0.win@[q] == WinState::Win0);
                    } else {
                        assert(gk.p0.win@[q] == g0.p0.win@[q]);
                    }
                }
            }
            k = k + 1;
        }
        proof {
            assert(g2.p1.preds == g0.p1.preds);
            assert forall|y: usize|
                #[trigger] set_items(g0.p1.preds@[p1.0 as int]).contains(y) && g0.p0.win@[y as int] != WinState::Win1
                    implies self.p0.win@[y as int] == WinState::Win0 by {
                let j = preds@.index_of(y);
                assert(preds@[j] == y);
            }
        }
    }
}

} // verus!
