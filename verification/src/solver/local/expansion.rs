//! Growing the explicit game one move at a time.
use vstd::prelude::*;

use crate::index_set::{add_to, remove_from, set_items, set_len};
use crate::solver::index::NodeId;
use crate::solver::symbolic::moves::{
    avoids_losing, consistent, deterministic, may_decide, normal_form, positions_within, Assumption, P0Moves, P0Pos,
};

use super::game::{
    set_below, Game, GameStrategy, Inserted, NodeKind, NodeP0Id, NodeP1Id, WinState, NODE_W0,
    NODE_W1, P1_L1, P1_W1,
};

verus! {

/// The index of the position `p` among `pos`, if it is there.
pub fn index_of(pos: &Vec<P0Pos>, p: P0Pos) -> (r: Option<usize>)
    ensures
        r is None <==> !pos@.contains(p),
        r matches Some(i) ==> i < pos@.len() && pos@[i as int] == p,
{
    let mut k: usize = 0;
    while k < pos.len()
        invariant
            k <= pos@.len(),
            forall|j: int| 0 <= j < k ==> pos@[j] != p,
        decreases pos@.len() - k,
    {
        if pos[k] == p {
            return Some(k);
        }
        k = k + 1;
    }
    None
}

/// What the winner known at a node says of its position.
pub open spec fn assumption_for(w: WinState, a: Assumption) -> bool {
    match w {
        WinState::Unknown => a is Unknown,
        WinState::Win0 => a is Winning,
        WinState::Win1 => a is Losing,
    }
}

/// What is known of the position `p` from the nodes of player 0 met so far:
/// winning if player 0 is known to win there, losing if player 1 is, and
/// unknown otherwise or if it was not met.
pub fn assumption_of(pos: &Vec<P0Pos>, win: &Vec<WinState>, p: P0Pos) -> (r: Assumption)
    requires
        pos@.len() == win@.len(),
        pos@.no_duplicates(),
    ensures
        forall|i: int| 0 <= i < pos@.len() && pos@[i] == p ==> assumption_for(win@[i], r),
        !pos@.contains(p) ==> r is Unknown,
{
    match index_of(pos, p) {
        Some(i) => match win[i] {
            WinState::Unknown => Assumption::Unknown,
            WinState::Win0 => Assumption::Winning,
            WinState::Win1 => Assumption::Losing,
        },
        None => Assumption::Unknown,
    }
}


/// The strategy has a set of predecessors for each node of player 1, and a
/// successor for some of the first nodes of player 0.
pub open spec fn strategy_fits(game: &Game, strategy: &GameStrategy) -> bool {
    &&& strategy.well_formed()
    &&& strategy.inverse@.len() == game.p1.count()
    &&& strategy.direct@.len() <= game.p0.count()
}

/// The successor that the strategy records for a node of player 0 that moves
/// to `s`: the special node W1, or a node of player 1.
pub open spec fn strategy_succ(game: &Game, s: NodeId) -> NodeP1Id {
    if s.0 == NODE_W1 {
        NodeP1Id(P1_W1)
    } else {
        match game.kind(s) {
            NodeKind::P1(q) => q,
            _ => NodeP1Id(P1_L1),
        }
    }
}

/// No node of player 0 at `p` is known to be won by either player.
pub open spec fn pos_undecided(game: Game, p: P0Pos) -> bool {
    forall|k: int| 0 <= k < game.p0.count() && game.p0.pos@[k] == p ==> game.p0.win@[k] == WinState::Unknown
}

/// The truth values of the positions agree with the winners known in the
/// game: true where player 0 is known to win, false where player 1 is.
pub open spec fn game_consistent(game: Game, sigma: spec_fn(P0Pos) -> bool) -> bool {
    forall|k: int|
        0 <= k < game.p0.count() ==> (game.p0.win@[k] == WinState::Win0 ==> sigma(#[trigger] game.p0.pos@[k])) && (
        game.p0.win@[k] == WinState::Win1 ==> !sigma(game.p0.pos@[k]))
}

/// `mv` is what is left of the moves of `p0` once the positions known to be
/// decided are dropped: it only leads to positions the moves led to, none of
/// them known to be decided. The moves change only if one of their positions
/// is known to be decided, and then start over from the first clause of the
/// simplified formula. Under every assignment that agrees with the known
/// winners, the simplified moves hold exactly when the moves did, and none is
/// left only when the moves could not hold under any such assignment. Every
/// clause of the moves with no position known to be lost keeps a clause of
/// the simplified moves within it.
pub open spec fn simplified_moves(game: Game, p0: NodeP0Id, mv: P0Moves) -> bool {
    let m0 = game.p0.moves@[p0.0 as int];
    &&& mv.well_formed()
    &&& forall|p: P0Pos| #[trigger] mv.leads_to(p) ==> m0.leads_to(p) && pos_undecided(game, p)
    &&& mv != m0 ==> exists|p: P0Pos| #[trigger] m0.leads_to(p) && !pos_undecided(game, p)
    &&& mv != m0 && mv.clauses().len() > 0 ==> mv.at_start() && mv.clauses() == mv.all_clauses()
    &&& m0.clauses().len() == 0 ==> mv.clauses().len() == 0
    &&& m0.clauses().len() > 0 && mv.clauses().len() > 0 ==> forall|sigma: spec_fn(P0Pos) -> bool|
        #[trigger] game_consistent(game, sigma) ==> mv.holds(sigma) == m0.holds(sigma)
    &&& m0.clauses().len() > 0 && mv.clauses().len() == 0 ==> forall|sigma: spec_fn(P0Pos) -> bool|
        #[trigger] game_consistent(game, sigma) ==> !m0.holds(sigma)
    &&& mv != m0 ==> forall|c: Seq<P0Pos>|
        #[trigger] m0.all_clauses().contains(c) && free_of_lost(game, c) ==> exists|c2: Seq<P0Pos>|
            #[trigger] mv.clauses().contains(c2) && positions_within(c2, c)
}

/// No position of the clause is known to be won by player 1.
pub open spec fn free_of_lost(game: Game, c: Seq<P0Pos>) -> bool {
    forall|k: int, i: int|
        0 <= k < c.len() && 0 <= i < game.p0.count() && game.p0.pos@[i] == #[trigger] c[k] ==> #[trigger] game.p0.win@[i]
            != WinState::Win1
}

/// The move taken from `p0` is to the node of player 1 of the first clause
/// left once the moves are simplified, and the remaining clauses follow it;
/// none is taken exactly when no clause is left.
pub open spec fn p0_move_taken(old_game: Game, new_game: Game, p0: NodeP0Id, r: Option<Inserted<NodeId>>) -> bool {
    exists|mv: P0Moves|
        #[trigger] simplified_moves(old_game, p0, mv) && ((r is None || r->0.spec_id().0 == NODE_W1) <==> mv.clauses().len()
            == 0) && (mv.clauses().len() == 0 ==> new_game.p0.moves@[p0.0 as int].clauses().len() == 0) && (
        mv.clauses().len() > 0 ==> {
            &&& new_game.p0.moves@[p0.0 as int].clauses() == mv.clauses().drop_first()
            &&& set_items(new_game.p0.incomplete) == set_items(old_game.p0.incomplete)
            &&& new_game.kind(r->0.spec_id()) matches NodeKind::P1(q) && normal_form(
                mv.clauses()[0],
                new_game.p1.pos@[q.0 as int].moves@,
            )
        })
}

/// Explores one more move from `n`, which is not a special node. A node of
/// player 0 first drops the moves that what is known of their positions
/// decides; a node of player 1 skips the moves to positions known to be won
/// by player 0. The successor reached is added with its edge, and returned,
/// new or existing. When no move is left the node is complete; if it has no
/// edge at all, it is lost by the player moving there, and the special node
/// won by the opponent is returned; otherwise nothing is.
pub fn expand_one(n: NodeId, game: &mut Game, strategy: &mut GameStrategy) -> (r: Option<Inserted<NodeId>>)
    requires
        old(game).well_formed(),
        strategy_fits(old(game), old(strategy)),
        4 <= n.0 < old(game).nodes@.len(),
        old(game).kind(n) matches NodeKind::P0(p0) ==> p0.0 <= old(strategy).direct@.len(),
        old(game).nodes@.len() + 1 < P1_L1,
    ensures
        final(game).well_formed(),
        strategy_fits(final(game), final(strategy)),
        old(game).nodes@.is_prefix_of(final(game).nodes@),
        final(game).nodes@.len() <= old(game).nodes@.len() + 1,
        final(game).formulas == old(game).formulas,
        r is Some ==> r->0.spec_id().0 < final(game).nodes@.len() && (r->0 is New
            <==> r->0.spec_id().0 == old(game).nodes@.len()),
        match old(game).kind(n) {
            NodeKind::P0(p0) => {
                &&& r is None ==> set_items(old(game).p0.succs@[p0.0 as int]).len() > 0
                    && !set_items(final(game).p0.incomplete).contains(p0.0)
                &&& r is Some && r->0.spec_id().0 == NODE_W1 ==> r->0 is Existing
                    && set_items(old(game).p0.succs@[p0.0 as int]).len() == 0
                    && set_items(final(game).p0.w1).contains(p0.0)
                    && !set_items(final(game).p0.incomplete).contains(p0.0)
                &&& r is Some && r->0.spec_id().0 != NODE_W1 ==> edge_p0_to(*final(game), p0, r->0.spec_id())
                &&& r is Some ==> final(strategy).direct@ == if p0.0 == old(strategy).direct@.len() {
                    old(strategy).direct@.push(strategy_succ(final(game), r->0.spec_id()))
                } else {
                    old(strategy).direct@
                }
                &&& r is None ==> final(strategy).direct@ == old(strategy).direct@
                &&& p0_move_taken(*old(game), *final(game), p0, r)
            },
            NodeKind::P1(p1) => {
                let rem = old(game).p1.moves@[p1.0 as int].remaining();
                &&& *final(strategy) == *old(strategy)
                &&& r is None ==> set_items(old(game).p1.succs@[p1.0 as int]).len() > 0
                    && !set_items(final(game).p1.incomplete).contains(p1.0)
                &&& r is Some && r->0.spec_id().0 == NODE_W0 ==> r->0 is Existing
                    && set_items(old(game).p1.succs@[p1.0 as int]).len() == 0
                    && set_items(final(game).p1.w0).contains(p1.0)
                    && !set_items(final(game).p1.incomplete).contains(p1.0)
                &&& (r is None || r->0.spec_id().0 == NODE_W0) ==> forall|j: int|
                    0 <= j < rem.len() ==> #[trigger] won_by_p0(*old(game), rem[j])
                &&& r is Some && r->0.spec_id().0 != NODE_W0 ==> p1_move_taken(
                    *old(game),
                    *final(game),
                    p1,
                    r->0.spec_id(),
                )
            },
            _ => false,
        },
{
    match game.resolve(n) {
        NodeKind::P0(p0) => expand_p0(p0, game, strategy),
        NodeKind::P1(p1) => expand_p1(p1, game),
        _ => {
            proof {
                assert(false);
            }
            None
        },
    }
}


fn expand_p0(p0: NodeP0Id, game: &mut Game, strategy: &mut GameStrategy) -> (r: Option<Inserted<NodeId>>)
    requires
        old(game).well_formed(),
        strategy_fits(old(game), old(strategy)),
        p0.0 < old(game).p0.count(),
        p0.0 <= old(strategy).direct@.len(),
        old(game).nodes@.len() + 1 < P1_L1,
    ensures
        final(game).well_formed(),
        strategy_fits(final(game), final(strategy)),
        old(game).nodes@.is_prefix_of(final(game).nodes@),
        final(game).nodes@.len() <= old(game).nodes@.len() + 1,
        final(game).formulas == old(game).formulas,
        r is Some ==> r->0.spec_id().0 < final(game).nodes@.len() && (r->0 is New
            <==> r->0.spec_id().0 == old(game).nodes@.len()),
        r is None ==> set_items(old(game).p0.succs@[p0.0 as int]).len() > 0
            && !set_items(final(game).p0.incomplete).contains(p0.0),
        r is Some && r->0.spec_id().0 == NODE_W1 ==> r->0 is Existing
            && set_items(old(game).p0.succs@[p0.0 as int]).len() == 0
            && set_items(final(game).p0.w1).contains(p0.0)
            && !set_items(final(game).p0.incomplete).contains(p0.0),
        r is Some && r->0.spec_id().0 != NODE_W1 ==> edge_p0_to(*final(game), p0, r->0.spec_id()),
        r is Some ==> final(strategy).direct@ == if p0.0 == old(strategy).direct@.len() {
            old(strategy).direct@.push(strategy_succ(final(game), r->0.spec_id()))
        } else {
            old(strategy).direct@
        },
        r is None ==> final(strategy).direct@ == old(strategy).direct@,
        p0_move_taken(*old(game), *final(game), p0, r),
{
    let ghost g0 = *game;
    let pos_ref = &game.p0.pos;
    let win_ref = &game.p0.win;
    let known = |p: P0Pos| -> (a: Assumption)
        ensures
            forall|i: int| 0 <= i < pos_ref@.len() && pos_ref@[i] == p ==> assumption_for(win_ref@[i], a),
            !pos_ref@.contains(p) ==> a is Unknown,
        {
            let a = assumption_of(pos_ref, win_ref, p);
            a
        };
    game.p0.moves[p0.0].simplify(known);
    let ghost mv = game.p0.moves@[p0.0 as int];
    proof {
        assert(mv.vars_below(game.var_count()));
        assert forall|p: P0Pos| #[trigger] mv.leads_to(p) implies g0.p0.moves@[p0.0 as int].leads_to(p)
            && pos_undecided(g0, p) by {
            assert forall|k: int| 0 <= k < g0.p0.count() && g0.p0.pos@[k] == p implies g0.p0.win@[k]
                == WinState::Unknown by {
                assert(assumption_for(g0.p0.win@[k], Assumption::Unknown));
            }
        }
        assert forall|sigma: spec_fn(P0Pos) -> bool| #[trigger] game_consistent(g0, sigma) implies consistent(
            known,
            sigma,
        ) by {
            assert forall|p: P0Pos, a: Assumption| #[trigger] call_ensures(known, (p,), a) implies (a is Winning
                ==> sigma(p)) && (a is Losing ==> !sigma(p)) by {
                if !(a is Unknown) {
                    assert(g0.p0.pos@.contains(p));
                    let i = choose|i: int| 0 <= i < g0.p0.pos@.len() && g0.p0.pos@[i] == p;
                    assert(assumption_for(g0.p0.win@[i], a));
                    assert(sigma(g0.p0.pos@[i]) || !sigma(g0.p0.pos@[i]));
                }
            }
        }
        if mv != g0.p0.moves@[p0.0 as int] {
            let p = choose|p: P0Pos| #[trigger] g0.p0.moves@[p0.0 as int].leads_to(p) && may_decide(known, p);
            assert(g0.p0.pos@.contains(p));
            let i = choose|i: int| 0 <= i < g0.p0.pos@.len() && g0.p0.pos@[i] == p;
            assert(!pos_undecided(g0, p)) by {
                if call_ensures(known, (p,), Assumption::Winning) {
                    assert(assumption_for(g0.p0.win@[i], Assumption::Winning));
                } else {
                    assert(assumption_for(g0.p0.win@[i], Assumption::Losing));
                }
            }
        }
        assert(deterministic(known)) by {
            assert forall|p: P0Pos, a: Assumption, b: Assumption|
                #[trigger] call_ensures(known, (p,), a) && #[trigger] call_ensures(known, (p,), b) implies a == b by {
                if g0.p0.pos@.contains(p) {
                    let i = choose|i: int| 0 <= i < g0.p0.pos@.len() && g0.p0.pos@[i] == p;
                    assert(assumption_for(g0.p0.win@[i], a));
                    assert(assumption_for(g0.p0.win@[i], b));
                }
            }
        }
        assert forall|c: Seq<P0Pos>| free_of_lost(g0, c) implies avoids_losing(known, c) by {
            assert forall|k: int| 0 <= k < c.len() implies !call_ensures(known, (#[trigger] c[k],), Assumption::Losing) by {
                if call_ensures(known, (c[k],), Assumption::Losing) {
                    assert(g0.p0.pos@.contains(c[k]));
                    let i = choose|i: int| 0 <= i < g0.p0.pos@.len() && g0.p0.pos@[i] == c[k];
                    assert(assumption_for(g0.p0.win@[i], Assumption::Losing));
                    assert(g0.p0.win@[i] != WinState::Win1);
                }
            }
        }
        assert(simplified_moves(g0, p0, mv));
    }
    let next = game.p0.moves[p0.0].next();
    proof {
        if next is Some {
            assert(mv.vars_below(game.var_count()));
            assert(forall|j: int|
                0 <= j < next->0.moves@.len() ==> (#[trigger] next->0.moves@[j]).i.0 < game.var_count());
        }
    }
    proof {
        let vc = game.var_count();
        assert forall|k: int| 0 <= k < game.p0.count() implies (#[trigger] game.p0.moves@[k]).well_formed()
            && game.p0.moves@[k].vars_below(vc) by {
            if k != p0.0 {
                assert(game.p0.moves@[k] == g0.p0.moves@[k]);
            }
        }
        assert(game.well_formed());
    }
    match next {
        None => {
            remove_from(&mut game.p0.incomplete, p0.0);
            if set_len(&game.p0.succs[p0.0]) == 0 {
                crate::index_set::insert_into(&mut game.p0.w1, p0.0);
                strategy.try_add(p0, NodeP1Id(P1_W1));
                proof {
                    assert(game.well_formed());
                    assert(game.nodes@ =~= g0.nodes@);
                }
                return Some(Inserted::Existing(NodeId(NODE_W1)));
            }
            proof {
                assert(game.well_formed());
                assert(game.nodes@ =~= g0.nodes@);
            }
            None
        },
        Some(pos) => {
            let ghost g1 = *game;
            let inserted = game.insert_p1(pos);
            let q = inserted.id();
            game.insert_p0_to_p1_edge(p0, q);
            strategy.try_add(p0, q);
            let id = game.p1.ids[q.0];
            proof {
                assert(game.nodes@[id.0 as int] == NodeKind::P1(q));
                assert(g0.nodes@.is_prefix_of(game.nodes@));
            }
            match inserted {
                Inserted::New(_) => Some(Inserted::New(id)),
                Inserted::Existing(_) => {
                    proof {
                        assert(id.0 < g0.nodes@.len());
                    }
                    Some(Inserted::Existing(id))
                },
            }
        },
    }
}


/// Whether the position is that of a node of player 0 known to be won by
/// player 0.
fn is_won_by_p0(game: &Game, pos: P0Pos) -> (r: bool)
    requires
        game.well_formed(),
    ensures
        r == won_by_p0(*game, pos),
{
    match index_of(&game.p0.pos, pos) {
        Some(k) => {
            proof {
                if won_by_p0(*game, pos) {
                    let k2 = choose|k2: int|
                        0 <= k2 < game.p0.count() && game.p0.pos@[k2] == pos && game.p0.win@[k2]
                            == WinState::Win0;
                    assert(k2 == k);
                }
            }
            match game.p0.win[k] {
                WinState::Win0 => true,
                _ => false,
            }
        },
        None => false,
    }
}

fn expand_p1(p1: NodeP1Id, game: &mut Game) -> (r: Option<Inserted<NodeId>>)
    requires
        old(game).well_formed(),
        p1.0 < old(game).p1.count(),
        old(game).nodes@.len() + 1 < P1_L1,
    ensures
        final(game).well_formed(),
        final(game).p1.count() == old(game).p1.count(),
        final(game).p0.count() <= old(game).p0.count() + 1,
        old(game).nodes@.is_prefix_of(final(game).nodes@),
        final(game).nodes@.len() <= old(game).nodes@.len() + 1,
        final(game).formulas == old(game).formulas,
        r is Some ==> r->0.spec_id().0 < final(game).nodes@.len() && (r->0 is New
            <==> r->0.spec_id().0 == old(game).nodes@.len()),
        r is None ==> set_items(old(game).p1.succs@[p1.0 as int]).len() > 0
            && !set_items(final(game).p1.incomplete).contains(p1.0),
        r is Some && r->0.spec_id().0 == NODE_W0 ==> r->0 is Existing
            && set_items(old(game).p1.succs@[p1.0 as int]).len() == 0
            && set_items(final(game).p1.w0).contains(p1.0)
            && !set_items(final(game).p1.incomplete).contains(p1.0),
        (r is None || r->0.spec_id().0 == NODE_W0) ==> forall|j: int|
            0 <= j < old(game).p1.moves@[p1.0 as int].remaining().len() ==> #[trigger] won_by_p0(
                *old(game),
                old(game).p1.moves@[p1.0 as int].remaining()[j],
            ),
        r is Some && r->0.spec_id().0 != NODE_W0 ==> p1_move_taken(*old(game), *final(game), p1, r->0.spec_id()),
{
    let ghost g0 = *game;
    let ghost rem0 = game.p1.moves@[p1.0 as int].remaining();
    let ghost mut jj: int = 0;
    let mut found: Option<P0Pos> = None;
    let mut done = false;
    while !done
        invariant
            game.well_formed(),
            p1.0 < game.p1.count(),
            game.p0 == g0.p0,
            game.nodes == g0.nodes,
            game.formulas == g0.formulas,
            game.var_to_p0 == g0.var_to_p0,
            game.last_simplified == g0.last_simplified,
            game.p1.same_but_moves(&g0.p1),
            game.p1.moves@.len() == g0.p1.moves@.len(),
            forall|k: int| 0 <= k < game.p1.count() && k != p1.0 ==> #[trigger] game.p1.moves@[k] == g0.p1.moves@[k],
            rem0 == g0.p1.moves@[p1.0 as int].remaining(),
            0 <= jj <= rem0.len(),
            game.p1.moves@[p1.0 as int].remaining() == rem0.skip(jj),
            !done ==> found is None && forall|i: int| 0 <= i < jj ==> #[trigger] won_by_p0(g0, rem0[i]),
            done && found is None ==> jj == rem0.len() && forall|i: int| 0 <= i < jj ==> #[trigger] won_by_p0(g0, rem0[i]),
            done && found is Some ==> 1 <= jj && found->0 == rem0[jj - 1] && !won_by_p0(g0, rem0[jj - 1])
                && forall|i: int| 0 <= i < jj - 1 ==> #[trigger] won_by_p0(g0, rem0[i]),
        decreases game.p1.moves@[p1.0 as int].remaining().len() + if done { 0int } else { 1int },
    {
        let ghost gb = *game;
        let m = game.p1.moves[p1.0].next();
        proof {
            assert forall|k: int, j: int|
                0 <= k < game.p1.count() && 0 <= j < game.p1.moves@[k].remaining().len() implies (
                #[trigger] game.p1.moves@[k].remaining()[j]).i.0 < game.var_count() by {
                if k != p1.0 {
                    assert(game.p1.moves@[k] == gb.p1.moves@[k]);
                } else {
                    assert(game.p1.moves@[k].remaining()[j] == gb.p1.moves@[k].remaining()[j + 1]);
                }
            }
        }
        match m {
            None => {
                done = true;
                proof {
                    assert(rem0.skip(jj).len() == 0);
                }
            },
            Some(pos) => {
                proof {
                    assert(pos == rem0[jj]);
                    assert(rem0.skip(jj).drop_first() =~= rem0.skip(jj + 1));
                    jj = jj + 1;
                }
                if !is_won_by_p0(game, pos) {
                    found = Some(pos);
                    done = true;
                }
            },
        }
    }
    match found {
        None => {
            remove_from(&mut game.p1.incomplete, p1.0);
            if set_len(&game.p1.succs[p1.0]) == 0 {
                crate::index_set::insert_into(&mut game.p1.w0, p1.0);
                proof {
                    assert(game.nodes@ =~= g0.nodes@);
                }
                return Some(Inserted::Existing(NodeId(NODE_W0)));
            }
            proof {
                assert(game.nodes@ =~= g0.nodes@);
            }
            None
        },
        Some(pos) => {
            proof {
                assert(rem0[jj - 1] == g0.p1.moves@[p1.0 as int].remaining()[jj - 1]);
            }
            let ghost g1 = *game;
            let inserted = game.insert_p0(pos);
            let q = inserted.id();
            game.insert_p1_to_p0_edge(p1, q);
            let id = game.p0.ids[q.0];
            proof {
                assert(game.nodes@[id.0 as int] == NodeKind::P0(q));
                assert(g0.nodes@.is_prefix_of(game.nodes@));
                assert(game.p1.moves@[p1.0 as int] == g1.p1.moves@[p1.0 as int]);
                assert(game.p0.pos@[q.0 as int] == pos);
            }
            match inserted {
                Inserted::New(_) => Some(Inserted::New(id)),
                Inserted::Existing(_) => {
                    proof {
                        assert(id.0 < g0.nodes@.len());
                    }
                    Some(Inserted::Existing(id))
                },
            }
        },
    }
}

/// `s` is a node of player 1 and the game has the edge from `p0` to it.
pub open spec fn edge_p0_to(game: Game, p0: NodeP0Id, s: NodeId) -> bool {
    match game.kind(s) {
        NodeKind::P1(q) => set_items(game.p0.succs@[p0.0 as int]).contains(q.0) && set_items(
            game.p1.preds@[q.0 as int],
        ).contains(p0.0),
        _ => false,
    }
}

/// `s` is a node of player 0 that `g` has as successor of `p1`, at the first
/// move left to `p1` in `g0` whose position is not known to be won by player 0;
/// the moves before it were dropped.
pub open spec fn p1_move_taken(g0: Game, g: Game, p1: NodeP1Id, s: NodeId) -> bool {
    let rem = g0.p1.moves@[p1.0 as int].remaining();
    match g.kind(s) {
        NodeKind::P0(q) => {
            &&& set_items(g.p1.succs@[p1.0 as int]).contains(q.0)
            &&& set_items(g.p0.preds@[q.0 as int]).contains(p1.0)
            &&& exists|j: int|
                0 <= j < rem.len() && g.p0.pos@[q.0 as int] == rem[j] && !won_by_p0(g0, rem[j])
                    && g.p1.moves@[p1.0 as int].remaining() == rem.skip(j + 1) && forall|i: int|
                    0 <= i < j ==> #[trigger] won_by_p0(g0, rem[i])
        },
        _ => false,
    }
}

/// The position is that of a node of player 0 known to be won by player 0.
pub open spec fn won_by_p0(game: Game, p: P0Pos) -> bool {
    exists|k: int| 0 <= k < game.p0.count() && game.p0.pos@[k] == p && game.p0.win@[k] == WinState::Win0
}

} // verus!
