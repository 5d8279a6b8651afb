//! Improving the strategy of player 0 on the explicit game.
use std::cmp::Ordering;

use vstd::prelude::*;

use crate::solver::index::NodeId;
use crate::solver::strategy::{
    profile_order, profile_order_reflexive, profile_order_transitive, profile_valid, PlayProfile,
};

use crate::index_set::set_items;

use super::game::{
    answered, p1_target, succ_id, succ_node, Game, GameStrategy, NodeKind, NodeP1Id, WinState,
};
use super::profiles::profile_in;

verus! {

/// The play profile `p` is worse for player 0 than `q`.
pub open spec fn profile_lt(p: PlayProfile, q: PlayProfile, g: Game) -> bool {
    profile_order(p, q, &g) == Ordering::Less
}

/// No profile is worse than itself.
proof fn lemma_profile_lt_irreflexive(p: PlayProfile, g: Game)
    ensures
        !profile_lt(p, p, g),
{
    profile_order_reflexive(p, &g);
}

/// Being worse is transitive.
proof fn lemma_profile_lt_transitive(a: PlayProfile, b: PlayProfile, c: PlayProfile, g: Game)
    requires
        profile_lt(a, b, g),
        profile_lt(b, c, g),
    ensures
        profile_lt(a, c, g),
{
    profile_order_transitive(a, b, c, &g);
}

/// Whether `p` is worse for player 0 than `q`.
fn is_worse(p: &PlayProfile, q: &PlayProfile, g: &Game) -> (r: bool)
    requires
        profile_valid(*p, g),
        profile_valid(*q, g),
    ensures
        r == profile_lt(*p, *q, *g),
{
    match p.cmp(q, g) {
        Ordering::Less => true,
        _ => false,
    }
}


/// The successors of a node are nodes of the game; those of a node of
/// player 0 are nodes where player 1 moves.
proof fn lemma_successors_in(g: Game, n: NodeId)
    requires
        g.well_formed(),
        n.0 < g.nodes@.len(),
    ensures
        forall|m: NodeId| #[trigger] g.spec_successors(n).contains(m) ==> m.0 < g.nodes@.len(),
        g.kind(n) is P0 ==> forall|m: NodeId| #[trigger] g.spec_successors(n).contains(m) ==> p1_target(&g, m),
{
    assert forall|m: NodeId| #[trigger] g.spec_successors(n).contains(m) implies m.0 < g.nodes@.len() && (g.kind(n) is P0
        ==> p1_target(&g, m)) by {
        let s = g.spec_successors(n);
        let j = choose|j: int| 0 <= j < s.len() && s[j] == m;
        match g.kind(n) {
            NodeKind::P0(p) => {
                let it = set_items(g.p0.succs@[p.0 as int]);
                if g.p0.win@[p.0 as int] == WinState::Unknown && it.len() > 0 {
                    assert(it.contains(it[j]));
                    assert(g.nodes@[g.p1.ids@[it[j] as int].0 as int] == NodeKind::P1(NodeP1Id(it[j])));
                }
            },
            NodeKind::P1(p) => {
                let it = set_items(g.p1.succs@[p.0 as int]);
                if g.p1.win@[p.0 as int] == WinState::Unknown && it.len() > 0 {
                    assert(it.contains(it[j]));
                }
            },
            _ => {},
        }
    }
}

/// A profile naming nodes of a well formed game is valid for it.
proof fn lemma_profile_valid(p: PlayProfile, g: Game)
    requires
        g.well_formed(),
        profile_in(p, g.nodes@.len()),
    ensures
        profile_valid(p, &g),
{
}

/// The best for player 0 of `n1` and of the successors of `n0`, taken in
/// order: a successor replaces the current choice when its profile is better.
fn best_successor(graph: &Game, profiles: &Vec<PlayProfile>, n0: NodeId, n1: NodeId) -> (r: NodeId)
    requires
        graph.well_formed(),
        n0.0 < graph.nodes@.len(),
        n1.0 < graph.nodes@.len(),
        profiles@.len() == graph.nodes@.len(),
        forall|x: int| 0 <= x < profiles@.len() ==> profile_in(#[trigger] profiles@[x], graph.nodes@.len()),
    ensures
        r == n1 || graph.spec_successors(n0).contains(r),
        r.0 < graph.nodes@.len(),
        forall|n2: NodeId|
            #[trigger] graph.spec_successors(n0).contains(n2) ==> !profile_lt(
                profiles@[r.0 as int],
                profiles@[n2.0 as int],
                *graph,
            ),
        r != n1 ==> profile_lt(profiles@[n1.0 as int], profiles@[r.0 as int], *graph),
{
    let succs = graph.successors_of(n0);
    proof {
        lemma_successors_in(*graph, n0);
    }
    let mut cur = n1;
    let mut i: usize = 0;
    while i < succs.len()
        invariant
            i <= succs@.len(),
            succs@ == graph.spec_successors(n0),
            graph.well_formed(),
            n1.0 < graph.nodes@.len(),
            profiles@.len() == graph.nodes@.len(),
            forall|x: int| 0 <= x < profiles@.len() ==> profile_in(#[trigger] profiles@[x], graph.nodes@.len()),
            forall|m: NodeId| #[trigger] graph.spec_successors(n0).contains(m) ==> m.0 < graph.nodes@.len(),
            cur == n1 || graph.spec_successors(n0).contains(cur),
            cur.0 < graph.nodes@.len(),
            forall|j: int| 0 <= j < i ==> !profile_lt(profiles@[cur.0 as int], profiles@[(#[trigger] succs@[j]).0 as int], *graph),
            cur != n1 ==> profile_lt(profiles@[n1.0 as int], profiles@[cur.0 as int], *graph),
        decreases succs@.len() - i,
    {
        let n2 = succs[i];
        proof {
            assert(graph.spec_successors(n0).contains(n2));
            lemma_profile_valid(profiles@[cur.0 as int], *graph);
            lemma_profile_valid(profiles@[n2.0 as int], *graph);
        }
        if is_worse(&profiles[cur.0], &profiles[n2.0], graph) {
            proof {
                let pc = profiles@[cur.0 as int];
                let p2 = profiles@[n2.0 as int];
                assert forall|j: int| 0 <= j < i implies !profile_lt(p2, profiles@[(#[trigger] succs@[j]).0 as int], *graph) by {
                    let pj = profiles@[succs@[j].0 as int];
                    if profile_lt(p2, pj, *graph) {
                        lemma_profile_lt_transitive(pc, p2, pj, *graph);
                    }
                }
                if cur != n1 {
                    lemma_profile_lt_transitive(profiles@[n1.0 as int], pc, p2, *graph);
                }
                if n2 == n1 {
                    lemma_profile_lt_irreflexive(pc, *graph);
                }
                lemma_profile_lt_irreflexive(p2, *graph);
            }
            cur = n2;
        } else {
            proof {
                lemma_profile_lt_irreflexive(profiles@[cur.0 as int], *graph);
            }
        }
        i = i + 1;
    }
    proof {
        assert forall|n2: NodeId| #[trigger] graph.spec_successors(n0).contains(n2) implies !profile_lt(
            profiles@[cur.0 as int],
            profiles@[n2.0 as int],
            *graph,
        ) by {
            let j = choose|j: int| 0 <= j < succs@.len() && succs@[j] == n2;
            assert(!profile_lt(profiles@[cur.0 as int], profiles@[succs@[j].0 as int], *graph));
        }
    }
    cur
}


/// A successor recorded by the strategy stands for a node where player 1
/// moves, which is recorded back the same way.
proof fn lemma_succ_roundtrip(g: Game, d: NodeP1Id, r: NodeId)
    requires
        g.well_formed(),
        d.0 == super::game::P1_W1 || d.0 == super::game::P1_L1 || d.0 < g.p1.count(),
        p1_target(&g, r),
    ensures
        p1_target(&g, succ_node(&g, d)),
        succ_id(&g, succ_node(&g, d)) == d,
        succ_node(&g, succ_id(&g, r)) == r,
{
    if d.0 != super::game::P1_W1 && d.0 != super::game::P1_L1 {
        assert(g.nodes@[g.p1.ids@[d.0 as int].0 as int] == NodeKind::P1(d));
    }
    match g.kind(r) {
        NodeKind::P1(q) => {
            assert(r.0 >= 4);
            assert(g.p1.ids@[q.0 as int].0 == r.0);
        },
        _ => {},
    }
}

/// Moves every node of player 0 to the best of its successors for player 0,
/// as the profiles rank them, keeping its current successor unless one is
/// better; tells whether any node changed its successor.
pub fn improve(graph: &Game, strategy: &mut GameStrategy, profiles: &Vec<PlayProfile>) -> (improved: bool)
    requires
        graph.well_formed(),
        old(strategy).well_formed(),
        old(strategy).inverse@.len() == graph.p1.count(),
        old(strategy).direct@.len() <= graph.p0.count(),
        profiles@.len() == graph.nodes@.len(),
        forall|x: int| 0 <= x < profiles@.len() ==> profile_in(#[trigger] profiles@[x], graph.nodes@.len()),
    ensures
        final(strategy).well_formed(),
        final(strategy).inverse@.len() == old(strategy).inverse@.len(),
        final(strategy).direct@.len() == old(strategy).direct@.len(),
        forall|k: int|
            0 <= k < old(strategy).direct@.len() ==> {
                let n0 = graph.p0.ids@[k];
                let n1 = succ_node(graph, old(strategy).direct@[k]);
                let r = succ_node(graph, #[trigger] final(strategy).direct@[k]);
                &&& r == n1 || graph.spec_successors(n0).contains(r)
                &&& forall|n2: NodeId|
                    #[trigger] graph.spec_successors(n0).contains(n2) ==> !profile_lt(
                        profiles@[r.0 as int],
                        profiles@[n2.0 as int],
                        *graph,
                    )
                &&& r != n1 ==> profile_lt(profiles@[n1.0 as int], profiles@[r.0 as int], *graph)
            },
        improved == exists|k: int|
            0 <= k < old(strategy).direct@.len() && #[trigger] final(strategy).direct@[k] != old(strategy).direct@[k],
{
    let ghost d0 = strategy.direct@;
    let mut before: Vec<super::game::NodeP1Id> = Vec::new();
    let mut k: usize = 0;
    while k < strategy.direct.len()
        invariant
            k <= strategy.direct@.len(),
            before@ == strategy.direct@.take(k as int),
        decreases strategy.direct@.len() - k,
    {
        before.push(strategy.direct[k]);
        k = k + 1;
        proof {
            assert(before@ =~= strategy.direct@.take(k as int));
        }
    }
    proof {
        assert(before@ =~= d0);
        assert forall|k: int| 0 <= k < d0.len() implies p1_target(graph, succ_node(graph, #[trigger] d0[k]))
            && succ_id(graph, succ_node(graph, d0[k])) == d0[k] && graph.kind(graph.p0.ids@[k]) is P0 by {
            lemma_succ_roundtrip(*graph, d0[k], NodeId(super::game::NODE_W1));
        }
    }
    proof {
        assert forall|n0: NodeId, m: NodeId|
            n0.0 < graph.nodes@.len() && graph.kind(n0) is P0 && #[trigger] graph.spec_successors(n0).contains(m)
                implies p1_target(graph, m) by {
            lemma_successors_in(*graph, n0);
        }
    }
    let f = |n0: NodeId, n1: NodeId| -> (r: NodeId)
        requires
            n0.0 < graph.nodes@.len(),
            graph.kind(n0) is P0,
            p1_target(graph, n1),
        ensures
            r == n1 || graph.spec_successors(n0).contains(r),
            p1_target(graph, r),
            forall|n2: NodeId|
                #[trigger] graph.spec_successors(n0).contains(n2) ==> !profile_lt(
                    profiles@[r.0 as int],
                    profiles@[n2.0 as int],
                    *graph,
                ),
            r != n1 ==> profile_lt(profiles@[n1.0 as int], profiles@[r.0 as int], *graph),
        { best_successor(graph, profiles, n0, n1) };
    strategy.update_each(graph, f);
    proof {
        assert forall|k: int| 0 <= k < d0.len() implies {
            let n0 = graph.p0.ids@[k];
            let n1 = succ_node(graph, d0[k]);
            let r = succ_node(graph, #[trigger] strategy.direct@[k]);
            &&& r == n1 || graph.spec_successors(n0).contains(r)
            &&& forall|n2: NodeId|
                #[trigger] graph.spec_successors(n0).contains(n2) ==> !profile_lt(
                    profiles@[r.0 as int],
                    profiles@[n2.0 as int],
                    *graph,
                )
            &&& r != n1 ==> profile_lt(profiles@[n1.0 as int], profiles@[r.0 as int], *graph)
            &&& (strategy.direct@[k] != d0[k] <==> r != n1)
        } by {
            let n0 = graph.p0.ids@[k];
            let n1 = succ_node(graph, d0[k]);
            assert(answered(f, graph, n0, n1, strategy.direct@[k]));
            let r = choose|r: NodeId| #[trigger] call_ensures(f, (n0, n1), r) && strategy.direct@[k] == succ_id(graph, r);
            lemma_succ_roundtrip(*graph, d0[k], r);
        }
    }
    let mut improved = false;
    let mut j: usize = 0;
    while j < before.len()
        invariant
            j <= before@.len(),
            before@ == d0,
            strategy.direct@.len() == d0.len(),
            improved == exists|i: int| 0 <= i < j && #[trigger] strategy.direct@[i] != d0[i],
        decreases before@.len() - j,
    {
        if before[j] != strategy.direct[j] {
            improved = true;
        }
        j = j + 1;
    }
    improved
}

} // verus!
