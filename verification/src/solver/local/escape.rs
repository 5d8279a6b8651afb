//! Finding the nodes that are lost for good, and deciding them.
use indexmap::IndexSet;
use rustc_hash::FxBuildHasher;
use vstd::prelude::*;

use crate::index_set::{lemma_push_fresh, lemma_swap_removed, set_insert, set_items, set_new, set_swap_remove, set_to_vec, swap_removed};
use crate::solver::index::NodeId;
use crate::solver::strategy::{spec_winning, GetRelevance, PlayProfile};

use super::game::{set_below, Game, NodeKind, WinState};
use super::profiles::profile_in;
use super::winning::{cascade_ok, keeps_decided, keeps_winners, strategies_fit};
use super::game::GameStrategy;

verus! {

/// The node `x` has a profile, and the player moving there does not win it.
pub open spec fn lost_in_subgame(g: Game, profiles: Seq<PlayProfile>, x: int) -> bool {
    &&& 0 <= x < profiles.len()
    &&& g.spec_player_of(NodeId(x as usize)) != spec_winning(profiles[x], &g)
}

/// `x` is a node that can still be left: a node of either player with moves
/// left to explore.
pub open spec fn incomplete_node(g: Game, x: usize) -> bool {
    ||| exists|k: usize| set_items(g.p0.incomplete).contains(k) && #[trigger] g.p0.ids@[k as int].0 == x
    ||| exists|k: usize| set_items(g.p1.incomplete).contains(k) && #[trigger] g.p1.ids@[k as int].0 == x
}

/// Every node that the final strategy moves to `x` has all its predecessors
/// out of `r`.
pub open spec fn escapes_closed(g: Game, fs: Seq<NodeId>, r: Seq<usize>, x: usize) -> bool {
    forall|p: int, pp: NodeId|
        0 <= p < fs.len() && fs[p].0 == x && #[trigger] g.spec_predecessors(NodeId(p as usize)).contains(pp)
            ==> !r.contains(pp.0)
}

/// `t` holds every node lost in the subgame with moves left, and every
/// node lost in the subgame that leads, by an edge of the game and then a
/// move of the final strategy, to a node of `t`.
pub open spec fn escape_closed_set(g: Game, profiles: Seq<PlayProfile>, fs: Seq<NodeId>, t: Set<usize>) -> bool {
    &&& forall|x: usize| lost_in_subgame(g, profiles, x as int) && #[trigger] incomplete_node(g, x) ==> t.contains(x)
    &&& forall|p: int, pp: NodeId|
        0 <= p < fs.len() && t.contains(fs[p].0) && #[trigger] g.spec_predecessors(NodeId(p as usize)).contains(pp)
            && lost_in_subgame(g, profiles, pp.0 as int) ==> t.contains(pp.0)
}

/// Every node lost in the subgame but outside `r` belongs to every set
/// closed as escaping nodes are: it is found to escape by the rules alone.
pub open spec fn only_escaping_left_out(g: Game, profiles: Seq<PlayProfile>, fs: Seq<NodeId>, r: Seq<usize>) -> bool {
    forall|t: Set<usize>, y: usize|
        #[trigger] escape_closed_set(g, profiles, fs, t) && lost_in_subgame(g, profiles, y as int) && !r.contains(y)
            ==> #[trigger] t.contains(y)
}

/// `r` holds exactly the nodes lost in the subgame that cannot escape it:
/// none of them has moves left, from every node lost in the subgame outside
/// `r`, going back one move of the final strategy and then one edge of the
/// game leaves `r` too, and only such escaping nodes are left out.
pub open spec fn definitely_losing(g: Game, profiles: Seq<PlayProfile>, fs: Seq<NodeId>, r: Seq<usize>) -> bool {
    &&& r.no_duplicates()
    &&& forall|x: usize| #[trigger] r.contains(x) ==> lost_in_subgame(g, profiles, x as int) && !incomplete_node(g, x)
    &&& forall|x: usize|
        lost_in_subgame(g, profiles, x as int) && !r.contains(x) ==> #[trigger] escapes_closed(g, fs, r, x)
    &&& only_escaping_left_out(g, profiles, fs, r)
}


/// Removes `x` from the set, telling whether it was there.
fn take_out(s: &mut IndexSet<usize, FxBuildHasher>, x: usize) -> (r: bool)
    requires
        set_items(*old(s)).no_duplicates(),
    ensures
        r == set_items(*old(s)).contains(x),
        set_items(*final(s)).no_duplicates(),
        forall|y: usize| #[trigger] set_items(*final(s)).contains(y) <==> (set_items(*old(s)).contains(y) && y != x),
        set_items(*final(s)).len() == if r {
            set_items(*old(s)).len() - 1
        } else {
            set_items(*old(s)).len() as int
        },
{
    let ghost s0 = set_items(*s);
    let r = set_swap_remove(s, x);
    proof {
        if r {
            let i = choose|i: int| 0 <= i < s0.len() && s0[i] == x && set_items(*s) == swap_removed(s0, i);
            lemma_swap_removed(s0, i);
        }
    }
    r
}

/// The nodes that the final strategy moves to each node.
fn inverse_of(fs: &Vec<NodeId>) -> (inv: Vec<Vec<NodeId>>)
    requires
        forall|x: int| 0 <= x < fs@.len() ==> (#[trigger] fs@[x]).0 < fs@.len(),
    ensures
        inv@.len() == fs@.len(),
        forall|m: int, q: NodeId|
            0 <= m < fs@.len() ==> (#[trigger] inv@[m]@.contains(q) <==> (q.0 < fs@.len() && fs@[q.0 as int].0 == m)),
{
    let n = fs.len();
    let mut inv: Vec<Vec<NodeId>> = Vec::new();
    let mut k: usize = 0;
    while k < n
        invariant
            k <= n,
            n == fs@.len(),
            inv@.len() == k,
            forall|m: int| 0 <= m < k ==> (#[trigger] inv@[m])@.len() == 0,
        decreases n - k,
    {
        inv.push(Vec::new());
        k = k + 1;
    }
    let mut i: usize = 0;
    while i < n
        invariant
            i <= n,
            n == fs@.len(),
            inv@.len() == n,
            forall|x: int| 0 <= x < fs@.len() ==> (#[trigger] fs@[x]).0 < fs@.len(),
            forall|m: int, q: NodeId|
                0 <= m < n ==> (#[trigger] inv@[m]@.contains(q) <==> (q.0 < i && fs@[q.0 as int].0 == m)),
        decreases n - i,
    {
        let m = fs[i].0;
        let ghost before = inv@;
        inv[m].push(NodeId(i));
        proof {
            assert forall|m2: int, q: NodeId| 0 <= m2 < n implies (#[trigger] inv@[m2]@.contains(q) <==> (q.0 < i + 1
                && fs@[q.0 as int].0 == m2)) by {
                if m2 == m {
                    assert(inv@[m2]@ == before[m2]@.push(NodeId(i)));
                    if q == NodeId(i) {
                        assert(inv@[m2]@[before[m2]@.len() as int] == q);
                    }
                    if before[m2]@.contains(q) {
                        let j = choose|j: int| 0 <= j < before[m2]@.len() && before[m2]@[j] == q;
                        assert(inv@[m2]@[j] == q);
                    }
                } else {
                    assert(inv@[m2] == before[m2]);
                }
            }
        }
        i = i + 1;
    }
    inv
}

/// The nodes lost in the subgame of the profiles that cannot escape it by
/// reaching a node with moves left.
pub fn definitely_losing_set(game: &Game, profiles: &Vec<PlayProfile>, final_strategy: &Vec<NodeId>) -> (r: IndexSet<usize, FxBuildHasher>)
    requires
        game.well_formed(),
        profiles@.len() <= game.nodes@.len(),
        forall|x: int| 0 <= x < profiles@.len() ==> profile_in(#[trigger] profiles@[x], game.nodes@.len()),
        final_strategy@.len() == game.nodes@.len(),
        forall|x: int| 0 <= x < final_strategy@.len() ==> (#[trigger] final_strategy@[x]).0 < final_strategy@.len(),
    ensures
        definitely_losing(*game, profiles@, final_strategy@, set_items(r)),
{
    let inverse = inverse_of(final_strategy);
    let mut losing = set_new();
    let mut x: usize = 0;
    while x < profiles.len()
        invariant
            x <= profiles@.len(),
            game.well_formed(),
            profiles@.len() <= game.nodes@.len(),
            forall|y: int| 0 <= y < profiles@.len() ==> profile_in(#[trigger] profiles@[y], game.nodes@.len()),
            set_items(losing).no_duplicates(),
            forall|y: usize| #[trigger] set_items(losing).contains(y) <==> (y < x && lost_in_subgame(*game, profiles@, y as int)),
        decreases profiles@.len() - x,
    {
        let p = &profiles[x];
        proof {
            assert(profile_in(profiles@[x as int], game.nodes@.len()));
        }
        if game.player_of(NodeId(x)) != p.winning(game) {
            let ghost s0 = set_items(losing);
            set_insert(&mut losing, x);
            proof {
                lemma_push_fresh(s0, x);
            }
        }
        x = x + 1;
    }
    // Nodes with moves left can escape.
    let mut queue: Vec<NodeId> = Vec::new();
    proof {
        assert forall|y: usize|
            lost_in_subgame(*game, profiles@, y as int) && !set_items(losing).contains(y) && !queue@.contains(NodeId(y))
                && None::<usize> != Some(y) implies #[trigger] escapes_closed(*game, final_strategy@, set_items(losing), y) by {
            assert(set_items(losing).contains(y));
        }
    }
    let inc0 = set_to_vec(&game.p0.incomplete);
    let mut j: usize = 0;
    while j < inc0.len()
        invariant
            j <= inc0@.len(),
            inc0@ == set_items(game.p0.incomplete),
            game.well_formed(),
            queue_inv(*game, profiles@, final_strategy@, set_items(losing), queue@, None),
            forall|i: int| 0 <= i < j ==> !set_items(losing).contains(game.p0.ids@[#[trigger] inc0@[i] as int].0),
        decreases inc0@.len() - j,
    {
        let k = inc0[j];
        proof {
            assert(set_items(game.p0.incomplete).contains(k));
        }
        let id = game.p0.ids[k];
        let ghost l0 = set_items(losing);
        let ghost q0 = queue@;
        let removed = take_out(&mut losing, id.0);
        if removed {
            queue.push(id);
        }
        proof {
            if removed {
                assert(incomplete_node(*game, id.0)) by {
                    assert(set_items(game.p0.incomplete).contains(k) && game.p0.ids@[k as int].0 == id.0);
                }
                assert(lost_in_subgame(*game, profiles@, id.0 as int));
            }
            lemma_queue_step(*game, profiles@, final_strategy@, l0, set_items(losing), q0, queue@, id.0, None, removed);
        }
        j = j + 1;
    }
    let inc1 = set_to_vec(&game.p1.incomplete);
    let mut j: usize = 0;
    while j < inc1.len()
        invariant
            j <= inc1@.len(),
            inc1@ == set_items(game.p1.incomplete),
            inc0@ == set_items(game.p0.incomplete),
            game.well_formed(),
            queue_inv(*game, profiles@, final_strategy@, set_items(losing), queue@, None),
            forall|i: int| 0 <= i < inc0@.len() ==> !set_items(losing).contains(game.p0.ids@[#[trigger] inc0@[i] as int].0),
            forall|i: int| 0 <= i < j ==> !set_items(losing).contains(game.p1.ids@[#[trigger] inc1@[i] as int].0),
        decreases inc1@.len() - j,
    {
        let k = inc1[j];
        proof {
            assert(set_items(game.p1.incomplete).contains(k));
        }
        let id = game.p1.ids[k];
        let ghost l0 = set_items(losing);
        let ghost q0 = queue@;
        let removed = take_out(&mut losing, id.0);
        if removed {
            queue.push(id);
        }
        proof {
            if removed {
                assert(incomplete_node(*game, id.0)) by {
                    assert(set_items(game.p1.incomplete).contains(k) && game.p1.ids@[k as int].0 == id.0);
                }
                assert(lost_in_subgame(*game, profiles@, id.0 as int));
            }
            lemma_queue_step(*game, profiles@, final_strategy@, l0, set_items(losing), q0, queue@, id.0, None, removed);
        }
        j = j + 1;
    }
    proof {
        assert forall|y: usize| #[trigger] incomplete_node(*game, y) implies !set_items(losing).contains(y) by {
            if exists|k: usize| set_items(game.p0.incomplete).contains(k) && #[trigger] game.p0.ids@[k as int].0 == y {
                let k = choose|k: usize| set_items(game.p0.incomplete).contains(k) && #[trigger] game.p0.ids@[k as int].0 == y;
                let i = choose|i: int| 0 <= i < inc0@.len() && inc0@[i] == k;
                assert(!set_items(losing).contains(game.p0.ids@[inc0@[i] as int].0));
            } else {
                let k = choose|k: usize| set_items(game.p1.incomplete).contains(k) && #[trigger] game.p1.ids@[k as int].0 == y;
                let i = choose|i: int| 0 <= i < inc1@.len() && inc1@[i] == k;
                assert(!set_items(losing).contains(game.p1.ids@[inc1@[i] as int].0));
            }
        }
    }
    // Going back from nodes that can escape.
    while queue.len() > 0
        invariant
            game.well_formed(),
            final_strategy@.len() == game.nodes@.len(),
            inverse@.len() == final_strategy@.len(),
            forall|m: int, q: NodeId|
                0 <= m < final_strategy@.len() ==> (#[trigger] inverse@[m]@.contains(q) <==> (q.0 < final_strategy@.len()
                    && final_strategy@[q.0 as int].0 == m)),
            queue_inv(*game, profiles@, final_strategy@, set_items(losing), queue@, None),
            forall|y: usize| #[trigger] incomplete_node(*game, y) ==> !set_items(losing).contains(y),
        decreases set_items(losing).len() + queue@.len(),
    {
        let ghost q0 = queue@;
        let n = queue.pop().unwrap();
        let ghost measure = set_items(losing).len() + queue@.len();
        proof {
            assert(q0 == queue@.push(n));
            assert(q0[q0.len() - 1] == n);
            assert(n.0 < game.nodes@.len());
            assert(lost_in_subgame(*game, profiles@, n.0 as int));
            assert(!set_items(losing).contains(n.0));
            assert forall|y: usize|
                lost_in_subgame(*game, profiles@, y as int) && !set_items(losing).contains(y) && !queue@.contains(NodeId(y))
                    && Some(n.0) != Some(y) implies #[trigger] escapes_closed(*game, final_strategy@, set_items(losing), y) by {
                if q0.contains(NodeId(y)) {
                    let i = choose|i: int| 0 <= i < q0.len() && q0[i] == NodeId(y);
                    if i < queue@.len() {
                        assert(queue@[i] == NodeId(y));
                    }
                }
            }
        }
        let row = &inverse[n.0];
        proof {
            assert forall|i: int| 0 <= i < row@.len() implies (#[trigger] row@[i]).0 < game.nodes@.len() by {
                assert(inverse@[n.0 as int]@.contains(row@[i]));
            }
        }
        let mut a: usize = 0;
        while a < row.len()
            invariant
                a <= row@.len(),
                *row == inverse@[n.0 as int],
                n.0 < game.nodes@.len(),
                game.well_formed(),
                final_strategy@.len() == game.nodes@.len(),
                queue_inv(*game, profiles@, final_strategy@, set_items(losing), queue@, Some(n.0)),
                set_items(losing).len() + queue@.len() == measure,
                lost_in_subgame(*game, profiles@, n.0 as int),
                !set_items(losing).contains(n.0),
                forall|m: int, q: NodeId|
                    0 <= m < final_strategy@.len() ==> (#[trigger] inverse@[m]@.contains(q) <==> (q.0 < final_strategy@.len()
                        && final_strategy@[q.0 as int].0 == m)),
                forall|i: int, pp: NodeId|
                    0 <= i < a && #[trigger] game.spec_predecessors(row@[i]).contains(pp) ==> !set_items(losing).contains(pp.0),
                forall|i: int| 0 <= i < row@.len() ==> (#[trigger] row@[i]).0 < game.nodes@.len(),
                forall|y: usize| #[trigger] incomplete_node(*game, y) ==> !set_items(losing).contains(y),
            decreases row@.len() - a,
        {
            let p = row[a];
            proof {
                assert(inverse@[n.0 as int]@.contains(p));
            }
            let preds = game.predecessors_of(p);
            let mut b: usize = 0;
            while b < preds.len()
                invariant
                    b <= preds@.len(),
                    preds@ == game.spec_predecessors(p),
                    a < row@.len(),
                    p == row@[a as int],
                    game.well_formed(),
                    queue_inv(*game, profiles@, final_strategy@, set_items(losing), queue@, Some(n.0)),
                    set_items(losing).len() + queue@.len() == measure,
                    lost_in_subgame(*game, profiles@, n.0 as int),
                    !set_items(losing).contains(n.0),
                    p.0 < final_strategy@.len() && final_strategy@[p.0 as int].0 == n.0,
                    forall|i: int| 0 <= i < b ==> !set_items(losing).contains((#[trigger] preds@[i]).0),
                    forall|i: int, pp: NodeId|
                        0 <= i < a && #[trigger] game.spec_predecessors(row@[i]).contains(pp) ==> !set_items(losing).contains(pp.0),
                    p.0 < game.nodes@.len(),
                    forall|y: usize| #[trigger] incomplete_node(*game, y) ==> !set_items(losing).contains(y),
                decreases preds@.len() - b,
            {
                let pp = preds[b];
                let ghost l0 = set_items(losing);
                let ghost q1 = queue@;
                proof {
                    lemma_predecessors_in(*game, p, b as int);
                }
                let removed = take_out(&mut losing, pp.0);
                if removed {
                    queue.push(pp);
                }
                proof {
                    if removed {
                        assert(lost_in_subgame(*game, profiles@, pp.0 as int));
                        assert(game.spec_predecessors(NodeId(p.0 as usize)).contains(pp)) by {
                            assert(preds@[b as int] == pp);
                        }
                        assert forall|t: Set<usize>| #[trigger] escape_closed_set(*game, profiles@, final_strategy@, t)
                            implies t.contains(pp.0) by {
                            assert(t.contains(n.0));
                            assert(t.contains(final_strategy@[p.0 as int].0));
                        }
                    }
                    lemma_queue_step(*game, profiles@, final_strategy@, l0, set_items(losing), q1, queue@, pp.0, Some(n.0), removed);
                }
                b = b + 1;
            }
            proof {
                assert forall|i: int, pp: NodeId|
                    0 <= i < a + 1 && #[trigger] game.spec_predecessors(row@[i]).contains(pp) implies !set_items(losing).contains(pp.0) by {
                    if i == a {
                        let k = choose|k: int| 0 <= k < preds@.len() && preds@[k] == pp;
                        assert(!set_items(losing).contains(preds@[k].0));
                    }
                }
            }
            a = a + 1;
        }
        proof {
            assert(escapes_closed(*game, final_strategy@, set_items(losing), n.0)) by {
                assert forall|p: int, pp: NodeId|
                    0 <= p < final_strategy@.len() && final_strategy@[p].0 == n.0 && #[trigger] game.spec_predecessors(NodeId(p as usize)).contains(pp)
                        implies !set_items(losing).contains(pp.0) by {
                    assert(inverse@[n.0 as int]@.contains(NodeId(p as usize)));
                    let i = choose|i: int| 0 <= i < row@.len() && row@[i] == NodeId(p as usize);
                    assert(game.spec_predecessors(row@[i]).contains(pp));
                }
            }
        }
    }
    losing
}

/// What the search keeps: the lost nodes left, the nodes found to escape
/// that still have to be gone back from, and, for every other node found to
/// escape but `exempt`, the nodes that lead to it by a move of the final
/// strategy and an edge of the game escape too.
pub open spec fn queue_inv(
    g: Game,
    profiles: Seq<PlayProfile>,
    fs: Seq<NodeId>,
    losing: Seq<usize>,
    queue: Seq<NodeId>,
    exempt: Option<usize>,
) -> bool {
    &&& losing.no_duplicates()
    &&& forall|y: usize| #[trigger] losing.contains(y) ==> lost_in_subgame(g, profiles, y as int)
    &&& forall|i: int|
        0 <= i < queue.len() ==> (#[trigger] queue[i]).0 < g.nodes@.len() && lost_in_subgame(g, profiles, queue[i].0 as int)
            && !losing.contains(queue[i].0)
    &&& forall|y: usize|
        lost_in_subgame(g, profiles, y as int) && !losing.contains(y) && !queue.contains(NodeId(y)) && exempt != Some(y)
            ==> #[trigger] escapes_closed(g, fs, losing, y)
    &&& only_escaping_left_out(g, profiles, fs, losing)
}

/// The predecessors of a node are nodes of the game.
proof fn lemma_predecessors_in(g: Game, n: NodeId, b: int)
    requires
        g.well_formed(),
        n.0 < g.nodes@.len(),
        0 <= b < g.spec_predecessors(n).len(),
    ensures
        g.spec_predecessors(n)[b].0 < g.nodes@.len(),
{
    match g.kind(n) {
        NodeKind::L0 => {
            let s = set_items(g.p1.w1);
            if b < s.len() {
                assert(s.contains(s[b]));
            }
        },
        NodeKind::L1 => {
            let s = set_items(g.p0.w0);
            if b < s.len() {
                assert(s.contains(s[b]));
            }
        },
        NodeKind::W0 => {
            let s = set_items(g.p1.w0);
            if b < s.len() {
                assert(s.contains(s[b]));
            }
        },
        NodeKind::W1 => {
            let s = set_items(g.p0.w1);
            if b < s.len() {
                assert(s.contains(s[b]));
            }
        },
        NodeKind::P0(p) => {
            let s = set_items(g.p0.preds@[p.0 as int]);
            assert(s.contains(s[b]));
        },
        NodeKind::P1(p) => {
            let s = set_items(g.p1.preds@[p.0 as int]);
            assert(s.contains(s[b]));
        },
    }
}

/// Taking `x` out of the lost nodes, and putting it in the queue if it was
/// there, keeps what the search keeps.
proof fn lemma_queue_step(
    g: Game,
    profiles: Seq<PlayProfile>,
    fs: Seq<NodeId>,
    l0: Seq<usize>,
    l1: Seq<usize>,
    q0: Seq<NodeId>,
    q1: Seq<NodeId>,
    x: usize,
    exempt: Option<usize>,
    removed: bool,
)
    requires
        queue_inv(g, profiles, fs, l0, q0, exempt),
        removed == l0.contains(x),
        l1.no_duplicates(),
        forall|y: usize| #[trigger] l1.contains(y) <==> (l0.contains(y) && y != x),
        q1 == if removed {
            q0.push(NodeId(x))
        } else {
            q0
        },
        removed ==> x < g.nodes@.len(),
        removed ==> forall|t: Set<usize>| #[trigger] escape_closed_set(g, profiles, fs, t) ==> t.contains(x),
    ensures
        queue_inv(g, profiles, fs, l1, q1, exempt),
{
    assert forall|t: Set<usize>, y: usize|
        #[trigger] escape_closed_set(g, profiles, fs, t) && lost_in_subgame(g, profiles, y as int) && !l1.contains(y)
            implies #[trigger] t.contains(y) by {
        if y != x {
            assert(!l0.contains(y));
        }
    }
    assert forall|i: int| 0 <= i < q1.len() implies (#[trigger] q1[i]).0 < g.nodes@.len() && lost_in_subgame(
        g,
        profiles,
        q1[i].0 as int,
    ) && !l1.contains(q1[i].0) by {
        if i < q0.len() {
            assert(q1[i] == q0[i]);
        }
    }
    assert forall|y: usize|
        lost_in_subgame(g, profiles, y as int) && !l1.contains(y) && !q1.contains(NodeId(y)) && exempt != Some(y)
            implies #[trigger] escapes_closed(g, fs, l1, y) by {
        if removed && y == x {
            assert(q1[q0.len() as int] == NodeId(x));
        }
        if q0.contains(NodeId(y)) {
            let i = choose|i: int| 0 <= i < q0.len() && q0[i] == NodeId(y);
            assert(q1[i] == NodeId(y));
        }
        assert(escapes_closed(g, fs, l0, y));
    }
}


/// The node `x` is decided if it is a node of either player.
pub open spec fn decided(g: Game, x: usize) -> bool {
    match g.kind(NodeId(x)) {
        NodeKind::P0(p) => g.p0.win@[p.0 as int] != WinState::Unknown,
        NodeKind::P1(p) => g.p1.win@[p.0 as int] != WinState::Unknown,
        _ => true,
    }
}

/// The node `x` is recorded as lost by the player moving there.
pub open spec fn decided_lost(g: Game, x: usize) -> bool {
    match g.kind(NodeId(x)) {
        NodeKind::P0(p) => g.p0.win@[p.0 as int] == WinState::Win1,
        NodeKind::P1(p) => g.p1.win@[p.0 as int] == WinState::Win0,
        _ => true,
    }
}

/// What deciding that `x` is lost by its player records: the opponent of
/// that player.
pub open spec fn opponent_win(g: Game, x: usize) -> WinState {
    match g.kind(NodeId(x)) {
        NodeKind::P0(_) => WinState::Win1,
        _ => WinState::Win0,
    }
}

/// One step of deciding the losing nodes, from `a` to `b`, for the node `x`:
/// no winner recorded in `a` changes, the nodes decided anew are won by the
/// opponent of the player of `x`, and `x`, if it was undecided, is recorded
/// as lost by its player.
pub open spec fn decides_step(a: Game, b: Game, x: usize) -> bool {
    &&& keeps_winners(&b, &a, -1, -1, opponent_win(a, x))
    &&& !decided(a, x) ==> decided_lost(b, x)
}

/// Decides the nodes that are lost for good in the subgame of the profiles:
/// each one still undecided is recorded as lost by the player moving there,
/// which spreads to its neighbours.
pub fn update_winning_sets(
    game: &mut Game,
    profiles: &Vec<PlayProfile>,
    final_strategy: &mut Vec<NodeId>,
    strategy: &mut GameStrategy,
)
    requires
        old(game).well_formed(),
        profiles@.len() <= old(game).nodes@.len(),
        forall|x: int| 0 <= x < profiles@.len() ==> profile_in(#[trigger] profiles@[x], old(game).nodes@.len()),
        strategies_fit(old(game), old(strategy), old(final_strategy)@),
        forall|x: int| 0 <= x < old(final_strategy)@.len() ==> (#[trigger] old(final_strategy)@[x]).0 < old(final_strategy)@.len(),
    ensures
        cascade_ok(final(game), old(game), final(strategy), final(final_strategy)@),
        keeps_decided(final(game), old(game)),
        exists|r: Seq<usize>|
            definitely_losing(*old(game), profiles@, old(final_strategy)@, r) && forall|j: int|
                0 <= j < r.len() ==> #[trigger] decided(*final(game), r[j]),
        exists|r: Seq<usize>, gs: Seq<Game>|
            {
                &&& definitely_losing(*old(game), profiles@, old(final_strategy)@, r)
                &&& gs.len() == r.len() + 1
                &&& gs[0] == *old(game)
                &&& gs[r.len() as int] == *final(game)
                &&& forall|j: int| 0 <= j < r.len() ==> decides_step(gs[j], #[trigger] gs[j + 1], r[j])
            },
{
    let ghost g0 = *game;
    let losing = definitely_losing_set(game, profiles, final_strategy);
    let items = set_to_vec(&losing);
    let ghost r = items@;
    let ghost mut gs: Seq<Game> = seq![*game];
    let mut k: usize = 0;
    while k < items.len()
        invariant
            k <= items@.len(),
            r == items@,
            definitely_losing(g0, profiles@, old(final_strategy)@, r),
            profiles@.len() <= g0.nodes@.len(),
            cascade_ok(game, &g0, strategy, final_strategy@),
            keeps_decided(game, &g0),
            forall|j: int| 0 <= j < k ==> #[trigger] decided(*game, r[j]),
            gs.len() == k + 1,
            gs[0] == g0,
            gs[k as int] == *game,
            forall|j: int| 0 <= j < k ==> decides_step(gs[j], #[trigger] gs[j + 1], r[j]),
        decreases items@.len() - k,
    {
        let n = items[k];
        proof {
            assert(r.contains(n));
            assert(lost_in_subgame(g0, profiles@, n as int));
        }
        let ghost gb = *game;
        match game.resolve(NodeId(n)) {
            NodeKind::P0(p0) => {
                if game.p0.win[p0.0] == WinState::Unknown {
                    game.set_p0_losing(p0, strategy, final_strategy);
                }
            },
            NodeKind::P1(p1) => {
                if game.p1.win[p1.0] == WinState::Unknown {
                    game.set_p1_losing(p1, strategy, final_strategy);
                }
            },
            _ => {},
        }
        proof {
            assert(keeps_decided(game, &gb));
            assert(game.nodes == gb.nodes);
            assert forall|j: int| 0 <= j < k + 1 implies #[trigger] decided(*game, r[j]) by {
                let x = NodeId(r[j]);
                assert(r.contains(r[j]));
                assert(lost_in_subgame(g0, profiles@, r[j] as int));
                if x.0 >= 4 {
                    assert(match gb.nodes@[x.0 as int] {
                        NodeKind::P0(p) => p.0 < gb.p0.count(),
                        NodeKind::P1(p) => p.0 < gb.p1.count(),
                        _ => false,
                    });
                }
                if j < k {
                    assert(decided(gb, r[j]));
                }
            }
            assert(decides_step(gb, *game, n));
            let gs1 = gs.push(*game);
            assert forall|j: int| 0 <= j < k + 1 implies decides_step(gs1[j], #[trigger] gs1[j + 1], r[j]) by {
                if j < k {
                    assert(gs1[j] == gs[j] && gs1[j + 1] == gs[j + 1]);
                }
            }
            gs = gs1;
        }
        k = k + 1;
    }
}

} // verus!
