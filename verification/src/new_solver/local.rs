//! The interface between the local solver and the games it explores.
use vstd::prelude::*;

use std::collections::HashMap;

use indexmap::IndexSet;
use rustc_hash::FxBuildHasher;

use crate::index_set::{
    lemma_push_fresh, lemma_swap_removed, set_index, set_insert, set_items, set_len, set_new,
    set_swap_remove, swap_removed,
};
use crate::new_solver::solver::{NodeId, Player, Solver, NODE_INVALID};

verus! {

/// Who is known to win from a position.
#[derive(Clone, Copy, Debug, PartialEq, Eq, Structural)]
pub enum WinState {
    Win(Player),
    Unknown,
}

/// Moves that can drop the positions whose winner is known.
pub trait Simplify<T> {
    fn simplify<F: Fn(&T) -> WinState>(&mut self, winning: F);
}

/// A game given by its positions: who moves, with which priority, and where.
pub trait Expander {
    type Pos;
    type Moves: Simplify<Self::Pos>;

    fn player(&self, pos: &Self::Pos) -> Player;

    fn priority(&self, pos: &Self::Pos) -> usize;

    fn moves_for(&mut self, pos: &Self::Pos) -> Self::Moves;
}

/// `s` without `x`, as `IndexSet::swap_remove` leaves it.
pub open spec fn without(s: Seq<usize>, x: usize) -> Seq<usize> {
    if s.contains(x) {
        swap_removed(s, s.index_of(x))
    } else {
        s
    }
}

/// What deciding nodes changes: the node of each explored position, the
/// winner known for it, and the positions of either player that can still
/// be explored.
pub struct DecideState {
    pub nodes: Seq<NodeId>,
    pub win: Seq<Option<Player>>,
    pub boundary_p0: Seq<usize>,
    pub boundary_p1: Seq<usize>,
    pub removed: Seq<NodeId>,
}

/// Position `id` is decided as won by `w`: it leaves the solver and the
/// boundary of `owner`.
pub open spec fn mark_won(st: DecideState, id: usize, w: Player, owner: Player, node: NodeId) -> DecideState {
    DecideState {
        removed: st.removed.push(node),
        nodes: st.nodes.update(id as int, NodeId(NODE_INVALID)),
        win: st.win.update(id as int, Some(w)),
        boundary_p0: if owner == Player::P0 {
            without(st.boundary_p0, id)
        } else {
            st.boundary_p0
        },
        boundary_p1: if owner == Player::P1 {
            without(st.boundary_p1, id)
        } else {
            st.boundary_p1
        },
    }
}

/// The positions of the nodes `preds` are decided as won by `w`, in order,
/// each leaving the boundary of `w`.
pub open spec fn mark_preds(st: DecideState, map: Map<usize, usize>, preds: Seq<NodeId>, w: Player) -> DecideState
    decreases preds.len(),
{
    if preds.len() == 0 {
        st
    } else {
        mark_won(mark_preds(st, map, preds.drop_last(), w), map[preds.last().0], w, w, preds.last())
    }
}

/// Deciding the first `k` positions in order: a position whose node is
/// still in the solver and is won by the player not moving there is decided
/// for the winner, and so are the positions of all its predecessors.
pub open spec fn decide_upto<S: Solver>(solver: &S, map: Map<usize, usize>, st0: DecideState, k: nat) -> DecideState
    decreases k,
{
    if k == 0 {
        st0
    } else {
        let st = decide_upto(solver, map, st0, (k - 1) as nat);
        let id = (k - 1) as usize;
        let node = st.nodes[id as int];
        if node.0 == NODE_INVALID || solver.spec_winner(node) == solver.spec_player(node) {
            st
        } else {
            let w = solver.spec_winner(node);
            mark_preds(mark_won(st, id, w, solver.spec_player(node), node), map, solver.spec_predecessors(node), w)
        }
    }
}

/// Every node that the solver relates to a known node is known, and
/// known nodes have positions among the `n` explored.
pub open spec fn nodes_known<S: Solver>(solver: &S, map: Map<usize, usize>, n: nat) -> bool {
    &&& forall|k: usize| #[trigger] map.contains_key(k) ==> map[k] < n
    &&& forall|a: NodeId, p: NodeId|
        map.contains_key(a.0) && #[trigger] solver.spec_predecessors(a).contains(p) ==> map.contains_key(p.0)
    &&& forall|a: NodeId, m: NodeId, p: NodeId|
        map.contains_key(a.0) && #[trigger] solver.spec_inverse_strategy(a).contains(m)
            && #[trigger] solver.spec_predecessors(m).contains(p) ==> map.contains_key(p.0)
}

/// A sequence of distinct indices below `n` has at most `n` of them.
proof fn lemma_distinct_below(s: Seq<usize>, n: nat)
    requires
        s.no_duplicates(),
        forall|i: int| 0 <= i < s.len() ==> (#[trigger] s[i]) < n,
    ensures
        s.len() <= n,
    decreases n,
{
    if n == 0 {
        if s.len() > 0 {
            assert(s[0] < n);
        }
    } else {
        let top = (n - 1) as usize;
        if s.contains(top) {
            let i = choose|i: int| 0 <= i < s.len() && s[i] == top;
            let t = s.remove(i);
            assert forall|a: int, b: int| 0 <= a < b < t.len() implies t[a] != t[b] by {
                let a2 = if a < i { a } else { a + 1 };
                let b2 = if b < i { b } else { b + 1 };
                assert(t[a] == s[a2] && t[b] == s[b2]);
            }
            assert forall|j: int| 0 <= j < t.len() implies (#[trigger] t[j]) < (n - 1) as nat by {
                let j2 = if j < i { j } else { j + 1 };
                assert(t[j] == s[j2]);
                assert(s[j2] != s[i]);
            }
            lemma_distinct_below(t, (n - 1) as nat);
        } else {
            assert forall|j: int| 0 <= j < s.len() implies (#[trigger] s[j]) < (n - 1) as nat by {
                assert(s[j] != top);
            }
            lemma_distinct_below(s, (n - 1) as nat);
        }
    }
}

/// Removing an item that a set holds once, the way `swap_remove` does.
fn remove_item(s: &mut IndexSet<usize, FxBuildHasher>, x: usize)
    requires
        set_items(*old(s)).no_duplicates(),
    ensures
        set_items(*final(s)) == without(set_items(*old(s)), x),
        set_items(*final(s)).no_duplicates(),
        forall|y: usize| #[trigger] set_items(*final(s)).contains(y) ==> set_items(*old(s)).contains(y),
{
    let ghost s0 = set_items(*s);
    let r = set_swap_remove(s, x);
    proof {
        if r {
            let i = choose|i: int| 0 <= i < s0.len() && s0[i] == x && set_items(*s) == swap_removed(s0, i);
            let j = s0.index_of(x);
            assert(0 <= j < s0.len() && s0[j] == x);
            assert(i == j);
            lemma_swap_removed(s0, i);
        }
    }
}

/// The positions in a boundary can be explored, and their nodes are known.
pub open spec fn boundary_known(b: Seq<usize>, nodes: Seq<NodeId>, map: Map<usize, usize>) -> bool {
    &&& b.no_duplicates()
    &&& forall|i: int| 0 <= i < b.len() ==> (#[trigger] b[i]) < nodes.len() && map.contains_key(nodes[b[i] as int].0)
}

/// The state of deciding, as values.
pub open spec fn decide_state(
    nodes: Seq<NodeId>,
    win: Seq<Option<Player>>,
    b0: IndexSet<usize, FxBuildHasher>,
    b1: IndexSet<usize, FxBuildHasher>,
    removed: Seq<NodeId>,
) -> DecideState {
    DecideState { nodes, win, boundary_p0: set_items(b0), boundary_p1: set_items(b1), removed }
}

/// Decides the explored positions whose winner is known: every position
/// whose node is won by the player not moving there is decided for the
/// winner, with the positions of its predecessors, in order of positions,
/// and all their nodes leave the solver. The positions leading to the
/// boundaries are gathered first, which changes none of this.
pub fn update_winning_sets<S: Solver>(
    solver: &mut S,
    nodes: &mut Vec<NodeId>,
    node_to_id: &HashMap<usize, usize>,
    win: &mut Vec<Option<Player>>,
    boundary_p0: &mut IndexSet<usize, FxBuildHasher>,
    boundary_p1: &mut IndexSet<usize, FxBuildHasher>,
)
    requires
        S::obeys_solver_spec(),
        old(win)@.len() == old(nodes)@.len(),
        nodes_known(old(solver), node_to_id@, old(nodes)@.len() as nat),
        boundary_known(set_items(*old(boundary_p0)), old(nodes)@, node_to_id@),
        boundary_known(set_items(*old(boundary_p1)), old(nodes)@, node_to_id@),
        forall|id: int|
            0 <= id < old(nodes)@.len() && (#[trigger] old(nodes)@[id]).0 != NODE_INVALID ==> node_to_id@.contains_key(
                old(nodes)@[id].0,
            ),
    ensures
        ({
            let st = decide_upto(
                old(solver),
                node_to_id@,
                decide_state(old(nodes)@, old(win)@, *old(boundary_p0), *old(boundary_p1), Seq::empty()),
                old(nodes)@.len() as nat,
            );
            &&& decide_state(final(nodes)@, final(win)@, *final(boundary_p0), *final(boundary_p1), st.removed) == st
            &&& final(solver).spec_nodes() == old(solver).spec_nodes().difference(st.removed.to_set())
        }),
{
    broadcast use vstd::std_specs::hash::group_hash_axioms;

    let ghost s0 = *solver;
    let ghost map = node_to_id@;
    let ghost n = nodes@.len();
    let ghost nodes0 = nodes@;
    // The positions that can escape: those of the boundaries, then those
    // leading, by an edge, to a node moved to by the strategy from one of them.
    let mut escaping = set_new();
    proof {
        assert(set_items(escaping) =~= Seq::<usize>::empty());
    }
    let len0 = set_len(boundary_p0);
    let mut k: usize = 0;
    while k < len0
        invariant
            k <= len0,
            len0 == set_items(*boundary_p0).len(),
            boundary_known(set_items(*boundary_p0), nodes@, map),
            boundary_known(set_items(escaping), nodes@, map),
        decreases len0 - k,
    {
        let id = set_index(boundary_p0, k);
        let ghost e0 = set_items(escaping);
        let added = set_insert(&mut escaping, id);
        proof {
            if added {
                lemma_push_fresh(e0, id);
            }
            assert(set_items(*boundary_p0)[k as int] == id);
            let e = set_items(escaping);
            assert forall|i: int| 0 <= i < e.len() implies (#[trigger] e[i]) < nodes@.len() && map.contains_key(
                nodes@[e[i] as int].0,
            ) by {
                if i < e0.len() {
                    assert(e[i] == e0[i]);
                }
            }
        }
        k = k + 1;
    }
    let len1 = set_len(boundary_p1);
    let mut k: usize = 0;
    while k < len1
        invariant
            k <= len1,
            len1 == set_items(*boundary_p1).len(),
            boundary_known(set_items(*boundary_p1), nodes@, map),
            boundary_known(set_items(escaping), nodes@, map),
        decreases len1 - k,
    {
        let id = set_index(boundary_p1, k);
        let ghost e0 = set_items(escaping);
        let added = set_insert(&mut escaping, id);
        proof {
            if added {
                lemma_push_fresh(e0, id);
            }
            assert(set_items(*boundary_p1)[k as int] == id);
            let e = set_items(escaping);
            assert forall|i: int| 0 <= i < e.len() implies (#[trigger] e[i]) < nodes@.len() && map.contains_key(
                nodes@[e[i] as int].0,
            ) by {
                if i < e0.len() {
                    assert(e[i] == e0[i]);
                }
            }
        }
        k = k + 1;
    }
    let mut queue: Vec<NodeId> = Vec::new();
    let elen = set_len(&escaping);
    let mut k: usize = 0;
    while k < elen
        invariant
            k <= elen,
            elen == set_items(escaping).len(),
            boundary_known(set_items(escaping), nodes@, map),
            forall|i: int| 0 <= i < queue@.len() ==> map.contains_key((#[trigger] queue@[i]).0),
        decreases elen - k,
    {
        let id = set_index(&escaping, k);
        proof {
            assert(set_items(escaping)[k as int] == id);
        }
        queue.push(nodes[id]);
        k = k + 1;
    }
    proof {
        lemma_distinct_below(set_items(escaping), n as nat);
    }
    while queue.len() > 0
        invariant
            *solver == s0,
            S::obeys_solver_spec(),
            nodes@ == nodes0,
            n == nodes@.len(),
            map == node_to_id@,
            nodes_known(&s0, map, n as nat),
            set_items(escaping).no_duplicates(),
            forall|i: int| 0 <= i < set_items(escaping).len() ==> (#[trigger] set_items(escaping)[i]) < n,
            set_items(escaping).len() <= n,
            forall|i: int| 0 <= i < queue@.len() ==> map.contains_key((#[trigger] queue@[i]).0),
        decreases queue@.len() + 2 * (n - set_items(escaping).len()),
    {
        let ghost measure = queue@.len() + 2 * (n - set_items(escaping).len());
        let a = queue.pop().unwrap();
        proof {
            assert(map.contains_key(a.0));
        }
        let ms = solver.inverse_strategy(a);
        let mut mi: usize = 0;
        while mi < ms.len()
            invariant
                mi <= ms@.len(),
                ms@ == s0.spec_inverse_strategy(a),
                map.contains_key(a.0),
                *solver == s0,
                S::obeys_solver_spec(),
            S::obeys_solver_spec(),
                map == node_to_id@,
                nodes_known(&s0, map, n as nat),
                set_items(escaping).no_duplicates(),
                forall|i: int| 0 <= i < set_items(escaping).len() ==> (#[trigger] set_items(escaping)[i]) < n,
                set_items(escaping).len() <= n,
                forall|i: int| 0 <= i < queue@.len() ==> map.contains_key((#[trigger] queue@[i]).0),
                queue@.len() + 2 * (n - set_items(escaping).len()) < measure,
            decreases ms@.len() - mi,
        {
            let m = ms[mi];
            let ps = solver.predecessors(m);
            let mut pi: usize = 0;
            while pi < ps.len()
                invariant
                    pi <= ps@.len(),
                    ps@ == s0.spec_predecessors(m),
                    s0.spec_inverse_strategy(a).contains(m),
                    map.contains_key(a.0),
                    *solver == s0,
                    S::obeys_solver_spec(),
                S::obeys_solver_spec(),
            S::obeys_solver_spec(),
                    map == node_to_id@,
                    nodes_known(&s0, map, n as nat),
                    set_items(escaping).no_duplicates(),
                    forall|i: int| 0 <= i < set_items(escaping).len() ==> (#[trigger] set_items(escaping)[i]) < n,
                    set_items(escaping).len() <= n,
                    forall|i: int| 0 <= i < queue@.len() ==> map.contains_key((#[trigger] queue@[i]).0),
                    queue@.len() + 2 * (n - set_items(escaping).len()) < measure,
                decreases ps@.len() - pi,
            {
                let p = ps[pi];
                proof {
                    assert(s0.spec_predecessors(m).contains(p)) by {
                        assert(ps@[pi as int] == p);
                    }
                    assert(map.contains_key(p.0));
                }
                let v = match node_to_id.get(&p.0) {
                    Some(v) => *v,
                    None => 0,
                };
                let ghost e0 = set_items(escaping);
                if set_insert(&mut escaping, v) {
                    proof {
                        lemma_push_fresh(e0, v);
                        let e = set_items(escaping);
                        assert forall|i: int| 0 <= i < e.len() implies (#[trigger] e[i]) < n by {
                            if i < e0.len() {
                                assert(e[i] == e0[i]);
                            }
                        }
                        lemma_distinct_below(e, n as nat);
                    }
                    queue.push(p);
                }
                pi = pi + 1;
            }
            proof {
                assert(ms@[mi as int] == m);
            }
            mi = mi + 1;
        }
    }
    // Deciding the positions won by the player not moving there, and the
    // positions of their predecessors.
    let ghost st0 = decide_state(nodes@, win@, *boundary_p0, *boundary_p1, Seq::empty());
    let mut removed: Vec<NodeId> = Vec::new();
    let len = nodes.len();
    let mut id: usize = 0;
    while id < len
        invariant
            id <= len,
            len == n,
            nodes@.len() == n,
            win@.len() == n,
            *solver == s0,
            S::obeys_solver_spec(),
            map == node_to_id@,
            nodes_known(&s0, map, n as nat),
            st0 == decide_state(nodes0, old(win)@, *old(boundary_p0), *old(boundary_p1), Seq::empty()),
            set_items(*boundary_p0).no_duplicates(),
            set_items(*boundary_p1).no_duplicates(),
            forall|j: int| 0 <= j < n && (#[trigger] nodes@[j]).0 != NODE_INVALID ==> nodes@[j] == nodes0[j],
            forall|j: int| 0 <= j < n && (#[trigger] nodes0[j]).0 != NODE_INVALID ==> map.contains_key(nodes0[j].0),
            decide_state(nodes@, win@, *boundary_p0, *boundary_p1, removed@) == decide_upto(&s0, map, st0, id as nat),
        decreases len - id,
    {
        let node = nodes[id];
        if node.0 == NODE_INVALID {
            id = id + 1;
            continue;
        }
        let winner = solver.winner(node);
        let player = solver.player(node);
        if winner == player {
            id = id + 1;
            continue;
        }
        let ghost before = decide_state(nodes@, win@, *boundary_p0, *boundary_p1, removed@);
        removed.push(node);
        nodes.set(id, NodeId(NODE_INVALID));
        win.set(id, Some(winner));
        match player {
            Player::P0 => remove_item(boundary_p0, id),
            Player::P1 => remove_item(boundary_p1, id),
        }
        let ghost marked = decide_state(nodes@, win@, *boundary_p0, *boundary_p1, removed@);
        proof {
            assert(marked == mark_won(before, id, winner, player, node));
            assert(map.contains_key(node.0));
        }
        let preds = solver.predecessors(node);
        let mut j: usize = 0;
        while j < preds.len()
            invariant
                j <= preds@.len(),
                preds@ == s0.spec_predecessors(node),
                map.contains_key(node.0),
                nodes@.len() == n,
                win@.len() == n,
                *solver == s0,
                S::obeys_solver_spec(),
            S::obeys_solver_spec(),
                map == node_to_id@,
                nodes_known(&s0, map, n as nat),
                set_items(*boundary_p0).no_duplicates(),
                set_items(*boundary_p1).no_duplicates(),
                forall|k: int| 0 <= k < n && (#[trigger] nodes@[k]).0 != NODE_INVALID ==> nodes@[k] == nodes0[k],
                decide_state(nodes@, win@, *boundary_p0, *boundary_p1, removed@) == mark_preds(
                    marked,
                    map,
                    preds@.take(j as int),
                    winner,
                ),
            decreases preds@.len() - j,
        {
            let pred = preds[j];
            proof {
                assert(s0.spec_predecessors(node).contains(pred)) by {
                    assert(preds@[j as int] == pred);
                }
                assert(map.contains_key(pred.0));
            }
            let id_pred = match node_to_id.get(&pred.0) {
                Some(v) => *v,
                None => 0,
            };
            let ghost cur = decide_state(nodes@, win@, *boundary_p0, *boundary_p1, removed@);
            removed.push(pred);
            nodes.set(id_pred, NodeId(NODE_INVALID));
            win.set(id_pred, Some(winner));
            match winner {
                Player::P0 => remove_item(boundary_p0, id_pred),
                Player::P1 => remove_item(boundary_p1, id_pred),
            }
            proof {
                let t = preds@.take(j + 1);
                assert(t.drop_last() =~= preds@.take(j as int));
                assert(t.last() == pred);
                assert(decide_state(nodes@, win@, *boundary_p0, *boundary_p1, removed@) == mark_won(cur, id_pred, winner, winner, pred));
            }
            j = j + 1;
        }
        proof {
            assert(preds@.take(j as int) =~= preds@);
        }
        id = id + 1;
    }
    // The decided nodes leave the solver.
    let ghost fin = decide_state(nodes@, win@, *boundary_p0, *boundary_p1, removed@);
    let mut k: usize = 0;
    proof {
        assert(removed@.take(0).to_set() =~= Set::<NodeId>::empty());
        assert(s0.spec_nodes().difference(Set::<NodeId>::empty()) =~= s0.spec_nodes());
    }
    while k < removed.len()
        invariant
            k <= removed@.len(),
            S::obeys_solver_spec(),
            fin == decide_state(nodes@, win@, *boundary_p0, *boundary_p1, removed@),
            solver.spec_nodes() == s0.spec_nodes().difference(removed@.take(k as int).to_set()),
        decreases removed@.len() - k,
    {
        let x = removed[k];
        let ghost before = solver.spec_nodes();
        solver.remove_node(x);
        proof {
            assert(removed@.take(k + 1) =~= removed@.take(k as int).push(x));
            removed@.take(k as int).lemma_push_to_set_commute(x);
            assert(removed@.take(k + 1).to_set() =~= removed@.take(k as int).to_set().insert(x));
            assert(solver.spec_nodes() =~= s0.spec_nodes().difference(removed@.take(k + 1).to_set()));
        }
        k = k + 1;
    }
    proof {
        assert(removed@.take(k as int) =~= removed@);
    }
}

/// Where exploring stands: how many new positions it should reach, how many
/// it has reached, and the position whose moves it is following, if any.
pub struct ExpandState {
    pub goal: usize,
    pub explored: usize,
    pub curr: Option<usize>,
}

/// What the explorer learns from the game.
pub enum ExpandEvent {
    /// The player currently winning the initial position.
    Winner(Player),
    /// The position followed has no move left; `player` moves there.
    NoMove(Player),
    /// The move followed leads to position `to`, newly explored or not; the
    /// edge to it has been added.
    Moved { to: usize, new: bool },
}

/// What the explorer asks for next.
pub enum ExpandAction {
    /// The player currently winning the initial position.
    AskWinner,
    /// The next move of this position.
    NextMoveOf(usize),
    /// Exploring is over for this round.
    Done,
}

/// What follows the end of a walk: another walk while the goal is not met.
pub open spec fn after_walk(explored: usize, goal: usize) -> ExpandAction {
    if explored < goal {
        ExpandAction::AskWinner
    } else {
        ExpandAction::Done
    }
}

/// Starts a round of exploring that should reach `goal` new positions, and
/// gives the goal of the next round, twice as large.
pub fn start_expanding(goal: usize) -> (r: (ExpandState, usize, ExpandAction))
    requires
        goal <= usize::MAX / 2,
    ensures
        r.0 == (ExpandState { goal, explored: 0, curr: None }),
        r.1 == 2 * goal,
        r.2 == after_walk(0, goal),
{
    let act = if 0 < goal {
        ExpandAction::AskWinner
    } else {
        ExpandAction::Done
    };
    (ExpandState { goal, explored: 0, curr: None }, goal * 2, act)
}

/// One decision of exploring. Told who wins the initial position, it starts
/// a walk from the last position of the boundary of the losing player, or
/// stops if there is none. When the position followed has no move left, it
/// leaves the boundary of the player moving there and the walk ends. A move
/// to a new position is followed from there and counts as explored; a move
/// to a known position ends the walk. After a walk, exploring goes on while
/// fewer positions than the goal were explored.
pub fn expand_step(
    st: &mut ExpandState,
    ev: ExpandEvent,
    boundary_p0: &mut IndexSet<usize, FxBuildHasher>,
    boundary_p1: &mut IndexSet<usize, FxBuildHasher>,
) -> (act: ExpandAction)
    requires
        set_items(*old(boundary_p0)).no_duplicates(),
        set_items(*old(boundary_p1)).no_duplicates(),
        ev is Winner <==> old(st).curr is None,
        ev is Moved ==> old(st).explored < usize::MAX,
    ensures
        set_items(*final(boundary_p0)).no_duplicates(),
        set_items(*final(boundary_p1)).no_duplicates(),
        final(st).goal == old(st).goal,
        match ev {
            ExpandEvent::Winner(w) => {
                let b = if w == Player::P0 {
                    set_items(*old(boundary_p1))
                } else {
                    set_items(*old(boundary_p0))
                };
                &&& set_items(*final(boundary_p0)) == set_items(*old(boundary_p0))
                &&& set_items(*final(boundary_p1)) == set_items(*old(boundary_p1))
                &&& final(st).explored == old(st).explored
                &&& if b.len() == 0 {
                    final(st).curr is None && act is Done
                } else {
                    final(st).curr == Some(b.last()) && act == ExpandAction::NextMoveOf(b.last())
                }
            },
            ExpandEvent::NoMove(p) => {
                let c = old(st).curr->0;
                &&& set_items(*final(boundary_p0)) == if p == Player::P0 {
                    without(set_items(*old(boundary_p0)), c)
                } else {
                    set_items(*old(boundary_p0))
                }
                &&& set_items(*final(boundary_p1)) == if p == Player::P1 {
                    without(set_items(*old(boundary_p1)), c)
                } else {
                    set_items(*old(boundary_p1))
                }
                &&& final(st).explored == old(st).explored
                &&& final(st).curr is None
                &&& act == after_walk(old(st).explored, old(st).goal)
            },
            ExpandEvent::Moved { to, new } => {
                &&& set_items(*final(boundary_p0)) == set_items(*old(boundary_p0))
                &&& set_items(*final(boundary_p1)) == set_items(*old(boundary_p1))
                &&& if new {
                    &&& final(st).explored == old(st).explored + 1
                    &&& final(st).curr == Some(to)
                    &&& act == ExpandAction::NextMoveOf(to)
                } else {
                    &&& final(st).explored == old(st).explored
                    &&& final(st).curr is None
                    &&& act == after_walk(old(st).explored, old(st).goal)
                }
            },
        },
{
    match ev {
        ExpandEvent::Winner(w) => {
            let b = match w {
                Player::P0 => &*boundary_p1,
                Player::P1 => &*boundary_p0,
            };
            let len = set_len(b);
            if len == 0 {
                ExpandAction::Done
            } else {
                let start = set_index(b, len - 1);
                st.curr = Some(start);
                ExpandAction::NextMoveOf(start)
            }
        },
        ExpandEvent::NoMove(p) => {
            let c = match st.curr {
                Some(c) => c,
                None => 0,
            };
            match p {
                Player::P0 => remove_item(boundary_p0, c),
                Player::P1 => remove_item(boundary_p1, c),
            }
            st.curr = None;
            if st.explored < st.goal {
                ExpandAction::AskWinner
            } else {
                ExpandAction::Done
            }
        },
        ExpandEvent::Moved { to, new } => {
            if new {
                st.curr = Some(to);
                st.explored = st.explored + 1;
                ExpandAction::NextMoveOf(to)
            } else {
                st.curr = None;
                if st.explored < st.goal {
                    ExpandAction::AskWinner
                } else {
                    ExpandAction::Done
                }
            }
        },
    }
}

} // verus!
