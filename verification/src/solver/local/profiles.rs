//! Play profiles of the nodes reached by an expansion of the game.
use indexmap::IndexSet;
use rustc_hash::FxBuildHasher;
use vstd::prelude::*;

use crate::index_set::{set_items, set_to_vec};
use crate::solver::index::NodeId;
use crate::solver::strategy::{relevance_lt, GetRelevance, PlayProfile, Relevance};

use super::game::{set_below, Game};

verus! {

/// A play profile as a mathematical value.
pub struct ProfileV {
    pub most_relevant: NodeId,
    pub before: Seq<NodeId>,
    pub count: int,
}

/// The view of a play profile.
pub open spec fn pview(p: PlayProfile) -> ProfileV {
    ProfileV { most_relevant: p.most_relevant, before: p.relevant_before@, count: p.count_before as int }
}

/// The relevance of a node of the game.
pub open spec fn rel(g: Game, n: NodeId) -> Relevance {
    g.spec_relevance_of(n)
}

/// The first position from `i` on of a node of `s` that is not more relevant
/// than `n`, or the length of `s`.
pub open spec fn first_not_more(s: Seq<NodeId>, g: Game, n: NodeId, i: int) -> int
    decreases s.len() - i,
{
    if i >= s.len() {
        s.len() as int
    } else if relevance_lt(rel(g, n), rel(g, s[i])) {
        first_not_more(s, g, n, i + 1)
    } else {
        i
    }
}

/// The profile of `n` when it moves to a node of profile `p`: one more node
/// before the cycle, and `n` among the relevant nodes before it, by decreasing
/// relevance, if it is more relevant than the cycle's most relevant node.
pub open spec fn step(g: Game, n: NodeId, p: ProfileV) -> ProfileV {
    ProfileV {
        most_relevant: p.most_relevant,
        before: if relevance_lt(rel(g, p.most_relevant), rel(g, n)) {
            p.before.insert(first_not_more(p.before, g, n, 0), n)
        } else {
            p.before
        },
        count: p.count + 1,
    }
}

/// The profile of `e[lo]` on the path `e[lo], .., e[hi - 1]` followed by a
/// node of profile `last`.
pub open spec fn chain(g: Game, e: Seq<usize>, lo: int, hi: int, last: ProfileV) -> ProfileV
    decreases hi - lo,
{
    if lo >= hi {
        last
    } else {
        step(g, NodeId(e[lo]), chain(g, e, lo + 1, hi, last))
    }
}

/// The profile of the node `x` once the profiles cover every node: nodes
/// without a profile get the empty one.
pub open spec fn resized(old: Seq<PlayProfile>, x: int) -> ProfileV {
    if x < old.len() {
        pview(old[x])
    } else {
        ProfileV { most_relevant: NodeId(0), before: Seq::empty(), count: 0 }
    }
}

/// `e[m]` is the most relevant node of `e` from `c` on.
pub open spec fn is_most_relevant(g: Game, e: Seq<usize>, c: int, m: int) -> bool {
    &&& c <= m < e.len()
    &&& forall|i: int| c <= i < e.len() && i != m ==> relevance_lt(rel(g, NodeId(#[trigger] e[i])), rel(g, NodeId(e[m])))
}

/// The nodes of `s` come by strictly decreasing relevance.
pub open spec fn by_decreasing_relevance(g: Game, s: Seq<NodeId>) -> bool {
    forall|i: int, j: int| 0 <= i < j < s.len() ==> relevance_lt(#[trigger] rel(g, s[j]), #[trigger] rel(g, s[i]))
}

/// The first position of a node of `s` from `i` on that is not more relevant
/// than `n` splits `s`: the nodes before it are more relevant than `n`, and,
/// in a sequence by decreasing relevance, none from it on is.
proof fn lemma_first_not_more(s: Seq<NodeId>, g: Game, n: NodeId, i: int)
    requires
        0 <= i <= s.len(),
    ensures
        i <= first_not_more(s, g, n, i) <= s.len(),
        forall|j: int| i <= j < first_not_more(s, g, n, i) ==> relevance_lt(rel(g, n), rel(g, #[trigger] s[j])),
        first_not_more(s, g, n, i) < s.len() ==> !relevance_lt(rel(g, n), rel(g, s[first_not_more(s, g, n, i)])),
    decreases s.len() - i,
{
    if i < s.len() && relevance_lt(rel(g, n), rel(g, s[i])) {
        lemma_first_not_more(s, g, n, i + 1);
    }
}

/// A profile update keeps the nodes before the cycle by strictly decreasing
/// relevance: a node more relevant than the cycle's most relevant node is put
/// after exactly the nodes more relevant than it, and every update counts one
/// more node before the cycle.
pub proof fn step_keeps_relevance_order(g: Game, n: NodeId, p: ProfileV)
    requires
        by_decreasing_relevance(g, p.before),
        !p.before.contains(n),
    ensures
        by_decreasing_relevance(g, step(g, n, p).before),
        step(g, n, p).most_relevant == p.most_relevant,
        step(g, n, p).count == p.count + 1,
        relevance_lt(rel(g, p.most_relevant), rel(g, n)) ==> {
            let r = step(g, n, p).before;
            &&& r.len() == p.before.len() + 1
            &&& exists|k: int|
                0 <= k <= p.before.len() && r == p.before.insert(k, n) && (forall|j: int|
                    0 <= j < k ==> relevance_lt(rel(g, n), rel(g, #[trigger] p.before[j]))) && (forall|j: int|
                    k <= j < p.before.len() ==> relevance_lt(rel(g, #[trigger] p.before[j]), rel(g, n)))
        },
        !relevance_lt(rel(g, p.most_relevant), rel(g, n)) ==> step(g, n, p).before == p.before,
{
    if relevance_lt(rel(g, p.most_relevant), rel(g, n)) {
        let s = p.before;
        let k = first_not_more(s, g, n, 0);
        lemma_first_not_more(s, g, n, 0);
        let r = s.insert(k, n);
        assert forall|j: int| k <= j < s.len() implies relevance_lt(rel(g, #[trigger] s[j]), rel(g, n)) by {
            assert(s[k] != n) by {
                assert(s.contains(s[k]));
            }
            assert(rel(g, s[k]).node == s[k]);
            assert(rel(g, n).node == n);
            if j > k {
                assert(relevance_lt(rel(g, s[j]), rel(g, s[k])));
            }
        }
        assert forall|i: int, j: int| 0 <= i < j < r.len() implies relevance_lt(
            #[trigger] rel(g, r[j]),
            #[trigger] rel(g, r[i]),
        ) by {
            if j < k {
                assert(r[i] == s[i] && r[j] == s[j]);
            } else if j == k {
                assert(r[j] == n && r[i] == s[i]);
            } else if i < k {
                assert(r[i] == s[i] && r[j] == s[j - 1]);
                assert(relevance_lt(rel(g, s[j - 1]), rel(g, n)));
            } else if i == k {
                assert(r[i] == n && r[j] == s[j - 1]);
            } else {
                assert(r[i] == s[i - 1] && r[j] == s[j - 1]);
            }
        }
        assert(step(g, n, p).before == r);
    }
}

/// Along a path of distinct new nodes to a node whose profile keeps its
/// relevant nodes by decreasing relevance, every profile does too, holds only
/// nodes of that profile and of the path, and counts the nodes of the path.
pub proof fn chain_keeps_relevance_order(g: Game, e: Seq<usize>, lo: int, hi: int, last: ProfileV)
    requires
        0 <= lo <= hi <= e.len(),
        by_decreasing_relevance(g, last.before),
        forall|i: int, j: int| lo <= i < j < hi ==> e[i] != e[j],
        forall|i: int| lo <= i < hi ==> !last.before.contains(NodeId(#[trigger] e[i])),
    ensures
        by_decreasing_relevance(g, chain(g, e, lo, hi, last).before),
        forall|x: NodeId|
            #[trigger] chain(g, e, lo, hi, last).before.contains(x) ==> last.before.contains(x) || exists|j: int|
                lo <= j < hi && NodeId(e[j]) == x,
        chain(g, e, lo, hi, last).count == last.count + (hi - lo),
        chain(g, e, lo, hi, last).most_relevant == last.most_relevant,
    decreases hi - lo,
{
    if lo < hi {
        chain_keeps_relevance_order(g, e, lo + 1, hi, last);
        let prev = chain(g, e, lo + 1, hi, last);
        let n = NodeId(e[lo]);
        assert(!prev.before.contains(n)) by {
            if prev.before.contains(n) {
                if !last.before.contains(n) {
                    let j = choose|j: int| lo + 1 <= j < hi && NodeId(e[j]) == n;
                    assert(e[j] == e[lo]);
                }
            }
        }
        step_keeps_relevance_order(g, n, prev);
        assert forall|x: NodeId| #[trigger] chain(g, e, lo, hi, last).before.contains(x) implies last.before.contains(x)
            || exists|j: int| lo <= j < hi && NodeId(e[j]) == x by {
            let r = chain(g, e, lo, hi, last).before;
            if x != n && relevance_lt(rel(g, prev.most_relevant), rel(g, n)) {
                let k = choose|k: int|
                    0 <= k <= prev.before.len() && r == prev.before.insert(k, n) && (forall|j: int|
                        0 <= j < k ==> relevance_lt(rel(g, n), rel(g, #[trigger] prev.before[j]))) && (forall|j: int|
                        k <= j < prev.before.len() ==> relevance_lt(rel(g, #[trigger] prev.before[j]), rel(g, n)));
                let t = choose|t: int| 0 <= t < r.len() && r[t] == x;
                if t < k {
                    assert(prev.before[t] == x);
                } else {
                    assert(t > k);
                    assert(prev.before[t - 1] == x);
                }
                assert(prev.before.contains(x));
            }
            if prev.before.contains(x) && !last.before.contains(x) {
                let j = choose|j: int| lo + 1 <= j < hi && NodeId(e[j]) == x;
            }
        }
    }
}

/// The number of nodes of the path from `e[lo]` before the node of profile `last`.
proof fn lemma_chain_count(g: Game, e: Seq<usize>, lo: int, hi: int, last: ProfileV)
    ensures
        chain(g, e, lo, hi, last).count == last.count + if lo < hi { hi - lo } else { 0 },
        chain(g, e, lo, hi, last).most_relevant == last.most_relevant,
    decreases hi - lo,
{
    if lo < hi {
        lemma_chain_count(g, e, lo + 1, hi, last);
    }
}

/// Whether `a` is more relevant than `b`.
fn more_relevant(game: &Game, a: NodeId, b: NodeId) -> (r: bool)
    requires
        game.well_formed(),
        a.0 < game.nodes@.len(),
        b.0 < game.nodes@.len(),
    ensures
        r == relevance_lt(rel(*game, b), rel(*game, a)),
{
    let ra = game.relevance_of(a);
    let rb = game.relevance_of(b);
    rb.priority < ra.priority || (rb.priority == ra.priority && rb.node.0 < ra.node.0)
}

/// The profile of `n` when it moves to a node of profile `prev`.
fn updated_profile(game: &Game, n: NodeId, prev: &PlayProfile) -> (r: PlayProfile)
    requires
        game.well_formed(),
        n.0 < game.nodes@.len(),
        prev.most_relevant.0 < game.nodes@.len(),
        forall|j: int| 0 <= j < prev.relevant_before@.len() ==> (#[trigger] prev.relevant_before@[j]).0 < game.nodes@.len(),
        prev.count_before < usize::MAX,
    ensures
        pview(r) == step(*game, n, pview(*prev)),
        forall|j: int| 0 <= j < r.relevant_before@.len() ==> (#[trigger] r.relevant_before@[j]).0 < game.nodes@.len(),
{
    let mut before: Vec<NodeId> = Vec::new();
    let mut k: usize = 0;
    while k < prev.relevant_before.len()
        invariant
            k <= prev.relevant_before@.len(),
            before@ == prev.relevant_before@.take(k as int),
        decreases prev.relevant_before@.len() - k,
    {
        before.push(prev.relevant_before[k]);
        k = k + 1;
        proof {
            assert(before@ =~= prev.relevant_before@.take(k as int));
        }
    }
    proof {
        assert(before@ =~= prev.relevant_before@);
    }
    if more_relevant(game, n, prev.most_relevant) {
        let ghost s = before@;
        let mut pos: usize = 0;
        while pos < before.len() && more_relevant(game, before[pos], n)
            invariant
                pos <= s.len(),
                before@ == s,
                s == prev.relevant_before@,
                game.well_formed(),
                n.0 < game.nodes@.len(),
                forall|j: int| 0 <= j < s.len() ==> (#[trigger] s[j]).0 < game.nodes@.len(),
                first_not_more(s, *game, n, 0) == first_not_more(s, *game, n, pos as int),
            decreases s.len() - pos,
        {
            pos = pos + 1;
        }
        before.insert(pos, n);
        proof {
            assert(first_not_more(s, *game, n, pos as int) == pos);
            assert forall|j: int| 0 <= j < before@.len() implies (#[trigger] before@[j]).0 < game.nodes@.len() by {
                if j < pos {
                    assert(before@[j] == s[j]);
                } else if j > pos {
                    assert(before@[j] == s[j - 1]);
                }
            }
        }
    }
    PlayProfile { most_relevant: prev.most_relevant, relevant_before: before, count_before: prev.count_before + 1 }
}


/// `x` is one of `es[a]`, .., `es[b - 1]`.
pub open spec fn within(es: Seq<usize>, a: int, b: int, x: usize) -> bool {
    exists|j: int| a <= j < b && #[trigger] es[j] == x
}

/// The nodes that the profile names are nodes of the game.
pub open spec fn profile_in(p: PlayProfile, n: nat) -> bool {
    &&& p.most_relevant.0 < n
    &&& forall|j: int| 0 <= j < p.relevant_before@.len() ==> (#[trigger] p.relevant_before@[j]).0 < n
}

/// Sets the profiles of the nodes `expanded`, a path of new nodes in the
/// order they were reached, that stops at `stop`. If `stop` had no profile
/// the path closes a cycle at `stop`: the most relevant node of the cycle
/// heads it, the nodes of the path before it lead to it, and the nodes after
/// it go round the cycle. Otherwise every node of the path leads to `stop`.
/// Profiles are first given to every node of the game.
pub fn update_profiles(
    stop: NodeId,
    expanded: &IndexSet<usize, FxBuildHasher>,
    game: &Game,
    profiles: &mut Vec<PlayProfile>,
)
    requires
        game.well_formed(),
        stop.0 < game.nodes@.len(),
        set_below(*expanded, game.nodes@.len()),
        old(profiles)@.len() <= game.nodes@.len(),
        forall|x: int| 0 <= x < old(profiles)@.len() ==> profile_in(#[trigger] old(profiles)@[x], game.nodes@.len()),
        forall|x: int|
            0 <= x < old(profiles)@.len() ==> (#[trigger] old(profiles)@[x]).count_before + set_items(*expanded).len()
                < usize::MAX,
        stop.0 >= old(profiles)@.len() ==> set_items(*expanded).contains(stop.0),
        set_items(*expanded).len() < usize::MAX,
    ensures
        final(profiles)@.len() == game.nodes@.len(),
        forall|x: int| 0 <= x < final(profiles)@.len() ==> profile_in(#[trigger] final(profiles)@[x], game.nodes@.len()),
        forall|x: int|
            0 <= x < final(profiles)@.len() && !set_items(*expanded).contains(x as usize) ==> pview(
                #[trigger] final(profiles)@[x],
            ) == resized(old(profiles)@, x),
        ({
            let e = set_items(*expanded);
            let l = e.len() as int;
            stop.0 < old(profiles)@.len() ==> forall|i: int|
                0 <= i < l ==> pview(#[trigger] final(profiles)@[e[i] as int]) == chain(
                    *game,
                    e,
                    i,
                    l,
                    resized(old(profiles)@, stop.0 as int),
                )
        }),
        ({
            let e = set_items(*expanded);
            let l = e.len() as int;
            stop.0 >= old(profiles)@.len() ==> exists|c: int, m: int|
                0 <= c < l && e[c] == stop.0 && #[trigger] is_most_relevant(*game, e, c, m) && {
                    let mr = NodeId(e[m]);
                    let base = ProfileV { most_relevant: mr, ..resized(old(profiles)@, e[m] as int) };
                    &&& pview(final(profiles)@[e[m] as int]) == base
                    &&& forall|i: int|
                        0 <= i < m ==> pview(#[trigger] final(profiles)@[e[i] as int]) == chain(
                            *game,
                            e,
                            i,
                            m,
                            base,
                        )
                    &&& forall|i: int|
                        m < i < l ==> {
                            let p = #[trigger] final(profiles)@[e[i] as int];
                            &&& p.most_relevant == mr
                            &&& p.relevant_before@ == resized(old(profiles)@, e[i] as int).before
                            &&& p.count_before == final(profiles)@[stop.0 as int].count_before + (l - i)
                        }
                }
        }),
{
    let ghost old_p = profiles@;
    let stop_is_expanded = stop.0 >= profiles.len();
    let nn = game.nodes.len();
    while profiles.len() < nn
        invariant
            old_p.len() <= profiles@.len() <= nn,
            nn == game.nodes@.len(),
            forall|x: int| 0 <= x < profiles@.len() ==> pview(#[trigger] profiles@[x]) == resized(old_p, x),
            forall|x: int| 0 <= x < profiles@.len() ==> profile_in(#[trigger] profiles@[x], nn as nat),
        decreases nn - profiles@.len(),
    {
        profiles.push(PlayProfile { most_relevant: NodeId(0), relevant_before: Vec::new(), count_before: 0 });
        proof {
            let x = profiles@.len() - 1;
            assert(pview(profiles@[x]) =~= resized(old_p, x));
        }
    }
    let e = set_to_vec(expanded);
    let ghost es = e@;
    let l = e.len();
    proof {
        assert forall|i: int| 0 <= i < l implies (#[trigger] es[i]) < nn by {
            assert(set_items(*expanded).contains(es[i]));
        }
    }
    if stop_is_expanded {
        let mut c: usize = 0;
        while e[c] != stop.0
            invariant
                c < l,
                es == e@,
                l == es.len(),
                es.contains(stop.0),
                forall|j: int| 0 <= j < c ==> es[j] != stop.0,
            decreases l - c,
        {
            c = c + 1;
            proof {
                if c == l {
                    let j = choose|j: int| 0 <= j < l && es[j] == stop.0;
                    assert(false);
                }
            }
        }
        let mut m: usize = c;
        let mut i: usize = c + 1;
        while i < l
            invariant
                c <= m < i <= l,
                es == e@,
                l == es.len(),
                game.well_formed(),
                forall|j: int| 0 <= j < l ==> (#[trigger] es[j]) < game.nodes@.len(),
                es == set_items(*expanded),
                set_items(*expanded).no_duplicates(),
                forall|j: int| c <= j < i && j != m ==> relevance_lt(rel(*game, NodeId(#[trigger] es[j])), rel(*game, NodeId(es[m as int]))),
            decreases l - i,
        {
            proof {
                assert(es[i as int] < game.nodes@.len());
            }
            if more_relevant(game, NodeId(e[i]), NodeId(e[m])) {
                m = i;
            } else {
                proof {
                    assert(es[i as int] != es[m as int]);
                }
            }
            i = i + 1;
        }
        let ghost base = ProfileV { most_relevant: NodeId(es[m as int]), ..resized(old_p, es[m as int] as int) };
        let mr = NodeId(e[m]);
        let ghost p0 = profiles@;
        proof {
            assert(forall|x: int| 0 <= x < p0.len() ==> pview(#[trigger] p0[x]) == resized(old_p, x));
        }
        let mut pm = PlayProfile { most_relevant: NodeId(0), relevant_before: Vec::new(), count_before: 0 };
        profiles.set_and_swap(mr.0, &mut pm);
        pm.most_relevant = mr;
        profiles.set_and_swap(mr.0, &mut pm);
        let ghost p1 = profiles@;
        proof {
            assert(pview(p1[mr.0 as int]) == base);
            assert forall|x: int| 0 <= x < p1.len() && x != mr.0 implies p1[x] == p0[x] by {}
            lemma_chain_count(*game, es, m as int, m as int, base);
            if (es[m as int] as int) < old_p.len() {
                assert(old_p[es[m as int] as int].count_before + set_items(*expanded).len() < usize::MAX);
            }
        }
        // The nodes of the path before the most relevant node lead to it.
        let mut next = mr;
        let mut i: usize = m;
        while i > 0
            invariant
                i <= m < l,
                es == e@,
                l == es.len(),
                game.well_formed(),
                profiles@.len() == nn,
                nn == game.nodes@.len(),
                set_items(*expanded).no_duplicates(),
                es == set_items(*expanded),
                forall|j: int| 0 <= j < l ==> (#[trigger] es[j]) < nn,
                forall|x: int| 0 <= x < profiles@.len() ==> profile_in(#[trigger] profiles@[x], nn as nat),
                next.0 == es[i as int],
                pview(profiles@[next.0 as int]) == chain(*game, es, i as int, m as int, base),
                forall|j: int| i <= j < m ==> pview(#[trigger] profiles@[es[j] as int]) == chain(*game, es, j, m as int, base),
                forall|x: int| 0 <= x < nn && !within(es, i as int, m as int, x as usize) ==> #[trigger] profiles@[x] == p1[x],
                base.count + l < usize::MAX,
            decreases i,
        {
            i = i - 1;
            let n = NodeId(e[i]);
            proof {
                lemma_chain_count(*game, es, i + 1, m as int, base);
            }
            let p = updated_profile(game, n, &profiles[next.0]);
            let ghost pb = profiles@;
            profiles.set(n.0, p);
            next = n;
            proof {
                assert forall|j: int| i <= j < m implies pview(#[trigger] profiles@[es[j] as int]) == chain(*game, es, j, m as int, base) by {
                    if j > i {
                        assert(es[j] != es[i as int]);
                        assert(profiles@[es[j] as int] == pb[es[j] as int]);
                    }
                }
                assert forall|x: int| 0 <= x < nn && !within(es, i as int, m as int, x as usize) implies #[trigger] profiles@[x] == p1[x] by {
                    if x == es[i as int] {
                        assert(within(es, i as int, m as int, x as usize));
                    }
                    if within(es, i + 1, m as int, x as usize) {
                        let k = choose|k: int| i + 1 <= k < m && #[trigger] es[k] == x as usize;
                        assert(within(es, i as int, m as int, x as usize));
                    }
                }
            }
        }
        // The nodes of the path after the most relevant node go round the cycle.
        let ghost p2 = profiles@;
        let ghost stop_count = profiles@[stop.0 as int].count_before;
        proof {
            assert(stop.0 == es[c as int]);
            if c < m {
                assert(pview(p2[es[c as int] as int]) == chain(*game, es, c as int, m as int, base));
            } else {
                assert(!within(es, 0, m as int, stop.0)) by {
                    if within(es, 0, m as int, stop.0) {
                        let k = choose|k: int| 0 <= k < m && #[trigger] es[k] == stop.0;
                        assert(es[k] == es[c as int]);
                    }
                }
                assert(p2[stop.0 as int] == p1[stop.0 as int]);
            }
            lemma_chain_count(*game, es, c as int, m as int, base);
            assert(stop_count <= base.count + m);
            assert forall|j: int| m < j < l implies pview(#[trigger] p2[es[j] as int]) == resized(old_p, es[j] as int) by {
                assert(!within(es, 0, m as int, es[j])) by {
                    if within(es, 0, m as int, es[j]) {
                        let k = choose|k: int| 0 <= k < m && #[trigger] es[k] == es[j];
                        assert(es[k] == es[j]);
                    }
                }
                assert(es[j] != mr.0);
                assert(p1[es[j] as int] == p0[es[j] as int]);
            }
        }
        let mut next = stop;
        let mut i: usize = l;
        while i > m + 1
            invariant
                m < i <= l,
                es == e@,
                l == es.len(),
                profiles@.len() == nn,
                nn == game.nodes@.len(),
                es == set_items(*expanded),
                set_items(*expanded).no_duplicates(),
                forall|j: int| 0 <= j < l ==> (#[trigger] es[j]) < nn,
                forall|x: int| 0 <= x < profiles@.len() ==> profile_in(#[trigger] profiles@[x], nn as nat),
                mr.0 == es[m as int],
                mr.0 < nn,
                i == l ==> next == stop,
                i < l ==> next.0 == es[i as int],
                next.0 < nn,
                profiles@[next.0 as int].count_before == stop_count + (l - i),
                profiles@[stop.0 as int].count_before == stop_count,
                stop.0 == es[c as int],
                c <= m,
                stop_count + (l - m) < usize::MAX,
                forall|j: int| i <= j < l ==> {
                    let p = #[trigger] profiles@[es[j] as int];
                    &&& p.most_relevant == mr
                    &&& p.relevant_before@ == resized(old_p, es[j] as int).before
                    &&& p.count_before == stop_count + (l - j)
                },
                forall|x: int| 0 <= x < nn && !within(es, i as int, l as int, x as usize) ==> #[trigger] profiles@[x] == p2[x],
                forall|j: int| m < j < l ==> pview(#[trigger] p2[es[j] as int]) == resized(old_p, es[j] as int),
            decreases i,
        {
            i = i - 1;
            let n = NodeId(e[i]);
            let cnt = profiles[next.0].count_before + 1;
            let ghost pb = profiles@;
            let mut pn = PlayProfile { most_relevant: NodeId(0), relevant_before: Vec::new(), count_before: 0 };
            profiles.set_and_swap(n.0, &mut pn);
            proof {
                assert(!within(es, i + 1, l as int, n.0)) by {
                    if within(es, i + 1, l as int, n.0) {
                        let k = choose|k: int| i + 1 <= k < l && #[trigger] es[k] == n.0;
                        assert(es[k] == es[i as int]);
                    }
                }
                assert(pn == p2[n.0 as int]);
            }
            pn.most_relevant = mr;
            pn.count_before = cnt;
            profiles.set_and_swap(n.0, &mut pn);
            next = n;
            proof {
                assert(es[i as int] != stop.0);
                assert forall|j: int| i <= j < l implies {
                    let p = #[trigger] profiles@[es[j] as int];
                    &&& p.most_relevant == mr
                    &&& p.relevant_before@ == resized(old_p, es[j] as int).before
                    &&& p.count_before == stop_count + (l - j)
                } by {
                    if j > i {
                        assert(es[j] != es[i as int]);
                    }
                }
                assert forall|x: int| 0 <= x < nn && !within(es, i as int, l as int, x as usize) implies #[trigger] profiles@[x] == p2[x] by {
                    if x == es[i as int] {
                        assert(within(es, i as int, l as int, x as usize));
                    }
                    if within(es, i + 1, l as int, x as usize) {
                        let k = choose|k: int| i + 1 <= k < l && #[trigger] es[k] == x as usize;
                        assert(within(es, i as int, l as int, x as usize));
                    }
                }
                assert forall|x: int| 0 <= x < profiles@.len() implies profile_in(#[trigger] profiles@[x], nn as nat) by {
                    if x == n.0 {
                        assert(profile_in(pb[x], nn as nat));
                    }
                }
            }
        }
        proof {
            assert forall|x: int| 0 <= x < nn && !set_items(*expanded).contains(x as usize) implies pview(
                #[trigger] profiles@[x],
            ) == resized(old_p, x) by {
                if within(es, m + 1, l as int, x as usize) {
                    let k = choose|k: int| m + 1 <= k < l && #[trigger] es[k] == x as usize;
                    assert(set_items(*expanded).contains(es[k]));
                }
                if within(es, 0, m as int, x as usize) {
                    let k = choose|k: int| 0 <= k < m && #[trigger] es[k] == x as usize;
                    assert(set_items(*expanded).contains(es[k]));
                }
                assert(x != mr.0) by {
                    assert(set_items(*expanded).contains(es[m as int]));
                }
                assert(profiles@[x] == p2[x]);
                assert(p2[x] == p1[x]);
            }
            assert(!within(es, m + 1, l as int, mr.0)) by {
                if within(es, m + 1, l as int, mr.0) {
                    let k = choose|k: int| m + 1 <= k < l && #[trigger] es[k] == mr.0;
                    assert(es[k] == es[m as int]);
                }
            }
            assert(!within(es, 0, m as int, mr.0)) by {
                if within(es, 0, m as int, mr.0) {
                    let k = choose|k: int| 0 <= k < m && #[trigger] es[k] == mr.0;
                    assert(es[k] == es[m as int]);
                }
            }
            assert(pview(profiles@[es[m as int] as int]) == base);
            assert forall|j: int| 0 <= j < m implies pview(#[trigger] profiles@[es[j] as int]) == chain(*game, es, j, m as int, base) by {
                assert(!within(es, m + 1, l as int, es[j])) by {
                    if within(es, m + 1, l as int, es[j]) {
                        let k = choose|k: int| m + 1 <= k < l && #[trigger] es[k] == es[j];
                        assert(es[k] == es[j]);
                    }
                }
                assert(profiles@[es[j] as int] == p2[es[j] as int]);
            }
            assert(is_most_relevant(*game, es, c as int, m as int));
        }
    } else {
        let ghost last = resized(old_p, stop.0 as int);
        proof {
            lemma_chain_count(*game, es, l as int, l as int, last);
            assert(last.count + l < usize::MAX) by {
                assert(old_p[stop.0 as int].count_before + set_items(*expanded).len() < usize::MAX);
            }
        }
        let ghost p3 = profiles@;
        let mut next = stop;
        let mut i: usize = l;
        while i > 0
            invariant
                i <= l,
                es == e@,
                l == es.len(),
                game.well_formed(),
                profiles@.len() == nn,
                nn == game.nodes@.len(),
                set_items(*expanded).no_duplicates(),
                es == set_items(*expanded),
                stop.0 < nn,
                forall|j: int| 0 <= j < l ==> (#[trigger] es[j]) < nn,
                forall|x: int| 0 <= x < profiles@.len() ==> profile_in(#[trigger] profiles@[x], nn as nat),
                i == l ==> next == stop,
                i < l ==> next.0 == es[i as int],
                pview(profiles@[next.0 as int]) == chain(*game, es, i as int, l as int, last),
                forall|j: int| i <= j < l ==> pview(#[trigger] profiles@[es[j] as int]) == chain(*game, es, j, l as int, last),
                forall|x: int| 0 <= x < nn && !within(es, i as int, l as int, x as usize) ==> #[trigger] profiles@[x] == p3[x],
                last.count + l < usize::MAX,
            decreases i,
        {
            i = i - 1;
            let n = NodeId(e[i]);
            proof {
                lemma_chain_count(*game, es, i + 1, l as int, last);
            }
            let p = updated_profile(game, n, &profiles[next.0]);
            let ghost pb = profiles@;
            profiles.set(n.0, p);
            next = n;
            proof {
                assert forall|j: int| i <= j < l implies pview(#[trigger] profiles@[es[j] as int]) == chain(*game, es, j, l as int, last) by {
                    if j > i {
                        assert(es[j] != es[i as int]);
                        assert(profiles@[es[j] as int] == pb[es[j] as int]);
                    }
                }
                assert forall|x: int| 0 <= x < nn && !within(es, i as int, l as int, x as usize) implies #[trigger] profiles@[x] == p3[x] by {
                    if x == es[i as int] {
                        assert(within(es, i as int, l as int, x as usize));
                    }
                    if within(es, i + 1, l as int, x as usize) {
                        let k = choose|k: int| i + 1 <= k < l && #[trigger] es[k] == x as usize;
                        assert(within(es, i as int, l as int, x as usize));
                    }
                }
            }
        }
        proof {
            assert forall|x: int| 0 <= x < nn && !set_items(*expanded).contains(x as usize) implies pview(
                #[trigger] profiles@[x],
            ) == resized(old_p, x) by {
                if within(es, 0, l as int, x as usize) {
                    let k = choose|k: int| 0 <= k < l && #[trigger] es[k] == x as usize;
                    assert(set_items(*expanded).contains(es[k]));
                }
                assert(profiles@[x] == p3[x]);
            }
        }
    }
}

} // verus!
