//! Strong bisimilarity of two transition systems as a greatest fixpoint over
//! pairs of states.
use vstd::prelude::*;

use crate::aut::{edges_view, lts_well_formed, Lts, StateId};
use crate::solver::symbolic::compose::{composable, expr_below, view_below, FunsFormulas};
use crate::solver::symbolic::eq::{eqs_view, expr_view, expr_views, Expr, ExprV, FixEq, FixType, FunId, VarId};
use crate::solver::symbolic::formula::{
    formula_table_view, formula_view, formula_views, holds_v, lemma_formula_views_push, lemma_holds_all_any,
    BasisElemId, Formula, FormulaV,
};

verus! {

/// The position of the pair of states `(s1, s2)` among all pairs, when the
/// second system has `n2` states.
pub open spec fn pair_index(s1: int, s2: int, n2: int) -> int {
    s1 * n2 + s2
}

/// The basis element that stands for the pair of states `(s1, s2)`.
pub fn make_basis_elem(s1: StateId, s2: StateId, lts1: &Lts, lts2: &Lts) -> (r: BasisElemId)
    requires
        pair_index(s1.0 as int, s2.0 as int, lts2.transitions@.len() as int) <= usize::MAX,
    ensures
        r.0 == pair_index(s1.0 as int, s2.0 as int, lts2.transitions@.len() as int),
{
    let (s1, s2) = (s1.to_usize(), s2.to_usize());
    BasisElemId(s1 * lts2.transitions.len() + s2)
}

/// The atoms of the pairs `(n1, t)` for the transitions `(l, t)` of `e2`
/// with label `l1`.
pub open spec fn answers_right(l1: Seq<char>, n1: usize, e2: Seq<(Seq<char>, usize)>, n2: int) -> Seq<FormulaV>
    decreases e2.len(),
{
    if e2.len() == 0 {
        Seq::empty()
    } else {
        let init = answers_right(l1, n1, e2.drop_last(), n2);
        if e2.last().0 == l1 {
            init.push(FormulaV::Atom(pair_index(n1 as int, e2.last().1 as int, n2) as usize, 0))
        } else {
            init
        }
    }
}

/// The atoms of the pairs `(t, n2)` for the transitions `(l, t)` of `e1`
/// with label `l2`.
pub open spec fn answers_left(l2: Seq<char>, n2: usize, e1: Seq<(Seq<char>, usize)>, m2: int) -> Seq<FormulaV>
    decreases e1.len(),
{
    if e1.len() == 0 {
        Seq::empty()
    } else {
        let init = answers_left(l2, n2, e1.drop_last(), m2);
        if e1.last().0 == l2 {
            init.push(FormulaV::Atom(pair_index(e1.last().1 as int, n2 as int, m2) as usize, 0))
        } else {
            init
        }
    }
}

/// The number of transitions of `e` labelled `l`.
pub open spec fn label_count(l: Seq<char>, e: Seq<(Seq<char>, usize)>) -> nat
    decreases e.len(),
{
    if e.len() == 0 {
        0
    } else {
        label_count(l, e.drop_last()) + if e.last().0 == l {
            1nat
        } else {
            0nat
        }
    }
}

/// Membership in a sequence with one more item.
proof fn lemma_push_contains(q: Seq<FormulaV>, v: FormulaV, w: FormulaV)
    ensures
        q.push(v).contains(w) <==> (q.contains(w) || v == w),
{
    if q.push(v).contains(w) {
        let k = choose|k: int| 0 <= k < q.push(v).len() && q.push(v)[k] == w;
        if k < q.len() {
            assert(q[k] == w);
        }
    }
    if q.contains(w) {
        let k = choose|k: int| 0 <= k < q.len() && q[k] == w;
        assert(q.push(v)[k] == w);
    }
    if v == w {
        assert(q.push(v)[q.len() as int] == w);
    }
}

/// The disjunction answering a transition `(l1, n1)` of the first system
/// holds the atom of the pair `(n1, t)` for every transition `(l1, t)` of the
/// second, and nothing else: one atom per transition with that label.
pub proof fn answers_right_are_all_matches(l1: Seq<char>, n1: usize, e2: Seq<(Seq<char>, usize)>, n2: int, t: usize)
    ensures
        answers_right(l1, n1, e2, n2).contains(FormulaV::Atom(pair_index(n1 as int, t as int, n2) as usize, 0))
            <== exists|j: int| 0 <= j < e2.len() && #[trigger] e2[j] == (l1, t),
        forall|k: int|
            0 <= k < answers_right(l1, n1, e2, n2).len() ==> exists|j: int|
                0 <= j < e2.len() && e2[j].0 == l1 && #[trigger] answers_right(l1, n1, e2, n2)[k] == FormulaV::Atom(
                    pair_index(n1 as int, e2[j].1 as int, n2) as usize,
                    0,
                ),
        answers_right(l1, n1, e2, n2).len() == label_count(l1, e2),
    decreases e2.len(),
{
    if e2.len() > 0 {
        let init = e2.drop_last();
        answers_right_are_all_matches(l1, n1, init, n2, t);
        assert(e2 == init.push(e2.last()));
        let a = answers_right(l1, n1, init, n2);
        let atom = FormulaV::Atom(pair_index(n1 as int, t as int, n2) as usize, 0);
        lemma_push_contains(a, FormulaV::Atom(pair_index(n1 as int, e2.last().1 as int, n2) as usize, 0), atom);
        if exists|j: int| 0 <= j < e2.len() && #[trigger] e2[j] == (l1, t) {
            let j = choose|j: int| 0 <= j < e2.len() && #[trigger] e2[j] == (l1, t);
            if j < init.len() {
                assert(init[j] == (l1, t));
            }
        }
        let r = answers_right(l1, n1, e2, n2);
        assert forall|k: int| 0 <= k < r.len() implies exists|j: int|
            0 <= j < e2.len() && e2[j].0 == l1 && #[trigger] r[k] == FormulaV::Atom(
                pair_index(n1 as int, e2[j].1 as int, n2) as usize,
                0,
            ) by {
            if k < a.len() {
                assert(r[k] == a[k]);
                let j = choose|j: int|
                    0 <= j < init.len() && init[j].0 == l1 && #[trigger] a[k] == FormulaV::Atom(
                        pair_index(n1 as int, init[j].1 as int, n2) as usize,
                        0,
                    );
                assert(e2[j] == init[j]);
            } else {
                assert(e2[e2.len() - 1] == e2.last());
            }
        }
        assert(e2.drop_last() == init);
    }
}

/// The disjunction answering a transition `(l1, n1)` of the second system
/// holds the atom of the pair `(t, n1)` for every transition `(l1, t)` of the
/// first, and nothing else: one atom per transition with that label.
pub proof fn answers_left_are_all_matches(l1: Seq<char>, n1: usize, e2: Seq<(Seq<char>, usize)>, n2: int, t: usize)
    ensures
        answers_left(l1, n1, e2, n2).contains(FormulaV::Atom(pair_index(t as int, n1 as int, n2) as usize, 0))
            <== exists|j: int| 0 <= j < e2.len() && #[trigger] e2[j] == (l1, t),
        forall|k: int|
            0 <= k < answers_left(l1, n1, e2, n2).len() ==> exists|j: int|
                0 <= j < e2.len() && e2[j].0 == l1 && #[trigger] answers_left(l1, n1, e2, n2)[k] == FormulaV::Atom(
                    pair_index(e2[j].1 as int, n1 as int, n2) as usize,
                    0,
                ),
        answers_left(l1, n1, e2, n2).len() == label_count(l1, e2),
    decreases e2.len(),
{
    if e2.len() > 0 {
        let init = e2.drop_last();
        answers_left_are_all_matches(l1, n1, init, n2, t);
        assert(e2 == init.push(e2.last()));
        let a = answers_left(l1, n1, init, n2);
        let atom = FormulaV::Atom(pair_index(t as int, n1 as int, n2) as usize, 0);
        lemma_push_contains(a, FormulaV::Atom(pair_index(e2.last().1 as int, n1 as int, n2) as usize, 0), atom);
        if exists|j: int| 0 <= j < e2.len() && #[trigger] e2[j] == (l1, t) {
            let j = choose|j: int| 0 <= j < e2.len() && #[trigger] e2[j] == (l1, t);
            if j < init.len() {
                assert(init[j] == (l1, t));
            }
        }
        let r = answers_left(l1, n1, e2, n2);
        assert forall|k: int| 0 <= k < r.len() implies exists|j: int|
            0 <= j < e2.len() && e2[j].0 == l1 && #[trigger] r[k] == FormulaV::Atom(
                pair_index(e2[j].1 as int, n1 as int, n2) as usize,
                0,
            ) by {
            if k < a.len() {
                assert(r[k] == a[k]);
                let j = choose|j: int|
                    0 <= j < init.len() && init[j].0 == l1 && #[trigger] a[k] == FormulaV::Atom(
                        pair_index(init[j].1 as int, n1 as int, n2) as usize,
                        0,
                    );
                assert(e2[j] == init[j]);
            } else {
                assert(e2[e2.len() - 1] == e2.last());
            }
        }
        assert(e2.drop_last() == init);
    }
}

/// What the bisimilarity of two states with transitions `e1` and `e2`
/// requires: every transition of each is answered by a transition of the
/// other with the same label, between bisimilar states.
pub open spec fn bisim_formula(e1: Seq<(Seq<char>, usize)>, e2: Seq<(Seq<char>, usize)>, n2: int) -> FormulaV {
    FormulaV::And(
        e1.map_values(|t: (Seq<char>, usize)| FormulaV::Or(answers_right(t.0, t.1, e2, n2)))
            + e2.map_values(|t: (Seq<char>, usize)| FormulaV::Or(answers_left(t.0, t.1, e1, n2))),
    )
}

/// The disjunction answering `(l1, n1)` holds exactly when one of the pairs
/// `(n1, t)` does, for a transition `(l1, t)` of the second system.
proof fn lemma_holds_answers_right(l1: Seq<char>, n1: usize, e2: Seq<(Seq<char>, usize)>, n2: int, val: spec_fn(usize) -> bool)
    ensures
        holds_v(FormulaV::Or(answers_right(l1, n1, e2, n2)), val) <==> exists|j: int|
            0 <= j < e2.len() && e2[j].0 == l1 && val(pair_index(n1 as int, #[trigger] e2[j].1 as int, n2) as usize),
{
    let a = answers_right(l1, n1, e2, n2);
    lemma_holds_all_any(a, 0, val);
    answers_right_are_all_matches(l1, n1, e2, n2, 0);
    if holds_v(FormulaV::Or(a), val) {
        let m = choose|m: int| 0 <= m < a.len() && holds_v(#[trigger] a[m], val);
        let j = choose|j: int|
            0 <= j < e2.len() && e2[j].0 == l1 && #[trigger] a[m] == FormulaV::Atom(
                pair_index(n1 as int, e2[j].1 as int, n2) as usize,
                0,
            );
        assert(val(pair_index(n1 as int, e2[j].1 as int, n2) as usize));
    }
    if exists|j: int| 0 <= j < e2.len() && e2[j].0 == l1 && val(pair_index(n1 as int, #[trigger] e2[j].1 as int, n2) as usize) {
        let j = choose|j: int| 0 <= j < e2.len() && e2[j].0 == l1 && val(pair_index(n1 as int, #[trigger] e2[j].1 as int, n2) as usize);
        let t = e2[j].1;
        answers_right_are_all_matches(l1, n1, e2, n2, t);
        assert(e2[j] == (l1, t));
        let atom = FormulaV::Atom(pair_index(n1 as int, t as int, n2) as usize, 0);
        assert(a.contains(atom));
        let m = choose|m: int| 0 <= m < a.len() && a[m] == atom;
        assert(holds_v(a[m], val));
    }
}

/// The disjunction answering `(l2, n2)` holds exactly when one of the pairs
/// `(t, n2)` does, for a transition `(l2, t)` of the first system.
proof fn lemma_holds_answers_left(l2: Seq<char>, n2: usize, e1: Seq<(Seq<char>, usize)>, m2: int, val: spec_fn(usize) -> bool)
    ensures
        holds_v(FormulaV::Or(answers_left(l2, n2, e1, m2)), val) <==> exists|i: int|
            0 <= i < e1.len() && e1[i].0 == l2 && val(pair_index(#[trigger] e1[i].1 as int, n2 as int, m2) as usize),
{
    let a = answers_left(l2, n2, e1, m2);
    lemma_holds_all_any(a, 0, val);
    answers_left_are_all_matches(l2, n2, e1, m2, 0);
    if holds_v(FormulaV::Or(a), val) {
        let m = choose|m: int| 0 <= m < a.len() && holds_v(#[trigger] a[m], val);
        let i = choose|j: int|
            0 <= j < e1.len() && e1[j].0 == l2 && #[trigger] a[m] == FormulaV::Atom(
                pair_index(e1[j].1 as int, n2 as int, m2) as usize,
                0,
            );
        assert(val(pair_index(e1[i].1 as int, n2 as int, m2) as usize));
    }
    if exists|i: int| 0 <= i < e1.len() && e1[i].0 == l2 && val(pair_index(#[trigger] e1[i].1 as int, n2 as int, m2) as usize) {
        let i = choose|i: int| 0 <= i < e1.len() && e1[i].0 == l2 && val(pair_index(#[trigger] e1[i].1 as int, n2 as int, m2) as usize);
        let t = e1[i].1;
        answers_left_are_all_matches(l2, n2, e1, m2, t);
        assert(e1[i] == (l2, t));
        let atom = FormulaV::Atom(pair_index(t as int, n2 as int, m2) as usize, 0);
        assert(a.contains(atom));
        let m = choose|m: int| 0 <= m < a.len() && a[m] == atom;
        assert(holds_v(a[m], val));
    }
}

/// The transition `e1[i]` of the first state is answered by one of `e2`
/// with the same label, the two targets being related by `val`.
pub open spec fn answered_right(
    e1: Seq<(Seq<char>, usize)>,
    e2: Seq<(Seq<char>, usize)>,
    n2: int,
    val: spec_fn(usize) -> bool,
    i: int,
) -> bool {
    exists|j: int|
        0 <= j < e2.len() && e2[j].0 == e1[i].0 && val(pair_index(e1[i].1 as int, #[trigger] e2[j].1 as int, n2) as usize)
}

/// The transition `e2[j]` of the second state is answered by one of `e1`
/// with the same label, the two targets being related by `val`.
pub open spec fn answered_left(
    e1: Seq<(Seq<char>, usize)>,
    e2: Seq<(Seq<char>, usize)>,
    n2: int,
    val: spec_fn(usize) -> bool,
    j: int,
) -> bool {
    exists|i: int|
        0 <= i < e1.len() && e1[i].0 == e2[j].0 && val(pair_index(#[trigger] e1[i].1 as int, e2[j].1 as int, n2) as usize)
}

/// The formula of a pair of states holds of a relation `val` on pairs
/// exactly when every transition of either state is answered by one of the
/// other with the same label, the two targets being related: the step that
/// defines a bisimulation.
pub proof fn bisim_formula_is_transfer(e1: Seq<(Seq<char>, usize)>, e2: Seq<(Seq<char>, usize)>, n2: int, val: spec_fn(usize) -> bool)
    ensures
        holds_v(bisim_formula(e1, e2, n2), val) <==> (forall|i: int|
            0 <= i < e1.len() ==> #[trigger] answered_right(e1, e2, n2, val, i)) && (forall|j: int|
            0 <= j < e2.len() ==> #[trigger] answered_left(e1, e2, n2, val, j)),
{
    let c1 = e1.map_values(|t: (Seq<char>, usize)| FormulaV::Or(answers_right(t.0, t.1, e2, n2)));
    let c2 = e2.map_values(|t: (Seq<char>, usize)| FormulaV::Or(answers_left(t.0, t.1, e1, n2)));
    let c = c1 + c2;
    assert(bisim_formula(e1, e2, n2) == FormulaV::And(c));
    lemma_holds_all_any(c, 0, val);
    assert forall|i: int| 0 <= i < e1.len() implies (holds_v(#[trigger] c[i], val) == answered_right(e1, e2, n2, val, i)) by {
        assert(c[i] == FormulaV::Or(answers_right(e1[i].0, e1[i].1, e2, n2)));
        lemma_holds_answers_right(e1[i].0, e1[i].1, e2, n2, val);
    }
    assert forall|j: int| 0 <= j < e2.len() implies (holds_v(#[trigger] c[e1.len() + j], val) == answered_left(e1, e2, n2, val, j)) by {
        assert(c[e1.len() + j] == FormulaV::Or(answers_left(e2[j].0, e2[j].1, e1, n2)));
        lemma_holds_answers_left(e2[j].0, e2[j].1, e1, n2, val);
    }
    if forall|i: int| 0 <= i < e1.len() ==> #[trigger] answered_right(e1, e2, n2, val, i) {
        if forall|j: int| 0 <= j < e2.len() ==> #[trigger] answered_left(e1, e2, n2, val, j) {
            assert forall|k: int| 0 <= k < c.len() implies holds_v(#[trigger] c[k], val) by {
                if k < e1.len() {
                    assert(answered_right(e1, e2, n2, val, k));
                } else {
                    assert(answered_left(e1, e2, n2, val, k - e1.len()));
                    assert(c[e1.len() + (k - e1.len())] == c[k]);
                }
            }
        }
    }
    if holds_v(bisim_formula(e1, e2, n2), val) {
        assert forall|i: int| 0 <= i < e1.len() implies #[trigger] answered_right(e1, e2, n2, val, i) by {
            assert(holds_v(c[i], val));
        }
        assert forall|j: int| 0 <= j < e2.len() implies #[trigger] answered_left(e1, e2, n2, val, j) by {
            assert(holds_v(c[e1.len() + j], val));
        }
    }
}

/// The sequences one after the other.
pub open spec fn concat<A>(s: Seq<Seq<A>>) -> Seq<A>
    decreases s.len(),
{
    if s.len() == 0 {
        Seq::empty()
    } else {
        concat(s.drop_last()) + s.last()
    }
}

/// The formulas of all pairs of states, the pairs ordered by their first
/// state, then by their second.
pub open spec fn bisim_table(t1: Seq<Seq<(Seq<char>, usize)>>, t2: Seq<Seq<(Seq<char>, usize)>>) -> Seq<FormulaV> {
    concat(
        t1.map_values(
            |e1: Seq<(Seq<char>, usize)>|
                t2.map_values(|e2: Seq<(Seq<char>, usize)>| bisim_formula(e1, e2, t2.len() as int)),
        ),
    )
}

/// The atoms answering a transition `(l1, n1)` of the first system from
/// the transitions `e2` of the second.
fn answers_of_right(l1: &String, n1: StateId, e2: &Vec<(String, StateId)>, lts1: &Lts, lts2: &Lts) -> (r: Vec<Formula>)
    requires
        forall|k: int| 0 <= k < e2@.len() ==> pair_index(n1.0 as int, #[trigger] e2@[k].1.0 as int, lts2.transitions@.len() as int) <= usize::MAX,
    ensures
        formula_views(r@) == answers_right(l1@, n1.0, edges_view(*e2), lts2.transitions@.len() as int),
{
    let ghost ev = edges_view(*e2);
    let mut out: Vec<Formula> = Vec::new();
    let mut k: usize = 0;
    proof {
        assert(ev.take(0) =~= Seq::<(Seq<char>, usize)>::empty());
        assert(formula_views(out@) =~= Seq::<FormulaV>::empty());
    }
    while k < e2.len()
        invariant
            k <= e2@.len(),
            ev == edges_view(*e2),
            ev.len() == e2@.len(),
            forall|k: int| 0 <= k < e2@.len() ==> pair_index(n1.0 as int, #[trigger] e2@[k].1.0 as int, lts2.transitions@.len() as int) <= usize::MAX,
            formula_views(out@) == answers_right(l1@, n1.0, ev.take(k as int), lts2.transitions@.len() as int),
        decreases e2@.len() - k,
    {
        if e2[k].0 == *l1 {
            let b = make_basis_elem(n1, e2[k].1, lts1, lts2);
            let f = Formula::Atom(b, VarId(0));
            proof {
                lemma_formula_views_push(out@, f);
            }
            out.push(f);
        }
        proof {
            assert(ev.take(k + 1).drop_last() =~= ev.take(k as int));
            assert(ev.take(k + 1).last() == ev[k as int]);
        }
        k = k + 1;
    }
    proof {
        assert(ev.take(k as int) =~= ev);
    }
    out
}

/// The atoms answering a transition `(l2, n2)` of the second system from
/// the transitions `e1` of the first.
fn answers_of_left(l2: &String, n2: StateId, e1: &Vec<(String, StateId)>, lts1: &Lts, lts2: &Lts) -> (r: Vec<Formula>)
    requires
        forall|k: int| 0 <= k < e1@.len() ==> pair_index(#[trigger] e1@[k].1.0 as int, n2.0 as int, lts2.transitions@.len() as int) <= usize::MAX,
    ensures
        formula_views(r@) == answers_left(l2@, n2.0, edges_view(*e1), lts2.transitions@.len() as int),
{
    let ghost ev = edges_view(*e1);
    let mut out: Vec<Formula> = Vec::new();
    let mut k: usize = 0;
    proof {
        assert(ev.take(0) =~= Seq::<(Seq<char>, usize)>::empty());
        assert(formula_views(out@) =~= Seq::<FormulaV>::empty());
    }
    while k < e1.len()
        invariant
            k <= e1@.len(),
            ev == edges_view(*e1),
            ev.len() == e1@.len(),
            forall|k: int| 0 <= k < e1@.len() ==> pair_index(#[trigger] e1@[k].1.0 as int, n2.0 as int, lts2.transitions@.len() as int) <= usize::MAX,
            formula_views(out@) == answers_left(l2@, n2.0, ev.take(k as int), lts2.transitions@.len() as int),
        decreases e1@.len() - k,
    {
        if e1[k].0 == *l2 {
            let b = make_basis_elem(e1[k].1, n2, lts1, lts2);
            let f = Formula::Atom(b, VarId(0));
            proof {
                lemma_formula_views_push(out@, f);
            }
            out.push(f);
        }
        proof {
            assert(ev.take(k + 1).drop_last() =~= ev.take(k as int));
            assert(ev.take(k + 1).last() == ev[k as int]);
        }
        k = k + 1;
    }
    proof {
        assert(ev.take(k as int) =~= ev);
    }
    out
}


/// Pairs of states of two systems are numbered without overflow.
proof fn lemma_pair_index_bound(a: int, b: int, n1: int, n2: int)
    requires
        0 <= a < n1,
        0 <= b < n2,
        n1 * n2 <= usize::MAX,
    ensures
        0 <= pair_index(a, b, n2) < n1 * n2,
        pair_index(a, b, n2) <= usize::MAX,
{
    assert(a * n2 + b < n1 * n2) by (nonlinear_arith)
        requires
            0 <= a < n1,
            0 <= b < n2,
    ;
    assert(0 <= a * n2) by (nonlinear_arith)
        requires
            0 <= a,
            0 <= b < n2,
    ;
}

/// The formula that the bisimilarity of `s1` and `s2` requires.
fn formula_for(s1: StateId, s2: StateId, lts1: &Lts, lts2: &Lts) -> (r: Formula)
    requires
        s1.0 < lts1.transitions@.len(),
        s2.0 < lts2.transitions@.len(),
        lts_well_formed(lts1.trans_view()),
        lts_well_formed(lts2.trans_view()),
        lts1.transitions@.len() * lts2.transitions@.len() <= usize::MAX,
    ensures
        formula_view(r) == bisim_formula(
            lts1.trans_view()[s1.0 as int],
            lts2.trans_view()[s2.0 as int],
            lts2.transitions@.len() as int,
        ),
{
    let e1 = &lts1.transitions[s1.0];
    let e2 = &lts2.transitions[s2.0];
    let ghost n1 = lts1.transitions@.len() as int;
    let ghost n2 = lts2.transitions@.len() as int;
    let ghost v1 = edges_view(*e1);
    let ghost v2 = edges_view(*e2);
    proof {
        assert(lts1.trans_view()[s1.0 as int] == v1);
        assert(lts2.trans_view()[s2.0 as int] == v2);
    }
    let ghost left = v1.map_values(|t: (Seq<char>, usize)| FormulaV::Or(answers_right(t.0, t.1, v2, n2)));
    let ghost right = v2.map_values(|t: (Seq<char>, usize)| FormulaV::Or(answers_left(t.0, t.1, v1, n2)));
    let mut parts: Vec<Formula> = Vec::new();
    proof {
        assert(formula_views(parts@) =~= left.take(0));
    }
    let mut k: usize = 0;
    while k < e1.len()
        invariant
            k <= e1@.len(),
            v1 == edges_view(*e1),
            v2 == edges_view(*e2),
            left == v1.map_values(|t: (Seq<char>, usize)| FormulaV::Or(answers_right(t.0, t.1, v2, n2))),
            n2 == lts2.transitions@.len(),
            v1 == lts1.trans_view()[s1.0 as int],
            v2 == lts2.trans_view()[s2.0 as int],
            s1.0 < n1,
            s2.0 < n2,
            n1 == lts1.transitions@.len(),
            lts_well_formed(lts1.trans_view()),
            lts_well_formed(lts2.trans_view()),
            n1 * n2 <= usize::MAX,
            formula_views(parts@) == left.take(k as int),
        decreases e1@.len() - k,
    {
        proof {
            assert forall|j: int| 0 <= j < e2@.len() implies pair_index(
                e1@[k as int].1.0 as int,
                #[trigger] e2@[j].1.0 as int,
                n2,
            ) <= usize::MAX by {
                assert(lts1.trans_view()[s1.0 as int][k as int].1 < n1);
                assert(lts2.trans_view()[s2.0 as int][j].1 < n2);
                lemma_pair_index_bound(e1@[k as int].1.0 as int, e2@[j].1.0 as int, n1, n2);
            }
        }
        let f = Formula::Or(answers_of_right(&e1[k].0, e1[k].1, e2, lts1, lts2));
        proof {
            lemma_formula_views_push(parts@, f);
            assert(left.take(k + 1) =~= left.take(k as int).push(left[k as int]));
        }
        parts.push(f);
        k = k + 1;
    }
    proof {
        assert(left.take(k as int) =~= left);
        assert(formula_views(parts@) =~= left + right.take(0));
    }
    let mut k: usize = 0;
    while k < e2.len()
        invariant
            k <= e2@.len(),
            v1 == edges_view(*e1),
            v2 == edges_view(*e2),
            right == v2.map_values(|t: (Seq<char>, usize)| FormulaV::Or(answers_left(t.0, t.1, v1, n2))),
            n2 == lts2.transitions@.len(),
            v1 == lts1.trans_view()[s1.0 as int],
            v2 == lts2.trans_view()[s2.0 as int],
            s1.0 < n1,
            s2.0 < n2,
            n1 == lts1.transitions@.len(),
            lts_well_formed(lts1.trans_view()),
            lts_well_formed(lts2.trans_view()),
            n1 * n2 <= usize::MAX,
            formula_views(parts@) == left + right.take(k as int),
        decreases e2@.len() - k,
    {
        proof {
            assert forall|j: int| 0 <= j < e1@.len() implies pair_index(
                #[trigger] e1@[j].1.0 as int,
                e2@[k as int].1.0 as int,
                n2,
            ) <= usize::MAX by {
                assert(lts1.trans_view()[s1.0 as int][j].1 < n1);
                assert(lts2.trans_view()[s2.0 as int][k as int].1 < n2);
                lemma_pair_index_bound(e1@[j].1.0 as int, e2@[k as int].1.0 as int, n1, n2);
            }
        }
        let f = Formula::Or(answers_of_left(&e2[k].0, e2[k].1, e1, lts1, lts2));
        proof {
            lemma_formula_views_push(parts@, f);
            assert(left + right.take(k + 1) =~= (left + right.take(k as int)).push(right[k as int]));
        }
        parts.push(f);
        k = k + 1;
    }
    proof {
        assert(right.take(k as int) =~= right);
    }
    Formula::And(parts)
}

/// The equation of bisimilarity: the pairs of bisimilar states are the
/// greatest set closed under the formula of each pair, which is kept as the
/// only function symbol, for every pair of states.
pub fn bisimilarity_to_fix(lts1: &Lts, lts2: &Lts) -> (r: (Vec<FixEq>, FunsFormulas))
    requires
        lts_well_formed(lts1.trans_view()),
        lts_well_formed(lts2.trans_view()),
        lts1.transitions@.len() * lts2.transitions@.len() <= usize::MAX,
    ensures
        eqs_view(r.0@) == seq![(FixType::Max, ExprV::Fun(0, seq![ExprV::Var(0)]))],
        r.1.well_formed(),
        r.1.table() == seq![bisim_table(lts1.trans_view(), lts2.trans_view())],
{
    let mut args: Vec<Expr> = Vec::new();
    args.push(Expr::Var(VarId(0)));
    let eq = FixEq { fix_type: FixType::Max, expr: Expr::Fun(FunId(0), args) };
    let mut eqs: Vec<FixEq> = Vec::new();
    eqs.push(eq);
    proof {
        let a = args@;
        assert(a =~= seq![Expr::Var(VarId(0))]);
        assert(a.drop_last() =~= Seq::<Expr>::empty());
        assert(expr_views(a.drop_last()) =~= Seq::<ExprV>::empty());
        assert(a.last() == Expr::Var(VarId(0)));
        assert(expr_view(a.last()) == ExprV::Var(0));
        assert(expr_views(a) == expr_views(a.drop_last()).push(expr_view(a.last())));
        assert(expr_views(a) =~= seq![ExprV::Var(0)]);
        assert(eqs_view(eqs@) =~= seq![(FixType::Max, ExprV::Fun(0, seq![ExprV::Var(0)]))]);
    }
    let ghost t1 = lts1.trans_view();
    let ghost t2 = lts2.trans_view();
    let ghost n2 = lts2.transitions@.len() as int;
    let ghost m = t1.map_values(
        |e1: Seq<(Seq<char>, usize)>| t2.map_values(|e2: Seq<(Seq<char>, usize)>| bisim_formula(e1, e2, n2)),
    );
    let mut row: Vec<Formula> = Vec::new();
    proof {
        assert(m.take(0) =~= Seq::<Seq<FormulaV>>::empty());
        assert(formula_views(row@) =~= concat(m.take(0)));
    }
    let mut s1: usize = 0;
    while s1 < lts1.transitions.len()
        invariant
            s1 <= lts1.transitions@.len(),
            t1 == lts1.trans_view(),
            t2 == lts2.trans_view(),
            n2 == lts2.transitions@.len(),
            t1.len() == lts1.transitions@.len(),
            t2.len() == lts2.transitions@.len(),
            m == t1.map_values(
                |e1: Seq<(Seq<char>, usize)>| t2.map_values(|e2: Seq<(Seq<char>, usize)>| bisim_formula(e1, e2, n2)),
            ),
            lts_well_formed(t1),
            lts_well_formed(t2),
            lts1.transitions@.len() * lts2.transitions@.len() <= usize::MAX,
            formula_views(row@) == concat(m.take(s1 as int)),
        decreases lts1.transitions@.len() - s1,
    {
        let ghost base = formula_views(row@);
        let mut s2: usize = 0;
        while s2 < lts2.transitions.len()
            invariant
                s1 < lts1.transitions@.len(),
                s2 <= lts2.transitions@.len(),
                t1 == lts1.trans_view(),
                t2 == lts2.trans_view(),
                n2 == lts2.transitions@.len(),
                t1.len() == lts1.transitions@.len(),
                t2.len() == lts2.transitions@.len(),
                lts_well_formed(t1),
                lts_well_formed(t2),
                lts1.transitions@.len() * lts2.transitions@.len() <= usize::MAX,
                formula_views(row@) == base + m[s1 as int].take(s2 as int),
                m[s1 as int] == t2.map_values(|e2: Seq<(Seq<char>, usize)>| bisim_formula(t1[s1 as int], e2, n2)),
            decreases lts2.transitions@.len() - s2,
        {
            let f = formula_for(StateId(s1), StateId(s2), lts1, lts2);
            proof {
                lemma_formula_views_push(row@, f);
                assert(base + m[s1 as int].take(s2 + 1) =~= (base + m[s1 as int].take(s2 as int)).push(
                    m[s1 as int][s2 as int],
                ));
            }
            row.push(f);
            s2 = s2 + 1;
        }
        proof {
            assert(m[s1 as int].take(s2 as int) =~= m[s1 as int]);
            assert(m.take(s1 + 1).drop_last() =~= m.take(s1 as int));
        }
        s1 = s1 + 1;
    }
    proof {
        assert(m.take(s1 as int) =~= m);
    }
    let mut table: Vec<Vec<Formula>> = Vec::new();
    table.push(row);
    proof {
        assert(formula_table_view(table@) =~= seq![bisim_table(t1, t2)]);
    }
    (eqs, FunsFormulas::new(table))
}


proof fn lemma_concat_len<A>(m: Seq<Seq<A>>, w: int)
    requires
        w >= 0,
        forall|k: int| 0 <= k < m.len() ==> (#[trigger] m[k]).len() == w,
    ensures
        concat(m).len() == m.len() * w,
    decreases m.len(),
{
    if m.len() > 0 {
        lemma_concat_len(m.drop_last(), w);
        assert(m.len() * w == (m.len() - 1) * w + w) by (nonlinear_arith);
    }
}

proof fn lemma_concat_index<A>(m: Seq<Seq<A>>, w: int, i: int, j: int)
    requires
        w >= 0,
        forall|k: int| 0 <= k < m.len() ==> (#[trigger] m[k]).len() == w,
        0 <= i < m.len(),
        0 <= j < w,
    ensures
        concat(m).len() == m.len() * w,
        concat(m)[i * w + j] == m[i][j],
    decreases m.len(),
{
    let init = m.drop_last();
    lemma_concat_len(m, w);
    lemma_concat_len(init, w);
    if i < m.len() - 1 {
        lemma_concat_index(init, w, i, j);
        assert(i * w + j < (m.len() - 1) * w) by (nonlinear_arith)
            requires
                0 <= i < m.len() - 1,
                0 <= j < w,
        ;
    } else {
        assert(concat(m) == concat(init) + m.last());
        assert(i * w + j - concat(init).len() == j);
    }
}

/// The formula of the pair of states `(s1, s2)` stands at the basis element
/// that `make_basis_elem` gives the pair.
pub proof fn bisim_table_at_pair(
    t1: Seq<Seq<(Seq<char>, usize)>>,
    t2: Seq<Seq<(Seq<char>, usize)>>,
    s1: int,
    s2: int,
)
    requires
        0 <= s1 < t1.len(),
        0 <= s2 < t2.len(),
    ensures
        bisim_table(t1, t2).len() == t1.len() * t2.len(),
        bisim_table(t1, t2)[pair_index(s1, s2, t2.len() as int)] == bisim_formula(
            t1[s1],
            t2[s2],
            t2.len() as int,
        ),
{
    let n2 = t2.len() as int;
    let m = t1.map_values(
        |e1: Seq<(Seq<char>, usize)>| t2.map_values(|e2: Seq<(Seq<char>, usize)>| bisim_formula(e1, e2, n2)),
    );
    lemma_concat_index(m, n2, s1, s2);
}

proof fn lemma_answers_right_below(l1: Seq<char>, n1: usize, e2: Seq<(Seq<char>, usize)>, n2: int)
    ensures
        forall|k: int|
            0 <= k < answers_right(l1, n1, e2, n2).len() ==> view_below(
                #[trigger] answers_right(l1, n1, e2, n2)[k],
                1,
            ),
    decreases e2.len(),
{
    if e2.len() > 0 {
        lemma_answers_right_below(l1, n1, e2.drop_last(), n2);
        let init = answers_right(l1, n1, e2.drop_last(), n2);
        let r = answers_right(l1, n1, e2, n2);
        assert forall|k: int| 0 <= k < r.len() implies view_below(#[trigger] r[k], 1) by {
            if k < init.len() {
                assert(r[k] == init[k]);
            } else {
                assert(r[k] is Atom && r[k]->Atom_1 == 0);
            }
        }
    }
}

proof fn lemma_answers_left_below(l2: Seq<char>, n2: usize, e1: Seq<(Seq<char>, usize)>, m2: int)
    ensures
        forall|k: int|
            0 <= k < answers_left(l2, n2, e1, m2).len() ==> view_below(
                #[trigger] answers_left(l2, n2, e1, m2)[k],
                1,
            ),
    decreases e1.len(),
{
    if e1.len() > 0 {
        lemma_answers_left_below(l2, n2, e1.drop_last(), m2);
        let init = answers_left(l2, n2, e1.drop_last(), m2);
        let r = answers_left(l2, n2, e1, m2);
        assert forall|k: int| 0 <= k < r.len() implies view_below(#[trigger] r[k], 1) by {
            if k < init.len() {
                assert(r[k] == init[k]);
            } else {
                assert(r[k] is Atom && r[k]->Atom_1 == 0);
            }
        }
    }
}

proof fn lemma_bisim_formula_below(e1: Seq<(Seq<char>, usize)>, e2: Seq<(Seq<char>, usize)>, n2: int)
    ensures
        view_below(bisim_formula(e1, e2, n2), 1),
{
    let left = e1.map_values(|t: (Seq<char>, usize)| FormulaV::Or(answers_right(t.0, t.1, e2, n2)));
    let right = e2.map_values(|t: (Seq<char>, usize)| FormulaV::Or(answers_left(t.0, t.1, e1, n2)));
    let fs = left + right;
    assert forall|k: int| 0 <= k < fs.len() implies view_below(#[trigger] fs[k], 1) by {
        if k < left.len() {
            let t = e1[k];
            lemma_answers_right_below(t.0, t.1, e2, n2);
            assert(fs[k] == FormulaV::Or(answers_right(t.0, t.1, e2, n2)));
        } else {
            let t = e2[k - left.len()];
            lemma_answers_left_below(t.0, t.1, e1, n2);
            assert(fs[k] == FormulaV::Or(answers_left(t.0, t.1, e1, n2)));
        }
    }
}

proof fn lemma_concat_below(m: Seq<Seq<FormulaV>>)
    requires
        forall|i: int, j: int| 0 <= i < m.len() && 0 <= j < m[i].len() ==> view_below(#[trigger] m[i][j], 1),
    ensures
        forall|k: int| 0 <= k < concat(m).len() ==> view_below(#[trigger] concat(m)[k], 1),
    decreases m.len(),
{
    if m.len() > 0 {
        let init = m.drop_last();
        assert forall|i: int, j: int| 0 <= i < init.len() && 0 <= j < init[i].len() implies view_below(
            #[trigger] init[i][j],
            1,
        ) by {
            assert(init[i] == m[i]);
        }
        lemma_concat_below(init);
        let c = concat(m);
        assert(c == concat(init) + m.last());
        assert forall|k: int| 0 <= k < c.len() implies view_below(#[trigger] c[k], 1) by {
            if k < concat(init).len() {
                assert(c[k] == concat(init)[k]);
            } else {
                assert(c[k] == m[m.len() - 1][k - concat(init).len()]);
            }
        }
    }
}

/// The equation of bisimilarity only uses its one variable, and the formula
/// of every pair of states only uses the one argument of the function
/// symbol: the system can be composed at every pair of states.
pub proof fn bisimilarity_equation_composable(t1: Seq<Seq<(Seq<char>, usize)>>, t2: Seq<Seq<(Seq<char>, usize)>>)
    ensures
        composable(ExprV::Fun(0, seq![ExprV::Var(0)]), seq![bisim_table(t1, t2)]),
        expr_below(ExprV::Fun(0, seq![ExprV::Var(0)]), 1),
{
    let n2 = t2.len() as int;
    let m = t1.map_values(
        |e1: Seq<(Seq<char>, usize)>| t2.map_values(|e2: Seq<(Seq<char>, usize)>| bisim_formula(e1, e2, n2)),
    );
    assert forall|i: int, j: int| 0 <= i < m.len() && 0 <= j < m[i].len() implies view_below(
        #[trigger] m[i][j],
        1,
    ) by {
        lemma_bisim_formula_below(t1[i], t2[j], n2);
    }
    lemma_concat_below(m);
    let t = seq![bisim_table(t1, t2)];
    assert(t[0] == concat(m));
    let args = seq![ExprV::Var(0)];
    assert(composable(args[0], t));
    assert(expr_below(args[0], 1));
}

} // verus!
