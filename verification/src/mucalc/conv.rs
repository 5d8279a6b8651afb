//! Conversion of mu-calculus formulas into systems of fixpoint equations
//! over the states of a transition system.
use vstd::prelude::*;

use crate::aut::{edges_view, Lts, StateId};
use crate::mucalc::{lemma_mu_views, mu_view, mu_views, Act, ActV, MuCalc, MuCalcV, Var};
use crate::solver::symbolic::compose::{composable, expr_below, view_below, FunsFormulas};
use crate::solver::symbolic::eq::{
    eqs_view, expr_view, expr_views, lemma_expr_views_push, Expr, ExprV, FixEq, FixType, FunId,
    VarId,
};
use crate::solver::symbolic::formula::{
    formula_table_view, formula_view, formula_views, holds_v, lemma_formula_views_push, lemma_holds_all_any,
    BasisElemId, Formula, FormulaV,
};

verus! {

/// Whether a modality is a diamond or a box.
#[derive(Clone, Copy, Debug, PartialEq, Eq, Structural)]
pub enum FunKind {
    Diamond,
    Box,
}

/// The names of the fixpoint variables bound in a formula, innermost first
/// and left to right.
pub open spec fn binders(f: MuCalcV) -> Seq<Seq<char>>
    decreases f,
{
    match f {
        MuCalcV::Var(_) => Seq::empty(),
        MuCalcV::Diamond(_, e) => binders(*e),
        MuCalcV::Box(_, e) => binders(*e),
        MuCalcV::And(es) => binders_list(es),
        MuCalcV::Or(es) => binders_list(es),
        MuCalcV::Mu(x, e) => binders(*e).push(x),
        MuCalcV::Nu(x, e) => binders(*e).push(x),
    }
}

pub open spec fn binders_list(es: Seq<MuCalcV>) -> Seq<Seq<char>>
    decreases es,
{
    if es.len() == 0 {
        Seq::empty()
    } else {
        binders_list(es.drop_last()) + binders(es.last())
    }
}

/// Every variable of the formula stands inside a fixpoint that binds it,
/// where `bound` holds the names bound around the formula.
pub open spec fn scoped(f: MuCalcV, bound: Set<Seq<char>>) -> bool
    decreases f,
{
    match f {
        MuCalcV::Var(x) => bound.contains(x),
        MuCalcV::Diamond(_, e) => scoped(*e, bound),
        MuCalcV::Box(_, e) => scoped(*e, bound),
        MuCalcV::And(es) => forall|k: int| 0 <= k < es.len() ==> scoped(#[trigger] es[k], bound),
        MuCalcV::Or(es) => forall|k: int| 0 <= k < es.len() ==> scoped(#[trigger] es[k], bound),
        MuCalcV::Mu(x, e) => scoped(*e, bound.insert(x)),
        MuCalcV::Nu(x, e) => scoped(*e, bound.insert(x)),
    }
}

/// A formula that can be turned into equations: a fixpoint at the root, no
/// variable bound twice, and every variable inside the fixpoint binding it.
pub open spec fn closed_formula(f: MuCalcV) -> bool {
    &&& (f is Mu || f is Nu)
    &&& binders(f).no_duplicates()
    &&& scoped(f, Set::empty())
}

/// An action with this label belongs to the action set.
pub open spec fn label_matches(a: ActV, label: Seq<char>) -> bool {
    match a {
        ActV::True => true,
        ActV::Label(x) => x == label,
        ActV::NotLabel(x) => x != label,
    }
}

/// The atoms, on variable 0, of the targets of the transitions whose label
/// belongs to the action set, in order.
pub open spec fn matching_atoms(a: ActV, edges: Seq<(Seq<char>, usize)>) -> Seq<FormulaV>
    decreases edges.len(),
{
    if edges.len() == 0 {
        Seq::empty()
    } else {
        let init = matching_atoms(a, edges.drop_last());
        if label_matches(a, edges.last().0) {
            init.push(FormulaV::Atom(edges.last().1, 0))
        } else {
            init
        }
    }
}

/// The atoms a modality collects at a state are exactly the targets of its
/// transitions with a label in the action set: any label for `true`, the
/// label `x` for `x`, and every other label for `!x`. There is one atom per
/// such transition, so the transitions labelled `x` are split between the
/// sets `x` and `!x`.
pub proof fn matching_atoms_are_matching_targets(x: Seq<char>, edges: Seq<(Seq<char>, usize)>, t: usize)
    ensures
        matching_atoms(ActV::True, edges).contains(FormulaV::Atom(t, 0)) <==> exists|j: int|
            0 <= j < edges.len() && #[trigger] edges[j].1 == t,
        matching_atoms(ActV::Label(x), edges).contains(FormulaV::Atom(t, 0)) <==> exists|j: int|
            0 <= j < edges.len() && #[trigger] edges[j].1 == t && edges[j].0 == x,
        matching_atoms(ActV::NotLabel(x), edges).contains(FormulaV::Atom(t, 0)) <==> exists|j: int|
            0 <= j < edges.len() && #[trigger] edges[j].1 == t && edges[j].0 != x,
        matching_atoms(ActV::True, edges).len() == edges.len(),
        matching_atoms(ActV::Label(x), edges).len() + matching_atoms(ActV::NotLabel(x), edges).len()
            == edges.len(),
    decreases edges.len(),
{
    if edges.len() > 0 {
        let init = edges.drop_last();
        matching_atoms_are_matching_targets(x, init, t);
        let last = edges.last();
        assert(edges == init.push(last));
        assert forall|j: int| 0 <= j < init.len() implies #[trigger] edges[j] == init[j] by {}
        let a0 = matching_atoms(ActV::True, init);
        let a1 = matching_atoms(ActV::Label(x), init);
        let a2 = matching_atoms(ActV::NotLabel(x), init);
        // Membership in a sequence with one more item.
        assert forall|q: Seq<FormulaV>, v: FormulaV, w: FormulaV| #[trigger] q.push(v).contains(w) <==> (q.contains(w)
            || v == w) by {
            if q.push(v).contains(w) {
                let k = choose|k: int| 0 <= k < q.push(v).len() && q.push(v)[k] == w;
                if k < q.len() {
                    assert(q[k] == w);
                }
            }
            if q.contains(w) {
                let k = choose|k: int| 0 <= k < q.len() && q[k] == w;
                assert(q.push(v)[k] == w);
            }
            if v == w {
                assert(q.push(v)[q.len() as int] == w);
            }
        }
        if exists|j: int| 0 <= j < edges.len() && #[trigger] edges[j].1 == t {
            let j = choose|j: int| 0 <= j < edges.len() && #[trigger] edges[j].1 == t;
            if j < init.len() {
                assert(init[j].1 == t);
            }
        }
        if exists|j: int| 0 <= j < edges.len() && #[trigger] edges[j].1 == t && edges[j].0 == x {
            let j = choose|j: int| 0 <= j < edges.len() && #[trigger] edges[j].1 == t && edges[j].0 == x;
            if j < init.len() {
                assert(init[j].1 == t);
            }
        }
        if exists|j: int| 0 <= j < edges.len() && #[trigger] edges[j].1 == t && edges[j].0 != x {
            let j = choose|j: int| 0 <= j < edges.len() && #[trigger] edges[j].1 == t && edges[j].0 != x;
            if j < init.len() {
                assert(init[j].1 == t);
            }
        }
        if exists|j: int| 0 <= j < init.len() && #[trigger] init[j].1 == t {
            let j = choose|j: int| 0 <= j < init.len() && #[trigger] init[j].1 == t;
            assert(edges[j].1 == t);
        }
        if exists|j: int| 0 <= j < init.len() && #[trigger] init[j].1 == t && init[j].0 == x {
            let j = choose|j: int| 0 <= j < init.len() && #[trigger] init[j].1 == t && init[j].0 == x;
            assert(edges[j].1 == t);
        }
        if exists|j: int| 0 <= j < init.len() && #[trigger] init[j].1 == t && init[j].0 != x {
            let j = choose|j: int| 0 <= j < init.len() && #[trigger] init[j].1 == t && init[j].0 != x;
            assert(edges[j].1 == t);
        }
        assert(last == edges[edges.len() - 1]);
    }
}

/// What a modality says of a state with these transitions: some (diamond)
/// or every (box) matching transition leads to a state satisfying the
/// argument.
pub open spec fn modal_formula(kind: FunKind, a: ActV, edges: Seq<(Seq<char>, usize)>) -> FormulaV {
    match kind {
        FunKind::Diamond => FormulaV::Or(matching_atoms(a, edges)),
        FunKind::Box => FormulaV::And(matching_atoms(a, edges)),
    }
}

/// Every atom a modality collects is that of the target of a transition
/// whose label is in the action set, and every such transition gives one.
proof fn lemma_matching_atoms_elems(a: ActV, edges: Seq<(Seq<char>, usize)>)
    ensures
        forall|m: int|
            0 <= m < matching_atoms(a, edges).len() ==> exists|j: int|
                0 <= j < edges.len() && label_matches(a, edges[j].0) && #[trigger] matching_atoms(a, edges)[m]
                    == FormulaV::Atom(edges[j].1, 0),
        forall|j: int|
            0 <= j < edges.len() && label_matches(a, #[trigger] edges[j].0) ==> matching_atoms(a, edges).contains(
                FormulaV::Atom(edges[j].1, 0),
            ),
    decreases edges.len(),
{
    if edges.len() > 0 {
        let init = edges.drop_last();
        lemma_matching_atoms_elems(a, init);
        let r = matching_atoms(a, edges);
        let q = matching_atoms(a, init);
        assert forall|m: int| 0 <= m < r.len() implies exists|j: int|
            0 <= j < edges.len() && label_matches(a, edges[j].0) && #[trigger] r[m] == FormulaV::Atom(edges[j].1, 0) by {
            if m < q.len() {
                assert(r[m] == q[m]);
                let j = choose|j: int|
                    0 <= j < init.len() && label_matches(a, init[j].0) && #[trigger] q[m] == FormulaV::Atom(init[j].1, 0);
                assert(edges[j] == init[j]);
            } else {
                assert(edges[edges.len() - 1] == edges.last());
            }
        }
        assert forall|j: int| 0 <= j < edges.len() && label_matches(a, #[trigger] edges[j].0) implies r.contains(
            FormulaV::Atom(edges[j].1, 0),
        ) by {
            if j < init.len() {
                assert(init[j] == edges[j]);
                assert(label_matches(a, init[j].0));
                let m = choose|m: int| 0 <= m < q.len() && q[m] == FormulaV::Atom(init[j].1, 0);
                assert(r[m] == q[m]);
            } else {
                assert(edges[j] == edges.last());
                assert(r[q.len() as int] == FormulaV::Atom(edges[j].1, 0));
            }
        }
    }
}

/// What a modality says of a state, in terms of its transitions.
proof fn lemma_modal_holds(a: ActV, edges: Seq<(Seq<char>, usize)>, val: spec_fn(usize) -> bool)
    ensures
        holds_v(modal_formula(FunKind::Diamond, a, edges), val) <==> exists|j: int|
            0 <= j < edges.len() && label_matches(a, edges[j].0) && val(#[trigger] edges[j].1),
        holds_v(modal_formula(FunKind::Box, a, edges), val) <==> forall|j: int|
            0 <= j < edges.len() && label_matches(a, edges[j].0) ==> val(#[trigger] edges[j].1),
{
    let r = matching_atoms(a, edges);
    lemma_matching_atoms_elems(a, edges);
    lemma_holds_all_any(r, 0, val);
    if exists|j: int| 0 <= j < edges.len() && label_matches(a, edges[j].0) && val(#[trigger] edges[j].1) {
        let j = choose|j: int| 0 <= j < edges.len() && label_matches(a, edges[j].0) && val(#[trigger] edges[j].1);
        assert(r.contains(FormulaV::Atom(edges[j].1, 0)));
        let m = choose|m: int| 0 <= m < r.len() && r[m] == FormulaV::Atom(edges[j].1, 0);
        assert(holds_v(r[m], val));
    }
    if holds_v(FormulaV::Or(r), val) {
        let m = choose|m: int| 0 <= m < r.len() && holds_v(#[trigger] r[m], val);
        let j = choose|j: int|
            0 <= j < edges.len() && label_matches(a, edges[j].0) && #[trigger] r[m] == FormulaV::Atom(edges[j].1, 0);
        assert(val(edges[j].1));
    }
    if forall|j: int| 0 <= j < edges.len() && label_matches(a, edges[j].0) ==> val(#[trigger] edges[j].1) {
        assert forall|m: int| 0 <= m < r.len() implies holds_v(#[trigger] r[m], val) by {
            let j = choose|j: int|
                0 <= j < edges.len() && label_matches(a, edges[j].0) && #[trigger] r[m] == FormulaV::Atom(edges[j].1, 0);
            assert(val(edges[j].1));
        }
    }
    if holds_v(FormulaV::And(r), val) {
        assert forall|j: int| 0 <= j < edges.len() && label_matches(a, edges[j].0) implies val(#[trigger] edges[j].1) by {
            assert(label_matches(a, edges[j].0));
            assert(r.contains(FormulaV::Atom(edges[j].1, 0)));
            let m = choose|m: int| 0 <= m < r.len() && r[m] == FormulaV::Atom(edges[j].1, 0);
            assert(holds_v(r[m], val));
        }
    }
}

/// A diamond holds at a state when some transition with a label in the action
/// set leads to a state where its argument holds, a box when every such
/// transition does: any label for `true`, the label `x` for `x`, every other
/// label for `!x`.
pub proof fn modalities_follow_the_action_set(x: Seq<char>, edges: Seq<(Seq<char>, usize)>, val: spec_fn(usize) -> bool)
    ensures
        holds_v(modal_formula(FunKind::Diamond, ActV::True, edges), val) <==> exists|j: int|
            0 <= j < edges.len() && val(#[trigger] edges[j].1),
        holds_v(modal_formula(FunKind::Box, ActV::True, edges), val) <==> forall|j: int|
            0 <= j < edges.len() ==> val(#[trigger] edges[j].1),
        holds_v(modal_formula(FunKind::Diamond, ActV::Label(x), edges), val) <==> exists|j: int|
            0 <= j < edges.len() && edges[j].0 == x && val(#[trigger] edges[j].1),
        holds_v(modal_formula(FunKind::Box, ActV::Label(x), edges), val) <==> forall|j: int|
            0 <= j < edges.len() && edges[j].0 == x ==> val(#[trigger] edges[j].1),
        holds_v(modal_formula(FunKind::Diamond, ActV::NotLabel(x), edges), val) <==> exists|j: int|
            0 <= j < edges.len() && edges[j].0 != x && val(#[trigger] edges[j].1),
        holds_v(modal_formula(FunKind::Box, ActV::NotLabel(x), edges), val) <==> forall|j: int|
            0 <= j < edges.len() && edges[j].0 != x ==> val(#[trigger] edges[j].1),
{
    lemma_modal_holds(ActV::True, edges, val);
    lemma_modal_holds(ActV::Label(x), edges, val);
    lemma_modal_holds(ActV::NotLabel(x), edges, val);
}

/// The formulas of a modality for every state.
pub open spec fn modal_formulas(
    kind: FunKind,
    a: ActV,
    trans: Seq<Seq<(Seq<char>, usize)>>,
) -> Seq<FormulaV> {
    trans.map_values(|edges: Seq<(Seq<char>, usize)>| modal_formula(kind, a, edges))
}

/// The conversion so far: the modalities met, their formulas, and the
/// equations produced.
pub struct ConvState {
    pub funcs: Seq<(FunKind, ActV)>,
    pub formulas: Seq<Seq<FormulaV>>,
    pub sys: Seq<(FixType, ExprV)>,
}

/// The first position of `x` in `s`.
pub open spec fn first_index<A>(s: Seq<A>, x: A) -> Option<int> {
    if exists|k: int| 0 <= k < s.len() && s[k] == x {
        Some(
            choose|k: int|
                0 <= k < s.len() && s[k] == x && forall|j: int| 0 <= j < k ==> s[j] != x,
        )
    } else {
        None
    }
}

pub proof fn lemma_first_index<A>(s: Seq<A>, x: A, i: int)
    requires
        0 <= i <= s.len(),
        forall|j: int| 0 <= j < i ==> s[j] != x,
        i < s.len() ==> s[i] == x,
    ensures
        first_index(s, x) == if i < s.len() {
            Some(i)
        } else {
            None::<int>
        },
{
    if i < s.len() {
        let k = choose|k: int|
            0 <= k < s.len() && s[k] == x && forall|j: int| 0 <= j < k ==> s[j] != x;
        assert(exists|k: int|
            0 <= k < s.len() && s[k] == x && forall|j: int| 0 <= j < k ==> s[j] != x) by {
            assert(s[i] == x);
        }
        if k < i {
        } else if k > i {
            assert(s[i] != x);
        }
    }
}

/// The function symbol of a modality: the one already met, or a new one
/// with the formulas of the modality for every state.
pub open spec fn intern_fun(
    st: ConvState,
    kind: FunKind,
    a: ActV,
    trans: Seq<Seq<(Seq<char>, usize)>>,
) -> (int, ConvState) {
    match first_index(st.funcs, (kind, a)) {
        Some(k) => (k, st),
        None => (
            st.funcs.len() as int,
            ConvState {
                funcs: st.funcs.push((kind, a)),
                formulas: st.formulas.push(modal_formulas(kind, a, trans)),
                sys: st.sys,
            },
        ),
    }
}

/// The conversion of a formula, given the variables in the order of their
/// equations: a variable is its equation, a modality applies its function
/// symbol, and a fixpoint adds the equation of its body and stands for it.
pub open spec fn conv_spec(
    f: MuCalcV,
    vars: Seq<Seq<char>>,
    trans: Seq<Seq<(Seq<char>, usize)>>,
    st: ConvState,
) -> (ExprV, ConvState)
    decreases f,
{
    match f {
        MuCalcV::Var(x) => (ExprV::Var(first_index(vars, x)->0 as usize), st),
        MuCalcV::Diamond(a, e) => {
            let (fid, st1) = intern_fun(st, FunKind::Diamond, a, trans);
            let (x, st2) = conv_spec(*e, vars, trans, st1);
            (ExprV::Fun(fid as usize, seq![x]), st2)
        },
        MuCalcV::Box(a, e) => {
            let (fid, st1) = intern_fun(st, FunKind::Box, a, trans);
            let (x, st2) = conv_spec(*e, vars, trans, st1);
            (ExprV::Fun(fid as usize, seq![x]), st2)
        },
        MuCalcV::And(es) => {
            let (xs, st1) = conv_list(es, vars, trans, st);
            (ExprV::And(xs), st1)
        },
        MuCalcV::Or(es) => {
            let (xs, st1) = conv_list(es, vars, trans, st);
            (ExprV::Or(xs), st1)
        },
        MuCalcV::Mu(_, e) => {
            let (x, st1) = conv_spec(*e, vars, trans, st);
            (
                ExprV::Var(st1.sys.len() as usize),
                ConvState { sys: st1.sys.push((FixType::Min, x)), ..st1 },
            )
        },
        MuCalcV::Nu(_, e) => {
            let (x, st1) = conv_spec(*e, vars, trans, st);
            (
                ExprV::Var(st1.sys.len() as usize),
                ConvState { sys: st1.sys.push((FixType::Max, x)), ..st1 },
            )
        },
    }
}

/// The conversions of formulas, left to right.
pub open spec fn conv_list(
    es: Seq<MuCalcV>,
    vars: Seq<Seq<char>>,
    trans: Seq<Seq<(Seq<char>, usize)>>,
    st: ConvState,
) -> (Seq<ExprV>, ConvState)
    decreases es,
{
    if es.len() == 0 {
        (Seq::empty(), st)
    } else {
        let (xs, st1) = conv_list(es.drop_last(), vars, trans, st);
        let (x, st2) = conv_spec(es.last(), vars, trans, st1);
        (xs.push(x), st2)
    }
}

/// The equations of a formula over a transition system, one per fixpoint
/// with the innermost first, and the formulas of its modalities for every
/// state.
pub open spec fn spec_mucalc_to_fix(f: MuCalcV, trans: Seq<Seq<(Seq<char>, usize)>>) -> (
    Seq<(FixType, ExprV)>,
    Seq<Seq<FormulaV>>,
) {
    let st = conv_spec(
        f,
        binders(f),
        trans,
        ConvState { funcs: Seq::empty(), formulas: Seq::empty(), sys: Seq::empty() },
    ).1;
    (st.sys, st.formulas)
}


/// Every variable of the formula is one of `vars`.
pub open spec fn uses_only(f: MuCalcV, vars: Seq<Seq<char>>) -> bool
    decreases f,
{
    match f {
        MuCalcV::Var(x) => vars.contains(x),
        MuCalcV::Diamond(_, e) => uses_only(*e, vars),
        MuCalcV::Box(_, e) => uses_only(*e, vars),
        MuCalcV::And(es) => forall|k: int| 0 <= k < es.len() ==> uses_only(#[trigger] es[k], vars),
        MuCalcV::Or(es) => forall|k: int| 0 <= k < es.len() ==> uses_only(#[trigger] es[k], vars),
        MuCalcV::Mu(_, e) => uses_only(*e, vars),
        MuCalcV::Nu(_, e) => uses_only(*e, vars),
    }
}

/// The elements of a conjunction or disjunction use only the names it uses.
proof fn lemma_uses_only_items(f: MuCalcV, vars: Seq<Seq<char>>, k: int)
    requires
        uses_only(f, vars),
        f is And || f is Or,
        0 <= k < (if f is And { f->And_0 } else { f->Or_0 }).len(),
    ensures
        uses_only((if f is And { f->And_0 } else { f->Or_0 })[k], vars),
{
}

/// The binders of an element of a list are binders of the list.
proof fn lemma_binders_list(es: Seq<MuCalcV>, k: int, y: Seq<char>)
    requires
        0 <= k < es.len(),
        binders(es[k]).contains(y),
    ensures
        binders_list(es).contains(y),
    decreases es.len(),
{
    let l = binders_list(es.drop_last());
    let r = binders(es.last());
    if k == es.len() - 1 {
        let j = choose|j: int| 0 <= j < r.len() && r[j] == y;
        assert((l + r)[l.len() + j] == y);
    } else {
        lemma_binders_list(es.drop_last(), k, y);
        let j = choose|j: int| 0 <= j < l.len() && l[j] == y;
        assert((l + r)[j] == y);
    }
}

/// A formula whose variables are bound within it or around it by names of
/// `vars`, and whose binders are in `vars`, uses only names of `vars`.
proof fn lemma_scoped_uses_only(f: MuCalcV, bound: Set<Seq<char>>, vars: Seq<Seq<char>>)
    requires
        scoped(f, bound),
        forall|y: Seq<char>| bound.contains(y) ==> vars.contains(y),
        forall|y: Seq<char>| binders(f).contains(y) ==> vars.contains(y),
    ensures
        uses_only(f, vars),
    decreases f,
{
    match f {
        MuCalcV::Var(_) => {},
        MuCalcV::Diamond(_, e) => {
            lemma_scoped_uses_only(*e, bound, vars);
        },
        MuCalcV::Box(_, e) => {
            lemma_scoped_uses_only(*e, bound, vars);
        },
        MuCalcV::And(es) => {
            assert forall|k: int| 0 <= k < es.len() implies uses_only(#[trigger] es[k], vars) by {
                assert forall|y: Seq<char>| binders(es[k]).contains(y) implies vars.contains(y) by {
                    lemma_binders_list(es, k, y);
                }
                lemma_scoped_uses_only(es[k], bound, vars);
            }
        },
        MuCalcV::Or(es) => {
            assert forall|k: int| 0 <= k < es.len() implies uses_only(#[trigger] es[k], vars) by {
                assert forall|y: Seq<char>| binders(es[k]).contains(y) implies vars.contains(y) by {
                    lemma_binders_list(es, k, y);
                }
                lemma_scoped_uses_only(es[k], bound, vars);
            }
        },
        MuCalcV::Mu(x, e) => {
            let b = binders(*e).push(x);
            assert(b[b.len() - 1] == x);
            assert forall|y: Seq<char>| binders(*e).contains(y) implies vars.contains(y) by {
                let j = choose|j: int| 0 <= j < binders(*e).len() && binders(*e)[j] == y;
                assert(b[j] == y);
            }
            lemma_scoped_uses_only(*e, bound.insert(x), vars);
        },
        MuCalcV::Nu(x, e) => {
            let b = binders(*e).push(x);
            assert(b[b.len() - 1] == x);
            assert forall|y: Seq<char>| binders(*e).contains(y) implies vars.contains(y) by {
                let j = choose|j: int| 0 <= j < binders(*e).len() && binders(*e)[j] == y;
                assert(b[j] == y);
            }
            lemma_scoped_uses_only(*e, bound.insert(x), vars);
        },
    }
}

/// Whether an action with this label belongs to the action set.
fn label_matches_exec(act: &Act, label: &String) -> (r: bool)
    ensures
        r == label_matches(act.view(), label@),
{
    match act {
        Act::True => true,
        Act::Label(x) => *x == *label,
        Act::NotLabel(x) => !(*x == *label),
    }
}

fn act_clone(a: &Act) -> (r: Act)
    ensures
        r.view() == a.view(),
{
    match a {
        Act::True => Act::True,
        Act::Label(x) => Act::Label(x.clone()),
        Act::NotLabel(x) => Act::NotLabel(x.clone()),
    }
}

fn act_eq(a: &Act, b: &Act) -> (r: bool)
    ensures
        r == (a.view() == b.view()),
{
    match (a, b) {
        (Act::True, Act::True) => true,
        (Act::Label(x), Act::Label(y)) => *x == *y,
        (Act::NotLabel(x), Act::NotLabel(y)) => *x == *y,
        _ => false,
    }
}

/// The formula of a modality for a state with these transitions.
fn make_formula(kind: FunKind, act: &Act, edges: &Vec<(String, StateId)>) -> (r: Formula)
    ensures
        formula_view(r) == modal_formula(kind, act.view(), edges_view(*edges)),
{
    let ghost ev = edges_view(*edges);
    let mut atoms: Vec<Formula> = Vec::new();
    let mut k: usize = 0;
    proof {
        assert(formula_views(atoms@) =~= Seq::<FormulaV>::empty());
        assert(ev.take(0) =~= Seq::<(Seq<char>, usize)>::empty());
    }
    while k < edges.len()
        invariant
            k <= edges@.len(),
            ev == edges_view(*edges),
            ev.len() == edges@.len(),
            formula_views(atoms@) == matching_atoms(act.view(), ev.take(k as int)),
        decreases edges@.len() - k,
    {
        let ghost before = atoms@;
        if label_matches_exec(act, &edges[k].0) {
            let atom = Formula::Atom(edges[k].1.to_basis_elem(), VarId(0));
            proof {
                lemma_formula_views_push(atoms@, atom);
            }
            atoms.push(atom);
        }
        proof {
            assert(ev.take(k + 1).drop_last() =~= ev.take(k as int));
            assert(ev.take(k + 1).last() == ev[k as int]);
        }
        k = k + 1;
    }
    proof {
        assert(ev.take(k as int) =~= ev);
    }
    match kind {
        FunKind::Diamond => Formula::Or(atoms),
        FunKind::Box => Formula::And(atoms),
    }
}

/// The state of the conversion of a formula.
struct ConvContext<'a> {
    lts: &'a Lts,
    // The modalities met, each with its function symbol (its position).
    funcs: Vec<(FunKind, Act)>,
    // The variables, each with its equation (its position).
    vars: Vec<String>,
    // For each function symbol, its formula for every state.
    formulas: Vec<Vec<Formula>>,
    // The equations produced.
    sys: Vec<FixEq>,
}

impl<'a> ConvContext<'a> {
    spec fn funcs_view(&self) -> Seq<(FunKind, ActV)> {
        self.funcs@.map_values(|p: (FunKind, Act)| (p.0, p.1.view()))
    }

    spec fn vars_view(&self) -> Seq<Seq<char>> {
        self.vars@.map_values(|x: String| x@)
    }

    spec fn state(&self) -> ConvState {
        ConvState {
            funcs: self.funcs_view(),
            formulas: formula_table_view(self.formulas@),
            sys: eqs_view(self.sys@),
        }
    }

    /// Records the variables bound in `f`, innermost first, so that each
    /// variable has the position of its equation.
    fn gather_vars(&mut self, f: &MuCalc)
        ensures
            final(self).vars_view() == old(self).vars_view() + binders(mu_view(*f)),
            final(self).lts == old(self).lts,
            final(self).funcs == old(self).funcs,
            final(self).formulas == old(self).formulas,
            final(self).sys == old(self).sys,
        decreases *f,
    {
        let ghost v0 = self.vars_view();
        match f {
            MuCalc::Var(_) => {
                proof {
                    assert(v0 + Seq::<Seq<char>>::empty() =~= v0);
                }
            },
            MuCalc::Diamond(_, e) => self.gather_vars(e),
            MuCalc::Box(_, e) => self.gather_vars(e),
            MuCalc::And(es) | MuCalc::Or(es) => {
                proof {
                    assert(decreases_to!(*f => *es));
                    assert(decreases_to!(*es => es@));
                    lemma_mu_views(es@);
                }
                let ghost ev = mu_views(es@);
                let mut k: usize = 0;
                proof {
                    assert(ev.take(0) =~= Seq::<MuCalcV>::empty());
                    assert(v0 + Seq::<Seq<char>>::empty() =~= v0);
                }
                #[verifier::loop_isolation(false)]
                while k < es.len()
                    invariant
                        k <= es@.len(),
                        self.vars_view() == v0 + binders_list(ev.take(k as int)),
                        self.lts == old(self).lts,
                        self.funcs == old(self).funcs,
                        self.formulas == old(self).formulas,
                        self.sys == old(self).sys,
                    decreases es@.len() - k,
                {
                    proof {
                        assert(decreases_to!(es@ => es@[k as int]));
                    }
                    self.gather_vars(&es[k]);
                    proof {
                        assert(ev.take(k + 1).drop_last() =~= ev.take(k as int));
                        assert(ev.take(k + 1).last() == mu_view(es@[k as int]));
                        assert(self.vars_view() =~= v0 + binders_list(ev.take(k + 1)));
                    }
                    k = k + 1;
                }
                proof {
                    assert(ev.take(k as int) =~= ev);
                }
            },
            MuCalc::Mu(x, e) | MuCalc::Nu(x, e) => {
                self.gather_vars(e);
                let ghost v1 = self.vars_view();
                self.vars.push(x.0.clone());
                proof {
                    assert(self.vars_view() =~= v1.push(x.0@));
                    assert(self.vars_view() =~= v0 + binders(mu_view(*f)));
                }
            },
        }
    }
}


impl<'a> ConvContext<'a> {
    /// The function symbol of the modality, if it was met.
    fn find_fun(&self, kind: FunKind, act: &Act) -> (r: Option<usize>)
        ensures
            match first_index(self.funcs_view(), (kind, act.view())) {
                Some(k) => r is Some && r->0 == k,
                None => r is None,
            },
    {
        let mut i: usize = 0;
        while i < self.funcs.len()
            invariant
                i <= self.funcs@.len(),
                forall|j: int| 0 <= j < i ==> self.funcs_view()[j] != (kind, act.view()),
            decreases self.funcs@.len() - i,
        {
            if self.funcs[i].0 == kind && act_eq(&self.funcs[i].1, act) {
                proof {
                    lemma_first_index(self.funcs_view(), (kind, act.view()), i as int);
                }
                return Some(i);
            }
            i = i + 1;
        }
        proof {
            lemma_first_index(self.funcs_view(), (kind, act.view()), i as int);
        }
        None
    }

    /// The equation of the variable named `x`, which is one of the variables.
    fn var_index(&self, x: &String) -> (r: usize)
        requires
            self.vars_view().contains(x@),
        ensures
            first_index(self.vars_view(), x@) == Some(r as int),
    {
        let mut i: usize = 0;
        while i < self.vars.len()
            invariant
                i <= self.vars@.len(),
                self.vars_view().contains(x@),
                forall|j: int| 0 <= j < i ==> self.vars_view()[j] != x@,
            decreases self.vars@.len() - i,
        {
            if self.vars[i] == *x {
                proof {
                    lemma_first_index(self.vars_view(), x@, i as int);
                }
                return i;
            }
            i = i + 1;
        }
        proof {
            let j = choose|j: int| 0 <= j < self.vars_view().len() && self.vars_view()[j] == x@;
            assert(false);
        }
        0
    }

    /// The function symbol of a modality, added with its formulas for every
    /// state when it is new.
    fn intern(&mut self, kind: FunKind, act: &Act) -> (r: usize)
        requires
            old(self).funcs@.len() == old(self).formulas@.len(),
        ensures
            final(self).funcs@.len() == final(self).formulas@.len(),
            (r as int, final(self).state()) == intern_fun(
                old(self).state(),
                kind,
                act.view(),
                old(self).lts.trans_view(),
            ),
            final(self).lts == old(self).lts,
            final(self).vars == old(self).vars,
            final(self).sys == old(self).sys,
    {
        match self.find_fun(kind, act) {
            Some(i) => i,
            None => {
                let ghost tv = self.lts.trans_view();
                let mut row: Vec<Formula> = Vec::new();
                let mut b: usize = 0;
                proof {
                    assert(formula_views(row@) =~= tv.take(0).map_values(
                        |edges: Seq<(Seq<char>, usize)>| modal_formula(kind, act.view(), edges),
                    ));
                }
                while b < self.lts.transitions.len()
                    invariant
                        b <= self.lts.transitions@.len(),
                        tv == self.lts.trans_view(),
                        formula_views(row@) == tv.take(b as int).map_values(
                            |edges: Seq<(Seq<char>, usize)>| modal_formula(kind, act.view(), edges),
                        ),
                    decreases self.lts.transitions@.len() - b,
                {
                    let f = make_formula(kind, act, &self.lts.transitions[b]);
                    proof {
                        lemma_formula_views_push(row@, f);
                    }
                    row.push(f);
                    proof {
                        assert(formula_views(row@) =~= tv.take(b + 1).map_values(
                            |edges: Seq<(Seq<char>, usize)>| modal_formula(kind, act.view(), edges),
                        ));
                    }
                    b = b + 1;
                }
                proof {
                    assert(tv.take(b as int) =~= tv);
                }
                let ghost f0 = self.formulas@;
                let ghost fv0 = self.funcs_view();
                self.funcs.push((kind, act_clone(act)));
                self.formulas.push(row);
                proof {
                    assert(self.funcs_view() =~= fv0.push((kind, act.view())));
                    assert(formula_table_view(self.formulas@) =~= formula_table_view(f0).push(
                        formula_views(row@),
                    ));
                }
                self.funcs.len() - 1
            },
        }
    }

    /// The expression that `f` turns into; its fixpoints add their
    /// equations, its modalities their function symbols.
    fn conv(&mut self, f: &MuCalc) -> (r: Expr)
        requires
            old(self).funcs@.len() == old(self).formulas@.len(),
            uses_only(mu_view(*f), old(self).vars_view()),
        ensures
            final(self).funcs@.len() == final(self).formulas@.len(),
            (expr_view(r), final(self).state()) == conv_spec(
                mu_view(*f),
                old(self).vars_view(),
                old(self).lts.trans_view(),
                old(self).state(),
            ),
            final(self).lts == old(self).lts,
            final(self).vars == old(self).vars,
        decreases *f, 0int,
    {
        match f {
            MuCalc::Var(x) => {
                let i = self.var_index(&x.0);
                Expr::Var(VarId(i))
            },
            MuCalc::Diamond(a, e) => self.conv_modal(FunKind::Diamond, a, e),
            MuCalc::Box(a, e) => self.conv_modal(FunKind::Box, a, e),
            MuCalc::And(es) => {
                proof {
                    assert(decreases_to!(*f => *es));
                    lemma_mu_views(es@);
                    assert forall|k: int| 0 <= k < es@.len() implies uses_only(
                        #[trigger] mu_view(es@[k]),
                        self.vars_view(),
                    ) by {
                        assert(mu_view(*f) == MuCalcV::And(mu_views(es@)));
                        lemma_uses_only_items(mu_view(*f), old(self).vars_view(), k);
                        assert(mu_views(es@)[k] == mu_view(es@[k]));
                    }
                }
                let xs = self.conv_all(es);
                Expr::And(xs)
            },
            MuCalc::Or(es) => {
                proof {
                    assert(decreases_to!(*f => *es));
                    lemma_mu_views(es@);
                    assert forall|k: int| 0 <= k < es@.len() implies uses_only(
                        #[trigger] mu_view(es@[k]),
                        self.vars_view(),
                    ) by {
                        assert(mu_view(*f) == MuCalcV::Or(mu_views(es@)));
                        lemma_uses_only_items(mu_view(*f), old(self).vars_view(), k);
                        assert(mu_views(es@)[k] == mu_view(es@[k]));
                    }
                }
                let xs = self.conv_all(es);
                Expr::Or(xs)
            },
            MuCalc::Mu(x, e) => self.conv_fix(FixType::Min, x, e),
            MuCalc::Nu(x, e) => self.conv_fix(FixType::Max, x, e),
        }
    }

    /// A modality: its function symbol applied to the conversion of `e`.
    fn conv_modal(&mut self, kind: FunKind, act: &Act, e: &MuCalc) -> (r: Expr)
        requires
            old(self).funcs@.len() == old(self).formulas@.len(),
            uses_only(mu_view(*e), old(self).vars_view()),
        ensures
            final(self).funcs@.len() == final(self).formulas@.len(),
            ({
                let (fid, st1) = intern_fun(old(self).state(), kind, act.view(), old(self).lts.trans_view());
                let (x, st2) = conv_spec(mu_view(*e), old(self).vars_view(), old(self).lts.trans_view(), st1);
                (expr_view(r), final(self).state()) == (ExprV::Fun(fid as usize, seq![x]), st2)
            }),
            final(self).lts == old(self).lts,
            final(self).vars == old(self).vars,
        decreases *e, 1int,
    {
        let fun = self.intern(kind, act);
        let x = self.conv(e);
        let mut args: Vec<Expr> = Vec::new();
        proof {
            lemma_expr_views_push(args@, x);
            assert(args@.push(x) == seq![x]) by {
                assert(args@.push(x) =~= seq![x]);
            }
            assert(expr_views(args@) =~= Seq::<ExprV>::empty());
            assert(Seq::<ExprV>::empty().push(expr_view(x)) =~= seq![expr_view(x)]);
        }
        args.push(x);
        Expr::Fun(FunId(fun), args)
    }

    /// The conversions of the formulas, left to right.
    fn conv_all(&mut self, es: &Vec<MuCalc>) -> (r: Vec<Expr>)
        requires
            old(self).funcs@.len() == old(self).formulas@.len(),
            forall|k: int| 0 <= k < es@.len() ==> uses_only(#[trigger] mu_view(es@[k]), old(self).vars_view()),
        ensures
            final(self).funcs@.len() == final(self).formulas@.len(),
            (expr_views(r@), final(self).state()) == conv_list(
                mu_views(es@),
                old(self).vars_view(),
                old(self).lts.trans_view(),
                old(self).state(),
            ),
            final(self).lts == old(self).lts,
            final(self).vars == old(self).vars,
        decreases *es, 1int,
    {
        proof {
            assert(decreases_to!(*es => es@));
            lemma_mu_views(es@);
        }
        let ghost ev = mu_views(es@);
        let ghost vv = self.vars_view();
        let ghost tv = self.lts.trans_view();
        let ghost st0 = self.state();
        let mut xs: Vec<Expr> = Vec::new();
        let mut k: usize = 0;
        proof {
            assert(ev.take(0) =~= Seq::<MuCalcV>::empty());
            assert(expr_views(xs@) =~= Seq::<ExprV>::empty());
        }
        #[verifier::loop_isolation(false)]
        while k < es.len()
            invariant
                k <= es@.len(),
                self.funcs@.len() == self.formulas@.len(),
                self.lts == old(self).lts,
                self.vars == old(self).vars,
                (expr_views(xs@), self.state()) == conv_list(ev.take(k as int), vv, tv, st0),
            decreases es@.len() - k,
        {
            proof {
                assert(decreases_to!(es@ => es@[k as int]));
                assert(uses_only(mu_view(es@[k as int]), vv));
            }
            let x = self.conv(&es[k]);
            proof {
                lemma_expr_views_push(xs@, x);
                assert(ev.take(k + 1).drop_last() =~= ev.take(k as int));
                assert(ev.take(k + 1).last() == mu_view(es@[k as int]));
            }
            xs.push(x);
            k = k + 1;
        }
        proof {
            assert(ev.take(k as int) =~= ev);
        }
        xs
    }

    /// A fixpoint: the equation of its body, which it then stands for.
    fn conv_fix(&mut self, fix_type: FixType, x: &Var, e: &MuCalc) -> (r: Expr)
        requires
            old(self).funcs@.len() == old(self).formulas@.len(),
            uses_only(mu_view(*e), old(self).vars_view()),
        ensures
            final(self).funcs@.len() == final(self).formulas@.len(),
            ({
                let (body, st1) = conv_spec(mu_view(*e), old(self).vars_view(), old(self).lts.trans_view(), old(self).state());
                (expr_view(r), final(self).state()) == (
                    ExprV::Var(st1.sys.len() as usize),
                    ConvState { sys: st1.sys.push((fix_type, body)), ..st1 },
                )
            }),
            final(self).lts == old(self).lts,
            final(self).vars == old(self).vars,
        decreases *e, 1int,
    {
        let expr = self.conv(e);
        let i = self.sys.len();
        let ghost s0 = self.sys@;
        self.sys.push(FixEq { fix_type, expr });
        proof {
            assert(eqs_view(self.sys@) =~= eqs_view(s0).push((fix_type, expr_view(expr))));
        }
        Expr::Var(VarId(i))
    }
}

/// Turns a formula into fixpoint equations over the states of `lts`:
/// one equation per fixpoint, innermost first, the last one being the root;
/// and the formulas that its modalities stand for at every state.
pub fn mucalc_to_fix(mu_calc: &MuCalc, lts: &Lts) -> (r: (Vec<FixEq>, FunsFormulas))
    requires
        closed_formula(mu_view(*mu_calc)),
    ensures
        eqs_view(r.0@) == spec_mucalc_to_fix(mu_view(*mu_calc), lts.trans_view()).0,
        r.1.well_formed(),
        r.1.table() == spec_mucalc_to_fix(mu_view(*mu_calc), lts.trans_view()).1,
{
    let mut ctx = ConvContext {
        lts,
        funcs: Vec::new(),
        vars: Vec::new(),
        formulas: Vec::new(),
        sys: Vec::new(),
    };
    proof {
        assert(ctx.vars_view() =~= Seq::<Seq<char>>::empty());
    }
    ctx.gather_vars(mu_calc);
    proof {
        let f = mu_view(*mu_calc);
        assert(ctx.vars_view() =~= binders(f));
        lemma_scoped_uses_only(f, Set::empty(), binders(f));
        assert(ctx.state() == ConvState { funcs: Seq::empty(), formulas: Seq::empty(), sys: Seq::empty() }) by {
            assert(ctx.funcs_view() =~= Seq::<(FunKind, ActV)>::empty());
            assert(formula_table_view(ctx.formulas@) =~= Seq::<Seq<FormulaV>>::empty());
            assert(eqs_view(ctx.sys@) =~= Seq::<(FixType, ExprV)>::empty());
        }
    }
    ctx.conv(mu_calc);
    (ctx.sys, FunsFormulas::new(ctx.formulas))
}


/// Why a formula cannot be turned into equations.
#[derive(Clone, Copy, Debug, PartialEq, Eq, Structural)]
pub enum ConvError {
    /// The root of the formula is not a fixpoint.
    NotFixpointRoot,
    /// Two fixpoints bind the same variable.
    DeclaredTwice,
    /// A variable stands outside every fixpoint binding it.
    NotInScope,
}

/// The names bound in `f`, appended to `out`.
fn collect_binders(f: &MuCalc, out: &mut Vec<String>)
    ensures
        final(out)@.map_values(|x: String| x@) == old(out)@.map_values(|x: String| x@) + binders(
            mu_view(*f),
        ),
    decreases *f,
{
    let ghost v0 = out@.map_values(|x: String| x@);
    match f {
        MuCalc::Var(_) => {
            proof {
                assert(v0 + Seq::<Seq<char>>::empty() =~= v0);
            }
        },
        MuCalc::Diamond(_, e) => collect_binders(e, out),
        MuCalc::Box(_, e) => collect_binders(e, out),
        MuCalc::And(es) | MuCalc::Or(es) => {
            proof {
                assert(decreases_to!(*f => *es));
                assert(decreases_to!(*es => es@));
                lemma_mu_views(es@);
            }
            let ghost ev = mu_views(es@);
            let mut k: usize = 0;
            proof {
                assert(ev.take(0) =~= Seq::<MuCalcV>::empty());
                assert(v0 + Seq::<Seq<char>>::empty() =~= v0);
            }
            #[verifier::loop_isolation(false)]
            while k < es.len()
                invariant
                    k <= es@.len(),
                    ev == mu_views(es@),
                    ev.len() == es@.len(),
                    forall|j: int| 0 <= j < es@.len() ==> #[trigger] ev[j] == mu_view(es@[j]),
                    out@.map_values(|x: String| x@) == v0 + binders_list(ev.take(k as int)),
                decreases es@.len() - k,
            {
                proof {
                    assert(decreases_to!(es@ => es@[k as int]));
                }
                collect_binders(&es[k], out);
                proof {
                    assert(ev.take(k + 1).drop_last() =~= ev.take(k as int));
                    assert(ev.take(k + 1).last() == mu_view(es@[k as int]));
                    assert(out@.map_values(|x: String| x@) =~= v0 + binders_list(ev.take(k + 1)));
                }
                k = k + 1;
            }
            proof {
                assert(ev.take(k as int) =~= ev);
            }
        },
        MuCalc::Mu(x, e) | MuCalc::Nu(x, e) => {
            collect_binders(e, out);
            let ghost v1 = out@.map_values(|x: String| x@);
            out.push(x.0.clone());
            proof {
                assert(out@.map_values(|x: String| x@) =~= v1.push(x.0@));
                assert(out@.map_values(|x: String| x@) =~= v0 + binders(mu_view(*f)));
            }
        },
    }
}

/// Whether the names are all different.
fn all_different(names: &Vec<String>) -> (r: bool)
    ensures
        r == names@.map_values(|x: String| x@).no_duplicates(),
{
    let ghost nv = names@.map_values(|x: String| x@);
    let mut i: usize = 0;
    while i < names.len()
        invariant
            i <= names@.len(),
            nv == names@.map_values(|x: String| x@),
            forall|a: int, b: int| 0 <= a < b < names@.len() && a < i ==> nv[a] != nv[b],
        decreases names@.len() - i,
    {
        let mut j: usize = i + 1;
        while j < names.len()
            invariant
                i < names@.len(),
                i + 1 <= j <= names@.len(),
                nv == names@.map_values(|x: String| x@),
                forall|a: int, b: int| 0 <= a < b < names@.len() && a < i ==> nv[a] != nv[b],
                forall|b: int| i < b < j ==> nv[i as int] != nv[b],
            decreases names@.len() - j,
        {
            if names[i] == names[j] {
                proof {
                    assert(nv[i as int] == nv[j as int]);
                }
                return false;
            }
            j = j + 1;
        }
        i = i + 1;
    }
    true
}

/// The set of the names.
pub open spec fn name_set(names: Seq<Seq<char>>) -> Set<Seq<char>> {
    Set::new(|y: Seq<char>| names.contains(y))
}

proof fn lemma_scoped_items(f: MuCalcV, bound: Set<Seq<char>>, k: int)
    requires
        scoped(f, bound),
        f is And || f is Or,
        0 <= k < (if f is And { f->And_0 } else { f->Or_0 }).len(),
    ensures
        scoped((if f is And { f->And_0 } else { f->Or_0 })[k], bound),
{
}

proof fn lemma_name_set_push(b0: Seq<Seq<char>>, x: Seq<char>)
    ensures
        name_set(b0.push(x)) == name_set(b0).insert(x),
{
    assert forall|y: Seq<char>| b0.push(x).contains(y) <==> (b0.contains(y) || y == x) by {
        if b0.push(x).contains(y) {
            let j = choose|j: int| 0 <= j < b0.len() + 1 && b0.push(x)[j] == y;
            if j < b0.len() {
                assert(b0[j] == y);
            }
        }
        if b0.contains(y) {
            let j = choose|j: int| 0 <= j < b0.len() && b0[j] == y;
            assert(b0.push(x)[j] == y);
        }
        if y == x {
            assert(b0.push(x)[b0.len() as int] == y);
        }
    }
    assert forall|y: Seq<char>| #[trigger] name_set(b0.push(x)).contains(y) == name_set(b0).insert(
        x,
    ).contains(y) by {
        assert(name_set(b0.push(x)).contains(y) == b0.push(x).contains(y));
        assert(name_set(b0).contains(y) == b0.contains(y));
    }
    assert(name_set(b0.push(x)) =~= name_set(b0).insert(x));
}

/// Whether every variable of `f` stands inside a fixpoint binding it, where
/// `bound` holds the names bound around `f`.
fn is_scoped(f: &MuCalc, bound: &mut Vec<String>) -> (r: bool)
    ensures
        r == scoped(mu_view(*f), name_set(old(bound)@.map_values(|x: String| x@))),
        final(bound)@.map_values(|x: String| x@) == old(bound)@.map_values(|x: String| x@),
    decreases *f,
{
    let ghost b0 = bound@.map_values(|x: String| x@);
    match f {
        MuCalc::Var(x) => {
            let mut i: usize = 0;
            #[verifier::loop_isolation(false)]
            while i < bound.len()
                invariant
                    i <= bound@.len(),
                    b0 == bound@.map_values(|x: String| x@),
                    forall|j: int| 0 <= j < i ==> b0[j] != x.0@,
                decreases bound@.len() - i,
            {
                if bound[i] == x.0 {
                    proof {
                        assert(b0[i as int] == x.0@);
                        assert(b0.contains(x.0@));
                        assert(name_set(b0).contains(x.0@));
                        assert(mu_view(*f) == MuCalcV::Var(x.0@));
                        assert(scoped(mu_view(*f), name_set(b0)));
                    }
                    return true;
                }
                i = i + 1;
            }
            false
        },
        MuCalc::Diamond(_, e) => is_scoped(e, bound),
        MuCalc::Box(_, e) => is_scoped(e, bound),
        MuCalc::And(es) | MuCalc::Or(es) => {
            proof {
                assert(decreases_to!(*f => *es));
                assert(decreases_to!(*es => es@));
                lemma_mu_views(es@);
            }
            let ghost ev = mu_views(es@);
            let mut k: usize = 0;
            #[verifier::loop_isolation(false)]
            while k < es.len()
                invariant
                    k <= es@.len(),
                    ev == mu_views(es@),
                    ev.len() == es@.len(),
                    forall|j: int| 0 <= j < es@.len() ==> #[trigger] ev[j] == mu_view(es@[j]),
                    bound@.map_values(|x: String| x@) == b0,
                    forall|j: int| 0 <= j < k ==> scoped(#[trigger] ev[j], name_set(b0)),
                decreases es@.len() - k,
            {
                proof {
                    assert(decreases_to!(es@ => es@[k as int]));
                }
                if !is_scoped(&es[k], bound) {
                    proof {
                        assert(!scoped(ev[k as int], name_set(b0)));
                        if scoped(mu_view(*f), name_set(b0)) {
                            lemma_scoped_items(mu_view(*f), name_set(b0), k as int);
                        }
                    }
                    return false;
                }
                k = k + 1;
            }
            true
        },
        MuCalc::Mu(x, e) | MuCalc::Nu(x, e) => {
            bound.push(x.0.clone());
            proof {
                assert(bound@.map_values(|x: String| x@) =~= b0.push(x.0@));
                lemma_name_set_push(b0, x.0@);
            }
            let r = is_scoped(e, bound);
            let ghost before_pop = bound@;
            bound.pop();
            proof {
                let bp = before_pop.map_values(|x: String| x@);
                assert(bp == b0.push(x.0@));
                assert forall|i: int| 0 <= i < b0.len() implies bound@.map_values(|x: String| x@)[i]
                    == b0[i] by {
                    assert(bound@[i] == before_pop[i]);
                    assert(bp[i] == b0.push(x.0@)[i]);
                }
                assert(bound@.map_values(|x: String| x@) =~= b0);
            }
            r
        },
    }
}

/// Checks that a formula can be turned into equations, in the order the
/// conversion would find the problems: a fixpoint at the root, each
/// variable bound once, each variable inside a fixpoint binding it.
pub fn check_mucalc(f: &MuCalc) -> (r: Result<(), ConvError>)
    ensures
        r == if !(mu_view(*f) is Mu || mu_view(*f) is Nu) {
            Err(ConvError::NotFixpointRoot)
        } else if !binders(mu_view(*f)).no_duplicates() {
            Err(ConvError::DeclaredTwice)
        } else if !scoped(mu_view(*f), Set::empty()) {
            Err(ConvError::NotInScope)
        } else {
            Ok(())
        },
        r is Ok <==> closed_formula(mu_view(*f)),
{
    match f {
        MuCalc::Mu(_, _) | MuCalc::Nu(_, _) => {},
        _ => {
            return Err(ConvError::NotFixpointRoot);
        },
    }
    let mut names: Vec<String> = Vec::new();
    proof {
        assert(names@.map_values(|x: String| x@) =~= Seq::<Seq<char>>::empty());
    }
    collect_binders(f, &mut names);
    proof {
        assert(names@.map_values(|x: String| x@) =~= binders(mu_view(*f)));
    }
    if !all_different(&names) {
        return Err(ConvError::DeclaredTwice);
    }
    let mut bound: Vec<String> = Vec::new();
    proof {
        assert(name_set(bound@.map_values(|x: String| x@)) =~= Set::<Seq<char>>::empty());
    }
    if !is_scoped(f, &mut bound) {
        return Err(ConvError::NotInScope);
    }
    Ok(())
}


proof fn lemma_conv_counts(
    f: MuCalcV,
    vars: Seq<Seq<char>>,
    trans: Seq<Seq<(Seq<char>, usize)>>,
    st: ConvState,
)
    ensures
        conv_spec(f, vars, trans, st).1.sys.len() == st.sys.len() + binders(f).len(),
    decreases f, 1int,
{
    match f {
        MuCalcV::Var(_) => {},
        MuCalcV::Diamond(a, e) => {
            lemma_conv_counts(*e, vars, trans, intern_fun(st, FunKind::Diamond, a, trans).1);
        },
        MuCalcV::Box(a, e) => {
            lemma_conv_counts(*e, vars, trans, intern_fun(st, FunKind::Box, a, trans).1);
        },
        MuCalcV::And(es) => {
            lemma_conv_list_counts(es, vars, trans, st);
        },
        MuCalcV::Or(es) => {
            lemma_conv_list_counts(es, vars, trans, st);
        },
        MuCalcV::Mu(_, e) => {
            lemma_conv_counts(*e, vars, trans, st);
        },
        MuCalcV::Nu(_, e) => {
            lemma_conv_counts(*e, vars, trans, st);
        },
    }
}

proof fn lemma_conv_list_counts(
    es: Seq<MuCalcV>,
    vars: Seq<Seq<char>>,
    trans: Seq<Seq<(Seq<char>, usize)>>,
    st: ConvState,
)
    ensures
        conv_list(es, vars, trans, st).1.sys.len() == st.sys.len() + binders_list(es).len(),
    decreases es, 0int,
{
    if es.len() > 0 {
        lemma_conv_list_counts(es.drop_last(), vars, trans, st);
        lemma_conv_counts(es.last(), vars, trans, conv_list(es.drop_last(), vars, trans, st).1);
    }
}

/// The system has one equation per fixpoint of the formula, in the order in
/// which the variables are numbered; the last one is the fixpoint at the
/// root, of its kind.
pub proof fn mucalc_equation_per_fixpoint(f: MuCalcV, trans: Seq<Seq<(Seq<char>, usize)>>)
    requires
        f is Mu || f is Nu,
    ensures
        spec_mucalc_to_fix(f, trans).0.len() == binders(f).len(),
        spec_mucalc_to_fix(f, trans).0.last().0 == if f is Mu {
            FixType::Min
        } else {
            FixType::Max
        },
{
    let st0 = ConvState { funcs: Seq::empty(), formulas: Seq::empty(), sys: Seq::empty() };
    lemma_conv_counts(f, binders(f), trans, st0);
}

/// `t2` extends `t1`: it holds the rows of `t1` at the same places.
pub open spec fn extends(t1: Seq<Seq<FormulaV>>, t2: Seq<Seq<FormulaV>>) -> bool {
    t1.len() <= t2.len() && forall|i: int| 0 <= i < t1.len() ==> #[trigger] t2[i] == t1[i]
}

/// The conversion so far can be composed: one row of formulas per
/// modality, formulas over the one argument of their symbol, and equations
/// composable over the rows with variables below `n`.
pub open spec fn conv_composable(st: ConvState, n: nat) -> bool {
    &&& st.formulas.len() == st.funcs.len()
    &&& forall|f: int, c: int|
        0 <= f < st.formulas.len() && 0 <= c < st.formulas[f].len() ==> view_below(
            #[trigger] st.formulas[f][c],
            1,
        )
    &&& forall|i: int|
        0 <= i < st.sys.len() ==> composable(#[trigger] st.sys[i].1, st.formulas) && expr_below(
            st.sys[i].1,
            n,
        )
}

proof fn lemma_composable_extends(e: ExprV, t1: Seq<Seq<FormulaV>>, t2: Seq<Seq<FormulaV>>)
    requires
        composable(e, t1),
        extends(t1, t2),
    ensures
        composable(e, t2),
    decreases e,
{
    match e {
        ExprV::Var(_) => {},
        ExprV::And(es) => {
            assert forall|k: int| 0 <= k < es.len() implies composable(#[trigger] es[k], t2) by {
                lemma_composable_extends(es[k], t1, t2);
            }
        },
        ExprV::Or(es) => {
            assert forall|k: int| 0 <= k < es.len() implies composable(#[trigger] es[k], t2) by {
                lemma_composable_extends(es[k], t1, t2);
            }
        },
        ExprV::Fun(f, es) => {
            assert(t2[f as int] == t1[f as int]);
            assert forall|k: int| 0 <= k < es.len() implies composable(#[trigger] es[k], t2) by {
                lemma_composable_extends(es[k], t1, t2);
            }
        },
    }
}

proof fn lemma_matching_atoms_below(a: ActV, edges: Seq<(Seq<char>, usize)>)
    ensures
        forall|k: int|
            0 <= k < matching_atoms(a, edges).len() ==> view_below(#[trigger] matching_atoms(a, edges)[k], 1),
    decreases edges.len(),
{
    if edges.len() > 0 {
        lemma_matching_atoms_below(a, edges.drop_last());
        let init = matching_atoms(a, edges.drop_last());
        let r = matching_atoms(a, edges);
        assert forall|k: int| 0 <= k < r.len() implies view_below(#[trigger] r[k], 1) by {
            if k < init.len() {
                assert(r[k] == init[k]);
            } else {
                assert(r[k] is Atom && r[k]->Atom_1 == 0);
            }
        }
    }
}

proof fn lemma_first_index_from<A>(s: Seq<A>, x: A, i: int)
    requires
        0 <= i <= s.len(),
        forall|j: int| 0 <= j < i ==> s[j] != x,
        exists|k: int| i <= k < s.len() && s[k] == x,
    ensures
        first_index(s, x) is Some,
        0 <= first_index(s, x)->0 < s.len(),
    decreases s.len() - i,
{
    if s[i] == x {
        lemma_first_index(s, x, i);
    } else {
        lemma_first_index_from(s, x, i + 1);
    }
}

/// The symbol of a modality has a row of formulas over one argument.
proof fn lemma_intern_composable(
    st: ConvState,
    kind: FunKind,
    a: ActV,
    trans: Seq<Seq<(Seq<char>, usize)>>,
    n: nat,
)
    requires
        conv_composable(st, n),
    ensures
        conv_composable(intern_fun(st, kind, a, trans).1, n),
        extends(st.formulas, intern_fun(st, kind, a, trans).1.formulas),
        0 <= intern_fun(st, kind, a, trans).0 < intern_fun(st, kind, a, trans).1.formulas.len(),
        intern_fun(st, kind, a, trans).1.sys == st.sys,
{
    let (fid, st1) = intern_fun(st, kind, a, trans);
    match first_index(st.funcs, (kind, a)) {
        Some(k) => {
            if !(exists|j: int| 0 <= j < st.funcs.len() && st.funcs[j] == (kind, a)) {
                assert(first_index(st.funcs, (kind, a)) is None);
            }
            lemma_first_index_from(st.funcs, (kind, a), 0);
        },
        None => {
            let row = modal_formulas(kind, a, trans);
            assert forall|f: int, c: int|
                0 <= f < st1.formulas.len() && 0 <= c < st1.formulas[f].len() implies view_below(
                #[trigger] st1.formulas[f][c],
                1,
            ) by {
                if f == st.formulas.len() {
                    assert(st1.formulas[f] == row);
                    lemma_matching_atoms_below(a, trans[c]);
                    let ms = matching_atoms(a, trans[c]);
                    assert forall|k: int| 0 <= k < ms.len() implies view_below(#[trigger] ms[k], 1) by {}
                    assert(row[c] == modal_formula(kind, a, trans[c]));
                } else {
                    assert(st1.formulas[f] == st.formulas[f]);
                }
            }
            assert forall|i: int| 0 <= i < st1.sys.len() implies composable(
                #[trigger] st1.sys[i].1,
                st1.formulas,
            ) && expr_below(st1.sys[i].1, n) by {
                lemma_composable_extends(st.sys[i].1, st.formulas, st1.formulas);
            }
        },
    }
}

/// Converting a formula keeps the conversion composable, extends its rows
/// of formulas, and gives a composable expression with variables below `n`.
proof fn lemma_conv_composable(
    f: MuCalcV,
    vars: Seq<Seq<char>>,
    trans: Seq<Seq<(Seq<char>, usize)>>,
    st: ConvState,
)
    requires
        conv_composable(st, vars.len()),
        uses_only(f, vars),
        st.sys.len() + binders(f).len() <= vars.len(),
    ensures
        conv_composable(conv_spec(f, vars, trans, st).1, vars.len()),
        extends(st.formulas, conv_spec(f, vars, trans, st).1.formulas),
        composable(conv_spec(f, vars, trans, st).0, conv_spec(f, vars, trans, st).1.formulas),
        expr_below(conv_spec(f, vars, trans, st).0, vars.len()),
    decreases f, 1int,
{
    let n = vars.len();
    match f {
        MuCalcV::Var(x) => {
            let k = choose|k: int| 0 <= k < vars.len() && vars[k] == x;
            lemma_first_index_from(vars, x, 0);
        },
        MuCalcV::Diamond(a, e) => {
            let (fid, st1) = intern_fun(st, FunKind::Diamond, a, trans);
            lemma_intern_composable(st, FunKind::Diamond, a, trans, n);
            lemma_conv_composable(*e, vars, trans, st1);
            let (x, st2) = conv_spec(*e, vars, trans, st1);
            assert(st2.formulas[fid] == st1.formulas[fid]);
            let args = seq![x];
            assert(composable(args[0], st2.formulas));
            assert(expr_below(args[0], n));
        },
        MuCalcV::Box(a, e) => {
            let (fid, st1) = intern_fun(st, FunKind::Box, a, trans);
            lemma_intern_composable(st, FunKind::Box, a, trans, n);
            lemma_conv_composable(*e, vars, trans, st1);
            let (x, st2) = conv_spec(*e, vars, trans, st1);
            assert(st2.formulas[fid] == st1.formulas[fid]);
            let args = seq![x];
            assert(composable(args[0], st2.formulas));
            assert(expr_below(args[0], n));
        },
        MuCalcV::And(es) => {
            lemma_conv_list_composable(es, vars, trans, st);
        },
        MuCalcV::Or(es) => {
            lemma_conv_list_composable(es, vars, trans, st);
        },
        MuCalcV::Mu(_, e) => {
            lemma_conv_composable(*e, vars, trans, st);
            lemma_conv_counts(*e, vars, trans, st);
        },
        MuCalcV::Nu(_, e) => {
            lemma_conv_composable(*e, vars, trans, st);
            lemma_conv_counts(*e, vars, trans, st);
        },
    }
}

proof fn lemma_conv_list_composable(
    es: Seq<MuCalcV>,
    vars: Seq<Seq<char>>,
    trans: Seq<Seq<(Seq<char>, usize)>>,
    st: ConvState,
)
    requires
        conv_composable(st, vars.len()),
        forall|k: int| 0 <= k < es.len() ==> uses_only(#[trigger] es[k], vars),
        st.sys.len() + binders_list(es).len() <= vars.len(),
    ensures
        conv_composable(conv_list(es, vars, trans, st).1, vars.len()),
        extends(st.formulas, conv_list(es, vars, trans, st).1.formulas),
        forall|k: int|
            0 <= k < conv_list(es, vars, trans, st).0.len() ==> composable(
                #[trigger] conv_list(es, vars, trans, st).0[k],
                conv_list(es, vars, trans, st).1.formulas,
            ) && expr_below(conv_list(es, vars, trans, st).0[k], vars.len()),
    decreases es, 0int,
{
    if es.len() > 0 {
        let init = es.drop_last();
        assert forall|k: int| 0 <= k < init.len() implies uses_only(#[trigger] init[k], vars) by {
            assert(init[k] == es[k]);
        }
        lemma_conv_list_composable(init, vars, trans, st);
        let (xs, st1) = conv_list(init, vars, trans, st);
        lemma_conv_list_counts(init, vars, trans, st);
        lemma_conv_composable(es.last(), vars, trans, st1);
        let (x, st2) = conv_spec(es.last(), vars, trans, st1);
        let ys = xs.push(x);
        assert forall|k: int| 0 <= k < ys.len() implies composable(#[trigger] ys[k], st2.formulas)
            && expr_below(ys[k], vars.len()) by {
            if k < xs.len() {
                assert(ys[k] == xs[k]);
                lemma_composable_extends(xs[k], st1.formulas, st2.formulas);
            }
        }
    }
}

/// The equations of a closed formula use only variables of the system, and
/// every modality has formulas over the one argument of its symbol: the
/// system can be composed at every state.
pub proof fn mucalc_equations_composable(f: MuCalcV, trans: Seq<Seq<(Seq<char>, usize)>>)
    requires
        closed_formula(f),
    ensures
        forall|i: int|
            0 <= i < spec_mucalc_to_fix(f, trans).0.len() ==> composable(
                #[trigger] spec_mucalc_to_fix(f, trans).0[i].1,
                spec_mucalc_to_fix(f, trans).1,
            ) && expr_below(spec_mucalc_to_fix(f, trans).0[i].1, spec_mucalc_to_fix(f, trans).0.len()),
{
    let st0 = ConvState { funcs: Seq::empty(), formulas: Seq::empty(), sys: Seq::empty() };
    assert forall|y: Seq<char>| Set::<Seq<char>>::empty().contains(y) implies binders(f).contains(y) by {}
    lemma_scoped_uses_only(f, Set::empty(), binders(f));
    lemma_conv_composable(f, binders(f), trans, st0);
    lemma_conv_counts(f, binders(f), trans, st0);
}

} // verus!
