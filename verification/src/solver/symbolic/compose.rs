//! The formulas that the function symbols of a system stand for.
use vstd::prelude::*;

use super::eq::{eqs_view, expr_view, expr_views, Expr, ExprV, FixEq, FixType, FunId, VarId};
use super::formula::{
    formula_table_view, formula_view, formula_views, lemma_formula_views_push, BasisElemId,
    Formula, FormulaV,
};
use super::moves::{formula_below, formula_wf, formula_wf_root};

verus! {

/// The false formula: the empty disjunction.
pub open spec fn is_false_v(f: FormulaV) -> bool {
    match f {
        FormulaV::Or(v) => v.len() == 0,
        _ => false,
    }
}

/// The disjuncts that are not false, in order.
pub open spec fn drop_false(fs: Seq<FormulaV>) -> Seq<FormulaV>
    decreases fs.len(),
{
    if fs.len() == 0 {
        Seq::empty()
    } else if is_false_v(fs.last()) {
        drop_false(fs.drop_last())
    } else {
        drop_false(fs.drop_last()).push(fs.last())
    }
}

/// A conjunction, false as soon as one of its conjuncts is.
pub open spec fn and_of(fs: Seq<FormulaV>) -> FormulaV {
    if exists|k: int| 0 <= k < fs.len() && #[trigger] is_false_v(fs[k]) {
        FormulaV::Or(Seq::empty())
    } else {
        FormulaV::And(fs)
    }
}

/// A disjunction of the disjuncts that are not false.
pub open spec fn or_of(fs: Seq<FormulaV>) -> FormulaV {
    FormulaV::Or(drop_false(fs))
}

/// The formula that the function symbol `f` stands for at the basis element `b`:
/// `true` beyond the formulas given.
pub open spec fn fun_formula(t: Seq<Seq<FormulaV>>, f: usize, b: usize) -> FormulaV {
    if f < t.len() && b < t[f as int].len() {
        t[f as int][b as int]
    } else {
        FormulaV::And(Seq::empty())
    }
}

/// The size of an expression, which composition recurses on.
pub open spec fn esize(e: ExprV) -> nat
    decreases e, 1int,
{
    match e {
        ExprV::Var(_) => 1,
        ExprV::And(es) => 1 + es_size(es),
        ExprV::Or(es) => 1 + es_size(es),
        ExprV::Fun(_, es) => 1 + es_size(es),
    }
}

pub open spec fn es_size(es: Seq<ExprV>) -> nat
    decreases es, 0int,
{
    if es.len() == 0 {
        0
    } else {
        es_size(es.drop_last()) + esize(es.last())
    }
}

/// The size of a formula, which substitution recurses on.
pub open spec fn fsize(f: FormulaV) -> nat
    decreases f, 1int,
{
    match f {
        FormulaV::Atom(_, _) => 2,
        FormulaV::And(fs) => 2 + fs_size(fs),
        FormulaV::Or(fs) => 2 + fs_size(fs),
    }
}

pub open spec fn fs_size(fs: Seq<FormulaV>) -> nat
    decreases fs, 0int,
{
    if fs.len() == 0 {
        0
    } else {
        fs_size(fs.drop_last()) + fsize(fs.last())
    }
}

/// A formula is smaller than a formula holding it.
pub proof fn lemma_fs_size(fs: Seq<FormulaV>, k: int)
    requires
        0 <= k < fs.len(),
    ensures
        fsize(fs[k]) <= fs_size(fs),
    decreases fs.len(),
{
    if k < fs.len() - 1 {
        lemma_fs_size(fs.drop_last(), k);
    }
}

/// An expression is no bigger than a sequence holding it.
pub proof fn lemma_es_size(es: Seq<ExprV>, k: int)
    requires
        0 <= k < es.len(),
    ensures
        esize(es[k]) <= es_size(es),
    decreases es.len(),
{
    if k < es.len() - 1 {
        lemma_es_size(es.drop_last(), k);
    }
}

/// The formula that the expression `e` stands for at the basis element `b`:
/// a variable is the atom of `b` and that variable, and a function symbol
/// applied to arguments is its formula at `b` with the arguments put in place
/// of its atoms.
pub open spec fn compose_spec(e: ExprV, b: usize, t: Seq<Seq<FormulaV>>) -> FormulaV
    decreases esize(e), 0nat, 0nat,
{
    match e {
        ExprV::Var(i) => FormulaV::Atom(b, i),
        ExprV::And(es) => and_of(compose_all(es, b, t)),
        ExprV::Or(es) => or_of(compose_all(es, b, t)),
        ExprV::Fun(f, args) => subst_spec(fun_formula(t, f, b), args, t),
    }
}

pub open spec fn compose_all(es: Seq<ExprV>, b: usize, t: Seq<Seq<FormulaV>>) -> Seq<FormulaV>
    decreases es_size(es), 1nat, 0nat,
{
    if es.len() == 0 {
        Seq::empty()
    } else {
        proof {
            assert(esize(es.last()) >= 1);
        }
        compose_all(es.drop_last(), b, t).push(compose_spec(es.last(), b, t))
    }
}

/// The formula `f` with the atom of the basis element `c` and the variable
/// `i` replaced by the formula of the argument `i` at `c`.
pub open spec fn subst_spec(f: FormulaV, args: Seq<ExprV>, t: Seq<Seq<FormulaV>>) -> FormulaV
    decreases es_size(args), 1nat, fsize(f),
{
    match f {
        FormulaV::Atom(c, i) => if i < args.len() {
            proof {
                lemma_es_size(args, i as int);
            }
            compose_spec(args[i as int], c, t)
        } else {
            FormulaV::And(Seq::empty())
        },
        FormulaV::And(fs) => and_of(subst_all(fs, args, t)),
        FormulaV::Or(fs) => or_of(subst_all(fs, args, t)),
    }
}

pub open spec fn subst_all(fs: Seq<FormulaV>, args: Seq<ExprV>, t: Seq<Seq<FormulaV>>) -> Seq<FormulaV>
    decreases es_size(args), 1nat, fs_size(fs) + 1,
{
    if fs.len() == 0 {
        Seq::empty()
    } else {
        proof {
            assert(fsize(fs.last()) >= 1);
        }
        subst_all(fs.drop_last(), args, t).push(subst_spec(fs.last(), args, t))
    }
}

/// Every atom of the formula has a variable below `n`.
pub open spec fn view_below(f: FormulaV, n: nat) -> bool
    decreases f,
{
    match f {
        FormulaV::Atom(_, i) => i < n,
        FormulaV::And(fs) => forall|k: int| 0 <= k < fs.len() ==> view_below(#[trigger] fs[k], n),
        FormulaV::Or(fs) => forall|k: int| 0 <= k < fs.len() ==> view_below(#[trigger] fs[k], n),
    }
}

/// Every variable of the expression is below `n`.
pub open spec fn expr_below(e: ExprV, n: nat) -> bool
    decreases e,
{
    match e {
        ExprV::Var(i) => i < n,
        ExprV::And(es) => forall|k: int| 0 <= k < es.len() ==> expr_below(#[trigger] es[k], n),
        ExprV::Or(es) => forall|k: int| 0 <= k < es.len() ==> expr_below(#[trigger] es[k], n),
        ExprV::Fun(_, es) => forall|k: int| 0 <= k < es.len() ==> expr_below(#[trigger] es[k], n),
    }
}

/// Every function symbol of the expression has formulas, and those formulas
/// only use the arguments given to it.
pub open spec fn composable(e: ExprV, t: Seq<Seq<FormulaV>>) -> bool
    decreases e,
{
    match e {
        ExprV::Var(_) => true,
        ExprV::And(es) => forall|k: int| 0 <= k < es.len() ==> composable(#[trigger] es[k], t),
        ExprV::Or(es) => forall|k: int| 0 <= k < es.len() ==> composable(#[trigger] es[k], t),
        ExprV::Fun(f, es) => {
            &&& f < t.len()
            &&& forall|c: int| 0 <= c < t[f as int].len() ==> view_below(#[trigger] t[f as int][c], es.len())
            &&& forall|k: int| 0 <= k < es.len() ==> composable(#[trigger] es[k], t)
        },
    }
}

/// No false formula below the root, and no empty disjunction but a false root.
pub open spec fn normal_v(f: FormulaV) -> bool
    decreases f,
{
    match f {
        FormulaV::Atom(_, _) => true,
        FormulaV::And(fs) => forall|k: int|
            0 <= k < fs.len() ==> normal_v(#[trigger] fs[k]) && !is_false_v(fs[k]),
        FormulaV::Or(fs) => forall|k: int|
            0 <= k < fs.len() ==> normal_v(#[trigger] fs[k]) && !is_false_v(fs[k]),
    }
}

/// For each function symbol and each basis element, the formula that the
/// symbol applied to that element stands for. Elements beyond those given
/// stand for `true`.
pub struct FunsFormulas {
    formulas: Vec<Vec<Formula>>,
    top: Formula,
}

impl FunsFormulas {
    /// The formulas given, for each function symbol.
    pub closed spec fn table(&self) -> Seq<Seq<FormulaV>> {
        formula_table_view(self.formulas@)
    }

    pub closed spec fn well_formed(&self) -> bool {
        formula_view(self.top) == FormulaV::And(Seq::empty())
    }

    /// Keeps the formulas of each function symbol, indexed by basis element.
    pub fn new(formulas: Vec<Vec<Formula>>) -> (r: Self)
        ensures
            r.well_formed(),
            r.table() == formula_table_view(formulas@),
    {
        let v: Vec<Formula> = Vec::new();
        proof {
            assert(formula_views(v@) =~= Seq::<FormulaV>::empty());
        }
        FunsFormulas { formulas, top: Formula::And(v) }
    }

    /// The number of function symbols.
    pub fn fun_count(&self) -> (r: usize)
        ensures
            r == self.table().len(),
    {
        self.formulas.len()
    }

    /// The formula that `f` applied to `b` stands for.
    pub fn get(&self, b: BasisElemId, f: FunId) -> (r: &Formula)
        requires
            self.well_formed(),
            f.0 < self.table().len(),
        ensures
            b.0 < self.table()[f.0 as int].len() ==> formula_view(*r)
                == self.table()[f.0 as int][b.0 as int],
            b.0 >= self.table()[f.0 as int].len() ==> formula_view(*r) == FormulaV::And(
                Seq::empty(),
            ),
    {
        let row = &self.formulas[f.0];
        proof {
            assert(self.table()[f.0 as int] == formula_views(row@));
            lemma_row_len(row@);
        }
        if b.0 < row.len() {
            proof {
                lemma_row_view(row@, b.0 as int);
            }
            &row[b.0]
        } else {
            &self.top
        }
    }
}

/// A system of fixpoint equations together with the formulas of its
/// function symbols.
pub struct EqsFormulas {
    eqs: Vec<FixEq>,
    funs: FunsFormulas,
}

impl EqsFormulas {
    /// The equations, as mathematical values.
    pub closed spec fn eqs(&self) -> Seq<(FixType, ExprV)> {
        eqs_view(self.eqs@)
    }

    /// The formulas of the function symbols.
    pub closed spec fn funs(&self) -> FunsFormulas {
        self.funs
    }

    pub fn new(eqs: Vec<FixEq>, funs: FunsFormulas) -> (r: Self)
        ensures
            r.eqs() == eqs_view(eqs@),
            r.funs() == funs,
    {
        EqsFormulas { eqs, funs }
    }

    /// Every function symbol of the equations has formulas that only use its
    /// arguments, and every variable has an equation.
    pub open spec fn well_formed(&self) -> bool {
        &&& self.funs().well_formed()
        &&& forall|i: int|
            0 <= i < self.eqs().len() ==> composable(#[trigger] self.eqs()[i].1, self.funs().table())
                && expr_below(self.eqs()[i].1, self.eqs().len())
    }

    /// The formula of the moves from the position of `b` and `i`: the right
    /// hand side of the equation of `i` composed at `b`.
    pub fn get(&self, b: BasisElemId, i: VarId) -> (r: Formula)
        requires
            self.well_formed(),
            i.0 < self.eqs().len(),
        ensures
            formula_view(r) == compose_spec(self.eqs()[i.0 as int].1, b.0, self.funs().table()),
            formula_wf_root(r),
            formula_below(r, self.eqs().len()),
    {
        let f = compose_moves(&self.eqs[i.0].expr, b, &self.funs);
        proof {
            let e = self.eqs()[i.0 as int].1;
            assert(composable(e, self.funs().table()));
            lemma_compose(e, b.0, self.funs().table(), self.eqs().len());
            lemma_normal_wf(f);
            lemma_view_below(f, self.eqs().len());
        }
        f
    }

    /// The kind of fixpoint of the equation of `i`.
    pub fn eq_fix_type(&self, i: VarId) -> (r: FixType)
        requires
            i.0 < self.eqs().len(),
        ensures
            r == self.eqs()[i.0 as int].0,
    {
        self.eqs[i.0].fix_type
    }

    /// The number of equations.
    pub fn var_count(&self) -> (r: usize)
        ensures
            r == self.eqs().len(),
    {
        self.eqs.len()
    }
}

proof fn lemma_drop_false(fs: Seq<FormulaV>)
    ensures
        forall|j: int|
            0 <= j < drop_false(fs).len() ==> !is_false_v(#[trigger] drop_false(fs)[j]) && fs.contains(
                drop_false(fs)[j],
            ),
    decreases fs.len(),
{
    if fs.len() > 0 {
        let r0 = drop_false(fs.drop_last());
        lemma_drop_false(fs.drop_last());
        assert forall|j: int| 0 <= j < drop_false(fs).len() implies !is_false_v(
            #[trigger] drop_false(fs)[j],
        ) && fs.contains(drop_false(fs)[j]) by {
            if j < r0.len() {
                assert(drop_false(fs)[j] == r0[j]);
                let k = choose|k: int| 0 <= k < fs.drop_last().len() && fs.drop_last()[k] == r0[j];
                assert(fs[k] == r0[j]);
            } else {
                assert(drop_false(fs)[j] == fs.last());
                assert(fs[fs.len() - 1] == fs.last());
            }
        }
    }
}

proof fn lemma_and_or_of(fs: Seq<FormulaV>, n: nat)
    requires
        forall|k: int| 0 <= k < fs.len() ==> normal_v(#[trigger] fs[k]),
    ensures
        normal_v(and_of(fs)),
        normal_v(or_of(fs)),
        (forall|k: int| 0 <= k < fs.len() ==> view_below(#[trigger] fs[k], n)) ==> view_below(
            and_of(fs),
            n,
        ) && view_below(or_of(fs), n),
{
    lemma_drop_false(fs);
    let d = drop_false(fs);
    assert forall|j: int| 0 <= j < d.len() implies normal_v(#[trigger] d[j]) && !is_false_v(d[j]) by {
        let k = choose|k: int| 0 <= k < fs.len() && fs[k] == d[j];
        assert(normal_v(fs[k]));
    }
    if forall|k: int| 0 <= k < fs.len() ==> view_below(#[trigger] fs[k], n) {
        assert forall|j: int| 0 <= j < d.len() implies view_below(#[trigger] d[j], n) by {
            let k = choose|k: int| 0 <= k < fs.len() && fs[k] == d[j];
            assert(view_below(fs[k], n));
        }
    }
}

/// The composed formulas are normal, and their variables are those of the
/// expression.
proof fn lemma_compose(e: ExprV, b: usize, t: Seq<Seq<FormulaV>>, n: nat)
    requires
        composable(e, t),
    ensures
        normal_v(compose_spec(e, b, t)),
        expr_below(e, n) ==> view_below(compose_spec(e, b, t), n),
    decreases esize(e), 0nat, 0nat,
{
    match e {
        ExprV::Var(_) => {},
        ExprV::And(es) => {
            lemma_compose_all(es, b, t, n);
            lemma_and_or_of(compose_all(es, b, t), n);
        },
        ExprV::Or(es) => {
            lemma_compose_all(es, b, t, n);
            lemma_and_or_of(compose_all(es, b, t), n);
        },
        ExprV::Fun(f, args) => {
            lemma_subst(fun_formula(t, f, b), args, t, n);
        },
    }
}

proof fn lemma_compose_all(es: Seq<ExprV>, b: usize, t: Seq<Seq<FormulaV>>, n: nat)
    requires
        forall|k: int| 0 <= k < es.len() ==> composable(#[trigger] es[k], t),
    ensures
        compose_all(es, b, t).len() == es.len(),
        forall|j: int| 0 <= j < es.len() ==> normal_v(#[trigger] compose_all(es, b, t)[j]),
        (forall|k: int| 0 <= k < es.len() ==> expr_below(#[trigger] es[k], n)) ==> forall|j: int|
            0 <= j < es.len() ==> view_below(#[trigger] compose_all(es, b, t)[j], n),
    decreases es_size(es), 1nat, 0nat,
{
    if es.len() > 0 {
        let init = es.drop_last();
        assert forall|k: int| 0 <= k < init.len() implies composable(#[trigger] init[k], t) by {
            assert(init[k] == es[k]);
        }
        assert(esize(es.last()) >= 1);
        lemma_compose_all(init, b, t, n);
        lemma_compose(es.last(), b, t, n);
        let r = compose_all(es, b, t);
        assert forall|j: int| 0 <= j < es.len() implies normal_v(#[trigger] r[j]) by {
            if j < init.len() {
                assert(r[j] == compose_all(init, b, t)[j]);
            }
        }
        if forall|k: int| 0 <= k < es.len() ==> expr_below(#[trigger] es[k], n) {
            assert forall|k: int| 0 <= k < init.len() implies expr_below(#[trigger] init[k], n) by {
                assert(init[k] == es[k]);
            }
            assert(expr_below(es[es.len() - 1], n));
            assert forall|j: int| 0 <= j < es.len() implies view_below(#[trigger] r[j], n) by {
                if j < init.len() {
                    assert(r[j] == compose_all(init, b, t)[j]);
                }
            }
        }
    }
}

proof fn lemma_subst(f: FormulaV, args: Seq<ExprV>, t: Seq<Seq<FormulaV>>, n: nat)
    requires
        view_below(f, args.len()),
        forall|k: int| 0 <= k < args.len() ==> composable(#[trigger] args[k], t),
    ensures
        normal_v(subst_spec(f, args, t)),
        (forall|k: int| 0 <= k < args.len() ==> expr_below(#[trigger] args[k], n)) ==> view_below(
            subst_spec(f, args, t),
            n,
        ),
    decreases es_size(args), 1nat, fsize(f),
{
    match f {
        FormulaV::Atom(c, i) => {
            lemma_es_size(args, i as int);
            lemma_compose(args[i as int], c, t, n);
        },
        FormulaV::And(fs) => {
            lemma_subst_all(fs, args, t, n);
            lemma_and_or_of(subst_all(fs, args, t), n);
        },
        FormulaV::Or(fs) => {
            lemma_subst_all(fs, args, t, n);
            lemma_and_or_of(subst_all(fs, args, t), n);
        },
    }
}

proof fn lemma_subst_all(fs: Seq<FormulaV>, args: Seq<ExprV>, t: Seq<Seq<FormulaV>>, n: nat)
    requires
        forall|k: int| 0 <= k < fs.len() ==> view_below(#[trigger] fs[k], args.len()),
        forall|k: int| 0 <= k < args.len() ==> composable(#[trigger] args[k], t),
    ensures
        subst_all(fs, args, t).len() == fs.len(),
        forall|j: int| 0 <= j < fs.len() ==> normal_v(#[trigger] subst_all(fs, args, t)[j]),
        (forall|k: int| 0 <= k < args.len() ==> expr_below(#[trigger] args[k], n)) ==> forall|j: int|
            0 <= j < fs.len() ==> view_below(#[trigger] subst_all(fs, args, t)[j], n),
    decreases es_size(args), 1nat, fs_size(fs) + 1,
{
    if fs.len() > 0 {
        let init = fs.drop_last();
        assert forall|k: int| 0 <= k < init.len() implies view_below(#[trigger] init[k], args.len()) by {
            assert(init[k] == fs[k]);
        }
        assert(view_below(fs[fs.len() - 1], args.len()));
        assert(fsize(fs.last()) >= 1);
        lemma_subst_all(init, args, t, n);
        lemma_subst(fs.last(), args, t, n);
        let r = subst_all(fs, args, t);
        assert forall|j: int| 0 <= j < fs.len() implies normal_v(#[trigger] r[j]) by {
            if j < init.len() {
                assert(r[j] == subst_all(init, args, t)[j]);
            }
        }
        if forall|k: int| 0 <= k < args.len() ==> expr_below(#[trigger] args[k], n) {
            assert forall|j: int| 0 <= j < fs.len() implies view_below(#[trigger] r[j], n) by {
                if j < init.len() {
                    assert(r[j] == subst_all(init, args, t)[j]);
                }
            }
        }
    }
}

proof fn lemma_expr_views_index(es: Seq<Expr>, k: int)
    requires
        0 <= k < es.len(),
    ensures
        expr_views(es).len() == es.len(),
        expr_views(es)[k] == expr_view(es[k]),
    decreases es.len(),
{
    lemma_expr_views_len(es);
    if k < es.len() - 1 {
        lemma_expr_views_index(es.drop_last(), k);
    }
}

proof fn lemma_expr_views_len(es: Seq<Expr>)
    ensures
        expr_views(es).len() == es.len(),
    decreases es.len(),
{
    if es.len() > 0 {
        lemma_expr_views_len(es.drop_last());
    }
}

/// Whether the formula is the empty disjunction.
fn is_false(f: &Formula) -> (r: bool)
    ensures
        r == is_false_v(formula_view(*f)),
{
    match f {
        Formula::Or(v) => {
            proof {
                lemma_row_len(v@);
            }
            v.len() == 0
        },
        _ => false,
    }
}

/// A conjunction, false as soon as one of its conjuncts is.
fn simplify_and(fs: Vec<Formula>) -> (r: Formula)
    ensures
        formula_view(r) == and_of(formula_views(fs@)),
{
    let ghost fv = formula_views(fs@);
    proof {
        lemma_row_len(fs@);
    }
    let mut k: usize = 0;
    let mut found = false;
    while k < fs.len() && !found
        invariant
            k <= fs@.len(),
            fv == formula_views(fs@),
            fv.len() == fs@.len(),
            found ==> exists|j: int| 0 <= j < fv.len() && #[trigger] is_false_v(fv[j]),
            !found ==> forall|j: int| 0 <= j < k ==> !#[trigger] is_false_v(fv[j]),
        decreases fs@.len() - k,
    {
        proof {
            lemma_row_view(fs@, k as int);
        }
        if is_false(&fs[k]) {
            found = true;
        }
        k = k + 1;
    }
    if found {
        Formula::Or(Vec::new())
    } else {
        Formula::And(fs)
    }
}

/// A disjunction of the disjuncts that are not false.
fn simplify_or(fs: Vec<Formula>) -> (r: Formula)
    ensures
        formula_view(r) == or_of(formula_views(fs@)),
{
    let ghost fv = formula_views(fs@);
    proof {
        lemma_row_len(fs@);
        assert forall|j: int| 0 <= j < fs@.len() implies formula_view(#[trigger] fs@[j]) == fv[j] by {
            lemma_row_view(fs@, j);
        }
    }
    let n = fs.len();
    let mut fs = fs;
    let mut kept: Vec<Formula> = Vec::new();
    let mut k: usize = 0;
    while k < n
        invariant
            k <= n,
            n == fv.len(),
            fs@.len() == n,
            forall|j: int| k <= j < n ==> formula_view(#[trigger] fs@[j]) == fv[j],
            formula_views(kept@) == drop_false(fv.take(k as int)),
        decreases n - k,
    {
        let mut c = Formula::And(Vec::new());
        fs.set_and_swap(k, &mut c);
        let ghost ck = formula_view(c);
        proof {
            assert(ck == fv[k as int]);
            assert(fv.take(k + 1).drop_last() =~= fv.take(k as int));
            assert(fv.take(k + 1).last() == ck);
        }
        if !is_false(&c) {
            proof {
                lemma_formula_views_push(kept@, c);
            }
            kept.push(c);
        }
        k = k + 1;
    }
    proof {
        assert(fv.take(n as int) =~= fv);
    }
    Formula::Or(kept)
}

/// The formula that `expr` stands for at the basis element `b`.
fn compose_moves(expr: &Expr, b: BasisElemId, funs: &FunsFormulas) -> (r: Formula)
    requires
        funs.well_formed(),
        composable(expr_view(*expr), funs.table()),
    ensures
        formula_view(r) == compose_spec(expr_view(*expr), b.0, funs.table()),
    decreases esize(expr_view(*expr)), 0nat, 0nat,
{
    match expr {
        Expr::Var(i) => Formula::Atom(b, *i),
        Expr::And(exprs) => {
            let out = compose_each(expr, exprs, b, funs);
            simplify_and(out)
        },
        Expr::Or(exprs) => {
            let out = compose_each(expr, exprs, b, funs);
            simplify_or(out)
        },
        Expr::Fun(fun, args) => {
            proof {
                assert forall|k: int| 0 <= k < expr_views(args@).len() implies composable(
                    #[trigger] expr_views(args@)[k],
                    funs.table(),
                ) by {}
                lemma_expr_views_len(args@);
            }
            let f = funs.get(b, *fun);
            proof {
                assert(formula_view(*f) == fun_formula(funs.table(), fun.0, b.0));
                assert(view_below(formula_view(*f), args@.len()));
            }
            subst(f, args, funs)
        },
    }
}

/// The formulas of the children of `parent`, in order.
fn compose_each(parent: &Expr, exprs: &Vec<Expr>, b: BasisElemId, funs: &FunsFormulas) -> (out: Vec<Formula>)
    requires
        funs.well_formed(),
        *parent == Expr::And(*exprs) || *parent == Expr::Or(*exprs),
        forall|k: int| 0 <= k < expr_views(exprs@).len() ==> composable(
            #[trigger] expr_views(exprs@)[k],
            funs.table(),
        ),
    ensures
        formula_views(out@) == compose_all(expr_views(exprs@), b.0, funs.table()),
    decreases es_size(expr_views(exprs@)), 1nat, 0nat,
{
    let ghost ev = expr_views(exprs@);
    proof {
        lemma_expr_views_len(exprs@);
    }
    let mut out: Vec<Formula> = Vec::new();
    let mut k: usize = 0;
    while k < exprs.len()
        invariant
            k <= exprs@.len(),
            ev == expr_views(exprs@),
            ev.len() == exprs@.len(),
            funs.well_formed(),
            forall|j: int| 0 <= j < ev.len() ==> composable(#[trigger] ev[j], funs.table()),
            formula_views(out@) == compose_all(ev.take(k as int), b.0, funs.table()),
            *parent == Expr::And(*exprs) || *parent == Expr::Or(*exprs),
        decreases exprs@.len() - k,
    {
        proof {
            lemma_expr_views_index(exprs@, k as int);
            assert(composable(ev[k as int], funs.table()));
            lemma_es_size(ev, k as int);
        }
        let f = compose_moves(&exprs[k], b, funs);
        proof {
            lemma_formula_views_push(out@, f);
            assert(ev.take(k + 1).drop_last() =~= ev.take(k as int));
        }
        out.push(f);
        k = k + 1;
    }
    proof {
        assert(ev.take(k as int) =~= ev);
    }
    out
}

/// `formula` with its atoms replaced by the formulas of the arguments.
fn subst(formula: &Formula, args: &Vec<Expr>, funs: &FunsFormulas) -> (r: Formula)
    requires
        funs.well_formed(),
        view_below(formula_view(*formula), args@.len()),
        forall|k: int| 0 <= k < expr_views(args@).len() ==> composable(
            #[trigger] expr_views(args@)[k],
            funs.table(),
        ),
    ensures
        formula_view(r) == subst_spec(formula_view(*formula), expr_views(args@), funs.table()),
    decreases es_size(expr_views(args@)), 1nat, fsize(formula_view(*formula)),
{
    proof {
        lemma_expr_views_len(args@);
    }
    match formula {
        Formula::Atom(c, i) => {
            proof {
                lemma_expr_views_index(args@, i.0 as int);
                lemma_es_size(expr_views(args@), i.0 as int);
            }
            compose_moves(&args[i.0], *c, funs)
        },
        Formula::And(fs) => {
            let out = subst_each(formula, fs, args, funs);
            simplify_and(out)
        },
        Formula::Or(fs) => {
            let out = subst_each(formula, fs, args, funs);
            simplify_or(out)
        },
    }
}

/// The children of `parent` with their atoms replaced, in order.
fn subst_each(parent: &Formula, fs: &Vec<Formula>, args: &Vec<Expr>, funs: &FunsFormulas) -> (out: Vec<Formula>)
    requires
        funs.well_formed(),
        *parent == Formula::And(*fs) || *parent == Formula::Or(*fs),
        view_below(formula_view(*parent), args@.len()),
        forall|k: int| 0 <= k < expr_views(args@).len() ==> composable(
            #[trigger] expr_views(args@)[k],
            funs.table(),
        ),
    ensures
        formula_views(out@) == subst_all(formula_views(fs@), expr_views(args@), funs.table()),
    decreases es_size(expr_views(args@)), 1nat, fs_size(formula_views(fs@)) + 1,
{
    let ghost fv = formula_views(fs@);
    let ghost av = expr_views(args@);
    proof {
        lemma_row_len(fs@);
        let pv = formula_view(*parent);
        assert(view_below(pv, args@.len()));
        if *parent == Formula::And(*fs) {
            assert(pv == FormulaV::And(fv));
            assert forall|j: int| 0 <= j < fv.len() implies view_below(#[trigger] fv[j], args@.len()) by {
                assert(pv->And_0[j] == fv[j]);
            }
        } else {
            assert(pv == FormulaV::Or(fv));
            assert forall|j: int| 0 <= j < fv.len() implies view_below(#[trigger] fv[j], args@.len()) by {
                assert(pv->Or_0[j] == fv[j]);
            }
        }
    }
    let mut out: Vec<Formula> = Vec::new();
    let mut k: usize = 0;
    while k < fs.len()
        invariant
            k <= fs@.len(),
            fv == formula_views(fs@),
            av == expr_views(args@),
            fv.len() == fs@.len(),
            funs.well_formed(),
            forall|j: int| 0 <= j < fv.len() ==> view_below(#[trigger] fv[j], args@.len()),
            forall|j: int| 0 <= j < av.len() ==> composable(#[trigger] av[j], funs.table()),
            formula_views(out@) == subst_all(fv.take(k as int), av, funs.table()),
            *parent == Formula::And(*fs) || *parent == Formula::Or(*fs),
        decreases fs@.len() - k,
    {
        proof {
            lemma_row_view(fs@, k as int);
            lemma_fs_size(fv, k as int);
        }
        let f = subst(&fs[k], args, funs);
        proof {
            lemma_formula_views_push(out@, f);
            assert(fv.take(k + 1).drop_last() =~= fv.take(k as int));
        }
        out.push(f);
        k = k + 1;
    }
    proof {
        assert(fv.take(k as int) =~= fv);
    }
    out
}

/// A normal formula has no empty disjunction below its root.
proof fn lemma_normal_wf(f: Formula)
    requires
        normal_v(formula_view(f)),
    ensures
        formula_wf_root(f),
        !is_false_v(formula_view(f)) ==> formula_wf(f),
    decreases f,
{
    match f {
        Formula::Atom(_, _) => {},
        Formula::And(v) => {
            lemma_row_len(v@);
            let fv = formula_views(v@);
            let w = formula_view(f);
            assert(w == FormulaV::And(fv));
            assert forall|k: int| 0 <= k < v@.len() implies formula_wf(#[trigger] v@[k]) by {
                lemma_row_view(v@, k);
                assert(w->And_0[k] == fv[k]);
                assert(normal_v(fv[k]) && !is_false_v(fv[k]));
                lemma_normal_wf(v@[k]);
            }
        },
        Formula::Or(v) => {
            lemma_row_len(v@);
            let fv = formula_views(v@);
            let w = formula_view(f);
            assert(w == FormulaV::Or(fv));
            assert forall|k: int| 0 <= k < v@.len() implies formula_wf(#[trigger] v@[k]) by {
                lemma_row_view(v@, k);
                assert(w->Or_0[k] == fv[k]);
                assert(normal_v(fv[k]) && !is_false_v(fv[k]));
                lemma_normal_wf(v@[k]);
            }
        },
    }
}

/// The bound on the variables of a formula is that of its view.
proof fn lemma_view_below(f: Formula, n: nat)
    requires
        view_below(formula_view(f), n),
    ensures
        formula_below(f, n),
    decreases f,
{
    match f {
        Formula::Atom(_, _) => {},
        Formula::And(v) => {
            lemma_row_len(v@);
            let fv = formula_views(v@);
            let w = formula_view(f);
            assert(w == FormulaV::And(fv));
            assert forall|k: int| 0 <= k < v@.len() implies formula_below(#[trigger] v@[k], n) by {
                lemma_row_view(v@, k);
                assert(w->And_0[k] == fv[k]);
                assert(view_below(fv[k], n));
                lemma_view_below(v@[k], n);
            }
        },
        Formula::Or(v) => {
            lemma_row_len(v@);
            let fv = formula_views(v@);
            let w = formula_view(f);
            assert(w == FormulaV::Or(fv));
            assert forall|k: int| 0 <= k < v@.len() implies formula_below(#[trigger] v@[k], n) by {
                lemma_row_view(v@, k);
                assert(w->Or_0[k] == fv[k]);
                assert(view_below(fv[k], n));
                lemma_view_below(v@[k], n);
            }
        },
    }
}

proof fn lemma_row_view(row: Seq<Formula>, i: int)
    requires
        0 <= i < row.len(),
    ensures
        formula_views(row).len() == row.len(),
        formula_views(row)[i] == formula_view(row[i]),
    decreases row.len(),
{
    if i < row.len() - 1 {
        lemma_row_view(row.drop_last(), i);
    }
    lemma_row_len(row);
}

proof fn lemma_row_len(row: Seq<Formula>)
    ensures
        formula_views(row).len() == row.len(),
    decreases row.len(),
{
    if row.len() > 0 {
        lemma_row_len(row.drop_last());
    }
}

} // verus!
