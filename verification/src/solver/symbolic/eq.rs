//! Systems of fixpoint equations.
use vstd::prelude::*;

verus! {

/// Identifier of a variable, that is of an equation of the system.
#[derive(Clone, Copy, Debug, PartialEq, Eq, Structural, Hash, PartialOrd, Ord, Default)]
pub struct VarId(pub usize);

/// Identifier of a function symbol.
#[derive(Clone, Copy, Debug, PartialEq, Eq, Structural, Hash, PartialOrd, Ord, Default)]
pub struct FunId(pub usize);

impl VarId {
    pub fn to_usize(self) -> (r: usize)
        ensures
            r == self.0,
    {
        self.0
    }
}

impl FunId {
    pub fn to_usize(self) -> (r: usize)
        ensures
            r == self.0,
    {
        self.0
    }
}

/// The kind of fixpoint of an equation.
#[derive(Clone, Copy, Debug, PartialEq, Eq, Structural, Hash)]
pub enum FixType {
    Min,
    Max,
}

/// The right hand side of an equation.
#[derive(Debug)]
pub enum Expr {
    Var(VarId),
    And(Vec<Expr>),
    Or(Vec<Expr>),
    Fun(FunId, Vec<Expr>),
}

/// An equation `X_i =fix_type expr`.
#[derive(Debug)]
pub struct FixEq {
    pub fix_type: FixType,
    pub expr: Expr,
}


/// The right hand side of an equation, as a mathematical value.
pub enum ExprV {
    Var(usize),
    And(Seq<ExprV>),
    Or(Seq<ExprV>),
    Fun(usize, Seq<ExprV>),
}

/// The view of an expression.
pub open spec fn expr_view(e: Expr) -> ExprV
    decreases e,
{
    match e {
        Expr::Var(x) => ExprV::Var(x.0),
        Expr::And(es) => ExprV::And(expr_views(es@)),
        Expr::Or(es) => ExprV::Or(expr_views(es@)),
        Expr::Fun(f, es) => ExprV::Fun(f.0, expr_views(es@)),
    }
}

/// The views of a sequence of expressions.
pub open spec fn expr_views(es: Seq<Expr>) -> Seq<ExprV>
    decreases es,
{
    if es.len() == 0 {
        Seq::empty()
    } else {
        expr_views(es.drop_last()).push(expr_view(es.last()))
    }
}

/// Appending an expression appends its view.
pub proof fn lemma_expr_views_push(es: Seq<Expr>, e: Expr)
    ensures
        expr_views(es.push(e)) == expr_views(es).push(expr_view(e)),
{
    assert(es.push(e).drop_last() =~= es);
}

/// The view of an equation.
pub open spec fn eq_view(q: FixEq) -> (FixType, ExprV) {
    (q.fix_type, expr_view(q.expr))
}

/// The views of a system of equations.
pub open spec fn eqs_view(qs: Seq<FixEq>) -> Seq<(FixType, ExprV)> {
    qs.map_values(|q: FixEq| eq_view(q))
}

} // verus!
