//! Positive boolean formulas over pairs of basis elements and variables.
use vstd::prelude::*;

use super::eq::VarId;

verus! {

/// Identifier of an element of the basis of the lattice.
#[derive(Clone, Copy, Debug, PartialEq, Eq, Structural, Hash, PartialOrd, Ord, Default)]
pub struct BasisElemId(pub usize);

impl BasisElemId {
    pub fn to_usize(self) -> (r: usize)
        ensures
            r == self.0,
    {
        self.0
    }
}

/// A positive boolean formula whose atoms are pairs of a basis element and a variable.
#[derive(Debug)]
pub enum Formula {
    Atom(BasisElemId, VarId),
    And(Vec<Formula>),
    Or(Vec<Formula>),
}


/// A formula as a mathematical value: atoms are pairs of indices.
pub enum FormulaV {
    Atom(usize, usize),
    And(Seq<FormulaV>),
    Or(Seq<FormulaV>),
}

/// Whether the formula holds when the atom of basis element `b` holds exactly
/// where `val(b)` does.
pub open spec fn holds_v(f: FormulaV, val: spec_fn(usize) -> bool) -> bool
    decreases f, 0int,
{
    match f {
        FormulaV::Atom(b, _) => val(b),
        FormulaV::And(v) => holds_all_v(v, 0, val),
        FormulaV::Or(v) => holds_any_v(v, 0, val),
    }
}

/// Every formula of `v` from `i` on holds.
pub open spec fn holds_all_v(v: Seq<FormulaV>, i: int, val: spec_fn(usize) -> bool) -> bool
    decreases v, v.len() - i,
{
    if 0 <= i < v.len() {
        holds_v(v[i], val) && holds_all_v(v, i + 1, val)
    } else {
        true
    }
}

/// Some formula of `v` from `i` on holds.
pub open spec fn holds_any_v(v: Seq<FormulaV>, i: int, val: spec_fn(usize) -> bool) -> bool
    decreases v, v.len() - i,
{
    if 0 <= i < v.len() {
        holds_v(v[i], val) || holds_any_v(v, i + 1, val)
    } else {
        false
    }
}

/// A conjunction holds when each of its formulas does, a disjunction when
/// one of them does.
pub proof fn lemma_holds_all_any(v: Seq<FormulaV>, i: int, val: spec_fn(usize) -> bool)
    requires
        0 <= i,
    ensures
        holds_all_v(v, i, val) <==> forall|k: int| i <= k < v.len() ==> holds_v(#[trigger] v[k], val),
        holds_any_v(v, i, val) <==> exists|k: int| i <= k < v.len() && holds_v(#[trigger] v[k], val),
    decreases v.len() - i,
{
    if i < v.len() {
        lemma_holds_all_any(v, i + 1, val);
        if exists|k: int| i <= k < v.len() && holds_v(#[trigger] v[k], val) {
            let k = choose|k: int| i <= k < v.len() && holds_v(#[trigger] v[k], val);
            if k > i {
                assert(holds_any_v(v, i + 1, val));
            }
        }
    }
}

/// The view of a formula.
pub open spec fn formula_view(f: Formula) -> FormulaV
    decreases f,
{
    match f {
        Formula::Atom(b, x) => FormulaV::Atom(b.0, x.0),
        Formula::And(fs) => FormulaV::And(formula_views(fs@)),
        Formula::Or(fs) => FormulaV::Or(formula_views(fs@)),
    }
}

/// The views of a sequence of formulas.
pub open spec fn formula_views(fs: Seq<Formula>) -> Seq<FormulaV>
    decreases fs,
{
    if fs.len() == 0 {
        Seq::empty()
    } else {
        formula_views(fs.drop_last()).push(formula_view(fs.last()))
    }
}

/// Appending a formula appends its view.
pub proof fn lemma_formula_views_push(fs: Seq<Formula>, f: Formula)
    ensures
        formula_views(fs.push(f)) == formula_views(fs).push(formula_view(f)),
{
    assert(fs.push(f).drop_last() =~= fs);
}

/// The views of the formulas of each basis element.
pub open spec fn formula_table_view(t: Seq<Vec<Formula>>) -> Seq<Seq<FormulaV>> {
    t.map_values(|row: Vec<Formula>| formula_views(row@))
}

} // verus!
