//! Modal mu-calculus formulas over the labels of a transition system.
use vstd::prelude::*;

pub mod conv;
pub mod parser;

verus! {

/// The actions a modality ranges over: every action, those with a given
/// label, or those with any other label.
#[derive(Clone, Debug, Hash, PartialEq, Eq)]
pub enum Act {
    True,
    Label(String),
    NotLabel(String),
}

/// A fixpoint variable.
#[derive(Debug, Hash, PartialEq, Eq)]
pub struct Var(pub String);

/// A formula of the modal mu-calculus. `And` of no formula is `true`, `Or`
/// of no formula is `false`.
#[derive(Debug)]
pub enum MuCalc {
    Var(Var),
    Diamond(Act, Box<MuCalc>),
    Box(Act, Box<MuCalc>),
    And(Vec<MuCalc>),
    Or(Vec<MuCalc>),
    Mu(Var, Box<MuCalc>),
    Nu(Var, Box<MuCalc>),
}

/// An action set with its labels as character sequences.
pub enum ActV {
    True,
    Label(Seq<char>),
    NotLabel(Seq<char>),
}

/// A formula with its names and labels as character sequences.
pub enum MuCalcV {
    Var(Seq<char>),
    Diamond(ActV, Box<MuCalcV>),
    Box(ActV, Box<MuCalcV>),
    And(Seq<MuCalcV>),
    Or(Seq<MuCalcV>),
    Mu(Seq<char>, Box<MuCalcV>),
    Nu(Seq<char>, Box<MuCalcV>),
}

impl Act {
    pub open spec fn view(&self) -> ActV {
        match self {
            Act::True => ActV::True,
            Act::Label(l) => ActV::Label(l@),
            Act::NotLabel(l) => ActV::NotLabel(l@),
        }
    }
}

/// The view of a formula.
pub open spec fn mu_view(f: MuCalc) -> MuCalcV
    decreases f,
{
    match f {
        MuCalc::Var(x) => MuCalcV::Var(x.0@),
        MuCalc::Diamond(a, e) => MuCalcV::Diamond(a.view(), Box::new(mu_view(*e))),
        MuCalc::Box(a, e) => MuCalcV::Box(a.view(), Box::new(mu_view(*e))),
        MuCalc::And(es) => MuCalcV::And(mu_views(es@)),
        MuCalc::Or(es) => MuCalcV::Or(mu_views(es@)),
        MuCalc::Mu(x, e) => MuCalcV::Mu(x.0@, Box::new(mu_view(*e))),
        MuCalc::Nu(x, e) => MuCalcV::Nu(x.0@, Box::new(mu_view(*e))),
    }
}

/// The views of a sequence of formulas.
pub open spec fn mu_views(es: Seq<MuCalc>) -> Seq<MuCalcV>
    decreases es,
{
    if es.len() == 0 {
        Seq::empty()
    } else {
        mu_views(es.drop_last()).push(mu_view(es.last()))
    }
}

/// The views of a sequence of formulas, element by element.
pub proof fn lemma_mu_views(es: Seq<MuCalc>)
    ensures
        mu_views(es).len() == es.len(),
        forall|k: int| 0 <= k < es.len() ==> #[trigger] mu_views(es)[k] == mu_view(es[k]),
    decreases es.len(),
{
    if es.len() > 0 {
        lemma_mu_views(es.drop_last());
    }
}

/// Appending a formula appends its view.
pub proof fn lemma_mu_views_push(es: Seq<MuCalc>, e: MuCalc)
    ensures
        mu_views(es.push(e)) == mu_views(es).push(mu_view(e)),
{
    assert(es.push(e).drop_last() =~= es);
}

} // verus!
