use mucalc::solver::symbolic::eq::VarId;
use mucalc::solver::symbolic::formula::{BasisElemId, Formula};
use mucalc::solver::symbolic::moves::{Assumption, P0Moves, P0Pos, P1Pos};

fn atom(b: usize, i: usize) -> Formula {
    Formula::Atom(BasisElemId(b), VarId(i))
}

fn pos(b: usize, i: usize) -> P0Pos {
    P0Pos { b: BasisElemId(b), i: VarId(i) }
}

fn sample() -> Formula {
    Formula::Or(vec![Formula::And(vec![atom(1, 0), atom(0, 0)]), atom(2, 1)])
}

#[test]
fn moves_enumerate_sorted_clauses() {
    let mut m = P0Moves::from_formula(&sample());
    assert!(!m.is_exhausted());
    assert_eq!(m.next().unwrap().moves, vec![pos(0, 0), pos(1, 0)]);
    assert_eq!(m.next().unwrap().moves, vec![pos(2, 1)]);
    assert!(m.next().is_none());
    assert!(m.is_exhausted());
}

#[test]
fn conjunctions_multiply_out() {
    let f = Formula::And(vec![
        Formula::Or(vec![atom(0, 0), atom(1, 0)]),
        Formula::Or(vec![atom(0, 1), atom(0, 0)]),
    ]);
    let mut m = P0Moves::from_formula(&f);
    assert_eq!(m.next().unwrap().moves, vec![pos(0, 0), pos(0, 1)]);
    // Repeated positions appear once.
    assert_eq!(m.next().unwrap().moves, vec![pos(0, 0)]);
    assert_eq!(m.next().unwrap().moves, vec![pos(1, 0), pos(0, 1)]);
    assert_eq!(m.next().unwrap().moves, vec![pos(0, 0), pos(1, 0)]);
    assert!(m.next().is_none());
}

#[test]
fn empty_disjunction_has_no_moves() {
    let mut m = P0Moves::from_formula(&Formula::Or(vec![]));
    assert!(m.is_exhausted());
    assert!(m.next().is_none());
    let mut t = P0Moves::from_formula(&Formula::And(vec![]));
    assert_eq!(t.next().unwrap().moves, Vec::<P0Pos>::new());
}

#[test]
fn losing_positions_remove_their_clauses() {
    let mut m = P0Moves::from_formula(&sample());
    m.simplify(|p| if p == pos(1, 0) { Assumption::Losing } else { Assumption::Unknown });
    assert_eq!(m.next().unwrap().moves, vec![pos(2, 1)]);
    assert!(m.next().is_none());
}

#[test]
fn winning_formula_leaves_the_empty_clause() {
    let mut m = P0Moves::from_formula(&sample());
    m.simplify(|p| if p == pos(2, 1) { Assumption::Winning } else { Assumption::Unknown });
    assert_eq!(m.next().unwrap().moves, Vec::<P0Pos>::new());
    assert!(m.next().is_none());
}

#[test]
fn all_losing_exhausts() {
    let mut m = P0Moves::from_formula(&sample());
    m.simplify(|_| Assumption::Losing);
    assert!(m.is_exhausted());
}

#[test]
fn player_one_moves_follow_the_clause() {
    let p = P1Pos { moves: vec![pos(0, 0), pos(3, 1)] };
    let mut m = p.moves();
    assert_eq!(m.next(), Some(pos(0, 0)));
    assert_eq!(m.next(), Some(pos(3, 1)));
    assert_eq!(m.next(), None);
}

use mucalc::solver::symbolic::compose::{EqsFormulas, FunsFormulas};
use mucalc::solver::symbolic::eq::{Expr, FixEq, FixType, FunId};

fn system(expr: Expr, funs: Vec<Vec<Formula>>) -> EqsFormulas {
    let eqs = vec![
        FixEq { fix_type: FixType::Max, expr },
        FixEq { fix_type: FixType::Min, expr: Expr::Var(VarId(1)) },
    ];
    EqsFormulas::new(eqs, FunsFormulas::new(funs))
}

#[test]
fn function_symbols_take_their_arguments() {
    // f(x, y) at basis element 0 is x at 0 and y at 1.
    let funs = vec![vec![Formula::And(vec![atom(0, 0), atom(1, 1)])]];
    let eqs = system(Expr::Fun(FunId(0), vec![Expr::Var(VarId(0)), Expr::Var(VarId(1))]), funs);
    let mut m = pos(0, 0).moves(&eqs);
    assert_eq!(m.next().unwrap().moves, vec![pos(0, 0), pos(1, 1)]);
    assert!(m.next().is_none());
}

#[test]
fn missing_formulas_are_true() {
    // f has no formula at basis element 3: it stands for true.
    let funs = vec![vec![atom(0, 0)]];
    let eqs = system(Expr::Fun(FunId(0), vec![Expr::Var(VarId(1))]), funs);
    let mut m = pos(3, 0).moves(&eqs);
    assert_eq!(m.next().unwrap().moves, Vec::<P0Pos>::new());
    assert!(m.next().is_none());
}

#[test]
fn false_conjuncts_make_conjunctions_false() {
    let expr = Expr::And(vec![Expr::Var(VarId(1)), Expr::Or(vec![])]);
    let eqs = system(expr, vec![]);
    let mut m = pos(0, 0).moves(&eqs);
    assert!(m.is_exhausted());
    assert!(m.next().is_none());
}

#[test]
fn false_disjuncts_are_dropped() {
    let expr = Expr::Or(vec![Expr::Or(vec![]), Expr::Var(VarId(1)), Expr::And(vec![Expr::Or(vec![])])]);
    let eqs = system(expr, vec![]);
    let mut m = pos(2, 0).moves(&eqs);
    assert_eq!(m.next().unwrap().moves, vec![pos(2, 1)]);
    assert!(m.next().is_none());
}

#[test]
fn winning_positions_leave_their_clauses() {
    let mut m = P0Moves::from_formula(&sample());
    m.simplify(|p| if p == pos(0, 0) { Assumption::Winning } else { Assumption::Unknown });
    assert_eq!(m.next().unwrap().moves, vec![pos(1, 0)]);
    assert_eq!(m.next().unwrap().moves, vec![pos(2, 1)]);
    assert!(m.next().is_none());
}
