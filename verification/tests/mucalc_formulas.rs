use mucalc::aut::parse_aut;
use mucalc::mucalc::conv::{check_mucalc, mucalc_to_fix, ConvError};
use mucalc::mucalc::parser::{parse_mucalc, unwrap_one_or};
use mucalc::mucalc::{Act, MuCalc};
use mucalc::solver::symbolic::eq::{Expr, FixType, FunId, VarId};
use mucalc::solver::symbolic::formula::{BasisElemId, Formula};

fn is_var(f: &MuCalc, name: &str) -> bool {
    matches!(f, MuCalc::Var(v) if v.0 == name)
}

fn is_true(f: &MuCalc) -> bool {
    matches!(f, MuCalc::And(v) if v.is_empty())
}

#[test]
fn parses_fixpoints_modalities_and_disjunctions() {
    let f = parse_mucalc("mu X. <a>X || [b]true").unwrap();
    let MuCalc::Mu(x, body) = f else { panic!("expected mu") };
    assert_eq!(x.0, "X");
    let MuCalc::Or(items) = *body else { panic!("expected or") };
    assert_eq!(items.len(), 2);
    match &items[0] {
        MuCalc::Diamond(Act::Label(l), e) => {
            assert_eq!(l, "a");
            assert!(is_var(e, "X"));
        },
        _ => panic!("expected a diamond"),
    }
    match &items[1] {
        MuCalc::Box(Act::Label(l), e) => {
            assert_eq!(l, "b");
            assert!(is_true(e));
        },
        _ => panic!("expected a box"),
    }
}

#[test]
fn parses_action_sets() {
    match parse_mucalc("<!a>true").unwrap() {
        MuCalc::Diamond(Act::NotLabel(l), _) => assert_eq!(l, "a"),
        _ => panic!("expected a negated label"),
    }
    match parse_mucalc("[true]false").unwrap() {
        MuCalc::Box(Act::True, e) => assert!(matches!(*e, MuCalc::Or(ref v) if v.is_empty())),
        _ => panic!("expected every action"),
    }
    match parse_mucalc("<a b>x").unwrap() {
        MuCalc::Diamond(Act::Label(l), _) => assert_eq!(l, "a b"),
        _ => panic!("expected a label with a space"),
    }
}

#[test]
fn conjunction_binds_tighter_than_disjunction() {
    let f = parse_mucalc("a && b || c").unwrap();
    let MuCalc::Or(items) = f else { panic!("expected or") };
    assert_eq!(items.len(), 2);
    let MuCalc::And(conj) = &items[0] else { panic!("expected and") };
    assert!(is_var(&conj[0], "a") && is_var(&conj[1], "b"));
    assert!(is_var(&items[1], "c"));
}

#[test]
fn empty_text_and_constants() {
    assert!(is_true(&parse_mucalc("").unwrap()));
    assert!(is_true(&parse_mucalc("true").unwrap()));
    assert!(matches!(parse_mucalc("false").unwrap(), MuCalc::Or(v) if v.is_empty()));
    assert!(is_var(&parse_mucalc("trueish").unwrap(), "trueish"));
    assert!(is_var(&parse_mucalc("mu").unwrap(), "mu"));
}

#[test]
fn fixpoints_inside_operators_need_parentheses() {
    assert!(parse_mucalc("nu Y . [true]Y && mu Z.Z").is_err());
    let f = parse_mucalc("nu Y . [true]Y && (mu Z.Z)").unwrap();
    let MuCalc::Nu(y, body) = f else { panic!("expected nu") };
    assert_eq!(y.0, "Y");
    let MuCalc::And(items) = *body else { panic!("expected and") };
    assert!(matches!(&items[1], MuCalc::Mu(z, e) if z.0 == "Z" && is_var(e, "Z")));
}

#[test]
fn reports_where_the_formula_stops() {
    assert_eq!(parse_mucalc("<a> <b>x").unwrap_err().pos, 0);
    assert_eq!(parse_mucalc("x y").unwrap_err().pos, 2);
    assert_eq!(parse_mucalc("(x").unwrap_err().pos, 0);
}

#[test]
fn unwrap_one_or_keeps_a_single_item() {
    assert_eq!(unwrap_one_or(vec![5], |v: Vec<i32>| v.len() as i32), 5);
    assert_eq!(unwrap_one_or(vec![5, 6], |v: Vec<i32>| v.len() as i32), 2);
    assert_eq!(unwrap_one_or(Vec::new(), |v: Vec<i32>| v.len() as i32), 0);
}

#[test]
fn checks_formulas_before_conversion() {
    assert_eq!(check_mucalc(&parse_mucalc("true").unwrap()), Err(ConvError::NotFixpointRoot));
    assert_eq!(
        check_mucalc(&parse_mucalc("mu X. (mu X. X)").unwrap()),
        Err(ConvError::DeclaredTwice)
    );
    assert_eq!(check_mucalc(&parse_mucalc("mu X. Y").unwrap()), Err(ConvError::NotInScope));
    assert_eq!(
        check_mucalc(&parse_mucalc("mu X. (nu Y. Y) && Y").unwrap()),
        Err(ConvError::NotInScope)
    );
    assert_eq!(check_mucalc(&parse_mucalc("nu X. (mu Y. <a>Y || X)").unwrap()), Ok(()));
}

#[test]
fn converts_a_diamond_into_one_function() {
    let lts = parse_aut("des (0,2,2)\n(0,a,1)\n(1,b,0)").unwrap();
    let f = parse_mucalc("nu X. <a>X").unwrap();
    let (eqs, funs) = mucalc_to_fix(&f, &lts);
    assert_eq!(eqs.len(), 1);
    assert_eq!(eqs[0].fix_type, FixType::Max);
    match &eqs[0].expr {
        Expr::Fun(FunId(0), args) => {
            assert_eq!(args.len(), 1);
            assert!(matches!(args[0], Expr::Var(VarId(0))));
        },
        _ => panic!("expected the function applied to X"),
    }
    assert_eq!(funs.fun_count(), 1);
    match funs.get(BasisElemId(0), FunId(0)) {
        Formula::Or(v) => {
            assert_eq!(v.len(), 1);
            assert!(matches!(v[0], Formula::Atom(BasisElemId(1), VarId(0))));
        },
        _ => panic!("expected a disjunction"),
    }
    assert!(matches!(funs.get(BasisElemId(1), FunId(0)), Formula::Or(v) if v.is_empty()));
    assert!(matches!(funs.get(BasisElemId(9), FunId(0)), Formula::And(v) if v.is_empty()));
}

#[test]
fn inner_fixpoints_come_first_and_modalities_are_shared() {
    let lts = parse_aut("des (0,1,1)\n(0,a,0)").unwrap();
    let f = parse_mucalc("nu X. (mu Y. [a]Y || <a>X) && [a]X").unwrap();
    let (eqs, funs) = mucalc_to_fix(&f, &lts);
    assert_eq!(eqs.len(), 2);
    assert_eq!(eqs[0].fix_type, FixType::Min);
    assert_eq!(eqs[1].fix_type, FixType::Max);
    // [a] and <a> are the two function symbols, met in that order.
    assert_eq!(funs.fun_count(), 2);
    assert!(matches!(funs.get(BasisElemId(0), FunId(0)), Formula::And(v) if v.len() == 1));
    assert!(matches!(funs.get(BasisElemId(0), FunId(1)), Formula::Or(v) if v.len() == 1));
    match &eqs[1].expr {
        Expr::And(items) => {
            assert!(matches!(items[0], Expr::Var(VarId(0))));
            assert!(matches!(&items[1], Expr::Fun(FunId(0), a) if matches!(a[0], Expr::Var(VarId(1)))));
        },
        _ => panic!("expected a conjunction"),
    }
}
