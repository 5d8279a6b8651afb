use mucalc::aut::{parse_aut, StateId};
use mucalc::bisimilarity::{bisimilarity_to_fix, make_basis_elem};
use mucalc::solver::symbolic::eq::{Expr, FixType, FunId, VarId};
use mucalc::solver::symbolic::formula::{BasisElemId, Formula};

fn atoms(f: &Formula) -> Vec<usize> {
    match f {
        Formula::Or(v) => v
            .iter()
            .map(|a| match a {
                Formula::Atom(b, VarId(0)) => b.0,
                _ => panic!("expected an atom on variable 0"),
            })
            .collect(),
        _ => panic!("expected a disjunction"),
    }
}

#[test]
fn pairs_are_numbered_by_first_then_second_state() {
    let lts1 = parse_aut("des (0,0,3)").unwrap();
    let lts2 = parse_aut("des (0,0,4)").unwrap();
    assert_eq!(make_basis_elem(StateId(2), StateId(3), &lts1, &lts2), BasisElemId(11));
    assert_eq!(make_basis_elem(StateId(0), StateId(1), &lts1, &lts2), BasisElemId(1));
}

#[test]
fn one_greatest_fixpoint_over_pairs() {
    let lts1 = parse_aut("des (0,1,1)\n(0,a,0)").unwrap();
    let lts2 = parse_aut("des (0,2,2)\n(0,a,1)\n(1,a,0)").unwrap();
    let (eqs, funs) = bisimilarity_to_fix(&lts1, &lts2);
    assert_eq!(eqs.len(), 1);
    assert_eq!(eqs[0].fix_type, FixType::Max);
    assert!(matches!(&eqs[0].expr, Expr::Fun(FunId(0), a) if a.len() == 1 && matches!(a[0], Expr::Var(VarId(0)))));
    assert_eq!(funs.fun_count(), 1);
    match funs.get(BasisElemId(0), FunId(0)) {
        Formula::And(parts) => {
            assert_eq!(parts.len(), 2);
            assert_eq!(atoms(&parts[0]), vec![1]);
            assert_eq!(atoms(&parts[1]), vec![1]);
        },
        _ => panic!("expected a conjunction"),
    }
    match funs.get(BasisElemId(1), FunId(0)) {
        Formula::And(parts) => {
            assert_eq!(atoms(&parts[0]), vec![0]);
            assert_eq!(atoms(&parts[1]), vec![0]);
        },
        _ => panic!("expected a conjunction"),
    }
}

#[test]
fn unmatched_labels_give_empty_disjunctions() {
    let lts1 = parse_aut("des (0,1,1)\n(0,a,0)").unwrap();
    let lts2 = parse_aut("des (0,1,1)\n(0,b,0)").unwrap();
    let (_, funs) = bisimilarity_to_fix(&lts1, &lts2);
    match funs.get(BasisElemId(0), FunId(0)) {
        Formula::And(parts) => {
            assert_eq!(parts.len(), 2);
            assert!(atoms(&parts[0]).is_empty());
            assert!(atoms(&parts[1]).is_empty());
        },
        _ => panic!("expected a conjunction"),
    }
}
