use mucalc::aut::parse_aut;
use mucalc::bisimilarity::{bisimilarity_to_fix, make_basis_elem};
use mucalc::aut::StateId;
use mucalc::mucalc::conv::{check_mucalc, mucalc_to_fix};
use mucalc::mucalc::parser::parse_mucalc;
use mucalc::parity::conv::parity_game_to_fix;
use mucalc::parity::parser::parse_parity_game;
use mucalc::solver::symbolic::compose::EqsFormulas;
use mucalc::solver::symbolic::eq::VarId;
use mucalc::solver::symbolic::formula::{BasisElemId, Formula};

fn variables(f: &Formula, out: &mut Vec<usize>) {
    match f {
        Formula::Atom(_, v) => out.push(v.0),
        Formula::And(fs) | Formula::Or(fs) => fs.iter().for_each(|g| variables(g, out)),
    }
}

fn basis(f: &Formula, out: &mut Vec<usize>) {
    match f {
        Formula::Atom(b, _) => out.push(b.0),
        Formula::And(fs) | Formula::Or(fs) => fs.iter().for_each(|g| basis(g, out)),
    }
}

fn all_below(f: &Formula, n: usize) -> bool {
    let mut vs = Vec::new();
    variables(f, &mut vs);
    vs.into_iter().all(|v| v < n)
}

#[test]
fn parity_systems_compose_within_their_variables() {
    let g = parse_parity_game("parity 4;\n0 3 0 1,2;\n1 2 1 0,3;\n2 1 0 2;\n3 0 1 0;\n").unwrap();
    let (eqs, funs, _) = parity_game_to_fix(&g);
    let sys = EqsFormulas::new(eqs, funs);
    let n = sys.var_count();
    assert_eq!(n, 4);
    for i in 0..n {
        assert!(all_below(&sys.get(BasisElemId(0), VarId(i)), n));
    }
}

#[test]
fn bisimilarity_systems_compose_at_every_pair() {
    let lts1 = parse_aut("des (0,2,2)\n(0,a,1)\n(1,b,0)").unwrap();
    let lts2 = parse_aut("des (0,2,2)\n(0,a,1)\n(1,b,1)").unwrap();
    let (eqs, funs) = bisimilarity_to_fix(&lts1, &lts2);
    let sys = EqsFormulas::new(eqs, funs);
    assert_eq!(sys.var_count(), 1);
    for s1 in 0..2 {
        for s2 in 0..2 {
            let b = make_basis_elem(StateId(s1), StateId(s2), &lts1, &lts2);
            let f = sys.get(b, VarId(0));
            let mut vs = Vec::new();
            variables(&f, &mut vs);
            assert!(vs.iter().all(|&v| v == 0));
        }
    }
    // States 0 of both systems: each a-step is answered by the other, to
    // the pair (1, 1), numbered 3.
    let f = sys.get(BasisElemId(0), VarId(0));
    match f {
        Formula::And(cs) => {
            assert_eq!(cs.len(), 2);
            for c in &cs {
                let mut bs = Vec::new();
                basis(c, &mut bs);
                assert_eq!(bs, vec![3]);
            }
        },
        other => panic!("unexpected formula {other:?}"),
    }
}

#[test]
fn mucalc_systems_compose_within_their_variables() {
    let lts = parse_aut("des (0,3,3)\n(0,a,1)\n(1,b,2)\n(2,a,0)").unwrap();
    let f = parse_mucalc("nu X. mu Y. (<a>Y || [b]X) && <true>true").unwrap();
    assert_eq!(check_mucalc(&f), Ok(()));
    let (eqs, funs) = mucalc_to_fix(&f, &lts);
    let sys = EqsFormulas::new(eqs, funs);
    let n = sys.var_count();
    assert_eq!(n, 2);
    for b in 0..3 {
        for i in 0..n {
            assert!(all_below(&sys.get(BasisElemId(b), VarId(i)), n));
        }
    }
}
