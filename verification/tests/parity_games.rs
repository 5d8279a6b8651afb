use mucalc::parity::conv::parity_game_to_fix;
use mucalc::parity::parser::{parse_parity_game, try_parse_parity_game, ParityError};
use mucalc::solver::strategy::Player;
use mucalc::solver::symbolic::eq::{Expr, FixType, VarId};

const GAME: &str = "parity 3;\n0 1 0 1,2 \"a\";\n1 2 1 0;\n2 0 0 2;\n";

#[test]
fn parses_rows() {
    let g = parse_parity_game(GAME).unwrap();
    assert_eq!(g.nodes.len(), 3);
    assert_eq!(g.nodes[0].id, 0);
    assert_eq!(g.nodes[0].relevance, 1);
    assert_eq!(g.nodes[0].player, Player::P0);
    assert_eq!(g.nodes[0].successors, vec![1, 2]);
    assert_eq!(g.nodes[1].player, Player::P1);
    assert_eq!(g.nodes[1].successors, vec![0]);
    assert_eq!(g.nodes[2].successors, vec![2]);
}

#[test]
fn header_is_required() {
    assert!(matches!(parse_parity_game("parit 3;\n"), Err(ParityError::BadHeader)));
    assert!(matches!(parse_parity_game("parity 3\n"), Err(ParityError::BadHeader)));
    assert!(matches!(parse_parity_game("parity 3;"), Err(ParityError::BadHeader)));
}

#[test]
fn rows_may_be_missing_or_stop_early() {
    assert_eq!(parse_parity_game("parity 1;\n").unwrap().nodes.len(), 0);
    let g = parse_parity_game("parity 2;\n0 0 0 1;\nnot a row;\n1 0 1 0;\n").unwrap();
    assert_eq!(g.nodes.len(), 1);
}

#[test]
fn numbers_too_large_abort() {
    assert!(try_parse_parity_game("parity 99999999999999999999999;\n").is_none());
    assert!(try_parse_parity_game("parity 1;\n0 99999999999999999999999 0 0;\n").is_none());
    assert!(matches!(try_parse_parity_game(GAME), Some(Ok(_))));
}

#[test]
fn equations_follow_relevance() {
    let g = parse_parity_game(GAME).unwrap();
    let (eqs, funs, ids) = parity_game_to_fix(&g);
    assert_eq!(funs.fun_count(), 0);
    assert_eq!(eqs.len(), 3);
    assert_eq!(ids[&2], VarId(0));
    assert_eq!(ids[&0], VarId(1));
    assert_eq!(ids[&1], VarId(2));
    assert_eq!(eqs[0].fix_type, FixType::Max);
    assert_eq!(eqs[1].fix_type, FixType::Min);
    assert_eq!(eqs[2].fix_type, FixType::Max);
    match &eqs[1].expr {
        Expr::Or(v) => {
            assert_eq!(v.len(), 2);
            assert!(matches!(v[0], Expr::Var(VarId(2))));
            assert!(matches!(v[1], Expr::Var(VarId(0))));
        },
        _ => panic!("player 0 chooses a successor"),
    }
    match &eqs[2].expr {
        Expr::And(v) => assert!(matches!(v[0], Expr::Var(VarId(1)))),
        _ => panic!("player 1 nodes need every successor"),
    }
}

#[test]
fn equal_relevances_keep_their_order() {
    let g = parse_parity_game("parity 3;\n5 4 0 7;\n7 4 0 5;\n9 1 1 5;\n").unwrap();
    let (_, _, ids) = parity_game_to_fix(&g);
    assert_eq!(ids[&9], VarId(0));
    assert_eq!(ids[&5], VarId(1));
    assert_eq!(ids[&7], VarId(2));
}
