use mucalc::solver::symbolic::eq::VarId;
use mucalc::solver::symbolic::formula::{BasisElemId, Formula};
use mucalc::solver::symbolic::moves::{Assumption, P0Moves, P1Pos};

// Atoms of these formulas have b == i, and are named by that number.
fn a(k: usize) -> Formula {
    Formula::Atom(BasisElemId(k), VarId(k))
}

fn or(children: Vec<Formula>) -> Formula {
    Formula::Or(children)
}

fn and(children: Vec<Formula>) -> Formula {
    Formula::And(children)
}

// Every selection of one atom per disjunction.
fn all_moves(f: &Formula) -> Vec<Vec<usize>> {
    match f {
        Formula::Atom(b, _) => vec![vec![b.0]],
        Formula::And(children) => {
            let mut acc: Vec<Vec<usize>> = vec![vec![]];
            for child in children {
                let mut next = Vec::new();
                for prefix in &acc {
                    for mov in all_moves(child) {
                        let mut m = prefix.clone();
                        m.extend(mov);
                        next.push(m);
                    }
                }
                acc = next;
            }
            acc
        }
        Formula::Or(children) => children.iter().flat_map(all_moves).collect(),
    }
}

// Drops the moves through a losing atom, deletes the winning atoms, keeps the
// minimal moves once each, and sorts them.
fn filter_moves(moves: &mut Vec<Vec<usize>>, assumptions: &dyn Fn(usize) -> Assumption) {
    moves.retain(|mov| !mov.iter().any(|&b| matches!(assumptions(b), Assumption::Losing)));
    for mov in moves.iter_mut() {
        mov.retain(|&b| !matches!(assumptions(b), Assumption::Winning));
    }

    let mut i = 0;
    'outer: while i < moves.len() {
        for j in 0..moves.len() {
            if j != i && moves[j].iter().all(|b| moves[i].contains(b)) {
                moves.swap_remove(i);
                continue 'outer;
            }
        }
        i += 1;
    }

    moves.iter_mut().for_each(|mov| mov.sort());
    moves.sort();
}

fn check_moves(f: &Formula, moves: &[P1Pos], winning: &[usize], losing: &[usize]) {
    let assumptions = |b: usize| {
        if winning.contains(&b) {
            Assumption::Winning
        } else if losing.contains(&b) {
            Assumption::Losing
        } else {
            Assumption::Unknown
        }
    };
    let mut got_moves: Vec<Vec<usize>> =
        moves.iter().map(|pos| pos.moves.iter().map(|pos| pos.b.0).collect()).collect();
    let mut all = all_moves(f);

    filter_moves(&mut got_moves, &assumptions);
    filter_moves(&mut all, &assumptions);

    assert_eq!(got_moves, all);
}

// Takes `before` moves, simplifies with the given winning and losing atoms,
// takes the rest and checks them against all the moves of the formula.
fn run(f: Formula, before: usize, winning: &[usize], losing: &[usize]) {
    let mut moves = P0Moves::from_formula(&f);
    let mut out = Vec::new();
    for _ in 0..before {
        out.push(moves.next().unwrap());
    }
    if !winning.is_empty() || !losing.is_empty() {
        moves.simplify(|pos| {
            if winning.contains(&pos.b.0) {
                Assumption::Winning
            } else if losing.contains(&pos.b.0) {
                Assumption::Losing
            } else {
                Assumption::Unknown
            }
        });
    }
    while let Some(m) = moves.next() {
        out.push(m);
    }
    check_moves(&f, &out, winning, losing);
}

fn two_by_two() -> Formula {
    and(vec![or(vec![a(1), a(2)]), or(vec![a(3), a(4)])])
}

#[test]
fn simple() {
    let f = or(vec![
        a(0),
        and(vec![or(vec![a(1), a(2)]), or(vec![a(3), a(4), a(5)]), or(vec![a(6), a(7)])]),
    ]);
    run(f, 0, &[], &[]);
}

#[test]
fn simplify_l1() {
    run(two_by_two(), 1, &[], &[1]);
}

#[test]
fn simplify_l2() {
    run(two_by_two(), 1, &[], &[2]);
}

#[test]
fn simplify_l3() {
    run(two_by_two(), 1, &[], &[3]);
}

#[test]
fn simplify_l4() {
    run(two_by_two(), 1, &[], &[4]);
}

#[test]
fn simplify_w1() {
    run(two_by_two(), 1, &[1], &[]);
}

#[test]
fn simplify_w2() {
    run(two_by_two(), 1, &[2], &[]);
}

#[test]
fn simplify_w3() {
    run(two_by_two(), 1, &[3], &[]);
}

#[test]
fn simplify_w4() {
    run(two_by_two(), 1, &[4], &[]);
}

#[test]
fn regression_1() {
    let f = and(vec![or(vec![a(1), a(2)]), or(vec![a(3), a(4)]), or(vec![a(5), a(6)])]);
    run(f, 3, &[2], &[]);
}

fn b_lists(m: &mut P0Moves) -> Vec<Vec<usize>> {
    let mut out = Vec::new();
    while let Some(pos) = m.next() {
        out.push(pos.moves.iter().map(|p| p.b.0).collect());
    }
    out
}

#[test]
fn undecided_positions_keep_the_moves_where_they_are() {
    let mut m = P0Moves::from_formula(&two_by_two());
    assert_eq!(m.next().unwrap().moves.len(), 2);
    m.simplify(|_| Assumption::Unknown);
    assert_eq!(b_lists(&mut m), vec![vec![1, 4], vec![2, 3], vec![2, 4]]);
}

#[test]
fn a_decided_position_starts_the_moves_over() {
    let mut m = P0Moves::from_formula(&two_by_two());
    assert_eq!(m.next().unwrap().moves.len(), 2);
    m.simplify(|pos| if pos.b.0 == 3 { Assumption::Losing } else { Assumption::Unknown });
    assert_eq!(b_lists(&mut m), vec![vec![1, 4], vec![2, 4]]);
}
