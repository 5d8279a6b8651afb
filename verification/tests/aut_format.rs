use mucalc::aut::{aut_text, parse_aut, AutError, StateId};
use mucalc::text::{chars_of, decimal_of, parse_usize_of};

#[test]
fn parses_a_small_system() {
    let lts = parse_aut("des (0,2,2)\n(0,\"a\",1)\n(1,b,0)\n").unwrap();
    assert_eq!(lts.first_state, StateId(0));
    assert_eq!(lts.transitions.len(), 2);
    assert_eq!(lts.transitions[0], vec![("a".to_string(), StateId(1))]);
    assert_eq!(lts.transitions[1], vec![("b".to_string(), StateId(0))]);
}

#[test]
fn trims_labels_and_numbers() {
    let lts = parse_aut("des ( 1 , 1 , 3 )\n( 2 , \" x y \" , 0 )").unwrap();
    assert_eq!(lts.first_state, StateId(1));
    assert_eq!(lts.transitions[2], vec![("x y".to_string(), StateId(0))]);
    assert!(lts.transitions[0].is_empty());
    assert!(lts.transitions[1].is_empty());
}

#[test]
fn keeps_transitions_of_a_state_in_order() {
    let lts = parse_aut("des (0,3,2)\n(0,a,1)\n(1,c,1)\n(0,b,0)").unwrap();
    assert_eq!(
        lts.transitions[0],
        vec![("a".to_string(), StateId(1)), ("b".to_string(), StateId(0))]
    );
}

fn err(src: &str) -> AutError {
    match parse_aut(src) {
        Ok(_) => panic!("expected an error"),
        Err(e) => e,
    }
}

#[test]
fn header_errors() {
    assert_eq!(err(""), AutError::FileEmpty);
    assert_eq!(err("xyz"), AutError::ExpectedDes);
    assert_eq!(err("des 0,1,2)"), AutError::ExpectedOpenParen);
    assert_eq!(err("des (0"), AutError::ExpectedFirstState);
    assert_eq!(err("des (0,1"), AutError::ExpectedTransCount);
    assert_eq!(err("des (0,1,2"), AutError::ExpectedStateCount);
    assert_eq!(err("des (x,1,2)"), AutError::FirstStateNotNumber);
    assert_eq!(err("des (0,y,2)"), AutError::TransCountNotNumber);
    assert_eq!(err("des (0,1,z)"), AutError::StateCountNotNumber);
    assert_eq!(err("des (5,0,2)"), AutError::FirstStateMissing(5));
}

#[test]
fn transition_errors() {
    assert_eq!(err("des (0,1,2)\n0,a,1)"), AutError::ExpectedOpenParen);
    assert_eq!(err("des (0,1,2)\n(0"), AutError::ExpectedStartState);
    assert_eq!(err("des (0,1,2)\n(0, \"a"), AutError::ExpectedLabelQuote);
    assert_eq!(err("des (0,1,2)\n(0, \"a\" 1)"), AutError::ExpectedLabelComma);
    assert_eq!(err("des (0,1,2)\n(0, a)"), AutError::ExpectedLabel);
    assert_eq!(err("des (0,1,2)\n(0,a,1"), AutError::ExpectedEndState);
    assert_eq!(err("des (0,1,2)\n(x,a,1)"), AutError::StartStateNotNumber);
    assert_eq!(err("des (0,1,2)\n(0,a,y)"), AutError::EndStateNotNumber);
    assert_eq!(err("des (0,1,2)\n(7,a,1)"), AutError::StartStateMissing(7));
    assert_eq!(err("des (0,1,2)\n(0,a,9)"), AutError::EndStateMissing(9));
    assert_eq!(
        err("des (0,2,2)\n(0,a,1)"),
        AutError::WrongTransitionCount { got: 1, expected: 2 }
    );
}

#[test]
fn state_ids_are_basis_elements() {
    assert_eq!(StateId(7).to_basis_elem().0, 7);
    assert_eq!(StateId(3).to_usize(), 3);
}

#[test]
fn writes_a_generated_system() {
    let lts = vec![vec![(1, 0), (0, 12)], vec![(0, 3), (1, 0)]];
    let text = aut_text(&lts, 2);
    assert_eq!(text, "des (0,4,2)\n(0,\"0\",1)\n(0,\"12\",0)\n(1,\"3\",0)\n(1,\"0\",1)\n");
}

#[test]
fn written_systems_read_back() {
    let lts = vec![vec![(2, 7)], vec![(0, 1)], vec![(1, 7)]];
    let back = parse_aut(&aut_text(&lts, 1)).unwrap();
    assert_eq!(back.first_state, StateId(0));
    assert_eq!(back.transitions[0], vec![("7".to_string(), StateId(2))]);
    assert_eq!(back.transitions[1], vec![("1".to_string(), StateId(0))]);
    assert_eq!(back.transitions[2], vec![("7".to_string(), StateId(1))]);
}

#[test]
fn writes_an_empty_system() {
    let lts: Vec<Vec<(usize, usize)>> = Vec::new();
    assert_eq!(aut_text(&lts, 5), "des (0,0,0)\n");
}

#[test]
fn decimals_read_back() {
    for n in [0usize, 7, 10, 99, 100, 12345, usize::MAX] {
        let digits = decimal_of(n);
        assert_eq!(digits.iter().collect::<String>(), n.to_string());
        assert_eq!(parse_usize_of(&digits), Some(n));
        assert_eq!(parse_usize_of(&chars_of(&n.to_string())), Some(n));
    }
}
