use mucalc::new_solver::retain::{simplify, Simplify};
use mucalc::solver::iter::{IteratorExt, Simplify as Decide};

#[test]
fn retain_keeps_and_removes() {
    let mut v = vec![1, 2, 3, 4];
    let cleared = simplify(&mut v, |_, _, &x| if x % 2 == 0 { Simplify::Keep } else { Simplify::Remove });
    assert!(!cleared);
    assert_eq!(v, vec![2, 4]);
}

#[test]
fn retain_clear_drops_the_rest() {
    let mut v = vec![1, 2, 3, 4];
    let cleared = simplify(&mut v, |_, _, &x| if x == 3 { Simplify::Clear } else { Simplify::Keep });
    assert!(cleared);
    assert_eq!(v, vec![1, 2]);
}

#[test]
fn retain_sees_positions_and_kept_counts() {
    let mut v = vec![10, 20, 30, 40];
    // Keep at most two items.
    simplify(&mut v, |_, kept, _| if kept < 2 { Simplify::Keep } else { Simplify::Remove });
    assert_eq!(v, vec![10, 20]);
    let mut w = vec![10, 20, 30, 40];
    simplify(&mut w, |i, _, _| if i % 2 == 1 { Simplify::Keep } else { Simplify::Remove });
    assert_eq!(w, vec![20, 40]);
}

#[test]
fn iterator_simplify_maps_and_breaks() {
    let v = vec![1u32, 2, 3, 4];
    let r = v.simplify(|x| match x {
        1 => Decide::Remove,
        3 => Decide::Break,
        x => Decide::Keep(x * 10),
    });
    assert_eq!(r, vec![Some(20), None, Some(40)]);
}

#[test]
fn removed_positions_are_reported() {
    let removed = std::cell::RefCell::new(Vec::new());
    let out = vec![1, 2, 3, 4].simplify_with(
        |i| removed.borrow_mut().push(i),
        |x: i32| match x {
            2 => Decide::Remove,
            3 => Decide::Break,
            x => Decide::Keep(x * 10),
        },
    );
    assert_eq!(out, vec![Some(10), None, Some(40)]);
    assert_eq!(*removed.borrow(), vec![1]);
}
