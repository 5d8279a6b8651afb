//! Enumeration of the moves of the symbolic parity game.
//!
//! A position of player 0 is a pair of a basis element and a variable; its
//! moves are the clauses of the disjunctive normal form of the formula that
//! the equation system gives it. A position of player 1 is one such clause,
//! and its moves are the positions of player 0 that the clause holds.
use vstd::prelude::*;

use super::compose::{compose_spec, EqsFormulas};
use super::eq::VarId;
use super::formula::{formula_view, BasisElemId, Formula};

verus! {

/// A position of player 0.
#[derive(Clone, Copy, Debug, Hash, PartialEq, Eq, Structural)]
pub struct P0Pos {
    pub b: BasisElemId,
    pub i: VarId,
}

/// A position of player 1: a clause, sorted by variable then by basis element,
/// without repetitions.
#[derive(Clone, Debug, Hash, PartialEq, Eq)]
pub struct P1Pos {
    pub moves: Vec<P0Pos>,
}

/// An iterator over the clauses of a formula's disjunctive normal form.
pub enum FormulaIter {
    Atom(P0Pos),
    // Contains iterators for subformulas.
    And(Vec<FormulaIter>),
    // Contains iterators for subformulas and the currently active subformula.
    Or(Vec<FormulaIter>, usize),
}

/// The clauses of a conjunction of two sets of clauses: every clause of `x`
/// joined with every clause of `y`, those of `y` varying fastest.
pub open spec fn prod(x: Seq<Seq<P0Pos>>, y: Seq<Seq<P0Pos>>) -> Seq<Seq<P0Pos>>
    decreases x.len(),
{
    if x.len() == 0 {
        Seq::empty()
    } else {
        y.map_values(|c: Seq<P0Pos>| x[0] + c) + prod(x.drop_first(), y)
    }
}

/// The clauses of the disjunctive normal form of a formula, in the order in
/// which they are enumerated.
pub open spec fn dnf(f: Formula) -> Seq<Seq<P0Pos>>
    decreases f, 0int,
{
    match f {
        Formula::Atom(b, i) => seq![seq![P0Pos { b, i }]],
        Formula::And(v) => dnf_and(v@, 0),
        Formula::Or(v) => dnf_or(v@, 0),
    }
}

pub open spec fn dnf_and(v: Seq<Formula>, i: int) -> Seq<Seq<P0Pos>>
    decreases v, v.len() - i,
{
    if 0 <= i < v.len() {
        prod(dnf(v[i]), dnf_and(v, i + 1))
    } else {
        seq![Seq::empty()]
    }
}

pub open spec fn dnf_or(v: Seq<Formula>, i: int) -> Seq<Seq<P0Pos>>
    decreases v, v.len() - i,
{
    if 0 <= i < v.len() {
        dnf(v[i]) + dnf_or(v, i + 1)
    } else {
        Seq::empty()
    }
}

/// A formula has no empty disjunction below its root.
pub open spec fn formula_wf(f: Formula) -> bool
    decreases f,
{
    match f {
        Formula::Atom(_, _) => true,
        Formula::And(v) => forall|k: int| 0 <= k < v@.len() ==> formula_wf(#[trigger] v@[k]),
        Formula::Or(v) => v@.len() > 0 && forall|k: int|
            0 <= k < v@.len() ==> formula_wf(#[trigger] v@[k]),
    }
}

/// A formula whose only possible empty disjunction is its root.
pub open spec fn formula_wf_root(f: Formula) -> bool {
    match f {
        Formula::Or(v) => forall|k: int| 0 <= k < v@.len() ==> formula_wf(#[trigger] v@[k]),
        _ => formula_wf(f),
    }
}

/// All the clauses that the iterator enumerates from its start.
pub open spec fn all_of(it: FormulaIter) -> Seq<Seq<P0Pos>>
    decreases it, 0int,
{
    match it {
        FormulaIter::Atom(p) => seq![seq![p]],
        FormulaIter::And(v) => all_and(v@, 0),
        FormulaIter::Or(v, _) => all_or(v@, 0),
    }
}

pub open spec fn all_and(v: Seq<FormulaIter>, i: int) -> Seq<Seq<P0Pos>>
    decreases v, v.len() - i,
{
    if 0 <= i < v.len() {
        prod(all_of(v[i]), all_and(v, i + 1))
    } else {
        seq![Seq::empty()]
    }
}

pub open spec fn all_or(v: Seq<FormulaIter>, i: int) -> Seq<Seq<P0Pos>>
    decreases v, v.len() - i,
{
    if 0 <= i < v.len() {
        all_of(v[i]) + all_or(v, i + 1)
    } else {
        Seq::empty()
    }
}

/// The clauses that the iterator has yet to enumerate, the current one first.
pub open spec fn rem_of(it: FormulaIter) -> Seq<Seq<P0Pos>>
    decreases it, 0int,
{
    match it {
        FormulaIter::Atom(p) => seq![seq![p]],
        FormulaIter::And(v) => rem_and(v@, 0),
        FormulaIter::Or(v, pos) => if pos < v@.len() {
            rem_of(v@[pos as int]) + all_or(v@, pos + 1)
        } else {
            Seq::empty()
        },
    }
}

pub open spec fn rem_and(v: Seq<FormulaIter>, i: int) -> Seq<Seq<P0Pos>>
    decreases v, v.len() - i,
{
    if 0 <= i < v.len() {
        let r = rem_of(v[i]);
        if r.len() == 0 {
            Seq::empty()
        } else {
            prod(seq![r[0]], rem_and(v, i + 1)) + prod(r.drop_first(), all_and(v, i + 1))
        }
    } else {
        seq![Seq::empty()]
    }
}

/// The current clause, as the concatenation of the atoms picked.
pub open spec fn cur_of(it: FormulaIter) -> Seq<P0Pos>
    decreases it, 0int,
{
    match it {
        FormulaIter::Atom(p) => seq![p],
        FormulaIter::And(v) => cur_and(v@, 0),
        FormulaIter::Or(v, pos) => if pos < v@.len() {
            cur_of(v@[pos as int])
        } else {
            Seq::empty()
        },
    }
}

pub open spec fn cur_and(v: Seq<FormulaIter>, i: int) -> Seq<P0Pos>
    decreases v, v.len() - i,
{
    if 0 <= i < v.len() {
        cur_of(v[i]) + cur_and(v, i + 1)
    } else {
        Seq::empty()
    }
}

/// The iterator is at its first clause.
pub open spec fn started(it: FormulaIter) -> bool
    decreases it,
{
    match it {
        FormulaIter::Atom(_) => true,
        FormulaIter::And(v) => forall|k: int| 0 <= k < v@.len() ==> started(#[trigger] v@[k]),
        FormulaIter::Or(v, pos) => pos == 0 && forall|k: int|
            0 <= k < v@.len() ==> started(#[trigger] v@[k]),
    }
}

/// Well formed iterators: every disjunction is non empty, its position is in
/// range and its inactive branches are at their start.
pub open spec fn wf(it: FormulaIter) -> bool
    decreases it,
{
    match it {
        FormulaIter::Atom(_) => true,
        FormulaIter::And(v) => forall|k: int| 0 <= k < v@.len() ==> wf(#[trigger] v@[k]),
        FormulaIter::Or(v, pos) => {
            &&& 0 < v@.len()
            &&& pos < v@.len()
            &&& forall|k: int| 0 <= k < v@.len() ==> wf(#[trigger] v@[k])
            &&& forall|k: int| 0 <= k < v@.len() && k != pos ==> started(#[trigger] v@[k])
        },
    }
}

/// Every atom of the iterator has a variable below `n`.
pub open spec fn atoms_below(it: FormulaIter, n: nat) -> bool
    decreases it,
{
    match it {
        FormulaIter::Atom(p) => p.i.0 < n,
        FormulaIter::And(v) => forall|k: int| 0 <= k < v@.len() ==> atoms_below(#[trigger] v@[k], n),
        FormulaIter::Or(v, _) => forall|k: int|
            0 <= k < v@.len() ==> atoms_below(#[trigger] v@[k], n),
    }
}

/// `p` is an atom of the iterator.
pub open spec fn has_atom(it: FormulaIter, p: P0Pos) -> bool
    decreases it,
{
    match it {
        FormulaIter::Atom(q) => q == p,
        FormulaIter::And(v) => exists|k: int| 0 <= k < v@.len() && has_atom(#[trigger] v@[k], p),
        FormulaIter::Or(v, _) => exists|k: int| 0 <= k < v@.len() && has_atom(#[trigger] v@[k], p),
    }
}

/// Every atom of `it` is an atom of `orig` that the assumption may leave
/// undecided.
pub open spec fn undecided_from<F: Fn(P0Pos) -> Assumption>(it: FormulaIter, orig: FormulaIter, f: F) -> bool {
    forall|p: P0Pos|
        #[trigger] has_atom(it, p) ==> has_atom(orig, p) && call_ensures(f, (p,), Assumption::Unknown)
}

/// Iterators over the same formula have the same atoms.
proof fn lemma_shape_atom(a: FormulaIter, b: FormulaIter, p: P0Pos)
    requires
        shape_eq(a, b),
    ensures
        has_atom(a, p) == has_atom(b, p),
    decreases a,
{
    match (a, b) {
        (FormulaIter::And(u), FormulaIter::And(w)) => {
            if has_atom(a, p) {
                let k = choose|k: int| 0 <= k < u@.len() && has_atom(#[trigger] u@[k], p);
                lemma_shape_atom(u@[k], w@[k], p);
            }
            if has_atom(b, p) {
                let k = choose|k: int| 0 <= k < w@.len() && has_atom(#[trigger] w@[k], p);
                lemma_shape_atom(u@[k], w@[k], p);
            }
        },
        (FormulaIter::Or(u, _), FormulaIter::Or(w, _)) => {
            if has_atom(a, p) {
                let k = choose|k: int| 0 <= k < u@.len() && has_atom(#[trigger] u@[k], p);
                lemma_shape_atom(u@[k], w@[k], p);
            }
            if has_atom(b, p) {
                let k = choose|k: int| 0 <= k < w@.len() && has_atom(#[trigger] w@[k], p);
                lemma_shape_atom(u@[k], w@[k], p);
            }
        },
        _ => {},
    }
}

/// Every atom of the formula has a variable below `n`.
pub open spec fn formula_below(f: Formula, n: nat) -> bool
    decreases f,
{
    match f {
        Formula::Atom(_, i) => i.0 < n,
        Formula::And(v) => forall|k: int| 0 <= k < v@.len() ==> formula_below(#[trigger] v@[k], n),
        Formula::Or(v) => forall|k: int| 0 <= k < v@.len() ==> formula_below(#[trigger] v@[k], n),
    }
}

/// The empty disjunction, which has no clause.
pub open spec fn is_empty_or(it: FormulaIter) -> bool {
    match it {
        FormulaIter::Or(v, pos) => v@.len() == 0 && pos == 0,
        _ => false,
    }
}

// ---------------------------------------------------------------------------
// Lemmas on clause sequences.

proof fn lemma_prod_len(x: Seq<Seq<P0Pos>>, y: Seq<Seq<P0Pos>>)
    ensures
        prod(x, y).len() == x.len() * y.len(),
    decreases x.len(),
{
    if x.len() > 0 {
        lemma_prod_len(x.drop_first(), y);
        assert(x.len() * y.len() == y.len() + (x.len() - 1) * y.len()) by (nonlinear_arith);
    }
}

proof fn lemma_prod_single(r: Seq<P0Pos>, y: Seq<Seq<P0Pos>>)
    ensures
        prod(seq![r], y) == y.map_values(|c: Seq<P0Pos>| r + c),
{
    assert(seq![r].drop_first() =~= Seq::<Seq<P0Pos>>::empty());
    assert(prod(seq![r].drop_first(), y) =~= Seq::<Seq<P0Pos>>::empty());
    assert(seq![r][0] == r);
    assert(prod(seq![r], y) =~= y.map_values(|c: Seq<P0Pos>| r + c));
}

proof fn lemma_prod_split(x: Seq<Seq<P0Pos>>, y: Seq<Seq<P0Pos>>)
    requires
        x.len() > 0,
    ensures
        prod(x, y) == prod(seq![x[0]], y) + prod(x.drop_first(), y),
{
    lemma_prod_single(x[0], y);
}

proof fn lemma_all_nonempty(it: FormulaIter)
    requires
        wf(it),
    ensures
        all_of(it).len() >= 1,
    decreases it, 1int,
{
    match it {
        FormulaIter::Atom(_) => {},
        FormulaIter::And(v) => lemma_all_and_nonempty(v@, 0),
        FormulaIter::Or(v, _) => {
            lemma_all_nonempty(v@[0]);
            lemma_all_or_len(v@, 0);
        },
    }
}

proof fn lemma_all_and_nonempty(v: Seq<FormulaIter>, i: int)
    requires
        forall|k: int| 0 <= k < v.len() ==> wf(#[trigger] v[k]),
    ensures
        all_and(v, i).len() >= 1,
    decreases v, v.len() - i,
{
    if 0 <= i < v.len() {
        lemma_all_nonempty(v[i]);
        lemma_all_and_nonempty(v, i + 1);
        lemma_prod_len(all_of(v[i]), all_and(v, i + 1));
        assert(all_of(v[i]).len() * all_and(v, i + 1).len() >= 1) by (nonlinear_arith)
            requires
                all_of(v[i]).len() >= 1,
                all_and(v, i + 1).len() >= 1,
        ;
    }
}

proof fn lemma_all_or_len(v: Seq<FormulaIter>, i: int)
    requires
        0 <= i,
    ensures
        0 <= i < v.len() ==> all_or(v, i).len() >= all_of(v[i]).len(),
    decreases v.len() - i,
{
}

/// In a well formed iterator the remaining clauses start with the current one.
proof fn lemma_rem_first(it: FormulaIter)
    requires
        wf(it),
    ensures
        rem_of(it).len() >= 1,
        rem_of(it)[0] == cur_of(it),
    decreases it, 1int,
{
    match it {
        FormulaIter::Atom(_) => {},
        FormulaIter::And(v) => lemma_rem_and_first(v@, 0),
        FormulaIter::Or(v, pos) => {
            lemma_rem_first(v@[pos as int]);
        },
    }
}

proof fn lemma_rem_and_first(v: Seq<FormulaIter>, i: int)
    requires
        forall|k: int| 0 <= k < v.len() ==> wf(#[trigger] v[k]),
    ensures
        rem_and(v, i).len() >= 1,
        rem_and(v, i)[0] == cur_and(v, i),
    decreases v, v.len() - i,
{
    if 0 <= i < v.len() {
        lemma_rem_first(v[i]);
        lemma_rem_and_first(v, i + 1);
        let r = rem_of(v[i]);
        lemma_prod_single(r[0], rem_and(v, i + 1));
    } else {
        assert(cur_and(v, i) =~= Seq::<P0Pos>::empty());
    }
}

/// A well formed iterator at its start has all its clauses remaining.
proof fn lemma_started_rem(it: FormulaIter)
    requires
        wf(it),
        started(it),
    ensures
        rem_of(it) == all_of(it),
    decreases it, 1int,
{
    match it {
        FormulaIter::And(v) => lemma_started_rem_and(v@, 0),
        FormulaIter::Or(v, pos) => {
            lemma_started_rem(v@[0]);
        },
        FormulaIter::Atom(_) => {},
    }
}

proof fn lemma_started_rem_and(v: Seq<FormulaIter>, i: int)
    requires
        forall|k: int| 0 <= k < v.len() ==> wf(#[trigger] v[k]),
        forall|k: int| i <= k < v.len() ==> started(#[trigger] v[k]),
    ensures
        rem_and(v, i) == all_and(v, i),
    decreases v, v.len() - i,
{
    if 0 <= i < v.len() {
        lemma_started_rem(v[i]);
        lemma_started_rem_and(v, i + 1);
        lemma_all_nonempty(v[i]);
        lemma_prod_split(all_of(v[i]), all_and(v, i + 1));
    }
}

/// The remaining clauses of a conjunction whose factors after `i` each have a
/// single remaining clause.
proof fn lemma_rem_and_last(v: Seq<FormulaIter>, i: int)
    requires
        0 <= i,
        forall|k: int| 0 <= k < v.len() ==> wf(#[trigger] v[k]),
        forall|k: int| i <= k < v.len() ==> (#[trigger] rem_of(v[k])).len() == 1,
    ensures
        rem_and(v, i).len() == 1,
    decreases v.len() - i,
{
    if i < v.len() {
        lemma_rem_and_last(v, i + 1);
        lemma_prod_single(rem_of(v[i])[0], rem_and(v, i + 1));
    }
}

/// Two iterators over the same formula, possibly at different positions.
pub open spec fn shape_eq(a: FormulaIter, b: FormulaIter) -> bool
    decreases a,
{
    match (a, b) {
        (FormulaIter::Atom(p), FormulaIter::Atom(q)) => p == q,
        (FormulaIter::And(v), FormulaIter::And(w)) => v@.len() == w@.len() && forall|k: int|
            0 <= k < v@.len() ==> shape_eq(#[trigger] v@[k], w@[k]),
        (FormulaIter::Or(v, _), FormulaIter::Or(w, _)) => v@.len() == w@.len() && forall|k: int|
            0 <= k < v@.len() ==> shape_eq(#[trigger] v@[k], w@[k]),
        _ => false,
    }
}

proof fn lemma_shape_all(a: FormulaIter, b: FormulaIter)
    requires
        shape_eq(a, b),
    ensures
        all_of(a) == all_of(b),
    decreases a, 1int,
{
    match (a, b) {
        (FormulaIter::And(v), FormulaIter::And(w)) => lemma_shape_all_and(v@, w@, 0),
        (FormulaIter::Or(v, _), FormulaIter::Or(w, _)) => lemma_shape_all_or(v@, w@, 0),
        _ => {},
    }
}

proof fn lemma_shape_all_and(v: Seq<FormulaIter>, w: Seq<FormulaIter>, i: int)
    requires
        v.len() == w.len(),
        forall|k: int| 0 <= k < v.len() ==> shape_eq(#[trigger] v[k], w[k]),
    ensures
        all_and(v, i) == all_and(w, i),
    decreases v, v.len() - i,
{
    if 0 <= i < v.len() {
        lemma_shape_all(v[i], w[i]);
        lemma_shape_all_and(v, w, i + 1);
    }
}

proof fn lemma_shape_all_or(v: Seq<FormulaIter>, w: Seq<FormulaIter>, i: int)
    requires
        v.len() == w.len(),
        forall|k: int| 0 <= k < v.len() ==> shape_eq(#[trigger] v[k], w[k]),
    ensures
        all_or(v, i) == all_or(w, i),
    decreases v, v.len() - i,
{
    if 0 <= i < v.len() {
        lemma_shape_all(v[i], w[i]);
        lemma_shape_all_or(v, w, i + 1);
    }
}

proof fn lemma_shape_refl(a: FormulaIter)
    ensures
        shape_eq(a, a),
    decreases a,
{
    match a {
        FormulaIter::And(v) => {
            assert forall|k: int| 0 <= k < v@.len() implies shape_eq(#[trigger] v@[k], v@[k]) by {
                lemma_shape_refl(v@[k]);
            }
        },
        FormulaIter::Or(v, _) => {
            assert forall|k: int| 0 <= k < v@.len() implies shape_eq(#[trigger] v@[k], v@[k]) by {
                lemma_shape_refl(v@[k]);
            }
        },
        _ => {},
    }
}

/// Advancing a conjunction: the factors after `k` wrapped around, the factor
/// `k` moved to its next clause, the factors before it did not move.
proof fn lemma_and_advance(v: Seq<FormulaIter>, w: Seq<FormulaIter>, k: int, i: int)
    requires
        0 <= i <= k < v.len(),
        v.len() == w.len(),
        forall|j: int| 0 <= j < v.len() ==> wf(#[trigger] v[j]),
        forall|j: int| 0 <= j < w.len() ==> wf(#[trigger] w[j]),
        forall|j: int| 0 <= j < v.len() ==> shape_eq(#[trigger] v[j], w[j]),
        forall|j: int| 0 <= j < k ==> #[trigger] w[j] == v[j],
        rem_of(w[k]) == rem_of(v[k]).drop_first(),
        forall|j: int| k < j < v.len() ==> (#[trigger] rem_of(v[j])).len() == 1,
        forall|j: int| k < j < w.len() ==> started(#[trigger] w[j]),
    ensures
        rem_and(w, i) == rem_and(v, i).drop_first(),
    decreases k - i,
{
    lemma_rem_first(v[i]);
    lemma_rem_first(w[i]);
    if i == k {
        lemma_rem_and_last(v, k + 1);
        lemma_started_rem_and(w, k + 1);
        lemma_shape_all_and(v, w, k + 1);
        let r = rem_of(v[k]);
        let x = rem_and(v, k + 1);
        let y = all_and(v, k + 1);
        lemma_prod_single(r[0], x);
        lemma_prod_split(r.drop_first(), y);
        assert(rem_and(v, i) == prod(seq![r[0]], x) + prod(r.drop_first(), y));
        assert(rem_and(v, i).drop_first() =~= prod(r.drop_first(), y));
    } else {
        lemma_and_advance(v, w, k, i + 1);
        lemma_rem_and_first(w, i + 1);
        lemma_rem_and_first(v, i + 1);
        lemma_shape_all_and(v, w, i + 1);
        let r = rem_of(v[i]);
        let x = rem_and(v, i + 1);
        lemma_prod_single(r[0], x);
        lemma_prod_single(r[0], x.drop_first());
        assert(prod(seq![r[0]], x.drop_first()) =~= prod(seq![r[0]], x).drop_first());
        let a = prod(seq![r[0]], x);
        let b = prod(r.drop_first(), all_and(v, i + 1));
        assert(rem_and(v, i) == a + b);
        assert((a + b).drop_first() =~= a.drop_first() + b);
        assert(rem_and(w, i) =~= rem_and(v, i).drop_first());
    }
}

/// The order of positions of player 0: by variable, then by basis element.
pub open spec fn pos_lt(p: P0Pos, q: P0Pos) -> bool {
    p.i.0 < q.i.0 || (p.i.0 == q.i.0 && p.b.0 < q.b.0)
}

/// A sequence of positions sorted without repetitions.
pub open spec fn sorted_strict(s: Seq<P0Pos>) -> bool {
    forall|a: int, b: int| 0 <= a < b < s.len() ==> pos_lt(#[trigger] s[a], #[trigger] s[b])
}

/// `r` is the normal form of the clause `c`: its positions sorted, once each.
pub open spec fn normal_form(c: Seq<P0Pos>, r: Seq<P0Pos>) -> bool {
    sorted_strict(r) && forall|p: P0Pos| r.contains(p) <==> c.contains(p)
}

/// Sorts the positions and removes repeated ones.
fn sort_dedup(v: &Vec<P0Pos>) -> (r: Vec<P0Pos>)
    ensures
        normal_form(v@, r@),
{
    let mut r: Vec<P0Pos> = Vec::new();
    let mut i: usize = 0;
    while i < v.len()
        invariant
            i <= v.len(),
            sorted_strict(r@),
            forall|p: P0Pos| r@.contains(p) <==> v@.take(i as int).contains(p),
        decreases v.len() - i,
    {
        let x = v[i];
        let mut k: usize = 0;
        while k < r.len() && (r[k].i.0 < x.i.0 || (r[k].i.0 == x.i.0 && r[k].b.0 < x.b.0))
            invariant
                k <= r.len(),
                forall|j: int| 0 <= j < k ==> pos_lt(#[trigger] r@[j], x),
            decreases r.len() - k,
        {
            k = k + 1;
        }
        let ghost old_r = r@;
        if k < r.len() && r[k] == x {
            proof {
                assert(r@[k as int] == x);
                assert(r@.contains(x));
                assert(r@ == old_r);
            }
        } else {
            r.insert(k, x);
            proof {
                assert forall|a: int, b: int| 0 <= a < b < r@.len() implies pos_lt(
                    #[trigger] r@[a],
                    #[trigger] r@[b],
                ) by {
                    if b < k {
                    } else if a == k {
                        if b > k {
                            assert(r@[b] == old_r[b - 1]);
                        }
                    } else if b == k {
                    } else if a > k {
                        assert(r@[a] == old_r[a - 1]);
                        assert(r@[b] == old_r[b - 1]);
                    } else {
                        assert(r@[b] == old_r[b - 1]);
                        if k < old_r.len() {
                            assert(pos_lt(old_r[a], old_r[k as int]));
                        }
                    }
                }
                assert forall|p: P0Pos| r@.contains(p) <==> old_r.contains(p) || p == x by {
                    if r@.contains(p) {
                        let j = choose|j: int| 0 <= j < r@.len() && #[trigger] r@[j] == p;
                        if j < k {
                            assert(old_r[j] == p);
                        } else if j > k {
                            assert(old_r[j - 1] == p);
                        }
                    }
                    if old_r.contains(p) {
                        let j = choose|j: int| 0 <= j < old_r.len() && #[trigger] old_r[j] == p;
                        if j < k {
                            assert(r@[j] == p);
                        } else {
                            assert(r@[j + 1] == p);
                        }
                    }
                    if p == x {
                        assert(r@[k as int] == x);
                    }
                }
                assert(r@[k as int] == x);
                assert(r@.contains(x));
            }
        }
        proof {
            assert(v@.take(i + 1) =~= v@.take(i as int).push(x));
            assert(r@.contains(x));
            assert(forall|p: P0Pos| r@.contains(p) <==> old_r.contains(p) || p == x);
            assert forall|p: P0Pos| r@.contains(p) <==> v@.take(i + 1).contains(p) by {
                let t1 = v@.take(i + 1);
                let t0 = v@.take(i as int);
                if r@.contains(p) {
                    if p == x {
                        assert(t1[i as int] == x);
                    } else {
                        assert(old_r.contains(p));
                        assert(t0.contains(p));
                        let j = choose|j: int| 0 <= j < t0.len() && #[trigger] t0[j] == p;
                        assert(t1[j] == p);
                    }
                }
                if t1.contains(p) {
                    let j = choose|j: int| 0 <= j < t1.len() && #[trigger] t1[j] == p;
                    if j < i {
                        assert(t0[j] == p);
                        assert(t0.contains(p));
                        assert(old_r.contains(p));
                    } else {
                        assert(p == x);
                    }
                }
            }
        }
        i = i + 1;
    }
    proof {
        assert(v@.take(i as int) =~= v@);
    }
    r
}

impl FormulaIter {
    /// An iterator at the first clause of the formula.
    fn new(f: &Formula) -> (r: Self)
        ensures
            started(r),
            all_of(r) == dnf(*f),
            formula_wf(*f) ==> wf(r),
            (formula_wf_root(*f) && !wf(r)) ==> is_empty_or(r),
            forall|m: nat| formula_below(*f, m) ==> #[trigger] atoms_below(r, m),
        decreases f,
    {
        match f {
            Formula::Atom(b, i) => FormulaIter::Atom(P0Pos { b: *b, i: *i }),
            Formula::And(children) => {
                let its = Self::new_all(children);
                proof {
                    lemma_new_all_and(children@, its@, 0);
                    assert forall|m: nat| formula_below(*f, m) implies #[trigger] atoms_below(
                        FormulaIter::And(its),
                        m,
                    ) by {
                        assert forall|k: int| 0 <= k < its@.len() implies atoms_below(#[trigger] its@[k], m) by {
                            assert(formula_below(children@[k], m));
                        }
                    }
                }
                FormulaIter::And(its)
            },
            Formula::Or(children) => {
                let its = Self::new_all(children);
                proof {
                    lemma_new_all_or(children@, its@, 0);
                    assert forall|m: nat| formula_below(*f, m) implies #[trigger] atoms_below(
                        FormulaIter::Or(its, 0),
                        m,
                    ) by {
                        assert forall|k: int| 0 <= k < its@.len() implies atoms_below(#[trigger] its@[k], m) by {
                            assert(formula_below(children@[k], m));
                        }
                    }
                }
                FormulaIter::Or(its, 0)
            },
        }
    }

    fn new_all(children: &Vec<Formula>) -> (r: Vec<FormulaIter>)
        ensures
            r@.len() == children@.len(),
            forall|k: int|
                0 <= k < r@.len() ==> {
                    &&& started(#[trigger] r@[k])
                    &&& all_of(r@[k]) == dnf(children@[k])
                    &&& formula_wf(children@[k]) ==> wf(r@[k])
                    &&& forall|m: nat| formula_below(children@[k], m) ==> #[trigger] atoms_below(r@[k], m)
                },
        decreases children@,
    {
        let mut r: Vec<FormulaIter> = Vec::new();
        let mut k: usize = 0;
        while k < children.len()
            invariant
                k <= children@.len(),
                r@.len() == k,
                forall|j: int|
                    0 <= j < k ==> {
                        &&& started(#[trigger] r@[j])
                        &&& all_of(r@[j]) == dnf(children@[j])
                        &&& formula_wf(children@[j]) ==> wf(r@[j])
                        &&& forall|m: nat| formula_below(children@[j], m) ==> #[trigger] atoms_below(r@[j], m)
                    },
            decreases children@.len() - k,
        {
            let it = Self::new(&children[k]);
            r.push(it);
            k = k + 1;
        }
        r
    }
}

proof fn lemma_new_all_and(f: Seq<Formula>, v: Seq<FormulaIter>, i: int)
    requires
        v.len() == f.len(),
        forall|k: int| 0 <= k < v.len() ==> all_of(#[trigger] v[k]) == dnf(f[k]),
    ensures
        all_and(v, i) == dnf_and(f, i),
    decreases v.len() - i,
{
    if 0 <= i < v.len() {
        lemma_new_all_and(f, v, i + 1);
    }
}

proof fn lemma_new_all_or(f: Seq<Formula>, v: Seq<FormulaIter>, i: int)
    requires
        v.len() == f.len(),
        forall|k: int| 0 <= k < v.len() ==> all_of(#[trigger] v[k]) == dnf(f[k]),
    ensures
        all_or(v, i) == dnf_or(f, i),
    decreases v.len() - i,
{
    if 0 <= i < v.len() {
        lemma_new_all_or(f, v, i + 1);
    }
}

impl FormulaIter {
    /// Whether this is the empty disjunction, which has no clause.
    fn is_false(&self) -> (r: bool)
        ensures
            r == (self is Or && (match *self {
                FormulaIter::Or(v, _) => v@.len() == 0,
                _ => false,
            })),
    {
        match self {
            FormulaIter::Or(iters, _) => iters.len() == 0,
            _ => false,
        }
    }

    /// Goes back to the first clause.
    fn reset(&mut self)
        ensures
            shape_eq(*old(self), *final(self)),
            started(*final(self)),
            wf(*old(self)) ==> wf(*final(self)),
            is_empty_or(*old(self)) ==> is_empty_or(*final(self)),
        decreases *old(self),
    {
        let mut it = FormulaIter::And(Vec::new());
        std::mem::swap(self, &mut it);
        let ghost it0 = it;
        let r = match it {
            FormulaIter::Atom(p) => FormulaIter::Atom(p),
            FormulaIter::And(mut iters) => {
                let ghost orig = iters@;
                let ghost v0 = iters;
                proof {
                    assert(decreases_to!(it0 => v0));
                    assert(decreases_to!(v0 => v0@));
                }
                let mut k: usize = 0;
                #[verifier::loop_isolation(false)]
                while k < iters.len()
                    invariant
                        k <= iters@.len(),
                        iters@.len() == orig.len(),
                        forall|j: int| k <= j < orig.len() ==> #[trigger] iters@[j] == orig[j],
                        forall|j: int| 0 <= j < k ==> shape_eq(orig[j], #[trigger] iters@[j]),
                        forall|j: int| 0 <= j < k ==> started(#[trigger] iters@[j]),
                        forall|j: int| 0 <= j < k && wf(orig[j]) ==> wf(#[trigger] iters@[j]),
                    decreases orig.len() - k,
                {
                    proof {
                        assert(decreases_to!(v0@ => orig[k as int]));
                        assert(decreases_to!(it0 => orig[k as int]));
                    }
                    iters[k].reset();
                    k = k + 1;
                }
                FormulaIter::And(iters)
            },
            FormulaIter::Or(mut iters, _) => {
                let ghost orig = iters@;
                let ghost v0 = iters;
                proof {
                    assert(decreases_to!(it0 => v0));
                    assert(decreases_to!(v0 => v0@));
                }
                let mut k: usize = 0;
                #[verifier::loop_isolation(false)]
                while k < iters.len()
                    invariant
                        k <= iters@.len(),
                        iters@.len() == orig.len(),
                        forall|j: int| k <= j < orig.len() ==> #[trigger] iters@[j] == orig[j],
                        forall|j: int| 0 <= j < k ==> shape_eq(orig[j], #[trigger] iters@[j]),
                        forall|j: int| 0 <= j < k ==> started(#[trigger] iters@[j]),
                        forall|j: int| 0 <= j < k && wf(orig[j]) ==> wf(#[trigger] iters@[j]),
                    decreases orig.len() - k,
                {
                    proof {
                        assert(decreases_to!(v0@ => orig[k as int]));
                        assert(decreases_to!(it0 => orig[k as int]));
                    }
                    iters[k].reset();
                    k = k + 1;
                }
                FormulaIter::Or(iters, 0)
            },
        };
        *self = r;
    }
}

/// The assumption gives one answer for each position.
pub open spec fn deterministic<F: Fn(P0Pos) -> Assumption>(f: F) -> bool {
    forall|p: P0Pos, a: Assumption, b: Assumption|
        #[trigger] call_ensures(f, (p,), a) && #[trigger] call_ensures(f, (p,), b) ==> a == b
}

/// No position of the clause can be answered losing.
pub open spec fn avoids_losing<F: Fn(P0Pos) -> Assumption>(f: F, c: Seq<P0Pos>) -> bool {
    forall|k: int| 0 <= k < c.len() ==> !call_ensures(f, (#[trigger] c[k],), Assumption::Losing)
}

/// Every position of `c2` is one of `c`.
pub open spec fn positions_within(c2: Seq<P0Pos>, c: Seq<P0Pos>) -> bool {
    forall|k: int| 0 <= k < c2.len() ==> c.contains(#[trigger] c2[k])
}

/// Every position of `c` is one of `c2` or can be answered winning: once its
/// winning positions are dropped, `c` is within `c2`.
pub open spec fn reduced_within<F: Fn(P0Pos) -> Assumption>(f: F, c: Seq<P0Pos>, c2: Seq<P0Pos>) -> bool {
    forall|k: int| 0 <= k < c.len() ==> c2.contains(#[trigger] c[k]) || call_ensures(f, (c[k],), Assumption::Winning)
}

/// The assumption may answer that `p` is decided, winning or losing.
pub open spec fn may_decide<F: Fn(P0Pos) -> Assumption>(f: F, p: P0Pos) -> bool {
    call_ensures(f, (p,), Assumption::Winning) || call_ensures(f, (p,), Assumption::Losing)
}

/// The assumption may answer that `p` is undecided.
pub open spec fn may_leave<F: Fn(P0Pos) -> Assumption>(f: F, p: P0Pos) -> bool {
    call_ensures(f, (p,), Assumption::Unknown)
}

impl FormulaIter {
    /// Whether the assumption answers that some atom is decided. It is asked
    /// about the atoms of the formula only, each at most once.
    fn has_decided<F: Fn(P0Pos) -> Assumption>(&self, assumption: &F) -> (r: bool)
        requires
            forall|p: P0Pos| call_requires(*assumption, (p,)),
        ensures
            r ==> exists|p: P0Pos| #[trigger] has_atom(*self, p) && may_decide(*assumption, p),
            !r ==> forall|p: P0Pos| #[trigger] has_atom(*self, p) ==> may_leave(*assumption, p),
        decreases *self,
    {
        let ghost it0 = *self;
        match self {
            FormulaIter::Atom(p) => {
                let a = assumption(*p);
                match a {
                    Assumption::Unknown => {
                        assert forall|q: P0Pos| #[trigger] has_atom(*self, q) implies may_leave(*assumption, q) by {
                            assert(q == *p);
                            assert(call_ensures(*assumption, (q,), a));
                        }
                        false
                    },
                    _ => {
                        assert(has_atom(*self, *p));
                        true
                    },
                }
            },
            FormulaIter::And(iters) => {
                let ghost v = *iters;
                let mut k: usize = 0;
                #[verifier::loop_isolation(false)]
                while k < iters.len()
                    invariant
                        k <= iters@.len(),
                        v == *iters,
                        it0 == FormulaIter::And(v),
                        it0 == *self,
                        forall|p: P0Pos| call_requires(*assumption, (p,)),
                        forall|j: int, p: P0Pos|
                            0 <= j < k && #[trigger] has_atom(iters@[j], p) ==> may_leave(*assumption, p),
                    decreases iters@.len() - k,
                {
                    proof {
                        assert(decreases_to!(it0 => v));
                        assert(decreases_to!(v => v@));
                        assert(decreases_to!(v@ => v@[k as int]));
                    }
                    if iters[k].has_decided(assumption) {
                        proof {
                            let p = choose|p: P0Pos| #[trigger] has_atom(iters@[k as int], p) && may_decide(*assumption, p);
                            assert(has_atom(v@[k as int], p));
                            assert(has_atom(it0, p));
                        }
                        return true;
                    }
                    k = k + 1;
                }
                proof {
                    assert forall|p: P0Pos| #[trigger] has_atom(*self, p) implies may_leave(*assumption, p) by {
                        let j = choose|j: int| 0 <= j < iters@.len() && has_atom(#[trigger] iters@[j], p);
                    }
                }
                false
            },
            FormulaIter::Or(iters, pos) => {
                let ghost v = *iters;
                let mut k: usize = 0;
                #[verifier::loop_isolation(false)]
                while k < iters.len()
                    invariant
                        k <= iters@.len(),
                        v == *iters,
                        it0 == FormulaIter::Or(v, *pos),
                        it0 == *self,
                        forall|p: P0Pos| call_requires(*assumption, (p,)),
                        forall|j: int, p: P0Pos|
                            0 <= j < k && #[trigger] has_atom(iters@[j], p) ==> may_leave(*assumption, p),
                    decreases iters@.len() - k,
                {
                    proof {
                        assert(decreases_to!(it0 => v));
                        assert(decreases_to!(v => v@));
                        assert(decreases_to!(v@ => v@[k as int]));
                    }
                    if iters[k].has_decided(assumption) {
                        proof {
                            let p = choose|p: P0Pos| #[trigger] has_atom(iters@[k as int], p) && may_decide(*assumption, p);
                            assert(has_atom(v@[k as int], p));
                            assert(has_atom(it0, p));
                        }
                        return true;
                    }
                    k = k + 1;
                }
                proof {
                    assert forall|p: P0Pos| #[trigger] has_atom(*self, p) implies may_leave(*assumption, p) by {
                        let j = choose|j: int| 0 <= j < iters@.len() && has_atom(#[trigger] iters@[j], p);
                    }
                }
                false
            },
        }
    }
}

impl FormulaIter {
    /// Moves to the next clause. Returns `false`, and goes back to the first
    /// clause, when the current clause was the last one.
    fn advance(&mut self) -> (r: bool)
        requires
            wf(*old(self)),
        ensures
            shape_eq(*old(self), *final(self)),
            wf(*final(self)),
            r ==> rem_of(*final(self)) == rem_of(*old(self)).drop_first(),
            !r ==> rem_of(*old(self)).len() == 1 && started(*final(self)),
        decreases *old(self),
    {
        let mut it = FormulaIter::And(Vec::new());
        std::mem::swap(self, &mut it);
        let ghost it0 = it;
        match it {
            FormulaIter::Atom(p) => {
                *self = FormulaIter::Atom(p);
                false
            },
            FormulaIter::And(mut iters) => {
                let ghost orig = iters@;
                let ghost v0 = iters;
                proof {
                    assert(decreases_to!(it0 => v0));
                    assert(decreases_to!(v0 => v0@));
                    lemma_shape_refl(it0);
                }
                let mut k: usize = iters.len();
                #[verifier::loop_isolation(false)]
                while k > 0
                    invariant
                        k <= iters@.len(),
                        iters@.len() == orig.len(),
                        forall|j: int| 0 <= j < k ==> #[trigger] iters@[j] == orig[j],
                        forall|j: int| k <= j < orig.len() ==> started(#[trigger] iters@[j]),
                        forall|j: int| k <= j < orig.len() ==> wf(#[trigger] iters@[j]),
                        forall|j: int| k <= j < orig.len() ==> shape_eq(orig[j], #[trigger] iters@[j]),
                        forall|j: int| k <= j < orig.len() ==> (#[trigger] rem_of(orig[j])).len() == 1,
                    decreases k,
                {
                    k = k - 1;
                    proof {
                        assert(decreases_to!(v0@ => orig[k as int]));
                    }
                    let ghost before = iters@;
                    let ok = iters[k].advance();
                    if ok {
                        proof {
                            assert forall|j: int| 0 <= j < orig.len() implies shape_eq(
                                #[trigger] orig[j],
                                iters@[j],
                            ) by {
                                if j < k {
                                    lemma_shape_refl(orig[j]);
                                }
                            }
                            assert forall|j: int| 0 <= j < orig.len() implies wf(#[trigger] iters@[j]) by {
                                if j < k {
                                    assert(iters@[j] == orig[j]);
                                }
                            }
                            lemma_and_advance(orig, iters@, k as int, 0);
                        }
                        *self = FormulaIter::And(iters);
                        return true;
                    }
                }
                proof {
                    lemma_rem_and_last(orig, 0);
                }
                *self = FormulaIter::And(iters);
                false
            },
            FormulaIter::Or(mut iters, pos) => {
                let ghost orig = iters@;
                let ghost v0 = iters;
                proof {
                    assert(decreases_to!(it0 => v0));
                    assert(decreases_to!(v0 => v0@));
                    assert(pos < orig.len());
                    assert(decreases_to!(v0@ => orig[pos as int]));
                    lemma_rem_first(orig[pos as int]);
                }
                let ok = iters[pos].advance();
                let n = iters.len();
                proof {
                    assert(iters@.len() == orig.len());
                    assert forall|j: int| 0 <= j < orig.len() implies shape_eq(
                        #[trigger] orig[j],
                        iters@[j],
                    ) by {
                        if j != pos {
                            lemma_shape_refl(orig[j]);
                        }
                    }
                    lemma_shape_all_or(orig, iters@, pos + 1);
                    lemma_shape_all_or(orig, iters@, pos + 2);
                    assert(all_or(orig, pos as int) == all_of(orig[pos as int]) + all_or(orig, pos + 1));
                }
                if ok {
                    proof {
                        let a = rem_of(orig[pos as int]);
                        let b = all_or(orig, pos + 1);
                        assert((a + b).drop_first() =~= a.drop_first() + b);
                    }
                    *self = FormulaIter::Or(iters, pos);
                    true
                } else if pos + 1 < n {
                    proof {
                        lemma_started_rem(orig[pos + 1]);
                        let a = rem_of(orig[pos as int]);
                        let b = all_or(orig, pos + 1);
                        assert((a + b).drop_first() =~= b);
                    }
                    *self = FormulaIter::Or(iters, pos + 1);
                    true
                } else {
                    *self = FormulaIter::Or(iters, 0);
                    false
                }
            },
        }
    }

    /// Appends the atoms of the current clause to `out`.
    fn collect_current(&self, out: &mut Vec<P0Pos>)
        requires
            wf(*self),
        ensures
            final(out)@ == old(out)@ + cur_of(*self),
        decreases *self,
    {
        match self {
            FormulaIter::Atom(p) => {
                out.push(*p);
            },
            FormulaIter::And(iters) => {
                proof {
                    assert(decreases_to!(*self => *iters));
                    assert(decreases_to!(*iters => iters@));
                }
                let ghost out0 = out@;
                let mut k: usize = 0;
                #[verifier::loop_isolation(false)]
                while k < iters.len()
                    invariant
                        k <= iters@.len(),
                        out@ + cur_and(iters@, k as int) == out0 + cur_and(iters@, 0),
                    decreases iters@.len() - k,
                {
                    proof {
                        assert(decreases_to!(iters@ => iters@[k as int]));
                    }
                    let ghost before = out@;
                    iters[k].collect_current(out);
                    proof {
                        assert(out@ + cur_and(iters@, k + 1) =~= before + cur_and(iters@, k as int));
                    }
                    k = k + 1;
                }
                proof {
                    assert(cur_and(iters@, k as int) =~= Seq::<P0Pos>::empty());
                    assert(out@ =~= out0 + cur_and(iters@, 0));
                }
            },
            FormulaIter::Or(iters, pos) => {
                proof {
                    assert(decreases_to!(*self => *iters));
                    assert(decreases_to!(*iters => iters@));
                    assert(decreases_to!(iters@ => iters@[*pos as int]));
                }
                iters[*pos].collect_current(out);
            },
        }
    }

    /// The current clause in normal form.
    fn current(&self) -> (r: Vec<P0Pos>)
        requires
            wf(*self),
        ensures
            normal_form(cur_of(*self), r@),
    {
        let mut out: Vec<P0Pos> = Vec::new();
        self.collect_current(&mut out);
        proof {
            assert(out@ =~= cur_of(*self));
        }
        sort_dedup(&out)
    }
}

/// What is known of a position of player 0.
pub enum Assumption {
    Winning,
    Losing,
    Unknown,
}

/// The outcome of simplifying an iterator.
enum Status {
    // The subformula is definitely winning for P0.
    Winning,
    // The subformula is definitely losing for P0.
    Losing,
    // The current represented P1Pos was removed and replaced by a next one.
    Advanced,
    // All the remaining P1Pos were removed, but iterator can still be restarted.
    Exhausted,
    // The currently represented P1Pos was not removed.
    Still,
}

/// The value of the formula under an assignment of its atoms.
pub open spec fn eval(it: FormulaIter, sigma: spec_fn(P0Pos) -> bool) -> bool
    decreases it,
{
    match it {
        FormulaIter::Atom(p) => sigma(p),
        FormulaIter::And(v) => forall|k: int| 0 <= k < v@.len() ==> eval(#[trigger] v@[k], sigma),
        FormulaIter::Or(v, _) => exists|k: int| 0 <= k < v@.len() && eval(#[trigger] v@[k], sigma),
    }
}

/// The assignment agrees with every answer the assumption may give.
pub open spec fn consistent<F: Fn(P0Pos) -> Assumption>(f: F, sigma: spec_fn(P0Pos) -> bool) -> bool {
    forall|p: P0Pos, a: Assumption|
        #[trigger] call_ensures(f, (p,), a) ==> (a is Winning ==> sigma(p)) && (a is Losing ==> !sigma(p))
}


/// Every position of the clause is true under `sigma`.
pub open spec fn clause_true(c: Seq<P0Pos>, sigma: spec_fn(P0Pos) -> bool) -> bool {
    forall|k: int| 0 <= k < c.len() ==> sigma(#[trigger] c[k])
}

/// Some clause of `x` is true under `sigma`.
pub open spec fn some_true(x: Seq<Seq<P0Pos>>, sigma: spec_fn(P0Pos) -> bool) -> bool {
    exists|c: Seq<P0Pos>| #[trigger] x.contains(c) && clause_true(c, sigma)
}

proof fn lemma_clause_true_add(a: Seq<P0Pos>, b: Seq<P0Pos>, sigma: spec_fn(P0Pos) -> bool)
    ensures
        clause_true(a + b, sigma) == (clause_true(a, sigma) && clause_true(b, sigma)),
{
    if clause_true(a + b, sigma) {
        assert forall|k: int| 0 <= k < a.len() implies sigma(#[trigger] a[k]) by {
            assert((a + b)[k] == a[k]);
        }
        assert forall|k: int| 0 <= k < b.len() implies sigma(#[trigger] b[k]) by {
            assert((a + b)[a.len() + k] == b[k]);
        }
    }
    if clause_true(a, sigma) && clause_true(b, sigma) {
        assert forall|k: int| 0 <= k < (a + b).len() implies sigma(#[trigger] (a + b)[k]) by {
            if k < a.len() {
                assert((a + b)[k] == a[k]);
            } else {
                assert((a + b)[k] == b[k - a.len()]);
            }
        }
    }
}

proof fn lemma_some_true_add(x: Seq<Seq<P0Pos>>, y: Seq<Seq<P0Pos>>, sigma: spec_fn(P0Pos) -> bool)
    ensures
        some_true(x + y, sigma) == (some_true(x, sigma) || some_true(y, sigma)),
{
    if some_true(x + y, sigma) {
        let c = choose|c: Seq<P0Pos>| #[trigger] (x + y).contains(c) && clause_true(c, sigma);
        let k = choose|k: int| 0 <= k < (x + y).len() && (x + y)[k] == c;
        if k < x.len() {
            assert(x[k] == c);
            assert(x.contains(c));
        } else {
            assert(y[k - x.len()] == c);
            assert(y.contains(c));
        }
    }
    if some_true(x, sigma) {
        let c = choose|c: Seq<P0Pos>| #[trigger] x.contains(c) && clause_true(c, sigma);
        let k = choose|k: int| 0 <= k < x.len() && x[k] == c;
        assert((x + y)[k] == c);
        assert((x + y).contains(c));
    }
    if some_true(y, sigma) {
        let c = choose|c: Seq<P0Pos>| #[trigger] y.contains(c) && clause_true(c, sigma);
        let k = choose|k: int| 0 <= k < y.len() && y[k] == c;
        assert((x + y)[x.len() + k] == c);
        assert((x + y).contains(c));
    }
}

proof fn lemma_some_true_prod(x: Seq<Seq<P0Pos>>, y: Seq<Seq<P0Pos>>, sigma: spec_fn(P0Pos) -> bool)
    ensures
        some_true(prod(x, y), sigma) == (some_true(x, sigma) && some_true(y, sigma)),
    decreases x.len(),
{
    if x.len() == 0 {
        assert(prod(x, y) =~= Seq::<Seq<P0Pos>>::empty());
        if some_true(x, sigma) {
            let c = choose|c: Seq<P0Pos>| #[trigger] x.contains(c) && clause_true(c, sigma);
        }
        if some_true(prod(x, y), sigma) {
            let c = choose|c: Seq<P0Pos>| #[trigger] prod(x, y).contains(c) && clause_true(c, sigma);
        }
    } else {
        let m = y.map_values(|c: Seq<P0Pos>| x[0] + c);
        let rest = x.drop_first();
        lemma_some_true_prod(rest, y, sigma);
        lemma_some_true_add(m, prod(rest, y), sigma);
        assert(prod(x, y) == m + prod(rest, y));
        // The first factor.
        if some_true(m, sigma) {
            let c = choose|c: Seq<P0Pos>| #[trigger] m.contains(c) && clause_true(c, sigma);
            let k = choose|k: int| 0 <= k < m.len() && m[k] == c;
            assert(c == x[0] + y[k]);
            lemma_clause_true_add(x[0], y[k], sigma);
            assert(x.contains(x[0]));
            assert(y.contains(y[k]));
        }
        if some_true(x, sigma) && some_true(y, sigma) {
            let a = choose|c: Seq<P0Pos>| #[trigger] x.contains(c) && clause_true(c, sigma);
            let b = choose|c: Seq<P0Pos>| #[trigger] y.contains(c) && clause_true(c, sigma);
            let ka = choose|k: int| 0 <= k < x.len() && x[k] == a;
            let kb = choose|k: int| 0 <= k < y.len() && y[k] == b;
            if ka == 0 {
                lemma_clause_true_add(x[0], b, sigma);
                assert(m[kb] == x[0] + b);
                assert(m.contains(x[0] + b));
            } else {
                assert(rest[ka - 1] == a);
                assert(rest.contains(a));
            }
        }
        if some_true(rest, sigma) {
            let c = choose|c: Seq<P0Pos>| #[trigger] rest.contains(c) && clause_true(c, sigma);
            let k = choose|k: int| 0 <= k < rest.len() && rest[k] == c;
            assert(x[k + 1] == c);
            assert(x.contains(c));
        }
    }
}

/// A formula holds exactly when one of all its clauses does.
proof fn lemma_eval_clauses(it: FormulaIter, sigma: spec_fn(P0Pos) -> bool)
    ensures
        eval(it, sigma) == some_true(all_of(it), sigma),
    decreases it, 1int,
{
    match it {
        FormulaIter::Atom(p) => {
            let c = seq![p];
            assert(all_of(it).contains(c) || !all_of(it).contains(c));
            assert(all_of(it)[0] == c);
            if eval(it, sigma) {
                assert(clause_true(c, sigma));
                assert(all_of(it).contains(c));
            }
            if some_true(all_of(it), sigma) {
                let d = choose|d: Seq<P0Pos>| #[trigger] all_of(it).contains(d) && clause_true(d, sigma);
                assert(d == c);
                assert(d[0] == p);
            }
        },
        FormulaIter::And(v) => {
            lemma_eval_and(v, sigma);
            lemma_clauses_and(v@, 0, sigma);
        },
        FormulaIter::Or(v, pos) => {
            lemma_eval_or(v, pos, sigma);
            lemma_clauses_or(v@, 0, sigma);
        },
    }
}

proof fn lemma_clauses_and(v: Seq<FormulaIter>, i: int, sigma: spec_fn(P0Pos) -> bool)
    requires
        0 <= i,
    ensures
        all_true(v, i, sigma) == some_true(all_and(v, i), sigma),
    decreases v, v.len() - i,
{
    if i < v.len() {
        lemma_eval_clauses(v[i], sigma);
        lemma_clauses_and(v, i + 1, sigma);
        lemma_some_true_prod(all_of(v[i]), all_and(v, i + 1), sigma);
        if all_true(v, i + 1, sigma) && eval(v[i], sigma) {
            assert forall|j: int| i <= j < v.len() implies eval(#[trigger] v[j], sigma) by {
                if j > i {
                    assert(all_true(v, i + 1, sigma));
                }
            }
        }
    } else {
        let e = Seq::<P0Pos>::empty();
        assert(all_and(v, i)[0] == e);
        assert(all_and(v, i).contains(e));
        assert(clause_true(e, sigma));
    }
}

proof fn lemma_clauses_or(v: Seq<FormulaIter>, i: int, sigma: spec_fn(P0Pos) -> bool)
    requires
        0 <= i,
    ensures
        any_true(v, i, sigma) == some_true(all_or(v, i), sigma),
    decreases v, v.len() - i,
{
    if i < v.len() {
        lemma_eval_clauses(v[i], sigma);
        lemma_clauses_or(v, i + 1, sigma);
        lemma_some_true_add(all_of(v[i]), all_or(v, i + 1), sigma);
        if any_true(v, i, sigma) {
            let j = choose|j: int| i <= j < v.len() && eval(#[trigger] v[j], sigma);
            if j > i {
                assert(any_true(v, i + 1, sigma));
            }
        }
        if any_true(v, i + 1, sigma) {
            let j = choose|j: int| i + 1 <= j < v.len() && eval(#[trigger] v[j], sigma);
            assert(any_true(v, i, sigma));
        }
    } else {
        if some_true(all_or(v, i), sigma) {
            let c = choose|c: Seq<P0Pos>| #[trigger] all_or(v, i).contains(c) && clause_true(c, sigma);
        }
    }
}

/// Some iterator of `v` from `lo` on has the atom `p`.
pub open spec fn atom_from(v: Seq<FormulaIter>, lo: int, p: P0Pos) -> bool {
    exists|j: int| lo <= j < v.len() && has_atom(#[trigger] v[j], p)
}

proof fn lemma_prod_member(x: Seq<Seq<P0Pos>>, y: Seq<Seq<P0Pos>>, c: Seq<P0Pos>)
    requires
        prod(x, y).contains(c),
    ensures
        exists|a: Seq<P0Pos>, b: Seq<P0Pos>| #[trigger] x.contains(a) && #[trigger] y.contains(b) && c == a + b,
    decreases x.len(),
{
    if x.len() > 0 {
        let m = y.map_values(|d: Seq<P0Pos>| x[0] + d);
        let rest = x.drop_first();
        assert(prod(x, y) == m + prod(rest, y));
        let k = choose|k: int| 0 <= k < prod(x, y).len() && prod(x, y)[k] == c;
        if k < m.len() {
            assert(m[k] == x[0] + y[k]);
            assert(x.contains(x[0]));
            assert(y.contains(y[k]));
        } else {
            assert(prod(rest, y)[k - m.len()] == c);
            assert(prod(rest, y).contains(c));
            lemma_prod_member(rest, y, c);
            let (a, b) = choose|a: Seq<P0Pos>, b: Seq<P0Pos>| #[trigger] rest.contains(a) && #[trigger] y.contains(b) && c == a + b;
            let ka = choose|i: int| 0 <= i < rest.len() && rest[i] == a;
            assert(x[ka + 1] == a);
            assert(x.contains(a));
        }
    }
}

/// Every position of a clause of the formula is an atom of it.
proof fn lemma_clause_atoms(it: FormulaIter, c: Seq<P0Pos>)
    requires
        all_of(it).contains(c),
    ensures
        forall|k: int| 0 <= k < c.len() ==> has_atom(it, #[trigger] c[k]),
    decreases it, 1int,
{
    match it {
        FormulaIter::Atom(p) => {
            let k0 = choose|i: int| 0 <= i < all_of(it).len() && all_of(it)[i] == c;
            assert(c == seq![p]);
        },
        FormulaIter::And(v) => {
            lemma_clause_atoms_and(v@, 0, c);
            assert forall|k: int| 0 <= k < c.len() implies has_atom(it, #[trigger] c[k]) by {
                let j = choose|j: int| 0 <= j < v@.len() && has_atom(#[trigger] v@[j], c[k]);
            }
        },
        FormulaIter::Or(v, pos) => {
            lemma_clause_atoms_or(v@, 0, c);
            assert forall|k: int| 0 <= k < c.len() implies has_atom(it, #[trigger] c[k]) by {
                let j = choose|j: int| 0 <= j < v@.len() && has_atom(#[trigger] v@[j], c[k]);
            }
        },
    }
}

proof fn lemma_clause_atoms_and(v: Seq<FormulaIter>, i: int, c: Seq<P0Pos>)
    requires
        0 <= i,
        all_and(v, i).contains(c),
    ensures
        forall|k: int| 0 <= k < c.len() ==> atom_from(v, i, #[trigger] c[k]),
    decreases v, v.len() - i,
{
    if i < v.len() {
        lemma_prod_member(all_of(v[i]), all_and(v, i + 1), c);
        let (a, b) = choose|a: Seq<P0Pos>, b: Seq<P0Pos>| #[trigger] all_of(v[i]).contains(a) && #[trigger] all_and(
            v,
            i + 1,
        ).contains(b) && c == a + b;
        lemma_clause_atoms(v[i], a);
        lemma_clause_atoms_and(v, i + 1, b);
        assert forall|k: int| 0 <= k < c.len() implies atom_from(v, i, #[trigger] c[k]) by {
            if k < a.len() {
                assert(c[k] == a[k]);
                assert(has_atom(v[i], a[k]));
            } else {
                assert(c[k] == b[k - a.len()]);
                assert(atom_from(v, i + 1, b[k - a.len()]));
                let j = choose|j: int| i + 1 <= j < v.len() && has_atom(#[trigger] v[j], b[k - a.len()]);
            }
        }
    } else {
        let k0 = choose|x: int| 0 <= x < all_and(v, i).len() && all_and(v, i)[x] == c;
        assert(c == Seq::<P0Pos>::empty());
    }
}

proof fn lemma_clause_atoms_or(v: Seq<FormulaIter>, i: int, c: Seq<P0Pos>)
    requires
        0 <= i,
        all_or(v, i).contains(c),
    ensures
        forall|k: int| 0 <= k < c.len() ==> atom_from(v, i, #[trigger] c[k]),
    decreases v, v.len() - i,
{
    if i < v.len() {
        let x = all_of(v[i]);
        let y = all_or(v, i + 1);
        let k0 = choose|t: int| 0 <= t < (x + y).len() && (x + y)[t] == c;
        if k0 < x.len() {
            assert(x[k0] == c);
            assert(x.contains(c));
            lemma_clause_atoms(v[i], c);
        } else {
            assert(y[k0 - x.len()] == c);
            assert(y.contains(c));
            lemma_clause_atoms_or(v, i + 1, c);
            assert forall|k: int| 0 <= k < c.len() implies atom_from(v, i, #[trigger] c[k]) by {
                let j = choose|j: int| i + 1 <= j < v.len() && has_atom(#[trigger] v[j], c[k]);
            }
        }
    }
}

/// Every iterator of `v` from `lo` on is true under `sigma`.
pub open spec fn all_true(v: Seq<FormulaIter>, lo: int, sigma: spec_fn(P0Pos) -> bool) -> bool {
    forall|j: int| lo <= j < v.len() ==> eval(#[trigger] v[j], sigma)
}

/// Some iterator of `v` from `lo` on is true under `sigma`.
pub open spec fn any_true(v: Seq<FormulaIter>, lo: int, sigma: spec_fn(P0Pos) -> bool) -> bool {
    exists|j: int| lo <= j < v.len() && eval(#[trigger] v[j], sigma)
}


proof fn lemma_all_true_step(v: Seq<FormulaIter>, lo: int, sigma: spec_fn(P0Pos) -> bool)
    requires
        0 <= lo < v.len(),
    ensures
        all_true(v, lo, sigma) == (eval(v[lo], sigma) && all_true(v, lo + 1, sigma)),
{
}

proof fn lemma_all_true_push(v: Seq<FormulaIter>, x: FormulaIter, sigma: spec_fn(P0Pos) -> bool)
    ensures
        all_true(v.push(x), 0, sigma) == (all_true(v, 0, sigma) && eval(x, sigma)),
{
    if all_true(v, 0, sigma) && eval(x, sigma) {
        assert forall|j: int| 0 <= j < v.push(x).len() implies eval(#[trigger] v.push(x)[j], sigma) by {
            if j < v.len() {
                assert(v.push(x)[j] == v[j]);
            }
        }
    }
    if all_true(v.push(x), 0, sigma) {
        assert(v.push(x)[v.len() as int] == x);
        assert forall|j: int| 0 <= j < v.len() implies eval(#[trigger] v[j], sigma) by {
            assert(v.push(x)[j] == v[j]);
        }
    }
}

/// The children of a conjunction are smaller than it.
proof fn lemma_children_and(v: Vec<FormulaIter>)
    ensures
        forall|k: int| 0 <= k < v@.len() ==> decreases_to!(FormulaIter::And(v) => #[trigger] v@[k]),
{
    let it = FormulaIter::And(v);
    assert(decreases_to!(it => it->And_0));
    assert(it->And_0 == v);
    assert(decreases_to!(v => v@));
    assert forall|k: int| 0 <= k < v@.len() implies decreases_to!(it => #[trigger] v@[k]) by {
        assert(decreases_to!(v@ => v@[k]));
    }
}

/// The children of a disjunction are smaller than it.
proof fn lemma_children_or(v: Vec<FormulaIter>, p: usize)
    ensures
        forall|k: int| 0 <= k < v@.len() ==> decreases_to!(FormulaIter::Or(v, p) => #[trigger] v@[k]),
{
    let it = FormulaIter::Or(v, p);
    assert(decreases_to!(it => it->Or_0));
    assert(it->Or_0 == v);
    assert(decreases_to!(v => v@));
    assert forall|k: int| 0 <= k < v@.len() implies decreases_to!(it => #[trigger] v@[k]) by {
        assert(decreases_to!(v@ => v@[k]));
    }
}

proof fn lemma_eval_and(v: Vec<FormulaIter>, sigma: spec_fn(P0Pos) -> bool)
    ensures
        eval(FormulaIter::And(v), sigma) == all_true(v@, 0, sigma),
{
    lemma_children_and(v);
    let it = FormulaIter::And(v);
    assert(it->And_0 == v);
    if eval(it, sigma) {
        assert forall|k: int| 0 <= k < v@.len() implies eval(#[trigger] v@[k], sigma) by {
            assert(decreases_to!(it => v@[k]));
        }
    }
    if all_true(v@, 0, sigma) {
        assert forall|k: int| 0 <= k < v@.len() implies eval(#[trigger] v@[k], sigma) by {
            assert(decreases_to!(it => v@[k]));
        }
    }
}

proof fn lemma_eval_or(v: Vec<FormulaIter>, p: usize, sigma: spec_fn(P0Pos) -> bool)
    ensures
        eval(FormulaIter::Or(v, p), sigma) == any_true(v@, 0, sigma),
{
    lemma_children_or(v, p);
    let it = FormulaIter::Or(v, p);
    assert(it->Or_0 == v);
    if any_true(v@, 0, sigma) {
        let j = choose|j: int| 0 <= j < v@.len() && eval(#[trigger] v@[j], sigma);
        assert(decreases_to!(it => v@[j]));
    }
    if eval(it, sigma) {
        let j = choose|j: int| 0 <= j < v@.len() && eval(#[trigger] v@[j], sigma);
        assert(decreases_to!(it => v@[j]));
    }
}

proof fn lemma_shape_eval_forall(a: FormulaIter, b: FormulaIter)
    requires
        shape_eq(a, b),
    ensures
        forall|sigma: spec_fn(P0Pos) -> bool| #[trigger] eval(a, sigma) == eval(b, sigma),
{
    assert forall|sigma: spec_fn(P0Pos) -> bool| #[trigger] eval(a, sigma) == eval(b, sigma) by {
        lemma_shape_eval(a, b, sigma);
    }
}

proof fn lemma_shape_all_true(u: Seq<FormulaIter>, w: Seq<FormulaIter>)
    requires
        u.len() == w.len(),
        forall|i: int| 0 <= i < u.len() ==> shape_eq(#[trigger] u[i], w[i]),
    ensures
        forall|sigma: spec_fn(P0Pos) -> bool| #[trigger] all_true(u, 0, sigma) == all_true(w, 0, sigma),
{
    assert forall|sigma: spec_fn(P0Pos) -> bool| #[trigger] all_true(u, 0, sigma) == all_true(w, 0, sigma) by {
        assert forall|i: int| 0 <= i < u.len() implies eval(#[trigger] u[i], sigma) == eval(w[i], sigma) by {
            lemma_shape_eval(u[i], w[i], sigma);
        }
        if all_true(u, 0, sigma) {
            assert forall|i: int| 0 <= i < w.len() implies eval(#[trigger] w[i], sigma) by {
                assert(eval(u[i], sigma));
            }
        }
    }
}

/// The nesting depth of an iterator.
pub open spec fn depth(it: FormulaIter) -> nat
    decreases it, 0int,
{
    match it {
        FormulaIter::Atom(_) => 0,
        FormulaIter::And(v) => 1 + max_depth(v@, 0),
        FormulaIter::Or(v, _) => 1 + max_depth(v@, 0),
    }
}

pub open spec fn max_depth(v: Seq<FormulaIter>, i: int) -> nat
    decreases v, v.len() - i,
{
    if 0 <= i < v.len() {
        let a = depth(v[i]);
        let b = max_depth(v, i + 1);
        if a >= b {
            a
        } else {
            b
        }
    } else {
        0
    }
}

proof fn lemma_max_depth(v: Seq<FormulaIter>, i: int, k: int)
    requires
        0 <= i <= k < v.len(),
    ensures
        depth(v[k]) <= max_depth(v, i),
    decreases k - i,
{
    if i < k {
        lemma_max_depth(v, i + 1, k);
    }
}

proof fn lemma_shape_depth(a: FormulaIter, b: FormulaIter)
    requires
        shape_eq(a, b),
    ensures
        depth(a) == depth(b),
    decreases a, 1int,
{
    match (a, b) {
        (FormulaIter::And(v), FormulaIter::And(w)) => lemma_shape_max_depth(v@, w@, 0),
        (FormulaIter::Or(v, _), FormulaIter::Or(w, _)) => lemma_shape_max_depth(v@, w@, 0),
        _ => {},
    }
}

proof fn lemma_shape_max_depth(v: Seq<FormulaIter>, w: Seq<FormulaIter>, i: int)
    requires
        v.len() == w.len(),
        forall|k: int| 0 <= k < v.len() ==> shape_eq(#[trigger] v[k], w[k]),
    ensures
        max_depth(v, i) == max_depth(w, i),
    decreases v, v.len() - i,
{
    if 0 <= i < v.len() {
        lemma_shape_depth(v[i], w[i]);
        lemma_shape_max_depth(v, w, i + 1);
    }
}

proof fn lemma_shape_eval(a: FormulaIter, b: FormulaIter, sigma: spec_fn(P0Pos) -> bool)
    requires
        shape_eq(a, b),
    ensures
        eval(a, sigma) == eval(b, sigma),
    decreases a,
{
    match (a, b) {
        (FormulaIter::And(v), FormulaIter::And(w)) => {
            assert forall|k: int| 0 <= k < v@.len() implies eval(#[trigger] v@[k], sigma) == eval(
                w@[k],
                sigma,
            ) by {
                lemma_shape_eval(v@[k], w@[k], sigma);
            }
            if eval(a, sigma) {
                assert forall|k: int| 0 <= k < w@.len() implies eval(#[trigger] w@[k], sigma) by {
                    assert(eval(v@[k], sigma));
                }
            }
        },
        (FormulaIter::Or(v, _), FormulaIter::Or(w, _)) => {
            assert forall|k: int| 0 <= k < v@.len() implies eval(#[trigger] v@[k], sigma) == eval(
                w@[k],
                sigma,
            ) by {
                lemma_shape_eval(v@[k], w@[k], sigma);
            }
            if eval(b, sigma) {
                let k = choose|k: int| 0 <= k < w@.len() && eval(#[trigger] w@[k], sigma);
                assert(eval(v@[k], sigma));
            }
        },
        _ => {},
    }
}

proof fn lemma_shape_symm(a: FormulaIter, b: FormulaIter)
    requires
        shape_eq(a, b),
    ensures
        shape_eq(b, a),
    decreases a,
{
    match (a, b) {
        (FormulaIter::And(v), FormulaIter::And(w)) => {
            assert forall|k: int| 0 <= k < w@.len() implies shape_eq(#[trigger] w@[k], v@[k]) by {
                lemma_shape_symm(v@[k], w@[k]);
            }
        },
        (FormulaIter::Or(v, _), FormulaIter::Or(w, _)) => {
            assert forall|k: int| 0 <= k < w@.len() implies shape_eq(#[trigger] w@[k], v@[k]) by {
                lemma_shape_symm(v@[k], w@[k]);
            }
        },
        _ => {},
    }
}

impl FormulaIter {
    /// Removes the subformulas that the assumption decides: true conjuncts and
    /// false disjuncts are dropped, a false conjunct makes the conjunction false
    /// and a true disjunct makes the disjunction true. The iterator is left
    /// well formed; the moves go back to its first clause afterwards, so the
    /// clause it stands at is not relied on.
    fn simplify<F: Fn(P0Pos) -> Assumption>(&mut self, assumption: &F) -> (s: Status)
        requires
            wf(*old(self)) || is_empty_or(*old(self)),
            forall|p: P0Pos| call_requires(*assumption, (p,)),
        ensures
            s is Winning ==> forall|sigma: spec_fn(P0Pos) -> bool|
                #[trigger] consistent(*assumption, sigma) ==> eval(*old(self), sigma),
            s is Losing ==> forall|sigma: spec_fn(P0Pos) -> bool|
                #[trigger] consistent(*assumption, sigma) ==> !eval(*old(self), sigma),
            !(s is Winning) && !(s is Losing) ==> {
                &&& wf(*final(self))
                &&& forall|sigma: spec_fn(P0Pos) -> bool|
                    #[trigger] consistent(*assumption, sigma) ==> eval(*final(self), sigma) == eval(
                        *old(self),
                        sigma,
                    )
                &&& forall|m: nat| atoms_below(*old(self), m) ==> #[trigger] atoms_below(*final(self), m)
                &&& undecided_from(*final(self), *old(self), *assumption)
            },
            s is Exhausted ==> started(*final(self)),
            started(*old(self)) && !(s is Winning) && !(s is Losing) ==> started(*final(self))
                && !(s is Exhausted),
        decreases depth(*old(self)),
    {
        let mut it = FormulaIter::And(Vec::new());
        std::mem::swap(self, &mut it);
        let ghost it0 = it;
        match it {
            FormulaIter::Atom(p) => {
                *self = FormulaIter::Atom(p);
                let a = assumption(p);
                let st = match a {
                    Assumption::Winning => Status::Winning,
                    Assumption::Losing => Status::Losing,
                    Assumption::Unknown => Status::Still,
                };
                proof {
                    lemma_shape_refl(it0);
                    lemma_shape_eval_forall(it0, it0);
                    if st is Still {
                        assert(a == Assumption::Unknown);
                        assert forall|q: P0Pos| #[trigger] has_atom(*self, q) implies has_atom(it0, q)
                            && call_ensures(*assumption, (q,), Assumption::Unknown) by {
                            assert(q == p);
                        }
                    }
                }
                st
            },
            FormulaIter::And(mut iters) => {
                let ghost orig = iters@;
                proof {
                    lemma_children_and(iters);
                }
                let n = iters.len();
                let mut kept: Vec<FormulaIter> = Vec::new();
                let mut exhausted: Option<usize> = None;
                let mut advanced = false;
                let mut cleared = false;
                let mut k: usize = 0;
                #[verifier::loop_isolation(false)]
                while k < n
                    invariant
                        k <= n,
                        n == orig.len(),
                        iters@.len() == n,
                        forall|j: int| k <= j < n ==> #[trigger] iters@[j] == orig[j],
                        forall|j: int| 0 <= j < kept@.len() ==> wf(#[trigger] kept@[j]),
                        forall|j: int, q: P0Pos|
                            0 <= j < kept@.len() && #[trigger] has_atom(kept@[j], q) ==> has_atom(it0, q)
                                && call_ensures(*assumption, (q,), Assumption::Unknown),
                        forall|j: int, m: nat|
                            0 <= j < kept@.len() && atoms_below(it0, m) ==> #[trigger] atoms_below(
                                kept@[j],
                                m,
                            ),
                        exhausted matches Some(e) ==> e < kept@.len() && forall|j: int|
                            e <= j < kept@.len() ==> started(#[trigger] kept@[j]),
                        started(it0) ==> exhausted is None && forall|j: int|
                            0 <= j < kept@.len() ==> started(#[trigger] kept@[j]),
                        !cleared ==> forall|sigma: spec_fn(P0Pos) -> bool|
                            #[trigger] consistent(*assumption, sigma) ==> (all_true(kept@, 0, sigma)
                                && all_true(orig, k as int, sigma)) == eval(it0, sigma),
                        cleared ==> forall|sigma: spec_fn(P0Pos) -> bool|
                            #[trigger] consistent(*assumption, sigma) ==> !eval(it0, sigma),
                    decreases n - k,
                {
                    let mut child = FormulaIter::And(Vec::new());
                    iters.set_and_swap(k, &mut child);
                    if !cleared {
                        proof {
                            lemma_max_depth(orig, 0, k as int);
                            lemma_shape_refl(child);
                        }
                        let ghost c0 = child;
                        if advanced || exhausted.is_some() {
                            child.reset();
                        }
                        proof {
                            lemma_shape_depth(c0, child);
                            lemma_shape_eval_forall(c0, child);
                        }
                        let ghost c1 = child;
                        let st = child.simplify(assumption);
                        let ghost kept0 = kept@;
                        match st {
                            Status::Winning => {},
                            Status::Losing => {
                                cleared = true;
                            },
                            Status::Advanced => {
                                advanced = true;
                                kept.push(child);
                            },
                            Status::Exhausted => {
                                if exhausted.is_none() {
                                    exhausted = Some(kept.len());
                                }
                                kept.push(child);
                            },
                            Status::Still => {
                                kept.push(child);
                            },
                        }
                        proof {
                            assert forall|j: int, m: nat|
                                0 <= j < kept@.len() && atoms_below(it0, m) implies #[trigger] atoms_below(
                                kept@[j],
                                m,
                            ) by {
                                if j < kept0.len() {
                                    assert(kept@[j] == kept0[j]);
                                } else {
                                    assert(atoms_below(orig[k as int], m));
                                    lemma_shape_below(c0, c1, m);
                                }
                            }
                            assert forall|j: int, q: P0Pos|
                                0 <= j < kept@.len() && #[trigger] has_atom(kept@[j], q) implies has_atom(it0, q)
                                && call_ensures(*assumption, (q,), Assumption::Unknown) by {
                                if j < kept0.len() {
                                    assert(kept@[j] == kept0[j]);
                                } else {
                                    assert(kept@[j] == child);
                                    assert(shape_eq(c0, c1));
                                    lemma_shape_atom(c0, c1, q);
                                    assert(has_atom(orig[k as int], q));
                                }
                            }
                            assert forall|sigma: spec_fn(P0Pos) -> bool|
                                #[trigger] consistent(*assumption, sigma) && !cleared implies (all_true(
                                kept@,
                                0,
                                sigma,
                            ) && all_true(orig, k + 1, sigma)) == eval(it0, sigma) by {
                                lemma_all_true_step(orig, k as int, sigma);
                                lemma_all_true_push(kept0, child, sigma);
                                assert(eval(c0, sigma) == eval(c1, sigma));
                                if kept@.len() == kept0.len() {
                                    assert(kept@ =~= kept0);
                                }
                            }
                        }
                    }
                    k = k + 1;
                }
                if cleared {
                    *self = FormulaIter::And(kept);
                    Status::Losing
                } else if kept.len() == 0 {
                    *self = FormulaIter::And(kept);
                    Status::Winning
                } else if kept.len() == 1 {
                    let ghost kv = kept@;
                    let mut c = kept.pop().unwrap();
                    let ghost c0 = c;
                    c.reset();
                    proof {
                        lemma_shape_eval_forall(c0, c);
                        assert(c0 == kv[0]);
                        assert forall|m: nat| atoms_below(it0, m) implies #[trigger] atoms_below(c, m) by {
                            assert(atoms_below(kv[0], m));
                            lemma_shape_below(c0, c, m);
                        }
                        assert forall|q: P0Pos| #[trigger] has_atom(c, q) implies has_atom(it0, q)
                            && call_ensures(*assumption, (q,), Assumption::Unknown) by {
                            lemma_shape_atom(c0, c, q);
                            assert(has_atom(kv[0], q));
                        }
                        assert forall|sigma: spec_fn(P0Pos) -> bool|
                            #[trigger] consistent(*assumption, sigma) implies eval(c, sigma) == eval(
                            it0,
                            sigma,
                        ) by {
                            assert(eval(c0, sigma) == eval(c, sigma));
                            if eval(c0, sigma) {
                                assert(all_true(kv, 0, sigma));
                            }
                        }
                    }
                    *self = c;
                    Status::Advanced
                } else if exhausted.is_some() {
                    let e = exhausted.unwrap();
                    let ghost kept0 = kept@;
                    proof {
                        assert forall|i: int| 0 <= i < kept0.len() implies shape_eq(
                            kept0[i],
                            #[trigger] kept@[i],
                        ) by {
                            lemma_shape_refl(kept0[i]);
                        }
                    }
                    let mut j: usize = e;
                    let mut adv = false;
                    #[verifier::loop_isolation(false)]
                    while j > 0 && !adv
                        invariant
                            j <= e,
                            e < kept0.len(),
                            kept@.len() == kept0.len(),
                            forall|i: int| 0 <= i < kept@.len() ==> wf(#[trigger] kept@[i]),
                            forall|i: int| 0 <= i < kept@.len() ==> shape_eq(kept0[i], #[trigger] kept@[i]),
                            !adv ==> forall|i: int| j <= i < kept@.len() ==> started(#[trigger] kept@[i]),
                        decreases j,
                    {
                        j = j - 1;
                        let ghost before = kept@;
                        adv = kept[j].advance();
                        proof {
                            assert forall|i: int| 0 <= i < kept@.len() implies shape_eq(
                                kept0[i],
                                #[trigger] kept@[i],
                            ) by {
                                if i == j {
                                    lemma_shape_trans(kept0[i], before[i], kept@[i]);
                                }
                            }
                        }
                    }
                    proof {
                        lemma_shape_all_true(kept0, kept@);
                        assert forall|q: P0Pos| #[trigger] has_atom(FormulaIter::And(kept), q) implies has_atom(it0, q)
                            && call_ensures(*assumption, (q,), Assumption::Unknown) by {
                            let i = choose|i: int| 0 <= i < kept@.len() && has_atom(#[trigger] kept@[i], q);
                            lemma_shape_atom(kept0[i], kept@[i], q);
                            assert(has_atom(kept0[i], q));
                        }
                        assert forall|m: nat| atoms_below(it0, m) implies #[trigger] atoms_below(
                            FormulaIter::And(kept),
                            m,
                        ) by {
                            assert forall|i: int| 0 <= i < kept@.len() implies atoms_below(#[trigger] kept@[i], m) by {
                                assert(atoms_below(kept0[i], m));
                                lemma_shape_below(kept0[i], kept@[i], m);
                            }
                        }
                        assert forall|sigma: spec_fn(P0Pos) -> bool|
                            #[trigger] consistent(*assumption, sigma) implies eval(
                            FormulaIter::And(kept),
                            sigma,
                        ) == eval(it0, sigma) by {
                            lemma_eval_and(kept, sigma);
                            assert(all_true(kept0, 0, sigma) == all_true(kept@, 0, sigma));
                        }
                    }
                    *self = FormulaIter::And(kept);
                    if adv {
                        Status::Advanced
                    } else {
                        Status::Exhausted
                    }
                } else {
                    proof {
                        assert forall|q: P0Pos| #[trigger] has_atom(FormulaIter::And(kept), q) implies has_atom(it0, q)
                            && call_ensures(*assumption, (q,), Assumption::Unknown) by {
                            let i = choose|i: int| 0 <= i < kept@.len() && has_atom(#[trigger] kept@[i], q);
                        }
                        assert forall|m: nat| atoms_below(it0, m) implies #[trigger] atoms_below(
                            FormulaIter::And(kept),
                            m,
                        ) by {
                            assert forall|i: int| 0 <= i < kept@.len() implies atoms_below(#[trigger] kept@[i], m) by {}
                        }
                        assert forall|sigma: spec_fn(P0Pos) -> bool|
                            #[trigger] consistent(*assumption, sigma) implies eval(
                            FormulaIter::And(kept),
                            sigma,
                        ) == eval(it0, sigma) by {
                            lemma_eval_and(kept, sigma);
                        }
                    }
                    *self = FormulaIter::And(kept);
                    Status::Still
                }
            },
            FormulaIter::Or(mut iters, pos) => {
                let ghost orig = iters@;
                proof {
                    lemma_children_or(iters, pos);
                }
                let n = iters.len();
                let mut kept: Vec<FormulaIter> = Vec::new();
                let mut new_pos: usize = 0;
                let mut advanced = false;
                let mut exhausted = false;
                let mut removed_pos = false;
                let mut cleared = false;
                let mut k: usize = 0;
                #[verifier::loop_isolation(false)]
                while k < n
                    invariant
                        k <= n,
                        n == orig.len(),
                        iters@.len() == n,
                        forall|j: int| k <= j < n ==> #[trigger] iters@[j] == orig[j],
                        forall|j: int| 0 <= j < kept@.len() ==> wf(#[trigger] kept@[j]),
                        forall|j: int, q: P0Pos|
                            0 <= j < kept@.len() && #[trigger] has_atom(kept@[j], q) ==> has_atom(it0, q)
                                && call_ensures(*assumption, (q,), Assumption::Unknown),
                        forall|j: int, m: nat|
                            0 <= j < kept@.len() && atoms_below(it0, m) ==> #[trigger] atoms_below(
                                kept@[j],
                                m,
                            ),
                        k <= pos ==> !removed_pos && !exhausted && forall|j: int|
                            0 <= j < kept@.len() ==> started(#[trigger] kept@[j]),
                        k <= pos ==> new_pos == 0,
                        kept@.len() <= k,
                        !cleared && k > pos && !removed_pos ==> new_pos < kept@.len() && forall|j: int|
                            0 <= j < kept@.len() && j != new_pos ==> started(#[trigger] kept@[j]),
                        !cleared && k > pos && removed_pos ==> new_pos <= kept@.len() && forall|j: int|
                            0 <= j < kept@.len() ==> started(#[trigger] kept@[j]),
                        !cleared && exhausted ==> new_pos < kept@.len() && started(kept@[new_pos as int]),
                        started(it0) ==> !exhausted && pos == 0 && new_pos == 0 && forall|j: int|
                            0 <= j < kept@.len() ==> started(#[trigger] kept@[j]),
                        !cleared ==> forall|sigma: spec_fn(P0Pos) -> bool|
                            #[trigger] consistent(*assumption, sigma) ==> (any_true(kept@, 0, sigma)
                                || any_true(orig, k as int, sigma)) == eval(it0, sigma),
                        cleared ==> forall|sigma: spec_fn(P0Pos) -> bool|
                            #[trigger] consistent(*assumption, sigma) ==> eval(it0, sigma),
                    decreases n - k,
                {
                    let mut child = FormulaIter::And(Vec::new());
                    iters.set_and_swap(k, &mut child);
                    if !cleared {
                        proof {
                            lemma_max_depth(orig, 0, k as int);
                        }
                        let is_pos = k == pos;
                        if is_pos {
                            new_pos = kept.len();
                        }
                        let ghost c1 = child;
                        proof {
                            if started(it0) {
                                assert(started(orig[k as int]));
                            }
                        }
                        let st = child.simplify(assumption);
                        let ghost kept0 = kept@;
                        match st {
                            Status::Winning => {
                                cleared = true;
                            },
                            Status::Losing => {
                                if is_pos {
                                    removed_pos = true;
                                }
                            },
                            Status::Advanced => {
                                if is_pos {
                                    advanced = true;
                                }
                                kept.push(child);
                            },
                            Status::Exhausted => {
                                if is_pos {
                                    exhausted = true;
                                }
                                kept.push(child);
                            },
                            Status::Still => {
                                kept.push(child);
                            },
                        }
                        proof {
                            assert forall|j: int, m: nat|
                                0 <= j < kept@.len() && atoms_below(it0, m) implies #[trigger] atoms_below(
                                kept@[j],
                                m,
                            ) by {
                                if j < kept0.len() {
                                    assert(kept@[j] == kept0[j]);
                                } else {
                                    assert(atoms_below(orig[k as int], m));
                                }
                            }
                            assert forall|j: int, q: P0Pos|
                                0 <= j < kept@.len() && #[trigger] has_atom(kept@[j], q) implies has_atom(it0, q)
                                && call_ensures(*assumption, (q,), Assumption::Unknown) by {
                                if j < kept0.len() {
                                    assert(kept@[j] == kept0[j]);
                                } else {
                                    assert(kept@[j] == child);
                                    assert(has_atom(orig[k as int], q));
                                }
                            }
                            if started(it0) {
                                assert(!exhausted);
                                assert(new_pos == 0);
                                assert(pos == 0);
                                assert(forall|j: int| 0 <= j < kept0.len() ==> kept@[j] == kept0[j]);
                                assert(forall|j: int| 0 <= j < kept@.len() ==> started(#[trigger] kept@[j]));
                            }
                            assert forall|sigma: spec_fn(P0Pos) -> bool|
                                #[trigger] consistent(*assumption, sigma) && !cleared implies (any_true(
                                kept@,
                                0,
                                sigma,
                            ) || any_true(orig, k + 1, sigma)) == eval(it0, sigma) by {
                                assert(forall|j: int| 0 <= j < kept0.len() ==> kept@[j] == kept0[j]);
                                if any_true(kept0, 0, sigma) {
                                    let j = choose|j: int| 0 <= j < kept0.len() && eval(#[trigger] kept0[j], sigma);
                                    assert(eval(kept@[j], sigma));
                                }
                                if any_true(kept@, 0, sigma) {
                                    let j = choose|j: int| 0 <= j < kept@.len() && eval(#[trigger] kept@[j], sigma);
                                    if j < kept0.len() {
                                        assert(eval(kept0[j], sigma));
                                    } else {
                                        assert(eval(orig[k as int], sigma));
                                    }
                                }
                                if any_true(orig, k as int, sigma) {
                                    let j = choose|j: int| k <= j < n && eval(#[trigger] orig[j], sigma);
                                    if j == k {
                                        if kept@.len() > kept0.len() {
                                            assert(eval(kept@[kept0.len() as int], sigma));
                                        }
                                    } else {
                                        assert(k + 1 <= j < n && eval(orig[j], sigma));
                                    }
                                }
                                if any_true(orig, k + 1, sigma) {
                                    let j = choose|j: int| k + 1 <= j < n && eval(#[trigger] orig[j], sigma);
                                    assert(eval(orig[j], sigma));
                                }
                            }
                        }
                    }
                    k = k + 1;
                }
                if cleared {
                    *self = FormulaIter::Or(kept, 0);
                    Status::Winning
                } else if kept.len() == 0 {
                    *self = FormulaIter::Or(kept, 0);
                    Status::Losing
                } else if kept.len() == 1 {
                    let ghost kv = kept@;
                    let c = kept.pop().unwrap();
                    proof {
                        assert(c == kv[0]);
                        assert forall|m: nat| atoms_below(it0, m) implies #[trigger] atoms_below(c, m) by {
                            assert(atoms_below(kv[0], m));
                        }
                        assert forall|q: P0Pos| #[trigger] has_atom(c, q) implies has_atom(it0, q)
                            && call_ensures(*assumption, (q,), Assumption::Unknown) by {
                            assert(has_atom(kv[0], q));
                        }
                        assert forall|sigma: spec_fn(P0Pos) -> bool|
                            #[trigger] consistent(*assumption, sigma) implies eval(c, sigma) == eval(
                            it0,
                            sigma,
                        ) by {
                            if any_true(kv, 0, sigma) {
                                let j = choose|j: int| 0 <= j < kv.len() && eval(#[trigger] kv[j], sigma);
                                assert(j == 0);
                            }
                            if eval(c, sigma) {
                                assert(any_true(kv, 0, sigma));
                            }
                        }
                    }
                    *self = c;
                    if exhausted {
                        Status::Exhausted
                    } else {
                        Status::Advanced
                    }
                } else {
                    let len = kept.len();
                    let (p, st) = if new_pos >= len {
                        (0, Status::Exhausted)
                    } else if exhausted && new_pos + 1 == len {
                        (0, Status::Exhausted)
                    } else if exhausted {
                        (new_pos + 1, Status::Advanced)
                    } else if advanced || removed_pos {
                        (new_pos, Status::Advanced)
                    } else {
                        (new_pos, Status::Still)
                    };
                    proof {
                        assert forall|q: P0Pos| #[trigger] has_atom(FormulaIter::Or(kept, p), q) implies has_atom(it0, q)
                            && call_ensures(*assumption, (q,), Assumption::Unknown) by {
                            let i = choose|i: int| 0 <= i < kept@.len() && has_atom(#[trigger] kept@[i], q);
                        }
                        assert forall|m: nat| atoms_below(it0, m) implies #[trigger] atoms_below(
                            FormulaIter::Or(kept, p),
                            m,
                        ) by {
                            assert forall|i: int| 0 <= i < kept@.len() implies atoms_below(#[trigger] kept@[i], m) by {}
                        }
                        assert forall|sigma: spec_fn(P0Pos) -> bool|
                            #[trigger] consistent(*assumption, sigma) implies eval(
                            FormulaIter::Or(kept, p),
                            sigma,
                        ) == eval(it0, sigma) by {
                            lemma_eval_or(kept, p, sigma);
                        }
                    }
                    *self = FormulaIter::Or(kept, p);
                    st
                }
            },
        }
    }
}

/// An iterator over the same formula as one with small atoms has small atoms.
proof fn lemma_shape_below(a: FormulaIter, b: FormulaIter, n: nat)
    requires
        shape_eq(a, b),
        atoms_below(a, n),
    ensures
        atoms_below(b, n),
    decreases a,
{
    match (a, b) {
        (FormulaIter::And(u), FormulaIter::And(w)) => {
            assert forall|k: int| 0 <= k < w@.len() implies atoms_below(#[trigger] w@[k], n) by {
                lemma_shape_below(u@[k], w@[k], n);
            }
        },
        (FormulaIter::Or(u, _), FormulaIter::Or(w, _)) => {
            assert forall|k: int| 0 <= k < w@.len() implies atoms_below(#[trigger] w@[k], n) by {
                lemma_shape_below(u@[k], w@[k], n);
            }
        },
        _ => {},
    }
}

/// The positions of the current clause are atoms of the iterator.
proof fn lemma_cur_atoms(it: FormulaIter)
    ensures
        forall|j: int| 0 <= j < cur_of(it).len() ==> has_atom(it, #[trigger] cur_of(it)[j]),
    decreases it, 1int,
{
    match it {
        FormulaIter::Atom(p) => {
            assert forall|j: int| 0 <= j < cur_of(it).len() implies has_atom(it, #[trigger] cur_of(it)[j]) by {
                assert(cur_of(it)[j] == p);
            }
        },
        FormulaIter::And(v) => {
            lemma_cur_and_atoms(v@, 0);
            assert forall|j: int| 0 <= j < cur_of(it).len() implies has_atom(it, #[trigger] cur_of(it)[j]) by {
                let k = choose|k: int| 0 <= k < v@.len() && has_atom(#[trigger] v@[k], cur_and(v@, 0)[j]);
            }
        },
        FormulaIter::Or(v, pos) => {
            if pos < v@.len() {
                lemma_cur_atoms(v@[pos as int]);
                assert forall|j: int| 0 <= j < cur_of(it).len() implies has_atom(it, #[trigger] cur_of(it)[j]) by {
                    assert(has_atom(v@[pos as int], cur_of(v@[pos as int])[j]));
                }
            }
        },
    }
}

proof fn lemma_cur_and_atoms(v: Seq<FormulaIter>, i: int)
    ensures
        forall|j: int|
            #![trigger cur_and(v, i)[j]]
            0 <= j < cur_and(v, i).len() ==> exists|k: int| 0 <= k < v.len() && has_atom(#[trigger] v[k], cur_and(v, i)[j]),
    decreases v, v.len() - i,
{
    if 0 <= i < v.len() {
        lemma_cur_atoms(v[i]);
        lemma_cur_and_atoms(v, i + 1);
        let a = cur_of(v[i]);
        let b = cur_and(v, i + 1);
        assert forall|j: int| #![trigger cur_and(v, i)[j]] 0 <= j < cur_and(v, i).len() implies exists|k: int|
            0 <= k < v.len() && has_atom(#[trigger] v[k], cur_and(v, i)[j]) by {
            if j < a.len() {
                assert(cur_and(v, i)[j] == a[j]);
                assert(has_atom(v[i], a[j]));
            } else {
                assert(cur_and(v, i)[j] == b[j - a.len()]);
            }
        }
    }
}

/// The positions of the current clause are atoms of the iterator.
proof fn lemma_cur_below(it: FormulaIter, n: nat)
    requires
        atoms_below(it, n),
    ensures
        forall|j: int| 0 <= j < cur_of(it).len() ==> (#[trigger] cur_of(it)[j]).i.0 < n,
    decreases it, 1int,
{
    match it {
        FormulaIter::Atom(p) => {
            assert(atoms_below(it, n) == (p.i.0 < n));
            assert(cur_of(it) =~= seq![p]);
            assert(cur_of(it)[0] == p);
            assert(cur_of(it).len() == 1);
            assert(p.i.0 < n);
            assert(cur_of(it)[0].i.0 < n);
            assert forall|j: int| 0 <= j < cur_of(it).len() implies (#[trigger] cur_of(it)[j]).i.0 < n by {
                assert(j == 0);
            }
        },
        FormulaIter::And(v) => {
            lemma_cur_and_below(v@, 0, n);
            assert(cur_of(it) == cur_and(v@, 0));
            assert(forall|j: int| 0 <= j < cur_of(it).len() ==> (#[trigger] cur_of(it)[j]).i.0 < n);
        },
        FormulaIter::Or(v, pos) => {
            if pos < v@.len() {
                lemma_cur_below(v@[pos as int], n);
                assert(cur_of(it) == cur_of(v@[pos as int]));
            } else {
                assert(cur_of(it).len() == 0);
            }
            assert(forall|j: int| 0 <= j < cur_of(it).len() ==> (#[trigger] cur_of(it)[j]).i.0 < n);
        },
    }
}

proof fn lemma_cur_and_below(v: Seq<FormulaIter>, i: int, n: nat)
    requires
        forall|k: int| 0 <= k < v.len() ==> atoms_below(#[trigger] v[k], n),
    ensures
        forall|j: int| 0 <= j < cur_and(v, i).len() ==> (#[trigger] cur_and(v, i)[j]).i.0 < n,
    decreases v, v.len() - i,
{
    if 0 <= i < v.len() {
        lemma_cur_below(v[i], n);
        lemma_cur_and_below(v, i + 1, n);
        let a = cur_of(v[i]);
        let b = cur_and(v, i + 1);
        assert forall|j: int| 0 <= j < cur_and(v, i).len() implies (#[trigger] cur_and(v, i)[j]).i.0
            < n by {
            if j < a.len() {
                assert(cur_and(v, i)[j] == a[j]);
            } else {
                assert(cur_and(v, i)[j] == b[j - a.len()]);
            }
        }
    }
}

proof fn lemma_shape_trans(a: FormulaIter, b: FormulaIter, c: FormulaIter)
    requires
        shape_eq(a, b),
        shape_eq(b, c),
    ensures
        shape_eq(a, c),
    decreases a,
{
    match (a, b, c) {
        (FormulaIter::And(u), FormulaIter::And(v), FormulaIter::And(w)) => {
            assert forall|k: int| 0 <= k < u@.len() implies shape_eq(#[trigger] u@[k], w@[k]) by {
                lemma_shape_trans(u@[k], v@[k], w@[k]);
            }
        },
        (FormulaIter::Or(u, _), FormulaIter::Or(v, _), FormulaIter::Or(w, _)) => {
            assert forall|k: int| 0 <= k < u@.len() implies shape_eq(#[trigger] u@[k], w@[k]) by {
                lemma_shape_trans(u@[k], v@[k], w@[k]);
            }
        },
        _ => {},
    }
}

/// The moves of a position of player 0: the clauses of its formula, each in
/// normal form, in enumeration order.
pub struct P0Moves {
    exhausted: bool,
    inner: FormulaIter,
}

/// The moves of a position of player 1: the positions of player 0 of its
/// clause, in order.
pub struct P1Moves(Vec<P0Pos>, usize);

impl P0Moves {
    /// The moves are consistent with their iterator.
    pub closed spec fn well_formed(&self) -> bool {
        self.exhausted || wf(self.inner)
    }

    /// The clauses left to enumerate, the next one first.
    pub closed spec fn clauses(&self) -> Seq<Seq<P0Pos>> {
        if self.exhausted {
            Seq::empty()
        } else {
            rem_of(self.inner)
        }
    }

    /// Every position that the moves can lead to has a variable below `n`.
    pub closed spec fn vars_below(&self, n: nat) -> bool {
        self.exhausted || atoms_below(self.inner, n)
    }

    /// All the clauses of the formula of the moves, from its first one.
    pub closed spec fn all_clauses(&self) -> Seq<Seq<P0Pos>> {
        if self.exhausted {
            Seq::empty()
        } else {
            all_of(self.inner)
        }
    }

    /// No move has been taken yet, or none is left.
    pub closed spec fn at_start(&self) -> bool {
        self.exhausted || started(self.inner)
    }

    /// The position `p` occurs in the formula of the remaining moves.
    pub closed spec fn leads_to(&self, p: P0Pos) -> bool {
        !self.exhausted && has_atom(self.inner, p)
    }

    /// Whether the formula of the remaining moves is true under `sigma`.
    pub closed spec fn holds(&self, sigma: spec_fn(P0Pos) -> bool) -> bool {
        eval(self.inner, sigma)
    }

    /// The moves of a formula with no empty disjunction below its root.
    pub fn from_formula(formula: &Formula) -> (r: Self)
        requires
            formula_wf_root(*formula),
        ensures
            r.well_formed(),
            r.at_start(),
            r.clauses() == dnf(*formula),
            forall|m: nat| formula_below(*formula, m) ==> #[trigger] r.vars_below(m),
    {
        let inner = FormulaIter::new(formula);
        let exhausted = inner.is_false();
        proof {
            if !exhausted {
                lemma_started_rem(inner);
            } else {
                assert(dnf(*formula) =~= Seq::<Seq<P0Pos>>::empty());
            }
        }
        P0Moves { exhausted, inner }
    }

    /// Whether no move is left.
    pub fn is_exhausted(&self) -> (r: bool)
        requires
            self.well_formed(),
        ensures
            r == (self.clauses().len() == 0),
    {
        proof {
            if !self.exhausted {
                lemma_rem_first(self.inner);
            }
        }
        self.exhausted
    }

    /// Drops the moves that the assumption decides: clauses holding a losing
    /// position are removed, winning positions are removed from the clauses,
    /// and a formula known to hold is reduced to the single empty clause.
    /// When no position of the moves is decided, nothing changes. Otherwise
    /// the clauses taken before may now be beaten by smaller ones, or hold a
    /// losing position, so the moves start over from the first clause of the
    /// simplified formula. For an assumption with one answer per position,
    /// the clauses then left and all the clauses of the formula before bound
    /// each other: every clause with no position that can be answered losing
    /// keeps a clause left within it, and every clause left holds such a
    /// clause once the winning positions of that one are dropped.
    pub fn simplify<F: Fn(P0Pos) -> Assumption>(&mut self, assumption: F)
        requires
            old(self).well_formed(),
            forall|p: P0Pos| call_requires(assumption, (p,)),
        ensures
            final(self).well_formed(),
            old(self).clauses().len() == 0 ==> final(self).clauses().len() == 0,
            old(self).clauses().len() > 0 && final(self).clauses().len() > 0 ==> forall|
                sigma: spec_fn(P0Pos) -> bool,
            | #[trigger] consistent(assumption, sigma) ==> final(self).holds(sigma) == old(self).holds(
                sigma,
            ),
            forall|m: nat| old(self).vars_below(m) ==> #[trigger] final(self).vars_below(m),
            forall|p: P0Pos|
                #[trigger] final(self).leads_to(p) ==> old(self).leads_to(p) && may_leave(assumption, p),
            *final(self) != *old(self) ==> exists|p: P0Pos| #[trigger] old(self).leads_to(p) && may_decide(
                assumption,
                p,
            ),
            *final(self) != *old(self) && final(self).clauses().len() > 0 ==> final(self).at_start()
                && final(self).clauses() == final(self).all_clauses(),
            old(self).clauses().len() > 0 && final(self).clauses().len() == 0 ==> forall|
                sigma: spec_fn(P0Pos) -> bool,
            | #[trigger] consistent(assumption, sigma) ==> !old(self).holds(sigma),
            old(self).at_start() ==> final(self).at_start(),
            deterministic(assumption) && *final(self) != *old(self) ==> forall|c: Seq<P0Pos>|
                #[trigger] old(self).all_clauses().contains(c) && avoids_losing(assumption, c) ==> exists|
                    c2: Seq<P0Pos>,
                | #[trigger] final(self).clauses().contains(c2) && positions_within(c2, c),
            deterministic(assumption) && *final(self) != *old(self) ==> forall|c2: Seq<P0Pos>|
                #[trigger] final(self).clauses().contains(c2) ==> exists|c: Seq<P0Pos>|
                    #[trigger] old(self).all_clauses().contains(c) && avoids_losing(assumption, c)
                        && reduced_within(assumption, c, c2),
    {
        if self.exhausted {
            return;
        }
        proof {
            lemma_rem_first(self.inner);
        }
        if !self.inner.has_decided(&assumption) {
            return;
        }
        proof {
            let p = choose|p: P0Pos| #[trigger] has_atom(self.inner, p) && may_decide(assumption, p);
            assert(old(self).leads_to(p));
        }
        let ghost g0 = self.inner;
        let st = self.inner.simplify(&assumption);
        let ghost g1 = self.inner;
        match st {
            Status::Winning => {
                let v: Vec<FormulaIter> = Vec::new();
                proof {
                    assert(wf(FormulaIter::And(v)));
                    assert forall|sigma: spec_fn(P0Pos) -> bool| #[trigger] eval(FormulaIter::And(v), sigma) by {
                        lemma_eval_and(v, sigma);
                    }
                    assert forall|q: P0Pos| !#[trigger] has_atom(FormulaIter::And(v), q) by {}
                }
                self.inner = FormulaIter::And(v);
            },
            Status::Losing => {
                self.exhausted = true;
            },
            _ => {},
        }
        if !self.exhausted {
            let ghost before = self.inner;
            self.inner.reset();
            proof {
                lemma_shape_eval_forall(before, self.inner);
                assert forall|q: P0Pos| #[trigger] has_atom(self.inner, q) implies has_atom(before, q) by {
                    lemma_shape_atom(before, self.inner, q);
                }
                assert forall|m: nat| atoms_below(before, m) implies #[trigger] atoms_below(self.inner, m) by {
                    lemma_shape_below(before, self.inner, m);
                }
                lemma_started_rem(self.inner);
                lemma_rem_first(self.inner);
                lemma_shape_all(before, self.inner);
            }
        }
        proof {
            if deterministic(assumption) {
                assert forall|c: Seq<P0Pos>| #[trigger] old(self).all_clauses().contains(c) && avoids_losing(
                    assumption,
                    c,
                ) implies exists|c2: Seq<P0Pos>| #[trigger] self.clauses().contains(c2) && positions_within(c2, c) by {
                    let sigma = |p: P0Pos| call_ensures(assumption, (p,), Assumption::Winning) || c.contains(p);
                    assert forall|p: P0Pos, a: Assumption| #[trigger] call_ensures(assumption, (p,), a) implies (a is Winning
                        ==> sigma(p)) && (a is Losing ==> !sigma(p)) by {
                        if a is Losing {
                            if call_ensures(assumption, (p,), Assumption::Winning) {
                                assert(a == Assumption::Winning);
                            }
                            if c.contains(p) {
                                let k = choose|k: int| 0 <= k < c.len() && c[k] == p;
                                assert(!call_ensures(assumption, (c[k],), Assumption::Losing));
                            }
                        }
                    }
                    assert(consistent(assumption, sigma));
                    assert forall|k: int| 0 <= k < c.len() implies sigma(#[trigger] c[k]) by {
                        assert(c.contains(c[k]));
                    }
                    assert(clause_true(c, sigma));
                    assert(all_of(g0).contains(c));
                    lemma_eval_clauses(g0, sigma);
                    assert(eval(g0, sigma));
                    if st is Winning {
                        let e = Seq::<P0Pos>::empty();
                        assert(all_of(self.inner) == all_and(Seq::<FormulaIter>::empty(), 0)) by {
                            assert(self.inner matches FormulaIter::And(w) && w@.len() == 0);
                        }
                        assert(all_of(self.inner)[0] == e);
                        assert(self.clauses().contains(e));
                        assert(positions_within(e, c));
                    } else {
                        assert(!(st is Losing));
                        let g2 = self.inner;
                        assert(eval(g1, sigma) == eval(g0, sigma));
                        assert(eval(g2, sigma));
                        lemma_eval_clauses(g2, sigma);
                        let c2 = choose|c2: Seq<P0Pos>| #[trigger] all_of(g2).contains(c2) && clause_true(c2, sigma);
                        lemma_clause_atoms(g2, c2);
                        assert forall|k: int| 0 <= k < c2.len() implies c.contains(#[trigger] c2[k]) by {
                            let q = c2[k];
                            assert(has_atom(g2, q));
                            lemma_shape_atom(g1, g2, q);
                            assert(has_atom(g1, q));
                            assert(call_ensures(assumption, (q,), Assumption::Unknown));
                            if call_ensures(assumption, (q,), Assumption::Winning) {
                                assert(Assumption::Unknown == Assumption::Winning);
                            }
                            assert(sigma(q));
                        }
                        assert(self.clauses().contains(c2));
                    }
                }
                assert forall|c2: Seq<P0Pos>| #[trigger] self.clauses().contains(c2) implies exists|c: Seq<P0Pos>|
                    #[trigger] old(self).all_clauses().contains(c) && avoids_losing(assumption, c) && reduced_within(
                        assumption,
                        c,
                        c2,
                    ) by {
                    let sigma = |p: P0Pos| call_ensures(assumption, (p,), Assumption::Winning) || (c2.contains(p)
                        && !(st is Winning));
                    assert(!(st is Losing));
                    assert forall|p: P0Pos, a: Assumption| #[trigger] call_ensures(assumption, (p,), a) implies (a is Winning
                        ==> sigma(p)) && (a is Losing ==> !sigma(p)) by {
                        if a is Losing {
                            if call_ensures(assumption, (p,), Assumption::Winning) {
                                assert(a == Assumption::Winning);
                            }
                            if c2.contains(p) && !(st is Winning) {
                                let k = choose|k: int| 0 <= k < c2.len() && c2[k] == p;
                                lemma_clause_atoms(self.inner, c2);
                                assert(has_atom(self.inner, p));
                                lemma_shape_atom(g1, self.inner, p);
                                assert(call_ensures(assumption, (p,), Assumption::Unknown));
                                assert(a == Assumption::Unknown);
                            }
                        }
                    }
                    assert(consistent(assumption, sigma));
                    if st is Winning {
                        assert(eval(g0, sigma));
                    } else {
                        lemma_eval_clauses(self.inner, sigma);
                        assert forall|k: int| 0 <= k < c2.len() implies sigma(#[trigger] c2[k]) by {
                            assert(c2.contains(c2[k]));
                        }
                        assert(clause_true(c2, sigma));
                        assert(eval(self.inner, sigma));
                        assert(eval(g1, sigma) == eval(g0, sigma));
                        assert(eval(g0, sigma));
                    }
                    lemma_eval_clauses(g0, sigma);
                    let c = choose|c: Seq<P0Pos>| #[trigger] all_of(g0).contains(c) && clause_true(c, sigma);
                    assert(old(self).all_clauses().contains(c));
                    assert forall|k: int| 0 <= k < c.len() implies !call_ensures(assumption, (#[trigger] c[k],), Assumption::Losing) by {
                        assert(sigma(c[k]));
                        assert(call_ensures(assumption, (c[k],), Assumption::Losing) ==> !sigma(c[k]));
                    }
                    assert forall|k: int| 0 <= k < c.len() implies c2.contains(#[trigger] c[k]) || call_ensures(
                        assumption,
                        (c[k],),
                        Assumption::Winning,
                    ) by {
                        assert(sigma(c[k]));
                    }
                }
            }
        }
    }

    /// The next move, if any.
    pub fn next(&mut self) -> (r: Option<P1Pos>)
        requires
            old(self).well_formed(),
        ensures
            final(self).well_formed(),
            old(self).clauses().len() == 0 ==> r is None && final(self).clauses().len() == 0,
            old(self).clauses().len() > 0 ==> {
                &&& r is Some
                &&& normal_form(old(self).clauses()[0], r->0.moves@)
                &&& final(self).clauses() == old(self).clauses().drop_first()
            },
            forall|m: nat| old(self).vars_below(m) ==> #[trigger] final(self).vars_below(m),
            forall|m: nat|
                #![trigger old(self).vars_below(m)]
                old(self).vars_below(m) && r is Some ==> forall|j: int|
                    0 <= j < r->0.moves@.len() ==> (#[trigger] r->0.moves@[j]).i.0 < m,
            r is Some ==> forall|j: int| 0 <= j < r->0.moves@.len() ==> old(self).leads_to(#[trigger] r->0.moves@[j]),
            forall|p: P0Pos| #[trigger] final(self).leads_to(p) ==> old(self).leads_to(p),
    {
        if self.exhausted {
            return None;
        }
        proof {
            lemma_rem_first(self.inner);
        }
        let moves = self.inner.current();
        let ghost before = self.inner;
        proof {
            assert forall|m: nat| #![trigger self.vars_below(m)] self.vars_below(m) implies forall|j: int|
                0 <= j < moves@.len() ==> (#[trigger] moves@[j]).i.0 < m by {
                lemma_cur_below(before, m);
                assert forall|j: int| 0 <= j < moves@.len() implies (#[trigger] moves@[j]).i.0 < m by {
                    assert(cur_of(before).contains(moves@[j]));
                }
            }
        }
        proof {
            lemma_cur_atoms(before);
            assert forall|j: int| 0 <= j < moves@.len() implies has_atom(before, #[trigger] moves@[j]) by {
                assert(cur_of(before).contains(moves@[j]));
                let k = choose|k: int| 0 <= k < cur_of(before).len() && cur_of(before)[k] == moves@[j];
                assert(has_atom(before, cur_of(before)[k]));
            }
        }
        if !self.inner.advance() {
            self.exhausted = true;
            proof {
                assert(rem_of(before).len() == 1);
                assert(rem_of(before).drop_first() =~= Seq::<Seq<P0Pos>>::empty());
            }
        }
        proof {
            assert forall|m: nat| old(self).vars_below(m) implies #[trigger] self.vars_below(m) by {
                if !self.exhausted {
                    lemma_shape_below(before, self.inner, m);
                }
            }
            assert forall|p: P0Pos| #[trigger] self.leads_to(p) implies old(self).leads_to(p) by {
                lemma_shape_atom(before, self.inner, p);
            }
        }
        Some(P1Pos { moves })
    }
}

impl P0Pos {
    /// The moves from this position: the clauses of the right hand side of
    /// the equation of its variable, composed at its basis element.
    pub fn moves(&self, formulas: &EqsFormulas) -> (r: P0Moves)
        requires
            formulas.well_formed(),
            self.i.0 < formulas.eqs().len(),
        ensures
            r.well_formed(),
            r.at_start(),
            r.vars_below(formulas.eqs().len()),
            exists|f: Formula|
                formula_view(f) == compose_spec(
                    formulas.eqs()[self.i.0 as int].1,
                    self.b.0,
                    formulas.funs().table(),
                ) && r.clauses() == dnf(f),
    {
        let f = formulas.get(self.b, self.i);
        P0Moves::from_formula(&f)
    }
}

impl P1Pos {
    /// The moves of this position.
    pub fn moves(&self) -> (r: P1Moves)
        ensures
            r.remaining() == self.moves@,
    {
        let mut v: Vec<P0Pos> = Vec::new();
        let mut k: usize = 0;
        while k < self.moves.len()
            invariant
                k <= self.moves@.len(),
                v@ == self.moves@.take(k as int),
            decreases self.moves@.len() - k,
        {
            v.push(self.moves[k]);
            k = k + 1;
            proof {
                assert(v@ =~= self.moves@.take(k as int));
            }
        }
        proof {
            assert(self.moves@.take(k as int) =~= self.moves@);
        }
        P1Moves(v, 0)
    }
}

impl P1Moves {
    /// The positions left to enumerate.
    pub closed spec fn remaining(&self) -> Seq<P0Pos> {
        if self.1 <= self.0@.len() {
            self.0@.skip(self.1 as int)
        } else {
            Seq::empty()
        }
    }

    /// Whether no position is left.
    pub fn is_exhausted(&self) -> (r: bool)
        ensures
            r == (self.remaining().len() == 0),
    {
        self.1 >= self.0.len()
    }

    /// The next position, if any.
    pub fn next(&mut self) -> (r: Option<P0Pos>)
        ensures
            old(self).remaining().len() == 0 ==> r is None && final(self).remaining().len() == 0,
            old(self).remaining().len() > 0 ==> r == Some(old(self).remaining()[0])
                && final(self).remaining() == old(self).remaining().drop_first(),
    {
        if self.1 < self.0.len() {
            let pos = self.0[self.1];
            self.1 = self.1 + 1;
            proof {
                assert(old(self).0@.skip(old(self).1 as int)[0] == pos);
                assert(self.0@.skip(self.1 as int) =~= old(self).0@.skip(old(self).1 as int).drop_first());
            }
            Some(pos)
        } else {
            None
        }
    }
}

impl Default for P1Moves {
    fn default() -> (r: Self)
        ensures
            r.remaining() == Seq::<P0Pos>::empty(),
    {
        P1Moves(Vec::new(), 0)
    }
}

} // verus!
