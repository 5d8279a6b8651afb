//! The textual syntax of mu-calculus formulas.
//!
//! ```text
//! formula := binder* disj
//! binder  := ("mu" | "nu") ident "."
//! disj    := conj ("||" conj)*
//! conj    := (modal ("&&" modal)*)?
//! modal   := ("<" act ">" | "[" act "]")* atom
//! act     := "true" | "!" label | label
//! atom    := "true" | "false" | "(" formula ")" | ident
//! ```
//!
//! Alternatives are tried in order, repetitions are greedy, and an attempt
//! that fails gives back what it read. White space may stand around
//! keywords, identifiers, separators and atoms, but not before the bracket
//! that opens a modality. A label is any text up to the closing bracket. A
//! conjunction or disjunction of one formula is that formula, and an empty
//! conjunction is `true`.
use vstd::prelude::*;

use crate::mucalc::{lemma_mu_views, lemma_mu_views_push, mu_view, mu_views, Act, ActV, MuCalc, MuCalcV, Var};
use crate::text::{chars_of, has_lit, lit_at, skip_ws, slice, string_of, ws_end};

verus! {

pub open spec fn is_ident_start(c: char) -> bool {
    ('a' <= c && c <= 'z') || ('A' <= c && c <= 'Z') || c == '_'
}

pub open spec fn is_ident_char(c: char) -> bool {
    is_ident_start(c) || ('0' <= c && c <= '9')
}

/// The position after the identifier characters starting at `i`.
pub open spec fn ident_end(s: Seq<char>, i: int) -> int
    decreases s.len() - i,
{
    if 0 <= i < s.len() && is_ident_char(s[i]) {
        ident_end(s, i + 1)
    } else {
        i
    }
}

/// From `i` on, the identifier characters (letters, digits and underscores)
/// run up to `ident_end(s, i)`, and the character there, if any, is none of
/// them.
proof fn lemma_ident_end(s: Seq<char>, i: int)
    requires
        0 <= i <= s.len(),
    ensures
        i <= ident_end(s, i) <= s.len(),
        forall|k: int|
            i <= k < ident_end(s, i) ==> ('a' <= #[trigger] s[k] && s[k] <= 'z') || ('A' <= s[k] && s[k] <= 'Z')
                || s[k] == '_' || ('0' <= s[k] && s[k] <= '9'),
        ident_end(s, i) < s.len() ==> !(('a' <= s[ident_end(s, i)] && s[ident_end(s, i)] <= 'z') || ('A'
            <= s[ident_end(s, i)] && s[ident_end(s, i)] <= 'Z') || s[ident_end(s, i)] == '_' || ('0'
            <= s[ident_end(s, i)] && s[ident_end(s, i)] <= '9')),
    decreases s.len() - i,
{
    if i < s.len() && is_ident_char(s[i]) {
        lemma_ident_end(s, i + 1);
    }
}

/// An identifier is a letter or an underscore followed by every letter,
/// digit and underscore after it; there is none where the text does not
/// start with a letter or an underscore.
pub proof fn identifiers_take_letters_digits_and_underscores(s: Seq<char>, i: int)
    requires
        0 <= i < s.len(),
    ensures
        !(('a' <= s[i] && s[i] <= 'z') || ('A' <= s[i] && s[i] <= 'Z') || s[i] == '_') ==> ident_at(s, i) is None,
        (('a' <= s[i] && s[i] <= 'z') || ('A' <= s[i] && s[i] <= 'Z') || s[i] == '_') ==> ident_at(s, i) is Some
            && {
            let (id, e) = ident_at(s, i)->0;
            &&& i < e <= s.len()
            &&& id == s.subrange(i, e)
            &&& forall|k: int|
                i < k < e ==> ('a' <= #[trigger] s[k] && s[k] <= 'z') || ('A' <= s[k] && s[k] <= 'Z') || s[k] == '_'
                    || ('0' <= s[k] && s[k] <= '9')
            &&& e < s.len() ==> !(('a' <= s[e] && s[e] <= 'z') || ('A' <= s[e] && s[e] <= 'Z') || s[e] == '_'
                || ('0' <= s[e] && s[e] <= '9'))
        },
{
    lemma_ident_end(s, i + 1);
    let e = ident_end(s, i + 1);
    assert(i < e <= s.len());
}

/// The position of the first closing bracket from `i`, or the end.
pub open spec fn label_end(s: Seq<char>, i: int) -> int
    decreases s.len() - i,
{
    if 0 <= i < s.len() && s[i] != '>' && s[i] != ']' {
        label_end(s, i + 1)
    } else {
        i
    }
}

/// A label runs from `i` up to the first closing bracket, `>` or `]`, or to
/// the end of the text.
pub proof fn labels_run_to_the_closing_bracket(s: Seq<char>, i: int)
    requires
        0 <= i <= s.len(),
    ensures
        i <= label_end(s, i) <= s.len(),
        forall|k: int| i <= k < label_end(s, i) ==> #[trigger] s[k] != '>' && s[k] != ']',
        label_end(s, i) < s.len() ==> s[label_end(s, i)] == '>' || s[label_end(s, i)] == ']',
    decreases s.len() - i,
{
    if i < s.len() && s[i] != '>' && s[i] != ']' {
        labels_run_to_the_closing_bracket(s, i + 1);
    }
}

/// The identifier at `i` and the position after it.
pub open spec fn ident_at(s: Seq<char>, i: int) -> Option<(Seq<char>, int)> {
    if 0 <= i < s.len() && is_ident_start(s[i]) {
        let e = ident_end(s, i + 1);
        Some((s.subrange(i, e), e))
    } else {
        None
    }
}

/// The position after the keyword `kw` at `i`: an identifier equal to it.
pub open spec fn keyword_end(s: Seq<char>, i: int, kw: Seq<char>) -> Option<int> {
    match ident_at(s, i) {
        Some((w, e)) => if w == kw {
            Some(e)
        } else {
            None
        },
        None => None,
    }
}

pub proof fn lemma_scan_ends(s: Seq<char>, i: int)
    requires
        0 <= i <= s.len(),
    ensures
        i <= ws_end(s, i) <= s.len(),
        i <= ident_end(s, i) <= s.len(),
        i <= label_end(s, i) <= s.len(),
    decreases s.len() - i,
{
    if i < s.len() {
        lemma_scan_ends(s, i + 1);
    }
}

/// The action set of a modality starting at `i`, and the position after it.
pub open spec fn act_at(s: Seq<char>, i: int) -> (ActV, int) {
    let j = ws_end(s, i);
    if has_lit(s, j, seq!['t', 'r', 'u', 'e']) {
        (ActV::True, ws_end(s, j + 4))
    } else if 0 <= j < s.len() && s[j] == '!' {
        let k = ws_end(s, j + 1);
        let l = label_end(s, k);
        (ActV::NotLabel(s.subrange(k, l)), ws_end(s, l))
    } else {
        let l = label_end(s, j);
        (ActV::Label(s.subrange(j, l)), ws_end(s, l))
    }
}

/// The modality at `i`: whether it is a box, its action set and the
/// position after its closing bracket.
pub open spec fn prefix_at(s: Seq<char>, i: int) -> Option<(bool, ActV, int)> {
    if 0 <= i < s.len() && (s[i] == '<' || s[i] == '[') {
        let close = if s[i] == '<' {
            '>'
        } else {
            ']'
        };
        let (a, k) = act_at(s, i + 1);
        if 0 <= k < s.len() && s[k] == close {
            Some((s[i] == '[', a, k + 1))
        } else {
            None
        }
    } else {
        None
    }
}

/// The fixpoint binder at `i`: whether it is a greatest fixpoint, its
/// variable and the position after its dot.
pub open spec fn binder_at(s: Seq<char>, i: int) -> Option<(bool, Seq<char>, int)> {
    let j = ws_end(s, i);
    let kw = if keyword_end(s, j, seq!['m', 'u']) is Some {
        Some((false, keyword_end(s, j, seq!['m', 'u'])->0))
    } else if keyword_end(s, j, seq!['n', 'u']) is Some {
        Some((true, keyword_end(s, j, seq!['n', 'u'])->0))
    } else {
        None
    };
    match kw {
        Some((nu, e)) => match ident_at(s, ws_end(s, e)) {
            Some((x, e2)) => {
                let k = ws_end(s, e2);
                if 0 <= k < s.len() && s[k] == '.' {
                    Some((nu, x, ws_end(s, k + 1)))
                } else {
                    None
                }
            },
            None => None,
        },
        None => None,
    }
}

pub proof fn lemma_act_at(s: Seq<char>, i: int)
    requires
        0 <= i <= s.len(),
    ensures
        i <= act_at(s, i).1 <= s.len(),
{
    let j = ws_end(s, i);
    lemma_scan_ends(s, i);
    if has_lit(s, j, seq!['t', 'r', 'u', 'e']) {
        lemma_scan_ends(s, j + 4);
    } else if 0 <= j < s.len() && s[j] == '!' {
        lemma_scan_ends(s, j + 1);
        let k = ws_end(s, j + 1);
        lemma_scan_ends(s, k);
        lemma_scan_ends(s, label_end(s, k));
    } else {
        lemma_scan_ends(s, j);
        lemma_scan_ends(s, label_end(s, j));
    }
}

pub proof fn lemma_prefix_at(s: Seq<char>, i: int)
    requires
        0 <= i <= s.len(),
        prefix_at(s, i) is Some,
    ensures
        i < (prefix_at(s, i)->0).2 <= s.len(),
{
    lemma_act_at(s, i + 1);
}

pub proof fn lemma_binder_at(s: Seq<char>, i: int)
    requires
        0 <= i <= s.len(),
        binder_at(s, i) is Some,
    ensures
        i < (binder_at(s, i)->0).2 <= s.len(),
{
    let j = ws_end(s, i);
    lemma_scan_ends(s, i);
    lemma_scan_ends(s, j + 1);
    let e = ident_end(s, j + 1);
    lemma_scan_ends(s, e);
    let k0 = ws_end(s, e);
    lemma_scan_ends(s, k0 + 1);
    let e2 = ident_end(s, k0 + 1);
    lemma_scan_ends(s, e2);
    let k = ws_end(s, e2);
    lemma_scan_ends(s, k + 1);
}

/// `p` kept within `lo` and `hi`.
pub open spec fn within(p: int, lo: int, hi: int) -> int {
    if p < lo {
        lo
    } else if p > hi {
        hi
    } else {
        p
    }
}

/// A conjunction or disjunction of the formulas, or the formula itself when
/// there is exactly one.
pub open spec fn unwrap_one(items: Seq<MuCalcV>, is_or: bool) -> MuCalcV {
    if items.len() == 1 {
        items[0]
    } else if is_or {
        MuCalcV::Or(items)
    } else {
        MuCalcV::And(items)
    }
}

/// The formula starting at `i`, with its leading fixpoint binders, and the
/// position after it. It never fails: at worst it is an empty conjunction.
pub open spec fn fix_at(s: Seq<char>, i: int) -> (MuCalcV, int)
    decreases s.len() - i, 6int,
    when 0 <= i <= s.len()
{
    match binder_at(s, i) {
        Some((nu, x, k)) => {
            proof {
                lemma_binder_at(s, i);
            }
            let (e, k2) = fix_at(s, k);
            if nu {
                (MuCalcV::Nu(x, Box::new(e)), k2)
            } else {
                (MuCalcV::Mu(x, Box::new(e)), k2)
            }
        },
        None => disj_at(s, i),
    }
}

/// The disjunction starting at `i` and the position after it.
pub open spec fn disj_at(s: Seq<char>, i: int) -> (MuCalcV, int)
    decreases s.len() - i, 5int,
    when 0 <= i <= s.len()
{
    let (items, k) = conj_at(s, i);
    let (alts, k2) = disj_rest(s, within(k, i, s.len() as int), seq![unwrap_one(items, false)]);
    (unwrap_one(alts, true), k2)
}

/// The disjuncts after the first, appended to `acc`, and the position after
/// the last.
pub open spec fn disj_rest(s: Seq<char>, k: int, acc: Seq<MuCalcV>) -> (Seq<MuCalcV>, int)
    decreases s.len() - k, 4int,
    when 0 <= k <= s.len()
{
    let j = ws_end(s, k);
    proof {
        lemma_scan_ends(s, k);
    }
    if has_lit(s, j, seq!['|', '|']) {
        let j2 = ws_end(s, j + 2);
        proof {
            lemma_scan_ends(s, j + 2);
        }
        let (items, k2) = conj_at(s, j2);
        disj_rest(s, within(k2, j2, s.len() as int), acc.push(unwrap_one(items, false)))
    } else {
        (acc, k)
    }
}

/// The conjuncts starting at `i`, none when no modal formula stands there,
/// and the position after the last.
pub open spec fn conj_at(s: Seq<char>, i: int) -> (Seq<MuCalcV>, int)
    decreases s.len() - i, 3int,
    when 0 <= i <= s.len()
{
    match modal_at(s, i) {
        Some((m, k)) => conj_rest(s, within(k, i, s.len() as int), seq![m]),
        None => (Seq::empty(), i),
    }
}

/// The conjuncts after the first, appended to `acc`, and the position after
/// the last.
pub open spec fn conj_rest(s: Seq<char>, k: int, acc: Seq<MuCalcV>) -> (Seq<MuCalcV>, int)
    decreases s.len() - k, 2int,
    when 0 <= k <= s.len()
{
    let j = ws_end(s, k);
    proof {
        lemma_scan_ends(s, k);
    }
    if has_lit(s, j, seq!['&', '&']) {
        let j2 = ws_end(s, j + 2);
        proof {
            lemma_scan_ends(s, j + 2);
        }
        match modal_at(s, j2) {
            Some((m, k2)) => conj_rest(s, within(k2, j2, s.len() as int), acc.push(m)),
            None => (acc, k),
        }
    } else {
        (acc, k)
    }
}

/// The modal formula starting at `i` and the position after it.
pub open spec fn modal_at(s: Seq<char>, i: int) -> Option<(MuCalcV, int)>
    decreases s.len() - i, 1int,
    when 0 <= i <= s.len()
{
    match prefix_at(s, i) {
        Some((is_box, a, k)) => {
            proof {
                lemma_prefix_at(s, i);
            }
            match modal_at(s, k) {
                Some((e, k2)) => if is_box {
                    Some((MuCalcV::Box(a, Box::new(e)), k2))
                } else {
                    Some((MuCalcV::Diamond(a, Box::new(e)), k2))
                },
                None => None,
            }
        },
        None => atom_at(s, i),
    }
}

/// The atom starting at `i` and the position after it.
pub open spec fn atom_at(s: Seq<char>, i: int) -> Option<(MuCalcV, int)>
    decreases s.len() - i, 0int,
    when 0 <= i <= s.len()
{
    let j = ws_end(s, i);
    proof {
        lemma_scan_ends(s, i);
    }
    if keyword_end(s, j, seq!['t', 'r', 'u', 'e']) is Some {
        Some((MuCalcV::And(Seq::empty()), ws_end(s, keyword_end(s, j, seq!['t', 'r', 'u', 'e'])->0)))
    } else if keyword_end(s, j, seq!['f', 'a', 'l', 's', 'e']) is Some {
        Some((MuCalcV::Or(Seq::empty()), ws_end(s, keyword_end(s, j, seq!['f', 'a', 'l', 's', 'e'])->0)))
    } else if 0 <= j < s.len() && s[j] == '(' {
        let (e, k) = fix_at(s, j + 1);
        if 0 <= k < s.len() && s[k] == ')' {
            Some((e, ws_end(s, k + 1)))
        } else {
            None
        }
    } else {
        match ident_at(s, j) {
            Some((x, e)) => Some((MuCalcV::Var(x), ws_end(s, e))),
            None => None,
        }
    }
}

/// The formula that the whole text is, or the position of the first
/// character that does not belong to it.
pub open spec fn spec_parse_mucalc(s: Seq<char>) -> Result<MuCalcV, int> {
    let (e, k) = fix_at(s, 0);
    if k == s.len() {
        Ok(e)
    } else {
        Err(k)
    }
}


/// Why a text is not a mu-calculus formula: the position of the first
/// character that does not belong to the formula read from the start.
#[derive(Clone, Copy, Debug, PartialEq, Eq, Structural)]
pub struct MuCalcError {
    pub pos: usize,
}

/// Applies `f` to the items, unless there is exactly one, which is returned
/// as it is.
pub fn unwrap_one_or<T, F: Fn(Vec<T>) -> T>(v: Vec<T>, f: F) -> (r: T)
    requires
        v@.len() != 1 ==> call_requires(f, (v,)),
    ensures
        v@.len() == 1 ==> r == v@[0],
        v@.len() != 1 ==> call_ensures(f, (v,), r),
{
    if v.len() == 1 {
        let mut v = v;
        v.pop().unwrap()
    } else {
        f(v)
    }
}

fn scan_ident(s: &Vec<char>, i: usize) -> (r: usize)
    requires
        i <= s@.len(),
    ensures
        r == ident_end(s@, i as int),
        i <= r <= s@.len(),
{
    let mut j = i;
    while j < s.len() && (('a' <= s[j] && s[j] <= 'z') || ('A' <= s[j] && s[j] <= 'Z') || s[j] == '_'
        || ('0' <= s[j] && s[j] <= '9'))
        invariant
            i <= j <= s@.len(),
            ident_end(s@, j as int) == ident_end(s@, i as int),
        decreases s@.len() - j,
    {
        j = j + 1;
    }
    j
}

fn scan_label(s: &Vec<char>, i: usize) -> (r: usize)
    requires
        i <= s@.len(),
    ensures
        r == label_end(s@, i as int),
        i <= r <= s@.len(),
{
    let mut j = i;
    while j < s.len() && s[j] != '>' && s[j] != ']'
        invariant
            i <= j <= s@.len(),
            label_end(s@, j as int) == label_end(s@, i as int),
        decreases s@.len() - j,
    {
        j = j + 1;
    }
    j
}

fn ident_here(s: &Vec<char>, i: usize) -> (r: Option<(Vec<char>, usize)>)
    requires
        i <= s@.len(),
    ensures
        match ident_at(s@, i as int) {
            Some((w, e)) => r is Some && (r->0).0@ == w && (r->0).1 == e,
            None => r is None,
        },
        r is Some ==> i < (r->0).1 <= s@.len(),
{
    if i < s.len() && (('a' <= s[i] && s[i] <= 'z') || ('A' <= s[i] && s[i] <= 'Z') || s[i] == '_') {
        let e = scan_ident(s, i + 1);
        Some((slice(s, i, e), e))
    } else {
        None
    }
}

fn keyword_here(s: &Vec<char>, i: usize, kw: &[char]) -> (r: Option<usize>)
    requires
        i <= s@.len(),
    ensures
        match keyword_end(s@, i as int, kw@) {
            Some(e) => r is Some && r->0 == e,
            None => r is None,
        },
        r is Some ==> i <= r->0 <= s@.len(),
{
    match ident_here(s, i) {
        Some((w, e)) => {
            proof {
                lemma_scan_ends(s@, i + 1);
                assert(w@ == s@.subrange(i as int, e as int));
            }
            if w.len() == kw.len() && lit_at(s, i, kw) {
                proof {
                    assert(e == i + kw@.len());
                    assert(w@ =~= kw@);
                }
                Some(e)
            } else {
                proof {
                    if w@ == kw@ {
                        assert(e == i + kw@.len());
                        assert(s@.subrange(i as int, i + kw@.len()) =~= kw@);
                    }
                }
                None
            }
        },
        None => None,
    }
}

fn act_here(s: &Vec<char>, i: usize) -> (r: (Act, usize))
    requires
        i <= s@.len(),
    ensures
        r.0.view() == act_at(s@, i as int).0,
        r.1 == act_at(s@, i as int).1,
        i <= r.1 <= s@.len(),
{
    let j = skip_ws(s, i);
    let n = s.len();
    let tr = ['t', 'r', 'u', 'e'];
    proof {
        assert(tr@ =~= seq!['t', 'r', 'u', 'e']);
    }
    if lit_at(s, j, &tr) {
        let e = skip_ws(s, j + 4);
        (Act::True, e)
    } else if j < s.len() && s[j] == '!' {
        let k = skip_ws(s, j + 1);
        let l = scan_label(s, k);
        let label = string_of(&slice(s, k, l));
        (Act::NotLabel(label), skip_ws(s, l))
    } else {
        let l = scan_label(s, j);
        let label = string_of(&slice(s, j, l));
        (Act::Label(label), skip_ws(s, l))
    }
}

fn prefix_here(s: &Vec<char>, i: usize) -> (r: Option<(bool, Act, usize)>)
    requires
        i <= s@.len(),
    ensures
        match prefix_at(s@, i as int) {
            Some((b, a, k)) => r is Some && (r->0).0 == b && (r->0).1.view() == a && (r->0).2 == k,
            None => r is None,
        },
        r is Some ==> i < (r->0).2 <= s@.len(),
{
    if i < s.len() && (s[i] == '<' || s[i] == '[') {
        let close = if s[i] == '<' {
            '>'
        } else {
            ']'
        };
        let (a, k) = act_here(s, i + 1);
        if k < s.len() && s[k] == close {
            Some((s[i] == '[', a, k + 1))
        } else {
            None
        }
    } else {
        None
    }
}

fn binder_here(s: &Vec<char>, i: usize) -> (r: Option<(bool, Vec<char>, usize)>)
    requires
        i <= s@.len(),
    ensures
        match binder_at(s@, i as int) {
            Some((nu, x, k)) => r is Some && (r->0).0 == nu && (r->0).1@ == x && (r->0).2 == k,
            None => r is None,
        },
        r is Some ==> i < (r->0).2 <= s@.len(),
{
    let j = skip_ws(s, i);
    let mu = ['m', 'u'];
    let nu = ['n', 'u'];
    proof {
        assert(mu@ =~= seq!['m', 'u']);
        assert(nu@ =~= seq!['n', 'u']);
    }
    let (is_nu, e) = match keyword_here(s, j, &mu) {
        Some(e) => (false, e),
        None => match keyword_here(s, j, &nu) {
            Some(e) => (true, e),
            None => {
                return None;
            },
        },
    };
    let e1 = skip_ws(s, e);
    match ident_here(s, e1) {
        Some((x, e2)) => {
            let k = skip_ws(s, e2);
            if k < s.len() && s[k] == '.' {
                proof {
                    lemma_binder_at(s@, i as int);
                }
                Some((is_nu, x, skip_ws(s, k + 1)))
            } else {
                None
            }
        },
        None => None,
    }
}


/// The view of the conjunction or disjunction of the formulas, or of the
/// formula itself when there is exactly one.
proof fn lemma_unwrap_one(items: Vec<MuCalc>, e: MuCalc, is_or: bool)
    requires
        items@.len() == 1 ==> e == items@[0],
        items@.len() != 1 && is_or ==> e == MuCalc::Or(items),
        items@.len() != 1 && !is_or ==> e == MuCalc::And(items),
    ensures
        mu_view(e) == unwrap_one(mu_views(items@), is_or),
{
    lemma_mu_views(items@);
}

fn and_of(items: Vec<MuCalc>) -> (r: MuCalc)
    ensures
        r == MuCalc::And(items),
{
    MuCalc::And(items)
}

fn or_of(items: Vec<MuCalc>) -> (r: MuCalc)
    ensures
        r == MuCalc::Or(items),
{
    MuCalc::Or(items)
}

fn fix_here(s: &Vec<char>, i: usize) -> (r: (MuCalc, usize))
    requires
        i <= s@.len(),
    ensures
        mu_view(r.0) == fix_at(s@, i as int).0,
        r.1 == fix_at(s@, i as int).1,
        i <= r.1 <= s@.len(),
    decreases s@.len() - i, 6int,
{
    match binder_here(s, i) {
        Some((nu, x, k)) => {
            let (e, k2) = fix_here(s, k);
            let v = Var(string_of(&x));
            if nu {
                (MuCalc::Nu(v, Box::new(e)), k2)
            } else {
                (MuCalc::Mu(v, Box::new(e)), k2)
            }
        },
        None => disj_here(s, i),
    }
}

fn disj_here(s: &Vec<char>, i: usize) -> (r: (MuCalc, usize))
    requires
        i <= s@.len(),
    ensures
        mu_view(r.0) == disj_at(s@, i as int).0,
        r.1 == disj_at(s@, i as int).1,
        i <= r.1 <= s@.len(),
    decreases s@.len() - i, 5int,
{
    let (items, k0) = conj_here(s, i);
    let ghost iv = items;
    let first = unwrap_one_or(items, and_of);
    proof {
        lemma_unwrap_one(iv, first, false);
    }
    let mut alts: Vec<MuCalc> = Vec::new();
    alts.push(first);
    proof {
        lemma_mu_views_push(Seq::empty(), first);
        assert(Seq::<MuCalc>::empty().push(first) =~= alts@);
        assert(mu_views(Seq::<MuCalc>::empty()) =~= Seq::<MuCalcV>::empty());
        assert(Seq::<MuCalcV>::empty().push(unwrap_one(mu_views(iv@), false)) =~= seq![
            unwrap_one(mu_views(iv@), false),
        ]);
    }
    let ghost target = disj_rest(s@, k0 as int, mu_views(alts@));
    let mut k = k0;
    let bars = ['|', '|'];
    proof {
        assert(bars@ =~= seq!['|', '|']);
    }
    let n = s.len();
    loop
        invariant
            i <= k <= s@.len(),
            n == s@.len(),
            bars@ == seq!['|', '|'],
            disj_rest(s@, k as int, mu_views(alts@)) == target,
        ensures
            i <= k <= s@.len(),
            target == (mu_views(alts@), k as int),
        decreases s@.len() - k,
    {
        let j = skip_ws(s, k);
        if lit_at(s, j, &bars) {
            let j2 = skip_ws(s, j + 2);
            let (items, k2) = conj_here(s, j2);
            let ghost iv = items;
            let e = unwrap_one_or(items, and_of);
            proof {
                lemma_unwrap_one(iv, e, false);
                lemma_mu_views_push(alts@, e);
            }
            alts.push(e);
            k = k2;
        } else {
            break;
        }
    }
    let ghost av = alts;
    let r = unwrap_one_or(alts, or_of);
    proof {
        lemma_unwrap_one(av, r, true);
    }
    (r, k)
}

fn conj_here(s: &Vec<char>, i: usize) -> (r: (Vec<MuCalc>, usize))
    requires
        i <= s@.len(),
    ensures
        mu_views(r.0@) == conj_at(s@, i as int).0,
        r.1 == conj_at(s@, i as int).1,
        i <= r.1 <= s@.len(),
    decreases s@.len() - i, 3int,
{
    match modal_here(s, i) {
        None => {
            let v: Vec<MuCalc> = Vec::new();
            proof {
                assert(mu_views(v@) =~= Seq::<MuCalcV>::empty());
            }
            (v, i)
        },
        Some((m, k0)) => {
            let mut acc: Vec<MuCalc> = Vec::new();
            acc.push(m);
            proof {
                lemma_mu_views_push(Seq::empty(), m);
                assert(Seq::<MuCalc>::empty().push(m) =~= acc@);
                assert(mu_views(Seq::<MuCalc>::empty()) =~= Seq::<MuCalcV>::empty());
                assert(Seq::<MuCalcV>::empty().push(mu_view(m)) =~= seq![mu_view(m)]);
            }
            let ghost target = conj_rest(s@, k0 as int, mu_views(acc@));
            let mut k = k0;
            let amps = ['&', '&'];
            proof {
                assert(amps@ =~= seq!['&', '&']);
            }
            let n = s.len();
            loop
                invariant
                    i <= k <= s@.len(),
                    n == s@.len(),
                    amps@ == seq!['&', '&'],
                    conj_rest(s@, k as int, mu_views(acc@)) == target,
                ensures
                    i <= k <= s@.len(),
                    target == (mu_views(acc@), k as int),
                decreases s@.len() - k,
            {
                let j = skip_ws(s, k);
                if lit_at(s, j, &amps) {
                    let j2 = skip_ws(s, j + 2);
                    match modal_here(s, j2) {
                        Some((m, k2)) => {
                            proof {
                                lemma_mu_views_push(acc@, m);
                            }
                            acc.push(m);
                            k = k2;
                        },
                        None => {
                            break;
                        },
                    }
                } else {
                    break;
                }
            }
            (acc, k)
        },
    }
}

fn modal_here(s: &Vec<char>, i: usize) -> (r: Option<(MuCalc, usize)>)
    requires
        i <= s@.len(),
    ensures
        match modal_at(s@, i as int) {
            Some((v, k)) => r is Some && mu_view((r->0).0) == v && (r->0).1 == k,
            None => r is None,
        },
        r is Some ==> i <= (r->0).1 <= s@.len(),
    decreases s@.len() - i, 1int,
{
    match prefix_here(s, i) {
        Some((is_box, a, k)) => match modal_here(s, k) {
            Some((e, k2)) => {
                if is_box {
                    Some((MuCalc::Box(a, Box::new(e)), k2))
                } else {
                    Some((MuCalc::Diamond(a, Box::new(e)), k2))
                }
            },
            None => None,
        },
        None => atom_here(s, i),
    }
}

fn atom_here(s: &Vec<char>, i: usize) -> (r: Option<(MuCalc, usize)>)
    requires
        i <= s@.len(),
    ensures
        match atom_at(s@, i as int) {
            Some((v, k)) => r is Some && mu_view((r->0).0) == v && (r->0).1 == k,
            None => r is None,
        },
        r is Some ==> i <= (r->0).1 <= s@.len(),
    decreases s@.len() - i, 0int,
{
    let j = skip_ws(s, i);
    let tt = ['t', 'r', 'u', 'e'];
    let ff = ['f', 'a', 'l', 's', 'e'];
    proof {
        assert(tt@ =~= seq!['t', 'r', 'u', 'e']);
        assert(ff@ =~= seq!['f', 'a', 'l', 's', 'e']);
        assert(mu_views(Seq::<MuCalc>::empty()) =~= Seq::<MuCalcV>::empty());
    }
    if let Some(e) = keyword_here(s, j, &tt) {
        let v: Vec<MuCalc> = Vec::new();
        proof {
            assert(v@ =~= Seq::<MuCalc>::empty());
        }
        return Some((MuCalc::And(v), skip_ws(s, e)));
    }
    if let Some(e) = keyword_here(s, j, &ff) {
        let v: Vec<MuCalc> = Vec::new();
        proof {
            assert(v@ =~= Seq::<MuCalc>::empty());
        }
        return Some((MuCalc::Or(v), skip_ws(s, e)));
    }
    if j < s.len() && s[j] == '(' {
        let (e, k) = fix_here(s, j + 1);
        if k < s.len() && s[k] == ')' {
            Some((e, skip_ws(s, k + 1)))
        } else {
            None
        }
    } else {
        match ident_here(s, j) {
            Some((x, e)) => Some((MuCalc::Var(Var(string_of(&x))), skip_ws(s, e))),
            None => None,
        }
    }
}

/// Parses a mu-calculus formula; the whole text must be the formula.
pub fn parse_mucalc(source: &str) -> (r: Result<MuCalc, MuCalcError>)
    ensures
        match spec_parse_mucalc(source@) {
            Ok(v) => r is Ok && mu_view(r->Ok_0) == v,
            Err(p) => r is Err && r->Err_0.pos == p,
        },
{
    let s = chars_of(source);
    let (e, k) = fix_here(&s, 0);
    if k == s.len() {
        Ok(e)
    } else {
        Err(MuCalcError { pos: k })
    }
}

} // verus!
