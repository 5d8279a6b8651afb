//! The PGSolver text format of parity games.
//!
//! ```text
//! game    := "parity" number ";" newline rows
//! rows    := (row ";" (newline row ";")*)?
//! row     := number number ("0" | "1") (number ("," number)*)? comment
//! comment := any text up to the next ";"
//! ```
//!
//! Numbers may be surrounded by white space; a number with more than one
//! digit does not start with `0`, and reading one too large for `usize`
//! aborts. A repetition stops before an item that does not fit, and what
//! follows the last row is not read.
use vstd::prelude::*;

use crate::parity::{node_view, nodes_view, Node, NodeV, ParityGame};
use crate::solver::strategy::Player;
use crate::text::{
    chars_of, digits_value, has_lit, is_digit, lit_at, parse_usize, parse_usize_of, skip_ws,
    slice, unsigned_part, ws_end,
};

verus! {

/// The outcome of reading at a position: a value and the position after it,
/// a failure, or a number too large, which aborts the whole reading.
pub enum Scan<T> {
    Read(T, int),
    Fail,
    Panic,
}

/// The position after the decimal digits starting at `i`.
pub open spec fn digits_end(s: Seq<char>, i: int) -> int
    decreases s.len() - i,
{
    if 0 <= i < s.len() && is_digit(s[i]) {
        digits_end(s, i + 1)
    } else {
        i
    }
}

/// The unsigned integer at `i`: `0`, or a nonzero digit and all the digits
/// after it; its value and the position after it.
pub open spec fn int_at(s: Seq<char>, i: int) -> Option<(nat, int)> {
    if 0 <= i < s.len() && '1' <= s[i] && s[i] <= '9' {
        let e = digits_end(s, i + 1);
        Some((digits_value(s.subrange(i, e)), e))
    } else if 0 <= i < s.len() && s[i] == '0' {
        Some((0, i + 1))
    } else {
        None
    }
}

/// A number surrounded by white space.
pub open spec fn number_at(s: Seq<char>, i: int) -> Scan<usize> {
    match int_at(s, ws_end(s, i)) {
        None => Scan::Fail,
        Some((v, e)) => if v > usize::MAX {
            Scan::Panic
        } else {
            Scan::Read(v as usize, ws_end(s, e))
        },
    }
}

/// The position after a line break at `i`.
pub open spec fn newline_at(s: Seq<char>, i: int) -> Option<int> {
    if 0 <= i && i + 1 < s.len() && s[i] == '\r' && s[i + 1] == '\n' {
        Some(i + 2)
    } else if 0 <= i < s.len() && (s[i] == '\n' || s[i] == '\r' || s[i] == '\u{0B}' || s[i]
        == '\u{0C}' || s[i] == '\u{85}' || s[i] == '\u{2028}' || s[i] == '\u{2029}') {
        Some(i + 1)
    } else {
        None
    }
}

/// The position of the first `;` from `i`, or the end.
pub open spec fn comment_end(s: Seq<char>, i: int) -> int
    decreases s.len() - i,
{
    if 0 <= i < s.len() && s[i] != ';' {
        comment_end(s, i + 1)
    } else {
        i
    }
}

pub proof fn lemma_ends(s: Seq<char>, i: int)
    requires
        0 <= i <= s.len(),
    ensures
        i <= ws_end(s, i) <= s.len(),
        i <= digits_end(s, i) <= s.len(),
        i <= comment_end(s, i) <= s.len(),
    decreases s.len() - i,
{
    if i < s.len() {
        lemma_ends(s, i + 1);
    }
}

pub proof fn lemma_number_at(s: Seq<char>, i: int)
    requires
        0 <= i <= s.len(),
    ensures
        number_at(s, i) matches Scan::Read(_, k) ==> i < k <= s.len(),
{
    lemma_ends(s, i);
    let j = ws_end(s, i);
    if 0 <= j < s.len() {
        lemma_ends(s, j + 1);
        let e = digits_end(s, j + 1);
        lemma_ends(s, e);
        lemma_ends(s, j + 1);
    }
}

/// The successors after the first, appended to `acc`.
pub open spec fn successors_rest(s: Seq<char>, k: int, acc: Seq<usize>) -> Scan<Seq<usize>>
    decreases s.len() - k,
    when 0 <= k <= s.len()
{
    let j = ws_end(s, k);
    proof {
        lemma_ends(s, k);
    }
    if 0 <= j < s.len() && s[j] == ',' {
        proof {
            lemma_number_at(s, j + 1);
        }
        match number_at(s, j + 1) {
            Scan::Read(v, k2) => successors_rest(s, k2, acc.push(v)),
            Scan::Fail => Scan::Read(acc, k),
            Scan::Panic => Scan::Panic,
        }
    } else {
        Scan::Read(acc, k)
    }
}

/// The successors of a node: numbers separated by commas, maybe none.
pub open spec fn successors_at(s: Seq<char>, i: int) -> Scan<Seq<usize>> {
    match number_at(s, i) {
        Scan::Read(v, k) => successors_rest(s, k, seq![v]),
        Scan::Fail => Scan::Read(Seq::empty(), i),
        Scan::Panic => Scan::Panic,
    }
}

/// A row, up to its closing `;`.
pub open spec fn row_at(s: Seq<char>, i: int) -> Scan<NodeV> {
    match number_at(s, i) {
        Scan::Fail => Scan::Fail,
        Scan::Panic => Scan::Panic,
        Scan::Read(id, k1) => match number_at(s, k1) {
            Scan::Fail => Scan::Fail,
            Scan::Panic => Scan::Panic,
            Scan::Read(relevance, k2) => if 0 <= k2 < s.len() && (s[k2] == '0' || s[k2] == '1') {
                let player = if s[k2] == '0' {
                    Player::P0
                } else {
                    Player::P1
                };
                match successors_at(s, k2 + 1) {
                    Scan::Read(successors, k3) => Scan::Read(
                        NodeV { id, relevance, player, successors },
                        comment_end(s, k3),
                    ),
                    Scan::Fail => Scan::Fail,
                    Scan::Panic => Scan::Panic,
                }
            } else {
                Scan::Fail
            },
        },
    }
}

/// A row and its `;`.
pub open spec fn row_semi_at(s: Seq<char>, i: int) -> Scan<NodeV> {
    match row_at(s, i) {
        Scan::Read(n, k) => if 0 <= k < s.len() && s[k] == ';' {
            Scan::Read(n, k + 1)
        } else {
            Scan::Fail
        },
        Scan::Fail => Scan::Fail,
        Scan::Panic => Scan::Panic,
    }
}

pub proof fn lemma_successors_rest(s: Seq<char>, k: int, acc: Seq<usize>)
    requires
        0 <= k <= s.len(),
    ensures
        successors_rest(s, k, acc) matches Scan::Read(_, e) ==> k <= e <= s.len(),
    decreases s.len() - k,
{
    lemma_ends(s, k);
    let j = ws_end(s, k);
    if 0 <= j < s.len() && s[j] == ',' {
        lemma_number_at(s, j + 1);
        if let Scan::Read(v, k2) = number_at(s, j + 1) {
            lemma_successors_rest(s, k2, acc.push(v));
        }
    }
}

pub proof fn lemma_row_semi_at(s: Seq<char>, i: int)
    requires
        0 <= i <= s.len(),
    ensures
        row_semi_at(s, i) matches Scan::Read(_, k) ==> i < k <= s.len(),
{
    lemma_number_at(s, i);
    if let Scan::Read(_, k1) = number_at(s, i) {
        lemma_number_at(s, k1);
        if let Scan::Read(_, k2) = number_at(s, k1) {
            if 0 <= k2 < s.len() {
                lemma_number_at(s, k2 + 1);
                if let Scan::Read(v, k) = number_at(s, k2 + 1) {
                    lemma_successors_rest(s, k, seq![v]);
                }
                if let Scan::Read(_, k3) = successors_at(s, k2 + 1) {
                    lemma_ends(s, k3);
                }
            }
        }
    }
}

/// The rows after the first, appended to `acc`.
pub open spec fn rows_rest(s: Seq<char>, k: int, acc: Seq<NodeV>) -> Scan<Seq<NodeV>>
    decreases s.len() - k,
    when 0 <= k <= s.len()
{
    match newline_at(s, k) {
        None => Scan::Read(acc, k),
        Some(k1) => {
            proof {
                lemma_row_semi_at(s, k1);
            }
            match row_semi_at(s, k1) {
                Scan::Read(n, k2) => rows_rest(s, k2, acc.push(n)),
                Scan::Fail => Scan::Read(acc, k),
                Scan::Panic => Scan::Panic,
            }
        },
    }
}

/// The rows, one per line, maybe none.
pub open spec fn rows_at(s: Seq<char>, i: int) -> Scan<Seq<NodeV>> {
    match row_semi_at(s, i) {
        Scan::Read(n, k) => rows_rest(s, k, seq![n]),
        Scan::Fail => Scan::Read(Seq::empty(), i),
        Scan::Panic => Scan::Panic,
    }
}

/// The header `parity n;` and its line break.
pub open spec fn header_at(s: Seq<char>) -> Scan<()> {
    let j = ws_end(s, 0);
    if has_lit(s, j, seq!['p', 'a', 'r', 'i', 't', 'y']) {
        match number_at(s, j + 6) {
            Scan::Read(_, k) => if 0 <= k < s.len() && s[k] == ';' {
                match newline_at(s, k + 1) {
                    Some(e) => Scan::Read((), e),
                    None => Scan::Fail,
                }
            } else {
                Scan::Fail
            },
            Scan::Fail => Scan::Fail,
            Scan::Panic => Scan::Panic,
        }
    } else {
        Scan::Fail
    }
}

/// The nodes of the game that a text describes: `Fail` when its header is
/// wrong, `Panic` when a number read is too large.
pub open spec fn spec_parse_parity_game(s: Seq<char>) -> Scan<Seq<NodeV>> {
    match header_at(s) {
        Scan::Read(_, k) => rows_at(s, k),
        Scan::Fail => Scan::Fail,
        Scan::Panic => Scan::Panic,
    }
}


/// Why a text is not a parity game: its header is not `parity n;` and a
/// line break.
#[derive(Clone, Copy, Debug, PartialEq, Eq, Structural)]
pub enum ParityError {
    BadHeader,
}

/// The outcome of reading at a position.
enum Step<T> {
    Read(T, usize),
    Fail,
    Overflow,
}

fn scan_digits(s: &Vec<char>, i: usize) -> (r: usize)
    requires
        i <= s@.len(),
    ensures
        r == digits_end(s@, i as int),
        i <= r <= s@.len(),
{
    let mut j = i;
    while j < s.len() && '0' <= s[j] && s[j] <= '9'
        invariant
            i <= j <= s@.len(),
            digits_end(s@, j as int) == digits_end(s@, i as int),
        decreases s@.len() - j,
    {
        j = j + 1;
    }
    j
}

proof fn lemma_digits_end_digits(s: Seq<char>, i: int)
    requires
        0 <= i <= s.len(),
    ensures
        forall|j: int| i <= j < digits_end(s, i) ==> is_digit(#[trigger] s[j]),
        i <= digits_end(s, i) <= s.len(),
    decreases s.len() - i,
{
    if 0 <= i < s.len() && is_digit(s[i]) {
        lemma_digits_end_digits(s, i + 1);
    }
}

fn number_here(s: &Vec<char>, i: usize) -> (r: Step<usize>)
    requires
        i <= s@.len(),
    ensures
        match number_at(s@, i as int) {
            Scan::Read(v, k) => r matches Step::Read(v2, k2) && v2 == v && k2 == k,
            Scan::Fail => r is Fail,
            Scan::Panic => r is Overflow,
        },
        r matches Step::Read(_, k) ==> i < k <= s@.len(),
{
    let j = skip_ws(s, i);
    proof {
        lemma_number_at(s@, i as int);
    }
    if j < s.len() && '1' <= s[j] && s[j] <= '9' {
        let e = scan_digits(s, j + 1);
        let digits = slice(s, j, e);
        proof {
            lemma_digits_end_digits(s@, j + 1);
            assert(unsigned_part(digits@) == digits@);
            assert forall|m: int| 0 <= m < digits@.len() implies is_digit(#[trigger] digits@[m]) by {
                assert(digits@[m] == s@[j + m]);
            }
        }
        match parse_usize_of(&digits) {
            Some(v) => Step::Read(v, skip_ws(s, e)),
            None => Step::Overflow,
        }
    } else if j < s.len() && s[j] == '0' {
        Step::Read(0, skip_ws(s, j + 1))
    } else {
        Step::Fail
    }
}

fn newline_here(s: &Vec<char>, i: usize) -> (r: Option<usize>)
    requires
        i <= s@.len(),
    ensures
        match newline_at(s@, i as int) {
            Some(k) => r is Some && r->0 == k,
            None => r is None,
        },
        r is Some ==> i < r->0 <= s@.len(),
{
    if i < s.len() && s[i] == '\r' && i + 1 < s.len() && s[i + 1] == '\n' {
        Some(i + 2)
    } else if i < s.len() && (s[i] == '\n' || s[i] == '\r' || s[i] == '\u{0B}' || s[i] == '\u{0C}'
        || s[i] == '\u{85}' || s[i] == '\u{2028}' || s[i] == '\u{2029}') {
        Some(i + 1)
    } else {
        None
    }
}

fn scan_comment(s: &Vec<char>, i: usize) -> (r: usize)
    requires
        i <= s@.len(),
    ensures
        r == comment_end(s@, i as int),
        i <= r <= s@.len(),
{
    let mut j = i;
    while j < s.len() && s[j] != ';'
        invariant
            i <= j <= s@.len(),
            comment_end(s@, j as int) == comment_end(s@, i as int),
        decreases s@.len() - j,
    {
        j = j + 1;
    }
    j
}

fn successors_here(s: &Vec<char>, i: usize) -> (r: Step<Vec<usize>>)
    requires
        i <= s@.len(),
    ensures
        match successors_at(s@, i as int) {
            Scan::Read(v, k) => r matches Step::Read(v2, k2) && v2@ == v && k2 == k,
            Scan::Fail => r is Fail,
            Scan::Panic => r is Overflow,
        },
        r matches Step::Read(_, k) ==> i <= k <= s@.len(),
{
    let (first, k0) = match number_here(s, i) {
        Step::Read(v, k) => (v, k),
        Step::Fail => {
            return Step::Read(Vec::new(), i);
        },
        Step::Overflow => {
            return Step::Overflow;
        },
    };
    let mut acc: Vec<usize> = Vec::new();
    acc.push(first);
    proof {
        assert(acc@ =~= seq![first]);
    }
    let ghost target = successors_rest(s@, k0 as int, acc@);
    let mut k = k0;
    loop
        invariant
            i <= k <= s@.len(),
            successors_rest(s@, k as int, acc@) == target,
            target == successors_at(s@, i as int),
        ensures
            i <= k <= s@.len(),
            target == Scan::Read(acc@, k as int),
        decreases s@.len() - k,
    {
        let j = skip_ws(s, k);
        if j < s.len() && s[j] == ',' {
            match number_here(s, j + 1) {
                Step::Read(v, k2) => {
                    acc.push(v);
                    k = k2;
                },
                Step::Fail => {
                    break;
                },
                Step::Overflow => {
                    proof {
                        assert(successors_rest(s@, k as int, acc@) == Scan::<Seq<usize>>::Panic);
                    }
                    return Step::Overflow;
                },
            }
        } else {
            break;
        }
    }
    Step::Read(acc, k)
}

fn row_here(s: &Vec<char>, i: usize) -> (r: Step<Node>)
    requires
        i <= s@.len(),
    ensures
        match row_at(s@, i as int) {
            Scan::Read(v, k) => r matches Step::Read(n, k2) && node_view(n) == v && k2 == k,
            Scan::Fail => r is Fail,
            Scan::Panic => r is Overflow,
        },
        r matches Step::Read(_, k) ==> i <= k <= s@.len(),
{
    let (id, k1) = match number_here(s, i) {
        Step::Read(v, k) => (v, k),
        Step::Fail => {
            return Step::Fail;
        },
        Step::Overflow => {
            return Step::Overflow;
        },
    };
    let (relevance, k2) = match number_here(s, k1) {
        Step::Read(v, k) => (v, k),
        Step::Fail => {
            return Step::Fail;
        },
        Step::Overflow => {
            return Step::Overflow;
        },
    };
    if !(k2 < s.len() && (s[k2] == '0' || s[k2] == '1')) {
        return Step::Fail;
    }
    let player = if s[k2] == '0' {
        Player::P0
    } else {
        Player::P1
    };
    match successors_here(s, k2 + 1) {
        Step::Read(successors, k3) => {
            let e = scan_comment(s, k3);
            Step::Read(Node { id, relevance, player, successors }, e)
        },
        Step::Fail => Step::Fail,
        Step::Overflow => Step::Overflow,
    }
}

fn row_semi_here(s: &Vec<char>, i: usize) -> (r: Step<Node>)
    requires
        i <= s@.len(),
    ensures
        match row_semi_at(s@, i as int) {
            Scan::Read(v, k) => r matches Step::Read(n, k2) && node_view(n) == v && k2 == k,
            Scan::Fail => r is Fail,
            Scan::Panic => r is Overflow,
        },
        r matches Step::Read(_, k) ==> i < k <= s@.len(),
{
    proof {
        lemma_row_semi_at(s@, i as int);
    }
    match row_here(s, i) {
        Step::Read(n, k) => {
            if k < s.len() && s[k] == ';' {
                Step::Read(n, k + 1)
            } else {
                Step::Fail
            }
        },
        Step::Fail => Step::Fail,
        Step::Overflow => Step::Overflow,
    }
}

fn rows_here(s: &Vec<char>, i: usize) -> (r: Step<Vec<Node>>)
    requires
        i <= s@.len(),
    ensures
        match rows_at(s@, i as int) {
            Scan::Read(v, _) => r matches Step::Read(ns, _) && nodes_view(ns@) == v,
            Scan::Fail => r is Fail,
            Scan::Panic => r is Overflow,
        },
{
    let (first, k0) = match row_semi_here(s, i) {
        Step::Read(n, k) => (n, k),
        Step::Fail => {
            let v: Vec<Node> = Vec::new();
            proof {
                assert(nodes_view(v@) =~= Seq::<NodeV>::empty());
            }
            return Step::Read(v, i);
        },
        Step::Overflow => {
            return Step::Overflow;
        },
    };
    let mut acc: Vec<Node> = Vec::new();
    let ghost fv = node_view(first);
    acc.push(first);
    proof {
        assert(nodes_view(acc@) =~= seq![fv]);
    }
    let ghost target = rows_rest(s@, k0 as int, nodes_view(acc@));
    let mut k = k0;
    loop
        invariant
            i <= k <= s@.len(),
            rows_rest(s@, k as int, nodes_view(acc@)) == target,
            target == rows_at(s@, i as int),
        ensures
            i <= k <= s@.len(),
            target == Scan::Read(nodes_view(acc@), k as int),
        decreases s@.len() - k,
    {
        match newline_here(s, k) {
            None => {
                break;
            },
            Some(k1) => {
                match row_semi_here(s, k1) {
                    Step::Read(n, k2) => {
                        let ghost before = nodes_view(acc@);
                        let ghost nv = node_view(n);
                        acc.push(n);
                        proof {
                            assert(nodes_view(acc@) =~= before.push(nv));
                        }
                        k = k2;
                    },
                    Step::Fail => {
                        break;
                    },
                    Step::Overflow => {
                        proof {
                            assert(rows_rest(s@, k as int, nodes_view(acc@)) == Scan::<Seq<NodeV>>::Panic);
                        }
                        return Step::Overflow;
                    },
                }
            },
        }
    }
    Step::Read(acc, k)
}

fn header_here(s: &Vec<char>) -> (r: Step<()>)
    ensures
        match header_at(s@) {
            Scan::Read(_, k) => r matches Step::Read(_, k2) && k2 == k,
            Scan::Fail => r is Fail,
            Scan::Panic => r is Overflow,
        },
        r matches Step::Read(_, k) ==> k <= s@.len(),
{
    let j = skip_ws(s, 0);
    let kw = ['p', 'a', 'r', 'i', 't', 'y'];
    let n = s.len();
    proof {
        assert(kw@ =~= seq!['p', 'a', 'r', 'i', 't', 'y']);
    }
    if !lit_at(s, j, &kw) {
        return Step::Fail;
    }
    match number_here(s, j + 6) {
        Step::Read(_, k) => {
            if k < s.len() && s[k] == ';' {
                match newline_here(s, k + 1) {
                    Some(e) => Step::Read((), e),
                    None => Step::Fail,
                }
            } else {
                Step::Fail
            }
        },
        Step::Fail => Step::Fail,
        Step::Overflow => Step::Overflow,
    }
}

/// Reads a parity game, or `None` where reading it would meet a number too
/// large for `usize`.
pub fn try_parse_parity_game(source: &str) -> (r: Option<Result<ParityGame, ParityError>>)
    ensures
        match spec_parse_parity_game(source@) {
            Scan::Read(v, _) => r matches Some(Ok(g)) && nodes_view(g.nodes@) == v,
            Scan::Fail => r == Some(Err::<ParityGame, ParityError>(ParityError::BadHeader)),
            Scan::Panic => r is None,
        },
{
    let s = chars_of(source);
    match header_here(&s) {
        Step::Read(_, k) => match rows_here(&s, k) {
            Step::Read(nodes, _) => Some(Ok(ParityGame { nodes })),
            Step::Fail => Some(Err(ParityError::BadHeader)),
            Step::Overflow => None,
        },
        Step::Fail => Some(Err(ParityError::BadHeader)),
        Step::Overflow => None,
    }
}

/// Reads a parity game in the PGSolver format.
pub fn parse_parity_game(source: &str) -> (r: Result<ParityGame, ParityError>)
    requires
        !(spec_parse_parity_game(source@) is Panic),
    ensures
        match spec_parse_parity_game(source@) {
            Scan::Read(v, _) => r matches Ok(g) && nodes_view(g.nodes@) == v,
            _ => r == Err::<ParityGame, ParityError>(ParityError::BadHeader),
        },
{
    match try_parse_parity_game(source) {
        Some(r) => r,
        None => Err(ParityError::BadHeader),
    }
}

} // verus!
