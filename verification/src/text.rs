//! Text handling on sequences of characters: lines, trimming, prefixes,
//! splitting and decimal numbers, as `str` does them.
use vstd::prelude::*;
use vstd::std_specs::iter::IteratorSpec;

verus! {

/// Unicode White_Space, which `char::is_whitespace` tests.
pub open spec fn is_ws(c: char) -> bool {
    ||| c == '\t'
    ||| c == '\n'
    ||| c == '\u{0B}'
    ||| c == '\u{0C}'
    ||| c == '\r'
    ||| c == ' '
    ||| c == '\u{85}'
    ||| c == '\u{A0}'
    ||| c == '\u{1680}'
    ||| ('\u{2000}' <= c && c <= '\u{200A}')
    ||| c == '\u{2028}'
    ||| c == '\u{2029}'
    ||| c == '\u{202F}'
    ||| c == '\u{205F}'
    ||| c == '\u{3000}'
}

/// Tests for Unicode White_Space.
pub fn is_whitespace(c: char) -> (r: bool)
    ensures
        r == is_ws(c),
{
    c == '\t' || c == '\n' || c == '\u{0B}' || c == '\u{0C}' || c == '\r' || c == ' ' || c
        == '\u{85}' || c == '\u{A0}' || c == '\u{1680}' || ('\u{2000}' <= c && c <= '\u{200A}')
        || c == '\u{2028}' || c == '\u{2029}' || c == '\u{202F}' || c == '\u{205F}' || c
        == '\u{3000}'
}

/// `s` without its leading white space.
pub open spec fn trim_start(s: Seq<char>) -> Seq<char>
    decreases s.len(),
{
    if s.len() > 0 && is_ws(s[0]) {
        trim_start(s.drop_first())
    } else {
        s
    }
}

/// `s` without its trailing white space.
pub open spec fn trim_end(s: Seq<char>) -> Seq<char>
    decreases s.len(),
{
    if s.len() > 0 && is_ws(s.last()) {
        trim_end(s.drop_last())
    } else {
        s
    }
}

/// `s` without leading and trailing white space.
pub open spec fn trim(s: Seq<char>) -> Seq<char> {
    trim_end(trim_start(s))
}

/// `s` without the prefix `p`, if it starts with it.
pub open spec fn strip_prefix(s: Seq<char>, p: Seq<char>) -> Option<Seq<char>> {
    if p.is_prefix_of(s) {
        Some(s.skip(p.len() as int))
    } else {
        None
    }
}

/// `s` without the suffix `p`, if it ends with it.
pub open spec fn strip_suffix(s: Seq<char>, p: Seq<char>) -> Option<Seq<char>> {
    if p.is_suffix_of(s) {
        Some(s.take(s.len() - p.len()))
    } else {
        None
    }
}

/// The position of the first `c` in `s`.
pub open spec fn find(s: Seq<char>, c: char) -> Option<int>
    decreases s.len(),
{
    if s.len() == 0 {
        None
    } else if s[0] == c {
        Some(0)
    } else {
        match find(s.drop_first(), c) {
            Some(i) => Some(i + 1),
            None => None,
        }
    }
}

/// `s` split at its first `c`, which is dropped.
pub open spec fn split_once(s: Seq<char>, c: char) -> Option<(Seq<char>, Seq<char>)> {
    match find(s, c) {
        Some(i) => Some((s.take(i), s.skip(i + 1))),
        None => None,
    }
}

/// A line without the carriage return of a `\r\n` ending.
pub open spec fn strip_cr(l: Seq<char>) -> Seq<char> {
    if l.len() > 0 && l.last() == '\r' {
        l.drop_last()
    } else {
        l
    }
}

/// The lines of `s`, as `str::lines` gives them: ended by `\n` or `\r\n`,
/// the last line ending being optional.
pub open spec fn lines(s: Seq<char>) -> Seq<Seq<char>>
    decreases s.len(),
{
    if s.len() == 0 {
        Seq::empty()
    } else {
        match find(s, '\n') {
            Some(i) => {
                proof {
                    lemma_find_bound(s, '\n');
                }
                seq![strip_cr(s.take(i))] + lines(s.skip(i + 1))
            },
            None => seq![s],
        }
    }
}

pub open spec fn is_digit(c: char) -> bool {
    '0' <= c && c <= '9'
}

/// The value of a sequence of decimal digits.
pub open spec fn digits_value(s: Seq<char>) -> nat
    decreases s.len(),
{
    if s.len() == 0 {
        0
    } else {
        digits_value(s.drop_last()) * 10 + ((s.last() as int) - ('0' as int)) as nat
    }
}

/// `s` without a leading `+`.
pub open spec fn unsigned_part(s: Seq<char>) -> Seq<char> {
    if s.len() > 0 && s[0] == '+' {
        s.drop_first()
    } else {
        s
    }
}

/// The number that `str::parse::<usize>` reads: an optional `+`, then at
/// least one decimal digit, with a value that fits in `usize`.
pub open spec fn parse_usize(s: Seq<char>) -> Option<usize> {
    let t = unsigned_part(s);
    if t.len() > 0 && (forall|i: int| 0 <= i < t.len() ==> is_digit(#[trigger] t[i]))
        && digits_value(t) <= usize::MAX {
        Some(digits_value(t) as usize)
    } else {
        None
    }
}

/// The characters of a string.
pub fn chars_of(s: &str) -> (r: Vec<char>)
    ensures
        r@ == s@,
{
    broadcast use vstd::string::group_string_axioms;

    let mut r: Vec<char> = Vec::new();
    for c in it: s.chars()
        invariant
            r@.len() == it.index(),
            forall|j: int| 0 <= j < r@.len() ==> r@[j] == it.seq()[j],
    {
        r.push(c);
    }
    proof {
        assert(r@ =~= s@);
    }
    r
}

/// The characters `s[lo..hi]`.
pub fn slice(s: &Vec<char>, lo: usize, hi: usize) -> (r: Vec<char>)
    requires
        lo <= hi <= s@.len(),
    ensures
        r@ == s@.subrange(lo as int, hi as int),
{
    let mut r: Vec<char> = Vec::new();
    let mut i = lo;
    while i < hi
        invariant
            lo <= i <= hi,
            hi <= s@.len(),
            r@ == s@.subrange(lo as int, i as int),
        decreases hi - i,
    {
        r.push(s[i]);
        i = i + 1;
        proof {
            assert(r@ =~= s@.subrange(lo as int, i as int));
        }
    }
    r
}

proof fn lemma_trim_start_skip(s: Seq<char>, i: int)
    requires
        0 <= i <= s.len(),
        forall|j: int| 0 <= j < i ==> is_ws(#[trigger] s[j]),
    ensures
        trim_start(s) == trim_start(s.skip(i)),
    decreases i,
{
    if i > 0 {
        assert(s.drop_first().skip(i - 1) =~= s.skip(i));
        lemma_trim_start_skip(s.drop_first(), i - 1);
    } else {
        assert(s.skip(0) =~= s);
    }
}

proof fn lemma_trim_end_take(s: Seq<char>, i: int)
    requires
        0 <= i <= s.len(),
        forall|j: int| i <= j < s.len() ==> is_ws(#[trigger] s[j]),
    ensures
        trim_end(s) == trim_end(s.take(i)),
    decreases s.len() - i,
{
    if i < s.len() {
        assert(s.drop_last().take(i) =~= s.take(i));
        lemma_trim_end_take(s.drop_last(), i);
    } else {
        assert(s.take(i) =~= s);
    }
}

/// `s` without leading white space.
pub fn trim_start_of(s: &Vec<char>) -> (r: Vec<char>)
    ensures
        r@ == trim_start(s@),
{
    let mut i: usize = 0;
    while i < s.len() && is_whitespace(s[i])
        invariant
            i <= s@.len(),
            forall|j: int| 0 <= j < i ==> is_ws(#[trigger] s@[j]),
        decreases s.len() - i,
    {
        i = i + 1;
    }
    proof {
        lemma_trim_start_skip(s@, i as int);
        assert(s@.skip(i as int) =~= s@.subrange(i as int, s@.len() as int));
    }
    slice(s, i, s.len())
}

/// `s` without trailing white space.
pub fn trim_end_of(s: &Vec<char>) -> (r: Vec<char>)
    ensures
        r@ == trim_end(s@),
{
    let mut i: usize = s.len();
    while i > 0 && is_whitespace(s[i - 1])
        invariant
            i <= s@.len(),
            forall|j: int| i <= j < s@.len() ==> is_ws(#[trigger] s@[j]),
        decreases i,
    {
        i = i - 1;
    }
    proof {
        lemma_trim_end_take(s@, i as int);
        assert(s@.take(i as int) =~= s@.subrange(0, i as int));
        let t = s@.take(i as int);
        if t.len() > 0 {
            assert(t.last() == s@[i - 1]);
        }
    }
    slice(s, 0, i)
}

/// `s` without leading and trailing white space.
pub fn trim_of(s: &Vec<char>) -> (r: Vec<char>)
    ensures
        r@ == trim(s@),
{
    let t = trim_start_of(s);
    trim_end_of(&t)
}

/// `s` without the prefix `p`, if it starts with it.
pub fn strip_prefix_of(s: &Vec<char>, p: &str) -> (r: Option<Vec<char>>)
    ensures
        r matches Some(v) ==> strip_prefix(s@, p@) == Some(v@),
        r is None ==> strip_prefix(s@, p@) is None,
{
    let pv = chars_of(p);
    if pv.len() > s.len() {
        return None;
    }
    let mut i: usize = 0;
    while i < pv.len()
        invariant
            i <= pv@.len(),
            pv@.len() <= s@.len(),
            pv@ == p@,
            forall|j: int| 0 <= j < i ==> pv@[j] == s@[j],
        decreases pv.len() - i,
    {
        if pv[i] != s[i] {
            return None;
        }
        i = i + 1;
    }
    let r = slice(s, pv.len(), s.len());
    proof {
        assert(s@.skip(pv@.len() as int) =~= r@);
    }
    Some(r)
}

/// `s` without the suffix `p`, if it ends with it.
pub fn strip_suffix_of(s: &Vec<char>, p: &str) -> (r: Option<Vec<char>>)
    ensures
        r matches Some(v) ==> strip_suffix(s@, p@) == Some(v@),
        r is None ==> strip_suffix(s@, p@) is None,
{
    let pv = chars_of(p);
    if pv.len() > s.len() {
        return None;
    }
    let off = s.len() - pv.len();
    let mut k: usize = off;
    while k < s.len()
        invariant
            off <= k <= s@.len(),
            off + pv@.len() == s@.len(),
            pv@ == p@,
            forall|j: int| 0 <= j < k - off ==> pv@[j] == s@[off + j],
        decreases s.len() - k,
    {
        if pv[k - off] != s[k] {
            return None;
        }
        k = k + 1;
    }
    let r = slice(s, 0, off);
    proof {
        assert(s@.take(off as int) =~= r@);
    }
    Some(r)
}

proof fn lemma_find_at(s: Seq<char>, c: char, i: int)
    requires
        0 <= i <= s.len(),
        forall|j: int| 0 <= j < i ==> s[j] != c,
    ensures
        i < s.len() && s[i] == c ==> find(s, c) == Some(i),
        i == s.len() ==> find(s, c) is None,
    decreases i,
{
    if i > 0 {
        lemma_find_at(s.drop_first(), c, i - 1);
    }
}

/// The position of the first `c` in `s`.
pub fn find_char(s: &Vec<char>, c: char) -> (r: Option<usize>)
    ensures
        r matches Some(i) ==> find(s@, c) == Some(i as int),
        r is None ==> find(s@, c) is None,
{
    let mut i: usize = 0;
    while i < s.len()
        invariant
            i <= s@.len(),
            forall|j: int| 0 <= j < i ==> s@[j] != c,
        decreases s.len() - i,
    {
        if s[i] == c {
            proof {
                lemma_find_at(s@, c, i as int);
            }
            return Some(i);
        }
        i = i + 1;
    }
    proof {
        lemma_find_at(s@, c, i as int);
    }
    None
}

/// `s` split at its first `c`, which is dropped.
pub fn split_once_of(s: &Vec<char>, c: char) -> (r: Option<(Vec<char>, Vec<char>)>)
    ensures
        r matches Some((a, b)) ==> split_once(s@, c) == Some((a@, b@)),
        r is None ==> split_once(s@, c) is None,
{
    let n = s.len();
    match find_char(s, c) {
        Some(i) => {
            proof {
                lemma_find_bound(s@, c);
            }
            let a = slice(s, 0, i);
            let b = slice(s, i + 1, n);
            proof {
                assert(a@ =~= s@.take(i as int));
                assert(b@ =~= s@.skip(i + 1));
            }
            Some((a, b))
        },
        None => None,
    }
}

pub proof fn lemma_find_bound(s: Seq<char>, c: char)
    ensures
        find(s, c) matches Some(i) ==> 0 <= i < s.len() && s[i] == c,
    decreases s.len(),
{
    if s.len() > 0 {
        lemma_find_bound(s.drop_first(), c);
    }
}

/// The lines of `s`, as `str::lines` gives them.
pub fn lines_of(s: &Vec<char>) -> (r: Vec<Vec<char>>)
    ensures
        r@.map_values(|l: Vec<char>| l@) == lines(s@),
{
    let mut out: Vec<Vec<char>> = Vec::new();
    let mut rest = slice(s, 0, s.len());
    proof {
        assert(rest@ =~= s@);
    }
    while rest.len() > 0
        invariant
            out@.map_values(|l: Vec<char>| l@) + lines(rest@) == lines(s@),
        decreases rest@.len(),
    {
        let ghost r0 = rest@;
        match find_char(&rest, '\n') {
            Some(i) => {
                proof {
                    lemma_find_bound(rest@, '\n');
                }
                let mut line = slice(&rest, 0, i);
                if line.len() > 0 && line[line.len() - 1] == '\r' {
                    line.pop();
                }
                let next = slice(&rest, i + 1, rest.len());
                proof {
                    assert(line@ =~= strip_cr(r0.take(i as int)));
                    assert(next@ =~= r0.skip(i + 1));
                }
                let ghost out0 = out@;
                out.push(line);
                rest = next;
                proof {
                    assert(out@.map_values(|l: Vec<char>| l@) =~= out0.map_values(|l: Vec<char>| l@).push(line@));
                    assert(lines(r0) == seq![line@] + lines(rest@));
                    assert(out@.map_values(|l: Vec<char>| l@) + lines(rest@) =~= out0.map_values(
                        |l: Vec<char>| l@,
                    ) + lines(r0));
                }
            },
            None => {
                let ghost out0 = out@;
                let last = slice(&rest, 0, rest.len());
                proof {
                    assert(last@ =~= r0);
                }
                out.push(last);
                rest = Vec::new();
                proof {
                    assert(out@.map_values(|l: Vec<char>| l@) =~= out0.map_values(|l: Vec<char>| l@).push(r0));
                    assert(lines(rest@) =~= Seq::<Seq<char>>::empty());
                    assert(out@.map_values(|l: Vec<char>| l@) + lines(rest@) =~= out0.map_values(
                        |l: Vec<char>| l@,
                    ) + lines(r0));
                }
            },
        }
    }
    proof {
        assert(lines(rest@) =~= Seq::<Seq<char>>::empty());
        assert(out@.map_values(|l: Vec<char>| l@) + lines(rest@) =~= out@.map_values(|l: Vec<char>| l@));
    }
    out
}

proof fn lemma_digits_value_push(s: Seq<char>, c: char)
    ensures
        digits_value(s.push(c)) == digits_value(s) * 10 + ((c as int) - ('0' as int)) as nat,
{
    assert(s.push(c).drop_last() =~= s);
}

/// The number that `str::parse::<usize>` reads from `s`, if any.
pub fn parse_usize_of(s: &Vec<char>) -> (r: Option<usize>)
    ensures
        r == parse_usize(s@),
{
    let start: usize = if s.len() > 0 && s[0] == '+' {
        1
    } else {
        0
    };
    let ghost t = unsigned_part(s@);
    proof {
        assert(t =~= s@.skip(start as int));
    }
    if start == s.len() {
        return None;
    }
    let mut v: usize = 0;
    let mut i: usize = start;
    while i < s.len()
        invariant
            start <= i <= s@.len(),
            t == s@.skip(start as int),
            t == unsigned_part(s@),
            forall|j: int| start <= j < i ==> is_digit(#[trigger] s@[j]),
            v as nat == digits_value(s@.subrange(start as int, i as int)),
        decreases s.len() - i,
    {
        let c = s[i];
        if !('0' <= c && c <= '9') {
            proof {
                assert(t[i - start] == c);
                assert(!is_digit(t[i - start]));
                assert(!(forall|j: int| 0 <= j < t.len() ==> is_digit(#[trigger] t[j])));
            }
            return None;
        }
        let d: usize = ((c as u32) - ('0' as u32)) as usize;
        proof {
            lemma_digits_value_push(s@.subrange(start as int, i as int), c);
            assert(s@.subrange(start as int, i + 1) =~= s@.subrange(start as int, i as int).push(c));
        }
        if v > (usize::MAX - d) / 10 {
            proof {
                assert(digits_value(s@.subrange(start as int, i + 1)) > usize::MAX) by (nonlinear_arith)
                    requires
                        v > (usize::MAX - d) / 10,
                        digits_value(s@.subrange(start as int, i + 1)) == v * 10 + d,
                        d <= 9,
                ;
                assert(t.take((i + 1 - start) as int) =~= s@.subrange(start as int, i + 1));
                if forall|j: int| 0 <= j < t.len() ==> is_digit(#[trigger] t[j]) {
                    lemma_digits_value_monotone(t, (i + 1 - start) as int);
                    assert(digits_value(t) > usize::MAX);
                }
            }
            return None;
        }
        v = v * 10 + d;
        i = i + 1;
    }
    proof {
        assert(s@.subrange(start as int, i as int) =~= t);
        assert forall|j: int| 0 <= j < t.len() implies is_digit(#[trigger] t[j]) by {
            assert(t[j] == s@[start + j]);
        }
    }
    Some(v)
}

/// A longer sequence of digits has at least the value of its prefix.
proof fn lemma_digits_value_monotone(s: Seq<char>, k: int)
    requires
        0 <= k <= s.len(),
        forall|j: int| 0 <= j < s.len() ==> is_digit(#[trigger] s[j]),
    ensures
        digits_value(s) >= digits_value(s.take(k)),
    decreases s.len() - k,
{
    if k < s.len() {
        lemma_digits_value_monotone(s.drop_last(), k);
        assert(s.drop_last().take(k) =~= s.take(k));
        assert(digits_value(s) >= digits_value(s.drop_last())) by (nonlinear_arith)
            requires
                digits_value(s) == digits_value(s.drop_last()) * 10 + ((s.last() as int) - ('0' as int)) as nat,
        ;
    } else {
        assert(s.take(k) =~= s);
    }
}

/// `String::push`: appends a character.
#[verifier::external_body]
pub(crate) fn push_char(s: &mut String, c: char)
    ensures
        final(s)@ == old(s)@.push(c),
{
    s.push(c)
}

/// The string of the characters.
pub fn string_of(cs: &Vec<char>) -> (r: String)
    ensures
        r@ == cs@,
{
    let mut s = String::new();
    let mut i: usize = 0;
    while i < cs.len()
        invariant
            i <= cs@.len(),
            s@ == cs@.take(i as int),
        decreases cs.len() - i,
    {
        push_char(&mut s, cs[i]);
        i = i + 1;
        proof {
            assert(s@ =~= cs@.take(i as int));
        }
    }
    proof {
        assert(cs@.take(i as int) =~= cs@);
    }
    s
}

/// The position after the white space starting at `i`.
pub open spec fn ws_end(s: Seq<char>, i: int) -> int
    decreases s.len() - i,
{
    if 0 <= i < s.len() && is_ws(s[i]) {
        ws_end(s, i + 1)
    } else {
        i
    }
}

/// `lit` stands at position `i`.
pub open spec fn has_lit(s: Seq<char>, i: int, lit: Seq<char>) -> bool {
    0 <= i && i + lit.len() <= s.len() && s.subrange(i, i + lit.len()) == lit
}

/// The position after the white space starting at `i`.
pub fn skip_ws(s: &Vec<char>, i: usize) -> (r: usize)
    requires
        i <= s@.len(),
    ensures
        r == ws_end(s@, i as int),
        i <= r <= s@.len(),
{
    let mut j = i;
    while j < s.len() && is_whitespace(s[j])
        invariant
            i <= j <= s@.len(),
            ws_end(s@, j as int) == ws_end(s@, i as int),
        decreases s@.len() - j,
    {
        j = j + 1;
    }
    j
}

/// Whether `lit` stands at position `i`.
pub fn lit_at(s: &Vec<char>, i: usize, lit: &[char]) -> (r: bool)
    requires
        i <= s@.len(),
    ensures
        r == has_lit(s@, i as int, lit@),
{
    if lit.len() > s.len() - i {
        return false;
    }
    let mut k: usize = 0;
    while k < lit.len()
        invariant
            i + lit@.len() <= s.len(),
            0 <= k <= lit@.len(),
            forall|m: int| 0 <= m < k ==> s@[i + m] == lit@[m],
        decreases lit@.len() - k,
    {
        if s[i + k] != lit[k] {
            proof {
                assert(s@.subrange(i as int, i + lit@.len())[k as int] != lit@[k as int]);
            }
            return false;
        }
        k = k + 1;
    }
    proof {
        assert(s@.subrange(i as int, i + lit@.len()) =~= lit@);
    }
    true
}

/// The digit character of `d`, for `d` below ten.
pub open spec fn digit_char(d: nat) -> char {
    (d + ('0' as int)) as char
}

/// The decimal notation of `n`, without leading zeros.
pub open spec fn decimal(n: nat) -> Seq<char>
    decreases n,
{
    if n < 10 {
        seq![digit_char(n)]
    } else {
        decimal(n / 10).push(digit_char(n % 10))
    }
}

/// The decimal notation of `n`.
pub fn decimal_of(n: usize) -> (r: Vec<char>)
    ensures
        r@ == decimal(n as nat),
    decreases n,
{
    let d: u8 = (n % 10) as u8;
    let c: char = (48u8 + d) as char;
    proof {
        assert(c == digit_char((n % 10) as nat));
    }
    if n < 10 {
        let mut v: Vec<char> = Vec::new();
        v.push(c);
        proof {
            assert(v@ =~= decimal(n as nat));
        }
        v
    } else {
        let mut v = decimal_of(n / 10);
        v.push(c);
        v
    }
}

/// What is written in decimal is read back: `str::parse::<usize>` gives
/// the number that `decimal` wrote.
pub proof fn parse_reads_decimal(n: usize)
    ensures
        parse_usize(decimal(n as nat)) == Some(n),
{
    lemma_decimal_digits(n as nat);
    let t = decimal(n as nat);
    assert(unsigned_part(t) == t);
}

/// `decimal(n)` is a nonempty sequence of digits whose value is `n`.
pub proof fn lemma_decimal_digits(n: nat)
    ensures
        decimal(n).len() > 0,
        forall|i: int| 0 <= i < decimal(n).len() ==> is_digit(#[trigger] decimal(n)[i]),
        digits_value(decimal(n)) == n,
    decreases n,
{
    if n < 10 {
        let t = decimal(n);
        assert(t.drop_last() =~= Seq::<char>::empty());
        assert(digit_char(n) as int == n + ('0' as int));
        assert(t.last() == digit_char(n));
        assert(digits_value(t) == digits_value(t.drop_last()) * 10 + ((t.last() as int) - ('0' as int)) as nat);
    } else {
        lemma_decimal_digits(n / 10);
        let t = decimal(n);
        assert(t.drop_last() =~= decimal(n / 10));
        assert(digit_char(n % 10) as int == n % 10 + ('0' as int));
        assert(t.last() == digit_char(n % 10));
        assert(digits_value(t) == digits_value(t.drop_last()) * 10 + ((t.last() as int) - ('0' as int)) as nat);
        assert(n == (n / 10) * 10 + n % 10);
    }
}

/// Where `find` stops: nothing before the position found is `c`, and
/// nothing at all when it finds none.
proof fn lemma_find_first(s: Seq<char>, c: char)
    ensures
        find(s, c) matches Some(i) ==> forall|j: int| 0 <= j < i ==> s[j] != c,
        find(s, c) is None ==> forall|j: int| 0 <= j < s.len() ==> s[j] != c,
    decreases s.len(),
{
    if s.len() > 0 {
        let d = s.drop_first();
        lemma_find_first(d, c);
        lemma_find_bound(s, c);
        if s[0] != c {
            if let Some(i) = find(s, c) {
                assert(find(d, c) == Some(i - 1));
                assert forall|j: int| 0 <= j < i implies s[j] != c by {
                    if j > 0 {
                        assert(s[j] == d[j - 1]);
                    }
                }
            } else {
                assert forall|j: int| 0 <= j < s.len() implies s[j] != c by {
                    if j > 0 {
                        assert(s[j] == d[j - 1]);
                    }
                }
            }
        }
    }
}

/// Splitting at the first `c` of `a + [c] + b`, where `a` holds no `c`,
/// gives `a` and `b`.
pub proof fn lemma_split_at(a: Seq<char>, c: char, b: Seq<char>)
    requires
        forall|j: int| 0 <= j < a.len() ==> a[j] != c,
    ensures
        split_once(a + seq![c] + b, c) == Some((a, b)),
        find(a + seq![c] + b, c) == Some(a.len() as int),
{
    let s = a + seq![c] + b;
    assert forall|j: int| 0 <= j < a.len() implies s[j] != c by {
        assert(s[j] == a[j]);
    }
    assert(s[a.len() as int] == c);
    lemma_find_at(s, c, a.len() as int);
    assert(s.take(a.len() as int) =~= a);
    assert(s.skip(a.len() as int + 1) =~= b);
}

/// A line ended by a line feed, and not by a carriage return, is the first
/// line of what it starts.
pub proof fn lemma_lines_line(l: Seq<char>, rest: Seq<char>)
    requires
        forall|j: int| 0 <= j < l.len() ==> l[j] != '\n',
        l.len() > 0 ==> l.last() != '\r',
    ensures
        lines(l + seq!['\n'] + rest) == seq![l] + lines(rest),
{
    let s = l + seq!['\n'] + rest;
    lemma_split_at(l, '\n', rest);
    assert(s.len() > 0);
    assert(s.take(l.len() as int) =~= l);
    assert(s.skip(l.len() as int + 1) =~= rest);
}

/// The lines of a text made of whole lines, followed by more text, are its
/// lines and then those of what follows.
pub proof fn lemma_lines_append(a: Seq<char>, b: Seq<char>)
    requires
        a.len() == 0 || a.last() == '\n',
    ensures
        lines(a + b) == lines(a) + lines(b),
    decreases a.len(),
{
    if a.len() == 0 {
        assert(a + b =~= b);
        assert(lines(a) + lines(b) =~= lines(b));
    } else {
        lemma_find_first(a, '\n');
        lemma_find_bound(a, '\n');
        let i = find(a, '\n')->0;
        let s = a + b;
        assert forall|j: int| 0 <= j < i implies s[j] != '\n' by {
            assert(s[j] == a[j]);
        }
        assert(s[i] == '\n');
        lemma_find_at(s, '\n', i);
        let a2 = a.skip(i + 1);
        assert(s.take(i) =~= a.take(i));
        assert(s.skip(i + 1) =~= a2 + b);
        if a2.len() > 0 {
            assert(a2.last() == a.last());
        }
        lemma_lines_append(a2, b);
        assert(lines(s) =~= lines(a) + lines(b));
    }
}

/// Text without white space at either end is its own trim.
pub proof fn lemma_trim_unchanged(s: Seq<char>)
    requires
        s.len() > 0,
        !is_ws(s[0]),
        !is_ws(s.last()),
    ensures
        trim(s) == s,
{
}

} // verus!
