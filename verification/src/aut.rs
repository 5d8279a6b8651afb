//! Labelled transition systems in the Aldebaran (`.aut`) format.
use vstd::prelude::*;

use crate::solver::symbolic::formula::BasisElemId;
use crate::text::{
    chars_of, decimal, decimal_of, is_digit, lemma_decimal_digits, lemma_lines_append, lemma_lines_line,
    lemma_split_at, lemma_trim_unchanged, parse_reads_decimal, trim_end, string_of, lines, lines_of, parse_usize, parse_usize_of, split_once, split_once_of,
    strip_prefix, strip_prefix_of, strip_suffix, strip_suffix_of, trim, trim_of, trim_start,
    trim_start_of,
};

verus! {

/// Identifier of a state of a transition system.
#[derive(Clone, Copy, Debug, PartialEq, Eq, Structural, Hash, PartialOrd, Ord, Default)]
pub struct StateId(pub usize);

impl StateId {
    pub fn to_usize(self) -> (r: usize)
        ensures
            r == self.0,
    {
        self.0
    }

    /// The basis element that stands for this state.
    pub fn to_basis_elem(self) -> (r: BasisElemId)
        ensures
            r.0 == self.0,
    {
        BasisElemId(self.0)
    }
}

/// A labelled transition system: its initial state and, for each state, its
/// outgoing transitions as pairs of a label and a target state.
pub struct Lts {
    pub first_state: StateId,
    pub transitions: Vec<Vec<(String, StateId)>>,
}

/// The transitions of a state, labels as character sequences.
pub open spec fn edges_view(v: Vec<(String, StateId)>) -> Seq<(Seq<char>, usize)> {
    v@.map_values(|e: (String, StateId)| (e.0@, e.1.0))
}

impl Lts {
    /// The transitions of every state.
    pub open spec fn trans_view(&self) -> Seq<Seq<(Seq<char>, usize)>> {
        self.transitions@.map_values(|v: Vec<(String, StateId)>| edges_view(v))
    }
}

/// Why a text is not a transition system in the Aldebaran format.
#[derive(Clone, Copy, Debug, PartialEq, Eq, Structural)]
pub enum AutError {
    FileEmpty,
    ExpectedDes,
    ExpectedOpenParen,
    ExpectedFirstState,
    ExpectedTransCount,
    ExpectedStateCount,
    FirstStateNotNumber,
    TransCountNotNumber,
    StateCountNotNumber,
    FirstStateMissing(usize),
    ExpectedStartState,
    ExpectedLabelQuote,
    ExpectedLabelComma,
    ExpectedLabel,
    ExpectedEndState,
    StartStateNotNumber,
    EndStateNotNumber,
    StartStateMissing(usize),
    EndStateMissing(usize),
    WrongTransitionCount { got: usize, expected: usize },
}

/// The header `des (first, transitions, states)`: the first state, the
/// number of transitions and the number of states.
pub open spec fn spec_parse_header(line: Seq<char>) -> Result<(usize, usize, usize), AutError> {
    match strip_prefix(line, "des"@) {
        None => Err(AutError::ExpectedDes),
        Some(h) => match strip_prefix(trim(h), "("@) {
            None => Err(AutError::ExpectedOpenParen),
            Some(h) => match split_once(h, ',') {
                None => Err(AutError::ExpectedFirstState),
                Some((fs, h)) => match split_once(h, ',') {
                    None => Err(AutError::ExpectedTransCount),
                    Some((tc, h)) => match strip_suffix(h, ")"@) {
                        None => Err(AutError::ExpectedStateCount),
                        Some(sc) => match parse_usize(trim(fs)) {
                            None => Err(AutError::FirstStateNotNumber),
                            Some(f) => match parse_usize(trim(tc)) {
                                None => Err(AutError::TransCountNotNumber),
                                Some(t) => match parse_usize(trim(sc)) {
                                    None => Err(AutError::StateCountNotNumber),
                                    Some(n) => Ok((f, t, n)),
                                },
                            },
                        },
                    },
                },
            },
        },
    }
}

/// The label and the rest of a transition line after its start state: a
/// quoted label followed by a comma, or everything up to the first comma.
pub open spec fn spec_parse_label(l: Seq<char>) -> Result<(Seq<char>, Seq<char>), AutError> {
    match strip_prefix(trim_start(l), "\""@) {
        Some(q) => match split_once(q, '"') {
            None => Err(AutError::ExpectedLabelQuote),
            Some((label, r)) => match strip_prefix(trim_start(r), ","@) {
                None => Err(AutError::ExpectedLabelComma),
                Some(r) => Ok((label, r)),
            },
        },
        None => match split_once(l, ',') {
            None => Err(AutError::ExpectedLabel),
            Some((label, r)) => Ok((label, r)),
        },
    }
}

/// A transition line `(start, label, end)` of a system with `n` states: the
/// trimmed label, the start state and the end state.
pub open spec fn spec_parse_transition(line: Seq<char>, n: usize) -> Result<
    (Seq<char>, usize, usize),
    AutError,
> {
    match strip_prefix(line, "("@) {
        None => Err(AutError::ExpectedOpenParen),
        Some(l) => match split_once(l, ',') {
            None => Err(AutError::ExpectedStartState),
            Some((ss, l)) => match spec_parse_label(l) {
                Err(e) => Err(e),
                Ok((label, l)) => match strip_suffix(l, ")"@) {
                    None => Err(AutError::ExpectedEndState),
                    Some(es) => match parse_usize(trim(ss)) {
                        None => Err(AutError::StartStateNotNumber),
                        Some(s) => match parse_usize(trim(es)) {
                            None => Err(AutError::EndStateNotNumber),
                            Some(e) => if s >= n {
                                Err(AutError::StartStateMissing(s))
                            } else if e >= n {
                                Err(AutError::EndStateMissing(e))
                            } else {
                                Ok((trim(label), s, e))
                            },
                        },
                    },
                },
            },
        },
    }
}

/// The transitions of the lines, in order, or the error of the first line that
/// is not a transition.
pub open spec fn spec_parse_transitions(ls: Seq<Seq<char>>, n: usize) -> Result<
    Seq<(Seq<char>, usize, usize)>,
    AutError,
>
    decreases ls.len(),
{
    if ls.len() == 0 {
        Ok(Seq::empty())
    } else {
        match spec_parse_transitions(ls.drop_last(), n) {
            Err(e) => Err(e),
            Ok(ts) => match spec_parse_transition(ls.last(), n) {
                Err(e) => Err(e),
                Ok(t) => Ok(ts.push(t)),
            },
        }
    }
}

/// The transitions grouped by start state, each group in order.
pub open spec fn group(ts: Seq<(Seq<char>, usize, usize)>, n: usize) -> Seq<Seq<(Seq<char>, usize)>>
    decreases ts.len(),
{
    if ts.len() == 0 {
        Seq::new(n as nat, |i: int| Seq::empty())
    } else {
        let g = group(ts.drop_last(), n);
        let t = ts.last();
        g.update(t.1 as int, g[t.1 as int].push((t.0, t.2)))
    }
}

/// The transition system that a text in the Aldebaran format describes: the
/// first state and the transitions of every state.
pub open spec fn spec_parse_aut(src: Seq<char>) -> Result<
    (usize, Seq<Seq<(Seq<char>, usize)>>),
    AutError,
> {
    let ls = lines(src);
    if ls.len() == 0 {
        Err(AutError::FileEmpty)
    } else {
        match spec_parse_header(ls[0]) {
            Err(e) => Err(e),
            Ok((f, t, n)) => if f >= n {
                Err(AutError::FirstStateMissing(f))
            } else {
                match spec_parse_transitions(ls.drop_first(), n) {
                    Err(e) => Err(e),
                    Ok(ts) => if ts.len() != t {
                        Err(AutError::WrongTransitionCount { got: ts.len() as usize, expected: t })
                    } else {
                        Ok((f, group(ts, n)))
                    },
                }
            },
        }
    }
}

fn parse_header(line: &Vec<char>) -> (r: Result<(usize, usize, usize), AutError>)
    ensures
        r == spec_parse_header(line@),
{
    let h = match strip_prefix_of(line, "des") {
        None => return Err(AutError::ExpectedDes),
        Some(h) => h,
    };
    let h = match strip_prefix_of(&trim_of(&h), "(") {
        None => return Err(AutError::ExpectedOpenParen),
        Some(h) => h,
    };
    let (fs, h) = match split_once_of(&h, ',') {
        None => return Err(AutError::ExpectedFirstState),
        Some(x) => x,
    };
    let (tc, h) = match split_once_of(&h, ',') {
        None => return Err(AutError::ExpectedTransCount),
        Some(x) => x,
    };
    let sc = match strip_suffix_of(&h, ")") {
        None => return Err(AutError::ExpectedStateCount),
        Some(x) => x,
    };
    let f = match parse_usize_of(&trim_of(&fs)) {
        None => return Err(AutError::FirstStateNotNumber),
        Some(x) => x,
    };
    let t = match parse_usize_of(&trim_of(&tc)) {
        None => return Err(AutError::TransCountNotNumber),
        Some(x) => x,
    };
    let n = match parse_usize_of(&trim_of(&sc)) {
        None => return Err(AutError::StateCountNotNumber),
        Some(x) => x,
    };
    Ok((f, t, n))
}

fn parse_label(l: &Vec<char>) -> (r: Result<(Vec<char>, Vec<char>), AutError>)
    ensures
        r matches Ok((a, b)) ==> spec_parse_label(l@) == Ok::<(Seq<char>, Seq<char>), AutError>(
            (a@, b@),
        ),
        r matches Err(e) ==> spec_parse_label(l@) == Err::<(Seq<char>, Seq<char>), AutError>(e),
{
    match strip_prefix_of(&trim_start_of(l), "\"") {
        Some(q) => match split_once_of(&q, '"') {
            None => Err(AutError::ExpectedLabelQuote),
            Some((label, r)) => match strip_prefix_of(&trim_start_of(&r), ",") {
                None => Err(AutError::ExpectedLabelComma),
                Some(r) => Ok((label, r)),
            },
        },
        None => match split_once_of(l, ',') {
            None => Err(AutError::ExpectedLabel),
            Some((label, r)) => Ok((label, r)),
        },
    }
}

fn parse_transition(line: &Vec<char>, n: usize) -> (r: Result<(Vec<char>, usize, usize), AutError>)
    ensures
        r matches Ok((a, s, e)) ==> spec_parse_transition(line@, n) == Ok::<
            (Seq<char>, usize, usize),
            AutError,
        >((a@, s, e)),
        r matches Err(e) ==> spec_parse_transition(line@, n) == Err::<
            (Seq<char>, usize, usize),
            AutError,
        >(e),
{
    let l = match strip_prefix_of(line, "(") {
        None => return Err(AutError::ExpectedOpenParen),
        Some(l) => l,
    };
    let (ss, l) = match split_once_of(&l, ',') {
        None => return Err(AutError::ExpectedStartState),
        Some(x) => x,
    };
    let (label, l) = match parse_label(&l) {
        Err(e) => return Err(e),
        Ok(x) => x,
    };
    let es = match strip_suffix_of(&l, ")") {
        None => return Err(AutError::ExpectedEndState),
        Some(x) => x,
    };
    let s = match parse_usize_of(&trim_of(&ss)) {
        None => return Err(AutError::StartStateNotNumber),
        Some(x) => x,
    };
    let e = match parse_usize_of(&trim_of(&es)) {
        None => return Err(AutError::EndStateNotNumber),
        Some(x) => x,
    };
    if s >= n {
        return Err(AutError::StartStateMissing(s));
    }
    if e >= n {
        return Err(AutError::EndStateMissing(e));
    }
    Ok((trim_of(&label), s, e))
}

/// An error in a prefix of the lines is the error of all of them.
proof fn lemma_transitions_error(ls: Seq<Seq<char>>, k: int, n: usize)
    requires
        0 <= k <= ls.len(),
        spec_parse_transitions(ls.take(k), n) is Err,
    ensures
        spec_parse_transitions(ls, n) == spec_parse_transitions(ls.take(k), n),
    decreases ls.len() - k,
{
    if k < ls.len() {
        assert(ls.drop_last().take(k) =~= ls.take(k));
        lemma_transitions_error(ls.drop_last(), k, n);
    } else {
        assert(ls.take(k) =~= ls);
    }
}

/// Reads a transition system in the Aldebaran format.
pub fn parse_aut(source: &str) -> (r: Result<Lts, AutError>)
    ensures
        r matches Ok(lts) ==> spec_parse_aut(source@) == Ok::<
            (usize, Seq<Seq<(Seq<char>, usize)>>),
            AutError,
        >((lts.first_state.0, lts.trans_view())),
        r matches Err(e) ==> spec_parse_aut(source@) == Err::<
            (usize, Seq<Seq<(Seq<char>, usize)>>),
            AutError,
        >(e),
{
    let chars = chars_of(source);
    let ls = lines_of(&chars);
    let ghost lsv = ls@.map_values(|l: Vec<char>| l@);
    if ls.len() == 0 {
        return Err(AutError::FileEmpty);
    }
    proof {
        assert(lsv[0] == ls@[0]@);
    }
    let (first_state, trans_count, state_count) = match parse_header(&ls[0]) {
        Err(e) => return Err(e),
        Ok(x) => x,
    };
    if first_state >= state_count {
        return Err(AutError::FirstStateMissing(first_state));
    }
    let mut transitions: Vec<Vec<(String, StateId)>> = Vec::new();
    let mut k: usize = 0;
    while k < state_count
        invariant
            k <= state_count,
            transitions@.len() == k,
            forall|j: int| 0 <= j < k ==> (#[trigger] transitions@[j])@.len() == 0,
        decreases state_count - k,
    {
        transitions.push(Vec::new());
        k = k + 1;
    }
    let ghost body = lsv.drop_first();
    proof {
        assert(chars@ == source@);
    }
    proof {
        assert forall|j: int| 0 <= j < transitions@.len() implies edges_view(#[trigger] transitions@[j])
            =~= Seq::<(Seq<char>, usize)>::empty() by {}
        assert(transitions@.map_values(|v: Vec<(String, StateId)>| edges_view(v)) =~= group(
            Seq::empty(),
            state_count,
        ));
        assert(body.take(0) =~= Seq::<Seq<char>>::empty());
    }
    let mut count: usize = 0;
    let mut i: usize = 1;
    while i < ls.len()
        invariant
            1 <= i <= ls@.len(),
            count == i - 1,
            lsv == ls@.map_values(|l: Vec<char>| l@),
            lsv == lines(source@),
            body == lsv.drop_first(),
            spec_parse_header(lsv[0]) == Ok::<(usize, usize, usize), AutError>(
                (first_state, trans_count, state_count),
            ),
            first_state < state_count,
            transitions@.len() == state_count,
            spec_parse_transitions(body.take(i - 1), state_count) matches Ok(ts) && ts.len() == count
                && transitions@.map_values(|v: Vec<(String, StateId)>| edges_view(v)) == group(
                ts,
                state_count,
            ),
        decreases ls.len() - i,
    {
        let ghost prefix = body.take(i - 1);
        let ghost ts = spec_parse_transitions(prefix, state_count)->Ok_0;
        proof {
            assert(body.take(i as int).drop_last() =~= prefix);
            assert(body.take(i as int).last() == ls@[i as int]@);
        }
        match parse_transition(&ls[i], state_count) {
            Err(e) => {
                proof {
                    assert(spec_parse_transitions(body.take(i as int), state_count) == Err::<
                        Seq<(Seq<char>, usize, usize)>,
                        AutError,
                    >(e));
                    lemma_transitions_error(body, i as int, state_count);
                }
                return Err(e);
            },
            Ok((label, s, e)) => {
                let label = string_of(&label);
                let ghost tv = transitions@.map_values(|v: Vec<(String, StateId)>| edges_view(v));
                transitions[s].push((label, StateId(e)));
                proof {
                    let t = (label@, s, e);
                    let ts2 = ts.push(t);
                    assert(ts2.drop_last() =~= ts);
                    assert(edges_view(transitions@[s as int]) =~= tv[s as int].push((label@, e)));
                    assert(transitions@.map_values(|v: Vec<(String, StateId)>| edges_view(v)) =~= tv.update(
                        s as int,
                        tv[s as int].push((label@, e)),
                    ));
                }
                count = count + 1;
            },
        }
        i = i + 1;
    }
    proof {
        assert(body.take(i - 1) =~= body);
    }
    if count != trans_count {
        return Err(AutError::WrongTransitionCount { got: count, expected: trans_count });
    }
    Ok(Lts { first_state: StateId(first_state), transitions })
}

/// Every transition leads to a state of the system.
pub open spec fn lts_well_formed(t: Seq<Seq<(Seq<char>, usize)>>) -> bool {
    forall|s: int, k: int| 0 <= s < t.len() && 0 <= k < t[s].len() ==> #[trigger] t[s][k].1 < t.len()
}

proof fn lemma_transitions_in_range(ls: Seq<Seq<char>>, n: usize)
    requires
        spec_parse_transitions(ls, n) is Ok,
    ensures
        forall|k: int|
            0 <= k < spec_parse_transitions(ls, n)->Ok_0.len() ==> (#[trigger] spec_parse_transitions(
                ls,
                n,
            )->Ok_0[k]).1 < n && spec_parse_transitions(ls, n)->Ok_0[k].2 < n,
    decreases ls.len(),
{
    if ls.len() > 0 {
        lemma_transitions_in_range(ls.drop_last(), n);
    }
}

proof fn lemma_group_in_range(ts: Seq<(Seq<char>, usize, usize)>, n: usize)
    requires
        forall|k: int| 0 <= k < ts.len() ==> (#[trigger] ts[k]).1 < n && ts[k].2 < n,
    ensures
        group(ts, n).len() == n,
        lts_well_formed(group(ts, n)),
    decreases ts.len(),
{
    if ts.len() > 0 {
        let init = ts.drop_last();
        assert forall|k: int| 0 <= k < init.len() implies (#[trigger] init[k]).1 < n && init[k].2 < n by {
            assert(init[k] == ts[k]);
        }
        lemma_group_in_range(init, n);
        let g = group(init, n);
        let t = ts.last();
        assert(t == ts[ts.len() - 1]);
        let h = g.update(t.1 as int, g[t.1 as int].push((t.0, t.2)));
        assert forall|s: int, k: int| 0 <= s < h.len() && 0 <= k < h[s].len() implies #[trigger] h[s][k].1
            < h.len() by {
            if s == t.1 {
                if k < g[s].len() {
                    assert(h[s][k] == g[s][k]);
                }
            } else {
                assert(h[s] == g[s]);
            }
        }
    }
}

/// A transition system read from text starts at one of its states, and
/// every transition leads to one of its states.
pub proof fn parse_aut_well_formed(src: Seq<char>)
    requires
        spec_parse_aut(src) is Ok,
    ensures
        spec_parse_aut(src)->Ok_0.0 < spec_parse_aut(src)->Ok_0.1.len(),
        lts_well_formed(spec_parse_aut(src)->Ok_0.1),
{
    let ls = lines(src);
    let (f, t, n) = spec_parse_header(ls[0])->Ok_0;
    lemma_transitions_in_range(ls.drop_first(), n);
    lemma_group_in_range(spec_parse_transitions(ls.drop_first(), n)->Ok_0, n);
}

/// The header `des (0,m,n)` of a system with `n` states and `m`
/// transitions, whose initial state is `0`.
pub open spec fn header_line(m: nat, n: nat) -> Seq<char> {
    seq!['d', 'e', 's', ' ', '(', '0', ','] + decimal(m) + seq![','] + decimal(n) + seq![')']
}

/// The header line, ended.
pub open spec fn header_text(m: nat, n: nat) -> Seq<char> {
    header_line(m, n) + seq!['\n']
}

/// The transition `(s,"l",t)` from `s` to `t` labelled `l`.
pub open spec fn transition_line(s: nat, l: nat, t: nat) -> Seq<char> {
    seq!['('] + decimal(s) + seq![',', '"'] + decimal(l) + seq!['"', ','] + decimal(t) + seq![')']
}

/// The line of a transition, ended.
pub open spec fn transition_text(s: nat, l: nat, t: nat) -> Seq<char> {
    transition_line(s, l, t) + seq!['\n']
}

/// The lines of the transitions of state `s`, given as pairs of a target
/// and a label.
pub open spec fn state_text(s: nat, ts: Seq<(usize, usize)>) -> Seq<char>
    decreases ts.len(),
{
    if ts.len() == 0 {
        Seq::empty()
    } else {
        state_text(s, ts.drop_last()) + transition_text(s, ts.last().1 as nat, ts.last().0 as nat)
    }
}

/// The lines of the transitions of every state, state by state.
pub open spec fn states_text(lts: Seq<Seq<(usize, usize)>>) -> Seq<char>
    decreases lts.len(),
{
    if lts.len() == 0 {
        Seq::empty()
    } else {
        states_text(lts.drop_last()) + state_text((lts.len() - 1) as nat, lts.last())
    }
}

/// The Aldebaran text of a system whose states each have `per_state`
/// transitions, given for each state as pairs of a target and a label.
pub open spec fn spec_aut_text(lts: Seq<Seq<(usize, usize)>>, per_state: nat) -> Seq<char> {
    header_text(lts.len() * per_state, lts.len()) + states_text(lts)
}

/// Appends the characters of `src` to `out`.
fn push_all(out: &mut Vec<char>, src: &Vec<char>)
    ensures
        final(out)@ == old(out)@ + src@,
{
    let ghost start = out@;
    let mut i: usize = 0;
    while i < src.len()
        invariant
            i <= src@.len(),
            out@ == start + src@.take(i as int),
        decreases src.len() - i,
    {
        out.push(src[i]);
        i = i + 1;
        proof {
            assert(out@ =~= start + src@.take(i as int));
        }
    }
    proof {
        assert(src@.take(i as int) =~= src@);
    }
}

/// Writes a transition system in the Aldebaran format: the header with
/// initial state `0`, `lts.len() * per_state` transitions and `lts.len()`
/// states, then one line `(s,"l",t)` per transition, state by state, for
/// the pairs `(t, l)` of target and label given for each state.
pub fn aut_text(lts: &Vec<Vec<(usize, usize)>>, per_state: usize) -> (r: String)
    requires
        lts@.len() * per_state <= usize::MAX,
    ensures
        r@ == spec_aut_text(lts@.map_values(|ts: Vec<(usize, usize)>| ts@), per_state as nat),
{
    let ghost lv = lts@.map_values(|ts: Vec<(usize, usize)>| ts@);
    let mut out: Vec<char> = Vec::new();
    let header: Vec<char> = vec!['d', 'e', 's', ' ', '(', '0', ','];
    push_all(&mut out, &header);
    push_all(&mut out, &decimal_of(lts.len() * per_state));
    out.push(',');
    push_all(&mut out, &decimal_of(lts.len()));
    out.push(')');
    out.push('\n');
    proof {
        assert(out@ =~= header_text((lts@.len() * per_state) as nat, lts@.len()));
        assert(lv.take(0) =~= Seq::<Seq<(usize, usize)>>::empty());
    }
    let ghost head = out@;
    let mut s: usize = 0;
    while s < lts.len()
        invariant
            s <= lts@.len(),
            lv == lts@.map_values(|ts: Vec<(usize, usize)>| ts@),
            out@ == head + states_text(lv.take(s as int)),
        decreases lts.len() - s,
    {
        let ts = &lts[s];
        let ghost before = out@;
        let mut k: usize = 0;
        while k < ts.len()
            invariant
                k <= ts@.len(),
                out@ == before + state_text(s as nat, ts@.take(k as int)),
            decreases ts.len() - k,
        {
            let (t, l) = ts[k];
            out.push('(');
            push_all(&mut out, &decimal_of(s));
            out.push(',');
            out.push('"');
            push_all(&mut out, &decimal_of(l));
            out.push('"');
            out.push(',');
            push_all(&mut out, &decimal_of(t));
            out.push(')');
            out.push('\n');
            proof {
                let tk = ts@.take(k + 1);
                assert(tk.drop_last() =~= ts@.take(k as int));
                assert(out@ =~= before + state_text(s as nat, tk));
            }
            k = k + 1;
        }
        proof {
            assert(ts@.take(k as int) =~= ts@);
            let ls = lv.take(s + 1);
            assert(ls.drop_last() =~= lv.take(s as int));
            assert(ls.last() == ts@);
            assert(out@ =~= head + states_text(ls));
        }
        s = s + 1;
    }
    proof {
        assert(lv.take(s as int) =~= lv);
    }
    string_of(&out)
}

/// No line feed, carriage return, comma, quote or parenthesis in a number.
proof fn lemma_decimal_plain(n: nat)
    ensures
        decimal(n).len() > 0,
        forall|j: int| 0 <= j < decimal(n).len() ==> is_digit(#[trigger] decimal(n)[j]),
        forall|j: int|
            0 <= j < decimal(n).len() ==> #[trigger] decimal(n)[j] != '\n' && decimal(n)[j] != '\r'
                && decimal(n)[j] != ',' && decimal(n)[j] != '"' && decimal(n)[j] != ')',
        trim(decimal(n)) == decimal(n),
{
    lemma_decimal_digits(n);
    let d = decimal(n);
    assert(is_digit(d[0]) && is_digit(d.last()));
    lemma_trim_unchanged(d);
}

/// A written header reads back as the initial state `0` and its counts.
proof fn lemma_header_reads_back(m: usize, n: usize)
    ensures
        spec_parse_header(header_line(m as nat, n as nat)) == Ok::<(usize, usize, usize), AutError>((0, m, n)),
{
    reveal_strlit("des");
    reveal_strlit("(");
    reveal_strlit(")");
    let dm = decimal(m as nat);
    let dn = decimal(n as nat);
    lemma_decimal_plain(m as nat);
    lemma_decimal_plain(n as nat);
    lemma_decimal_plain(0);
    parse_reads_decimal(m);
    parse_reads_decimal(n);
    parse_reads_decimal(0);
    let line = header_line(m as nat, n as nat);
    assert("des"@.is_prefix_of(line)) by {
        assert(line.take(3) =~= "des"@);
    }
    let h = line.skip(3);
    let h1 = seq!['(', '0', ','] + dm + seq![','] + dn + seq![')'];
    assert(h =~= seq![' '] + h1);
    assert(h.drop_first() =~= h1);
    assert(trim_start(h1) == h1);
    assert(trim_start(h) == h1);
    assert(trim_end(h1) == h1);
    assert("("@.is_prefix_of(h1)) by {
        assert(h1.take(1) =~= "("@);
    }
    let h2 = h1.skip(1);
    let rest = dm + seq![','] + (dn + seq![')']);
    assert(h2 =~= seq!['0'] + seq![','] + rest);
    assert(decimal(0) =~= seq!['0']);
    lemma_split_at(seq!['0'], ',', rest);
    lemma_split_at(dm, ',', dn + seq![')']);
    let tail = dn + seq![')'];
    assert(")"@.is_suffix_of(tail)) by {
        assert(tail.skip(tail.len() - 1) =~= ")"@);
    }
    assert(tail.take(tail.len() - 1) =~= dn);
}

/// A written transition reads back as its label, start and end.
proof fn lemma_transition_reads_back(s: usize, l: usize, t: usize, n: usize)
    requires
        s < n,
        t < n,
    ensures
        spec_parse_transition(transition_line(s as nat, l as nat, t as nat), n) == Ok::<
            (Seq<char>, usize, usize),
            AutError,
        >((decimal(l as nat), s, t)),
{
    reveal_strlit("(");
    reveal_strlit(")");
    reveal_strlit("\"");
    reveal_strlit(",");
    let ds = decimal(s as nat);
    let dl = decimal(l as nat);
    let dt = decimal(t as nat);
    lemma_decimal_plain(s as nat);
    lemma_decimal_plain(l as nat);
    lemma_decimal_plain(t as nat);
    parse_reads_decimal(s);
    parse_reads_decimal(t);
    let line = transition_line(s as nat, l as nat, t as nat);
    assert("("@.is_prefix_of(line)) by {
        assert(line.take(1) =~= "("@);
    }
    let r3 = seq![','] + dt + seq![')'];
    let r1 = seq!['"'] + (dl + seq!['"'] + r3);
    assert(line.skip(1) =~= ds + seq![','] + r1);
    lemma_split_at(ds, ',', r1);
    assert(trim_start(r1) == r1);
    assert("\""@.is_prefix_of(r1)) by {
        assert(r1.take(1) =~= "\""@);
    }
    assert(r1.skip(1) =~= dl + seq!['"'] + r3);
    lemma_split_at(dl, '"', r3);
    assert(trim_start(r3) == r3);
    assert(","@.is_prefix_of(r3)) by {
        assert(r3.take(1) =~= ","@);
    }
    let r4 = r3.skip(1);
    assert(r4 =~= dt + seq![')']);
    assert(")"@.is_suffix_of(r4)) by {
        assert(r4.skip(r4.len() - 1) =~= ")"@);
    }
    assert(r4.take(r4.len() - 1) =~= dt);
}

/// The lines of the transitions of state `s`.
spec fn state_lines(s: nat, ts: Seq<(usize, usize)>) -> Seq<Seq<char>>
    decreases ts.len(),
{
    if ts.len() == 0 {
        Seq::empty()
    } else {
        state_lines(s, ts.drop_last()).push(transition_line(s, ts.last().1 as nat, ts.last().0 as nat))
    }
}

/// The lines of the transitions of every state.
spec fn states_lines(lts: Seq<Seq<(usize, usize)>>) -> Seq<Seq<char>>
    decreases lts.len(),
{
    if lts.len() == 0 {
        Seq::empty()
    } else {
        states_lines(lts.drop_last()) + state_lines((lts.len() - 1) as nat, lts.last())
    }
}

/// A transition line is one line.
proof fn lemma_transition_line_plain(s: nat, l: nat, t: nat)
    ensures
        forall|j: int|
            0 <= j < transition_line(s, l, t).len() ==> #[trigger] transition_line(s, l, t)[j] != '\n',
        transition_line(s, l, t).last() != '\r',
{
    lemma_decimal_plain(s);
    lemma_decimal_plain(l);
    lemma_decimal_plain(t);
}

proof fn lemma_state_text_lines(s: nat, ts: Seq<(usize, usize)>)
    ensures
        lines(state_text(s, ts)) == state_lines(s, ts),
        state_text(s, ts).len() == 0 || state_text(s, ts).last() == '\n',
    decreases ts.len(),
{
    if ts.len() > 0 {
        lemma_state_text_lines(s, ts.drop_last());
        let e = ts.last();
        let line = transition_line(s, e.1 as nat, e.0 as nat);
        lemma_transition_line_plain(s, e.1 as nat, e.0 as nat);
        lemma_lines_append(state_text(s, ts.drop_last()), transition_text(s, e.1 as nat, e.0 as nat));
        lemma_lines_line(line, Seq::empty());
        assert(line + seq!['\n'] + Seq::<char>::empty() =~= transition_text(s, e.1 as nat, e.0 as nat));
        assert(lines(Seq::<char>::empty()) =~= Seq::<Seq<char>>::empty());
        assert(seq![line] + Seq::<Seq<char>>::empty() =~= seq![line]);
        assert(state_lines(s, ts.drop_last()) + seq![line] =~= state_lines(s, ts));
    }
}

proof fn lemma_states_text_lines(lts: Seq<Seq<(usize, usize)>>)
    ensures
        lines(states_text(lts)) == states_lines(lts),
        states_text(lts).len() == 0 || states_text(lts).last() == '\n',
    decreases lts.len(),
{
    if lts.len() > 0 {
        let init = lts.drop_last();
        let s = (lts.len() - 1) as nat;
        lemma_states_text_lines(init);
        lemma_state_text_lines(s, lts.last());
        lemma_lines_append(states_text(init), state_text(s, lts.last()));
    }
}

/// The transitions of state `s`, as the reader gives them.
spec fn state_read(s: usize, ts: Seq<(usize, usize)>) -> Seq<(Seq<char>, usize, usize)> {
    ts.map_values(|e: (usize, usize)| (decimal(e.1 as nat), s, e.0))
}

/// The transitions of every state, as the reader gives them.
spec fn states_read(lts: Seq<Seq<(usize, usize)>>) -> Seq<(Seq<char>, usize, usize)>
    decreases lts.len(),
{
    if lts.len() == 0 {
        Seq::empty()
    } else {
        states_read(lts.drop_last()) + state_read((lts.len() - 1) as usize, lts.last())
    }
}

proof fn lemma_state_lines_read(s: usize, ts: Seq<(usize, usize)>, n: usize)
    requires
        s < n,
        forall|q: int| 0 <= q < ts.len() ==> (#[trigger] ts[q]).0 < n,
    ensures
        spec_parse_transitions(state_lines(s as nat, ts), n) == Ok::<Seq<(Seq<char>, usize, usize)>, AutError>(
            state_read(s, ts),
        ),
    decreases ts.len(),
{
    if ts.len() > 0 {
        let init = ts.drop_last();
        assert forall|q: int| 0 <= q < init.len() implies (#[trigger] init[q]).0 < n by {
            assert(init[q] == ts[q]);
        }
        lemma_state_lines_read(s, init, n);
        let e = ts.last();
        assert(e == ts[ts.len() - 1]);
        lemma_transition_reads_back(s, e.1, e.0, n);
        let ls = state_lines(s as nat, ts);
        assert(ls.drop_last() =~= state_lines(s as nat, init));
        assert(state_read(s, init).push((decimal(e.1 as nat), s, e.0)) =~= state_read(s, ts));
    } else {
        assert(state_read(s, ts) =~= Seq::<(Seq<char>, usize, usize)>::empty());
    }
}

proof fn lemma_transitions_append(a: Seq<Seq<char>>, b: Seq<Seq<char>>, n: usize)
    requires
        spec_parse_transitions(a, n) is Ok,
        spec_parse_transitions(b, n) is Ok,
    ensures
        spec_parse_transitions(a + b, n) == Ok::<Seq<(Seq<char>, usize, usize)>, AutError>(
            spec_parse_transitions(a, n)->Ok_0 + spec_parse_transitions(b, n)->Ok_0,
        ),
    decreases b.len(),
{
    if b.len() == 0 {
        assert(a + b =~= a);
        assert(spec_parse_transitions(a, n)->Ok_0 + spec_parse_transitions(b, n)->Ok_0 =~= spec_parse_transitions(
            a,
            n,
        )->Ok_0);
    } else {
        let b0 = b.drop_last();
        lemma_transitions_append(a, b0, n);
        assert((a + b).drop_last() =~= a + b0);
        assert((a + b).last() == b.last());
        let x = spec_parse_transitions(a, n)->Ok_0;
        let y0 = spec_parse_transitions(b0, n)->Ok_0;
        let t = spec_parse_transition(b.last(), n)->Ok_0;
        assert(x + y0.push(t) =~= (x + y0).push(t));
    }
}

proof fn lemma_states_lines_read(lts: Seq<Seq<(usize, usize)>>, n: usize)
    requires
        lts.len() <= n,
        forall|s: int, q: int| 0 <= s < lts.len() && 0 <= q < lts[s].len() ==> #[trigger] lts[s][q].0 < n,
    ensures
        spec_parse_transitions(states_lines(lts), n) == Ok::<Seq<(Seq<char>, usize, usize)>, AutError>(
            states_read(lts),
        ),
    decreases lts.len(),
{
    if lts.len() > 0 {
        let init = lts.drop_last();
        assert forall|s: int, q: int| 0 <= s < init.len() && 0 <= q < init[s].len() implies #[trigger] init[s][q].0 < n by {
            assert(init[s] == lts[s]);
        }
        lemma_states_lines_read(init, n);
        let s = (lts.len() - 1) as usize;
        let last = lts.last();
        assert forall|q: int| 0 <= q < last.len() implies (#[trigger] last[q]).0 < n by {
            assert(lts[lts.len() - 1] == last);
            assert(lts[lts.len() - 1][q] == last[q]);
        }
        lemma_state_lines_read(s, last, n);
        lemma_transitions_append(states_lines(init), state_lines(s as nat, last), n);
    } else {
        assert(spec_parse_transitions(Seq::<Seq<char>>::empty(), n) == Ok::<
            Seq<(Seq<char>, usize, usize)>,
            AutError,
        >(Seq::empty()));
        assert(states_read(lts) =~= Seq::<(Seq<char>, usize, usize)>::empty());
    }
}

proof fn lemma_states_read_len(lts: Seq<Seq<(usize, usize)>>, k: nat)
    requires
        forall|s: int| 0 <= s < lts.len() ==> #[trigger] lts[s].len() == k,
    ensures
        states_read(lts).len() == lts.len() * k,
    decreases lts.len(),
{
    if lts.len() > 0 {
        let init = lts.drop_last();
        assert forall|s: int| 0 <= s < init.len() implies #[trigger] init[s].len() == k by {
            assert(init[s] == lts[s]);
        }
        lemma_states_read_len(init, k);
        assert(lts.last() == lts[lts.len() - 1]);
        assert(init.len() * k + k == lts.len() * k) by (nonlinear_arith)
            requires
                init.len() + 1 == lts.len(),
        ;
    }
}

/// The transitions of a state as the reader groups them.
pub open spec fn read_row(ts: Seq<(usize, usize)>) -> Seq<(Seq<char>, usize)> {
    ts.map_values(|e: (usize, usize)| (decimal(e.1 as nat), e.0))
}

/// The groups of the transitions read so far: those of the states before
/// `j`, and the first `q` of state `j`.
spec fn rows_so_far(lts: Seq<Seq<(usize, usize)>>, n: nat, j: int, q: int) -> Seq<Seq<(Seq<char>, usize)>> {
    Seq::new(
        n,
        |i: int|
            if i < j {
                read_row(lts[i])
            } else if i == j {
                read_row(lts[j].take(q))
            } else {
                Seq::empty()
            },
    )
}

proof fn lemma_group_prefix(lts: Seq<Seq<(usize, usize)>>, n: usize, j: int, q: int)
    requires
        lts.len() == n,
        0 <= j < lts.len(),
        0 <= q <= lts[j].len(),
    ensures
        group(states_read(lts.take(j)) + state_read(j as usize, lts[j].take(q)), n) == rows_so_far(
            lts,
            n as nat,
            j,
            q,
        ),
    decreases j, q,
{
    let x = states_read(lts.take(j));
    if q > 0 {
        lemma_group_prefix(lts, n, j, q - 1);
        let e = lts[j][q - 1];
        let y0 = x + state_read(j as usize, lts[j].take(q - 1));
        let y = x + state_read(j as usize, lts[j].take(q));
        assert(lts[j].take(q) =~= lts[j].take(q - 1).push(e));
        assert(state_read(j as usize, lts[j].take(q)) =~= state_read(j as usize, lts[j].take(q - 1)).push(
            (decimal(e.1 as nat), j as usize, e.0),
        ));
        assert(y =~= y0.push((decimal(e.1 as nat), j as usize, e.0)));
        assert(y.drop_last() =~= y0);
        let g0 = rows_so_far(lts, n as nat, j, q - 1);
        assert(read_row(lts[j].take(q)) =~= read_row(lts[j].take(q - 1)).push((decimal(e.1 as nat), e.0)));
        assert(group(y, n) =~= g0.update(j, g0[j].push((decimal(e.1 as nat), e.0))));
        assert(group(y, n) =~= rows_so_far(lts, n as nat, j, q));
    } else if j > 0 {
        let p = lts[j - 1];
        lemma_group_prefix(lts, n, j - 1, p.len() as int);
        assert(p.take(p.len() as int) =~= p);
        let tj = lts.take(j);
        assert(tj.drop_last() =~= lts.take(j - 1));
        assert(tj.last() == p);
        assert(state_read(j as usize, lts[j].take(0)) =~= Seq::<(Seq<char>, usize, usize)>::empty());
        assert(x + state_read(j as usize, lts[j].take(0)) =~= x);
        assert(lts[j].take(0) =~= Seq::<(usize, usize)>::empty());
        assert(read_row(Seq::<(usize, usize)>::empty()) =~= Seq::<(Seq<char>, usize)>::empty());
        assert(rows_so_far(lts, n as nat, j - 1, p.len() as int) =~= rows_so_far(lts, n as nat, j, 0));
    } else {
        assert(lts.take(0) =~= Seq::<Seq<(usize, usize)>>::empty());
        assert(state_read(0, lts[0].take(0)) =~= Seq::<(Seq<char>, usize, usize)>::empty());
        assert(x + state_read(0, lts[0].take(0)) =~= Seq::<(Seq<char>, usize, usize)>::empty());
        assert(lts[0].take(0) =~= Seq::<(usize, usize)>::empty());
        assert(read_row(Seq::<(usize, usize)>::empty()) =~= Seq::<(Seq<char>, usize)>::empty());
        assert(group(Seq::<(Seq<char>, usize, usize)>::empty(), n) =~= rows_so_far(lts, n as nat, 0, 0));
    }
}

/// What is written is read back: a system whose states each have
/// `per_state` transitions to states of the system, written in the
/// Aldebaran format, reads back with initial state `0` and, for each state,
/// its transitions in order, labelled by the decimal notation of their
/// labels.
pub proof fn written_aut_reads_back(lts: Seq<Seq<(usize, usize)>>, per_state: usize)
    requires
        0 < lts.len() <= usize::MAX,
        lts.len() * per_state <= usize::MAX,
        forall|s: int| 0 <= s < lts.len() ==> #[trigger] lts[s].len() == per_state,
        forall|s: int, q: int| 0 <= s < lts.len() && 0 <= q < lts[s].len() ==> #[trigger] lts[s][q].0 < lts.len(),
    ensures
        spec_parse_aut(spec_aut_text(lts, per_state as nat)) == Ok::<
            (usize, Seq<Seq<(Seq<char>, usize)>>),
            AutError,
        >((0, lts.map_values(|ts: Seq<(usize, usize)>| read_row(ts)))),
{
    let n = lts.len() as usize;
    let m = (lts.len() * per_state) as usize;
    let text = spec_aut_text(lts, per_state as nat);
    lemma_states_text_lines(lts);
    assert(forall|j: int| 0 <= j < header_line(m as nat, n as nat).len() ==> #[trigger] header_line(m as nat, n as nat)[j] != '\n') by {
        lemma_decimal_plain(m as nat);
        lemma_decimal_plain(n as nat);
    }
    lemma_lines_line(header_line(m as nat, n as nat), states_text(lts));
    assert(text =~= header_line(m as nat, n as nat) + seq!['\n'] + states_text(lts));
    let ls = lines(text);
    assert(ls == seq![header_line(m as nat, n as nat)] + states_lines(lts));
    assert(ls[0] == header_line(m as nat, n as nat));
    assert(ls.drop_first() =~= states_lines(lts));
    lemma_header_reads_back(m, n);
    lemma_states_lines_read(lts, n);
    lemma_states_read_len(lts, per_state as nat);
    let last = lts[lts.len() - 1];
    lemma_group_prefix(lts, n, lts.len() - 1, last.len() as int);
    assert(last.take(last.len() as int) =~= last);
    assert(lts.take(lts.len() - 1) =~= lts.drop_last());
    assert(lts.last() == last);
    assert(states_read(lts) == states_read(lts.take(lts.len() - 1)) + state_read(
        (lts.len() - 1) as usize,
        last.take(last.len() as int),
    ));
    assert(rows_so_far(lts, n as nat, lts.len() - 1, last.len() as int) =~= lts.map_values(
        |ts: Seq<(usize, usize)>| read_row(ts),
    ));
}

} // verus!
