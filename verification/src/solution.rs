//! The example fuzz target: a "count the pairs whose gcd with a doubled
//! partner exceeds 1" program run on fuzzer bytes, marking coverage signals.
//!
//! The input is UTF-8 text whose non-blank lines are: a count `t`, then for
//! each of `t` cases a line with `n` and a line with the case's values.
//! A case line whose words do not all parse as `usize` is a parse error.
//! Coverage points: 0 on entry, 5 once `t` is read, and for each accepted
//! case 1, then 2 for each pair examined, 3 for each pair whose gcd exceeds
//! 1, and 4 when the case is done.

use vstd::prelude::*;
use crate::signals::signals_set;
use vstd::utf8::{
    decode_utf8, encode_utf8, encode_scalar, is_char_boundary, is_continuation_byte, length_of_first_scalar,
    pop_first_scalar, valid_first_scalar, valid_utf8,
};
use vstd::string::StringSliceAdditionalSpecFns;
use crate::gcd::{has_good_pair, law_pair_count_positive, count_gcd_pairs, count_sorted_pairs_checked, doubles_fit, doubles_fit_check, gcd_pair_count, parity_sorted, sort_by_parity};
use crate::text::{all_whitespace, ends_line, single_line, starts_line, lemma_lines_concat, law_blank_line_changes_nothing, law_line_padding_changes_nothing, chars_of, nonblank_lines, parse_usize, parse_usize_spec, words, words_spec, nonblank_lines_spec};

verus! {

/// The values of the words, where every word parses as `usize`; `None`
/// where one does not.
pub open spec fn parse_all(ws: Seq<Seq<char>>) -> Option<Seq<usize>>
    decreases ws.len(),
{
    if ws.len() == 0 {
        Some(Seq::empty())
    } else {
        match (parse_all(ws.drop_last()), parse_usize_spec(ws.last())) {
            (Some(vs), Some(v)) => Some(vs.push(v)),
            _ => None,
        }
    }
}

/// The values a case line holds, where all its words are numbers.
pub open spec fn line_values(line: Seq<char>) -> Option<Seq<usize>> {
    parse_all(words_spec(line))
}

/// How a run of the target goes: whether the case count was read, whether
/// the run succeeded, and the cases that were accepted, in order.
pub struct HarnessOutcome {
    pub header: bool,
    pub ok: bool,
    pub cases: Seq<Seq<usize>>,
}

/// Up to `k` cases read from `lines`: each is a line with a count `n` and a
/// line of exactly `n` values, every word of which parses; the run fails at
/// the first case that is missing or malformed.
pub open spec fn run_cases(lines: Seq<Seq<char>>, k: nat) -> (bool, Seq<Seq<usize>>)
    decreases k,
{
    if k == 0 {
        (true, Seq::empty())
    } else if lines.len() < 1 {
        (false, Seq::empty())
    } else {
        match parse_usize_spec(lines[0]) {
            None => (false, Seq::empty()),
            Some(n) => {
                if lines.len() < 2 {
                    (false, Seq::empty())
                } else {
                    match line_values(lines[1]) {
                        None => (false, Seq::empty()),
                        Some(a) => {
                            if a.len() != n {
                                (false, Seq::empty())
                            } else {
                                let r = run_cases(lines.skip(2), (k - 1) as nat);
                                (r.0, seq![a] + r.1)
                            }
                        },
                    }
                }
            },
        }
    }
}

/// How a run on the text `text` goes.
pub open spec fn harness_outcome(text: Seq<char>) -> HarnessOutcome {
    let lines = nonblank_lines_spec(text);
    if lines.len() == 0 {
        HarnessOutcome { header: false, ok: false, cases: Seq::empty() }
    } else {
        match parse_usize_spec(lines[0]) {
            None => HarnessOutcome { header: false, ok: false, cases: Seq::empty() },
            Some(t) => {
                let r = run_cases(lines.drop_first(), t as nat);
                HarnessOutcome { header: true, ok: r.0, cases: r.1 }
            },
        }
    }
}

/// Whether an accepted case reaches coverage point `idx`.
pub open spec fn case_signal(a: Seq<usize>, idx: int) -> bool {
    ||| idx == 1
    ||| idx == 4
    ||| idx == 2 && a.len() >= 2
    ||| idx == 3 && gcd_pair_count(parity_sorted(a)) > 0
}

/// Whether one of the cases reaches coverage point `idx`.
pub open spec fn any_case_signal(cases: Seq<Seq<usize>>, idx: int) -> bool
    decreases cases.len(),
{
    if cases.len() == 0 {
        false
    } else {
        any_case_signal(cases.drop_last(), idx) || case_signal(cases.last(), idx)
    }
}

/// Whether a run with outcome `o` reaches coverage point `idx`.
pub open spec fn signal_hit(o: HarnessOutcome, idx: int) -> bool {
    ||| idx == 0
    ||| idx == 5 && o.header
    ||| any_case_signal(o.cases, idx)
}

/// The coverage map `before` with every point that `o` reaches set to 1.
pub open spec fn marks(before: Seq<u8>, after: Seq<u8>, o: HarnessOutcome) -> bool {
    &&& after.len() == before.len()
    &&& forall|i: int|
        0 <= i < after.len() ==> #[trigger] after[i] == if signal_hit(o, i) {
            1u8
        } else {
            before[i]
        }
}

/// Every accepted case can be counted: each value after the first of the
/// parity-sorted case can be doubled, and the number of good pairs fits in
/// `usize`.
pub open spec fn cases_in_range(cases: Seq<Seq<usize>>) -> bool {
    forall|k: int|
        0 <= k < cases.len() ==> {
            &&& doubles_fit(parity_sorted(#[trigger] cases[k]))
            &&& gcd_pair_count(parity_sorted(cases[k])) <= usize::MAX
        }
}

/// The values of the words, where every word parses as `usize`.
pub fn parse_values(ws: &Vec<Vec<char>>) -> (vals: Option<Vec<usize>>)
    ensures
        match vals {
            Some(v) => parse_all(ws.deep_view()) == Some(v@),
            None => parse_all(ws.deep_view()) is None,
        },
{
    let mut vals: Vec<usize> = Vec::new();
    let n = ws.len();
    let mut i: usize = 0;
    while i < n
        invariant
            n == ws@.len(),
            i <= n,
            parse_all(ws.deep_view().take(i as int)) == Some(vals@),
        decreases n - i,
    {
        let ghost dv = ws.deep_view();
        assert(dv.take(i + 1).drop_last() =~= dv.take(i as int));
        assert(ws[i as int].deep_view() =~= ws[i as int]@);
        assert(dv.take(i + 1).last() == ws[i as int]@);
        match parse_usize(ws[i].as_slice()) {
            Some(v) => vals.push(v),
            None => {
                proof {
                    lemma_parse_all_fails(dv, i + 1);
                }
                return None;
            },
        }
        i = i + 1;
    }
    assert(ws.deep_view().take(n as int) =~= ws.deep_view());
    Some(vals)
}

proof fn lemma_parse_all_fails(ws: Seq<Seq<char>>, j: int)
    requires
        0 <= j <= ws.len(),
        parse_all(ws.take(j)) is None,
    ensures
        parse_all(ws) is None,
    decreases ws.len() - j,
{
    if j < ws.len() {
        assert(ws.take(j + 1).drop_last() =~= ws.take(j));
        lemma_parse_all_fails(ws, j + 1);
    } else {
        assert(ws.take(j) =~= ws);
    }
}

/// The outcome of reading a run's input: whether the case count was read,
/// whether every case was read, and the accepted cases.
pub struct ParsedInput {
    pub header: bool,
    pub ok: bool,
    pub cases: Vec<Vec<usize>>,
}

/// Read the text `text`: the case count, then the cases, up to the first
/// case that is missing or malformed.
pub fn parse_cases(text: &[char]) -> (p: ParsedInput)
    ensures
        p.header == harness_outcome(text@).header,
        p.ok == harness_outcome(text@).ok,
        p.cases.deep_view() == harness_outcome(text@).cases,
{
    let ghost o = harness_outcome(text@);
    let mut cases: Vec<Vec<usize>> = Vec::new();
    assert(cases.deep_view() =~= Seq::<Seq<usize>>::empty());
    let lines = nonblank_lines(text);
    let ghost ls = lines.deep_view();
    if lines.len() == 0 {
        return ParsedInput { header: false, ok: false, cases };
    }
    assert(lines[0].deep_view() =~= lines[0]@);
    let t = match parse_usize(lines[0].as_slice()) {
        None => {
            return ParsedInput { header: false, ok: false, cases };
        },
        Some(t) => t,
    };
    let ghost whole = run_cases(ls.drop_first(), t as nat);
    assert(ls.skip(1) =~= ls.drop_first());
    assert(cases.deep_view() + whole.1 =~= whole.1);
    let mut pos: usize = 1;
    let mut k: usize = 0;
    while k < t
        invariant
            ls == lines.deep_view(),
            o == harness_outcome(text@),
            o.header,
            o.cases == whole.1,
            o.ok == whole.0,
            k <= t,
            1 <= pos <= lines@.len(),
            whole.0 == run_cases(ls.skip(pos as int), (t - k) as nat).0,
            whole.1 == cases.deep_view() + run_cases(ls.skip(pos as int), (t - k) as nat).1,
        decreases t - k,
    {
        let ghost rest = ls.skip(pos as int);
        let ghost m = (t - k) as nat;
        let ghost done = cases.deep_view();
        if pos >= lines.len() {
            assert(done + run_cases(rest, m).1 =~= done);
            return ParsedInput { header: true, ok: false, cases };
        }
        assert(rest[0] == lines[pos as int]@) by {
            assert(lines[pos as int].deep_view() =~= lines[pos as int]@);
        }
        let n = match parse_usize(lines[pos].as_slice()) {
            None => {
                assert(done + run_cases(rest, m).1 =~= done);
                return ParsedInput { header: true, ok: false, cases };
            },
            Some(n) => n,
        };
        if pos + 1 >= lines.len() {
            assert(done + run_cases(rest, m).1 =~= done);
            return ParsedInput { header: true, ok: false, cases };
        }
        assert(rest[1] == lines[pos + 1]@) by {
            assert(lines[pos + 1].deep_view() =~= lines[pos + 1]@);
        }
        let ws = words(lines[pos + 1].as_slice());
        let a = match parse_values(&ws) {
            None => {
                assert(done + run_cases(rest, m).1 =~= done);
                return ParsedInput { header: true, ok: false, cases };
            },
            Some(a) => a,
        };
        if a.len() != n {
            assert(done + run_cases(rest, m).1 =~= done);
            return ParsedInput { header: true, ok: false, cases };
        }
        let ghost next = run_cases(ls.skip(pos + 2), (m - 1) as nat);
        assert(rest.skip(2) =~= ls.skip(pos + 2));
        assert(run_cases(rest, m) == (next.0, seq![a@] + next.1));
        assert(done + (seq![a@] + next.1) =~= done.push(a@) + next.1);
        assert(a.deep_view() =~= a@);
        cases.push(a);
        assert(cases.deep_view() =~= done.push(a@));
        pos = pos + 2;
        k = k + 1;
    }
    assert(cases.deep_view() + run_cases(ls.skip(pos as int), 0).1 =~= cases.deep_view());
    ParsedInput { header: true, ok: true, cases }
}

/// Whether every case can be counted: each value after the first of the
/// parity-sorted case can be doubled, and the count fits in `usize`.
pub fn cases_in_range_check(cases: &Vec<Vec<usize>>) -> (b: bool)
    ensures
        b == cases_in_range(cases.deep_view()),
{
    let n = cases.len();
    let mut i: usize = 0;
    while i < n
        invariant
            n == cases@.len(),
            i <= n,
            forall|k: int|
                0 <= k < i ==> {
                    &&& doubles_fit(parity_sorted(#[trigger] cases.deep_view()[k]))
                    &&& gcd_pair_count(parity_sorted(cases.deep_view()[k])) <= usize::MAX
                },
        decreases n - i,
    {
        assert(cases[i as int].deep_view() =~= cases[i as int]@);
        let ghost c = cases.deep_view()[i as int];
        assert(c == cases[i as int]@);
        let s = sort_by_parity(cases[i].as_slice());
        if !doubles_fit_check(s.as_slice()) {
            assert(!doubles_fit(parity_sorted(cases.deep_view()[i as int])));
            return false;
        }
        if count_sorted_pairs_checked(s.as_slice()).is_none() {
            assert(!(gcd_pair_count(parity_sorted(cases.deep_view()[i as int])) <= usize::MAX));
            return false;
        }
        i = i + 1;
    }
    true
}

/// Set in `signals` every coverage point that one of the accepted `cases`
/// reaches (where the map has it).
pub fn mark_cases(cases: &Vec<Vec<usize>>, signals: &mut Vec<u8>)
    requires
        cases_in_range(cases.deep_view()),
    ensures
        final(signals)@.len() == old(signals)@.len(),
        3 < old(signals)@.len() ==> final(signals)@[3] == if exists|k: int|
            0 <= k < cases.deep_view().len() && has_good_pair(
                parity_sorted(#[trigger] cases.deep_view()[k]),
            ) {
            1u8
        } else {
            old(signals)@[3]
        },
        2 < old(signals)@.len() ==> final(signals)@[2] == if exists|k: int|
            0 <= k < cases.deep_view().len() && #[trigger] cases.deep_view()[k].len() >= 2 {
            1u8
        } else {
            old(signals)@[2]
        },
        forall|i: int|
            0 <= i < old(signals)@.len() ==> #[trigger] final(signals)@[i] == if any_case_signal(
                cases.deep_view(),
                i,
            ) {
                1u8
            } else {
                old(signals)@[i]
            },
{
    let ghost before = signals@;
    let ghost cs = cases.deep_view();
    let n = cases.len();
    let mut k: usize = 0;
    while k < n
        invariant
            n == cases@.len(),
            cs == cases.deep_view(),
            cases_in_range(cs),
            k <= n,
            signals@.len() == before.len(),
            forall|i: int|
                0 <= i < signals@.len() ==> #[trigger] signals@[i] == if any_case_signal(
                    cs.take(k as int),
                    i,
                ) {
                    1u8
                } else {
                    before[i]
                },
        decreases n - k,
    {
        let a = &cases[k];
        assert(a.deep_view() =~= a@);
        assert(cs[k as int] == a@);
        assert(cs.take(k + 1) =~= cs.take(k as int).push(a@));
        let ghost pre = signals@;
        signals_set(signals, 1);
        if a.len() >= 2 {
            signals_set(signals, 2);
        }
        let cnt = count_gcd_pairs(a.as_slice());
        if cnt > 0 {
            signals_set(signals, 3);
        }
        signals_set(signals, 4);
        proof {
            assert forall|idx: int| 0 <= idx < signals@.len() implies #[trigger] signals@[idx]
                == if any_case_signal(cs.take(k + 1), idx) {
                1u8
            } else {
                before[idx]
            } by {
                lemma_any_case_signal_push(cs.take(k as int), a@, idx);
                assert(pre[idx] == if any_case_signal(cs.take(k as int), idx) {
                    1u8
                } else {
                    before[idx]
                });
            }
        }
        k = k + 1;
    }
    assert(cs.take(n as int) =~= cs);
    proof {
        law_case_points(cs, 2);
        law_case_points(cs, 3);
    }
}

/// Which coverage points the accepted cases reach: points 1 and 4 when
/// there is a case at all, point 2 when some case has two values or more,
/// point 3 when some case, sorted stably by parity, has a pair `i < j` whose
/// greatest common divisor of `a[i]` and `2 * a[j]` exceeds 1, and no other.
pub proof fn law_case_points(cases: Seq<Seq<usize>>, idx: int)
    ensures
        idx == 1 || idx == 4 ==> (any_case_signal(cases, idx) <==> cases.len() > 0),
        idx == 2 ==> (any_case_signal(cases, idx) <==> exists|k: int|
            0 <= k < cases.len() && #[trigger] cases[k].len() >= 2),
        idx == 3 ==> (any_case_signal(cases, idx) <==> exists|k: int|
            0 <= k < cases.len() && has_good_pair(parity_sorted(#[trigger] cases[k]))),
        !(1 <= idx <= 4) ==> !any_case_signal(cases, idx),
    decreases cases.len(),
{
    if cases.len() > 0 {
        let init = cases.drop_last();
        let n = cases.len() - 1;
        law_case_points(init, idx);
        law_pair_count_positive(parity_sorted(cases.last()));
        assert(cases[n] == cases.last());
        assert forall|k: int| 0 <= k < init.len() implies #[trigger] init[k] == cases[k] by {}
        if exists|k: int| 0 <= k < cases.len() && #[trigger] cases[k].len() >= 2 {
            let k = choose|k: int| 0 <= k < cases.len() && #[trigger] cases[k].len() >= 2;
            if k < n {
                assert(init[k].len() >= 2);
            }
        }
        if exists|k: int| 0 <= k < init.len() && #[trigger] init[k].len() >= 2 {
            let k = choose|k: int| 0 <= k < init.len() && #[trigger] init[k].len() >= 2;
            assert(cases[k].len() >= 2);
        }
        if exists|k: int| 0 <= k < cases.len() && has_good_pair(parity_sorted(#[trigger] cases[k])) {
            let k = choose|k: int|
                0 <= k < cases.len() && has_good_pair(parity_sorted(#[trigger] cases[k]));
            if k < n {
                assert(has_good_pair(parity_sorted(init[k])));
            }
        }
        if exists|k: int| 0 <= k < init.len() && has_good_pair(parity_sorted(#[trigger] init[k])) {
            let k = choose|k: int|
                0 <= k < init.len() && has_good_pair(parity_sorted(#[trigger] init[k]));
            assert(has_good_pair(parity_sorted(cases[k])));
        }
        if cases[n].len() >= 2 {
            assert(cases[n].len() >= 2);
        }
        if has_good_pair(parity_sorted(cases[n])) {
            assert(has_good_pair(parity_sorted(cases[n])));
        }
    }
}

proof fn lemma_any_case_signal_push(cases: Seq<Seq<usize>>, a: Seq<usize>, idx: int)
    ensures
        any_case_signal(cases.push(a), idx) == (any_case_signal(cases, idx) || case_signal(a, idx)),
{
    assert(cases.push(a).drop_last() =~= cases);
}

proof fn lemma_marks_entry_only(before: Seq<u8>, after: Seq<u8>, o: HarnessOutcome)
    requires
        !o.header,
        o.cases.len() == 0,
        after == if 0 < before.len() {
            before.update(0, 1u8)
        } else {
            before
        },
    ensures
        marks(before, after, o),
{
    assert forall|i: int| 0 <= i < after.len() implies #[trigger] after[i] == if signal_hit(o, i) {
        1u8
    } else {
        before[i]
    } by {
        assert(!any_case_signal(o.cases, i));
    }
}

/// Run the target on the text `text`, setting in `signals` each coverage
/// point the run reaches (where the map has it). `Ok` when every case was
/// read.
pub fn run_from_chars(text: &[char], signals: &mut Vec<u8>) -> (r: Result<(), ()>)
    requires
        cases_in_range(harness_outcome(text@).cases),
    ensures
        r is Ok <==> harness_outcome(text@).ok,
        0 < old(signals)@.len() ==> final(signals)@[0] == 1,
        marks(old(signals)@, final(signals)@, harness_outcome(text@)),
        3 < old(signals)@.len() ==> final(signals)@[3] == if exists|k: int|
            0 <= k < harness_outcome(text@).cases.len() && has_good_pair(
                parity_sorted(#[trigger] harness_outcome(text@).cases[k]),
            ) {
            1u8
        } else {
            old(signals)@[3]
        },
        2 < old(signals)@.len() ==> final(signals)@[2] == if exists|k: int|
            0 <= k < harness_outcome(text@).cases.len() && #[trigger] harness_outcome(text@).cases[k].len() >= 2 {
            1u8
        } else {
            old(signals)@[2]
        },
{
    let ghost before = signals@;
    let p = parse_cases(text);
    signals_set(signals, 0);
    if p.header {
        signals_set(signals, 5);
    }
    let ghost mid = signals@;
    mark_cases(&p.cases, signals);
    proof {
        let o = harness_outcome(text@);
        assert forall|i: int| 0 <= i < signals@.len() implies #[trigger] signals@[i] == if signal_hit(
            o,
            i,
        ) {
            1u8
        } else {
            before[i]
        } by {
            assert(mid[i] == if i == 0 || (i == 5 && o.header) {
                1u8
            } else {
                before[i]
            });
        }
    }
    proof {
        law_case_points(harness_outcome(text@).cases, 2);
        law_case_points(harness_outcome(text@).cases, 3);
    }
    if p.ok {
        Ok(())
    } else {
        Err(())
    }
}

/// Whether every case that a run on `text` accepts can be counted, which
/// `run_from_chars` asks of its input.
pub fn text_in_range(text: &[char]) -> (b: bool)
    ensures
        b == cases_in_range(harness_outcome(text@).cases),
{
    let p = parse_cases(text);
    cases_in_range_check(&p.cases)
}

/// Calls `std::str::from_utf8`, which, as its documentation states, accepts
/// exactly the valid UTF-8 byte sequences and then views the same bytes as
/// text.
#[verifier::external_body]
fn str_from_utf8(bytes: &[u8]) -> (r: Option<&str>)
    ensures
        r is Some <==> valid_utf8(bytes@),
        r matches Some(s) ==> s.spec_bytes() == bytes@,
{
    std::str::from_utf8(bytes).ok()
}

/// How a run on the bytes `input` goes: text that is not valid UTF-8 is
/// rejected before anything is read.
pub open spec fn input_outcome(input: Seq<u8>) -> HarnessOutcome {
    if valid_utf8(input) {
        harness_outcome(decode_utf8(input))
    } else {
        HarnessOutcome { header: false, ok: false, cases: Seq::empty() }
    }
}

/// Whether every case that a run on `input` accepts can be counted, which
/// `run_from_input` asks of its input.
pub fn input_in_range(input: &[u8]) -> (b: bool)
    ensures
        b == cases_in_range(input_outcome(input@).cases),
{
    match str_from_utf8(input) {
        None => {
            assert(cases_in_range(Seq::<Seq<usize>>::empty()));
            true
        },
        Some(s) => {
            proof {
                vstd::utf8::encode_utf8_decode_utf8(s@);
            }
            let text = chars_of(s);
            text_in_range(text.as_slice())
        },
    }
}

/// Run the target on the fuzzer input `input`, setting in `signals` each
/// coverage point the run reaches (where the map has it). `Ok` when the
/// input is UTF-8 text whose every case was read; a parse error is `Err`.
pub fn run_from_input(input: &[u8], signals: &mut Vec<u8>) -> (r: Result<(), ()>)
    requires
        cases_in_range(input_outcome(input@).cases),
    ensures
        r is Ok <==> input_outcome(input@).ok,
        0 < old(signals)@.len() ==> final(signals)@[0] == 1,
        marks(old(signals)@, final(signals)@, input_outcome(input@)),
        3 < old(signals)@.len() ==> final(signals)@[3] == if exists|k: int|
            0 <= k < input_outcome(input@).cases.len() && has_good_pair(
                parity_sorted(#[trigger] input_outcome(input@).cases[k]),
            ) {
            1u8
        } else {
            old(signals)@[3]
        },
        2 < old(signals)@.len() ==> final(signals)@[2] == if exists|k: int|
            0 <= k < input_outcome(input@).cases.len() && #[trigger] input_outcome(input@).cases[k].len() >= 2 {
            1u8
        } else {
            old(signals)@[2]
        },
{
    match str_from_utf8(input) {
        None => {
            let ghost before = signals@;
            signals_set(signals, 0);
            proof {
                lemma_marks_entry_only(before, signals@, input_outcome(input@));
                law_case_points(input_outcome(input@).cases, 2);
                law_case_points(input_outcome(input@).cases, 3);
            }
            Err(())
        },
        Some(s) => {
            proof {
                vstd::utf8::encode_utf8_decode_utf8(s@);
            }
            let text = chars_of(s);
            run_from_chars(text.as_slice(), signals)
        },
    }
}

/// Blank lines change nothing: inserting, at the start of a line, a line
/// that holds only whitespace leaves the run's outcome, and so its result and
/// the coverage points it reaches, as they were.
pub proof fn law_blank_line_changes_nothing_in_a_run(a: Seq<char>, w: Seq<char>, b: Seq<char>)
    requires
        ends_line(a),
        all_whitespace(w),
        single_line(w),
    ensures
        harness_outcome(a + w.push('\n') + b) == harness_outcome(a + b),
{
    law_blank_line_changes_nothing(a, w, b);
}

/// Spaces at the edges of a line change nothing: padding a line's text `c`
/// with whitespace leaves the run's outcome, and so its result and the
/// coverage points it reaches, as they were.
pub proof fn law_line_padding_changes_nothing_in_a_run(
    a: Seq<char>,
    w1: Seq<char>,
    c: Seq<char>,
    w2: Seq<char>,
    b: Seq<char>,
)
    requires
        ends_line(a),
        starts_line(b),
        all_whitespace(w1),
        all_whitespace(w2),
        single_line(w1),
        single_line(w2),
        single_line(c),
    ensures
        harness_outcome(a + w1 + c + w2 + b) == harness_outcome(a + c + b),
{
    law_line_padding_changes_nothing(a, w1, c, w2, b);
}

proof fn lemma_run_cases_extend(ls: Seq<Seq<char>>, more: Seq<Seq<char>>, k: nat)
    requires
        run_cases(ls, k).0,
    ensures
        run_cases(ls + more, k) == run_cases(ls, k),
    decreases k,
{
    if k > 0 {
        let l2 = ls + more;
        assert(l2[0] == ls[0]);
        assert(l2[1] == ls[1]);
        assert(l2.skip(2) =~= ls.skip(2) + more);
        lemma_run_cases_extend(ls.skip(2), more, (k - 1) as nat);
    }
}

/// Text after a complete run is never read: where a run on `a` succeeds
/// and `a` ends its last line, appending any text `b` leaves the outcome as
/// it was.
pub proof fn law_trailing_text_is_ignored(a: Seq<char>, b: Seq<char>)
    requires
        harness_outcome(a).ok,
        ends_line(a),
    ensures
        harness_outcome(a + b) == harness_outcome(a),
{
    lemma_lines_concat(a, b);
    let la = crate::text::nonblank_lines_spec(a);
    let lb = crate::text::nonblank_lines_spec(b);
    let l2 = la + lb;
    assert(la.len() > 0);
    assert(l2[0] == la[0]);
    assert(l2.drop_first() =~= la.drop_first() + lb);
    let t = parse_usize_spec(la[0]).unwrap();
    lemma_run_cases_extend(la.drop_first(), lb, t as nat);
}

/// Every valid input is the UTF-8 encoding of its text, and a run on the
/// encoding of a text goes as a run on the text: so the laws stated of texts
/// hold of inputs too.
pub proof fn law_input_is_its_text(text: Seq<char>)
    ensures
        valid_utf8(encode_utf8(text)),
        input_outcome(encode_utf8(text)) == harness_outcome(text),
{
    vstd::utf8::encode_utf8_valid_utf8(text);
    vstd::utf8::encode_utf8_decode_utf8(text);
}

proof fn lemma_encode_concat(c1: Seq<char>, c2: Seq<char>)
    ensures
        encode_utf8(c1 + c2) == encode_utf8(c1) + encode_utf8(c2),
    decreases c1.len(),
{
    if c1.len() == 0 {
        assert(c1 + c2 =~= c2);
        assert(encode_utf8(c1) + encode_utf8(c2) =~= encode_utf8(c2));
    } else {
        lemma_encode_concat(c1.drop_first(), c2);
        assert((c1 + c2)[0] == c1[0]);
        assert((c1 + c2).drop_first() =~= c1.drop_first() + c2);
        assert(encode_scalar(c1[0] as u32) + (encode_utf8(c1.drop_first()) + encode_utf8(c2))
            =~= encode_scalar(c1[0] as u32) + encode_utf8(c1.drop_first()) + encode_utf8(c2));
    }
}

proof fn lemma_decode_concat(b1: Seq<u8>, b2: Seq<u8>)
    requires
        valid_utf8(b1),
        valid_utf8(b2),
    ensures
        valid_utf8(b1 + b2),
        decode_utf8(b1 + b2) == decode_utf8(b1) + decode_utf8(b2),
{
    let d1 = decode_utf8(b1);
    let d2 = decode_utf8(b2);
    vstd::utf8::decode_utf8_encode_utf8(b1);
    vstd::utf8::decode_utf8_encode_utf8(b2);
    lemma_encode_concat(d1, d2);
    vstd::utf8::encode_utf8_valid_utf8(d1 + d2);
    vstd::utf8::encode_utf8_decode_utf8(d1 + d2);
}

proof fn lemma_newline_scalar(x: u32)
    requires
        vstd::utf8::is_scalar(x),
        encode_scalar(x).last() == 10,
    ensures
        x == 10,
{
    if vstd::utf8::has_width_1_encoding(x) {
        assert((x & 0x7F) as u8 == 10 && x <= 0x7F ==> x == 10) by (bit_vector);
    } else {
        assert(encode_scalar(x).last() == vstd::utf8::last_continuation_byte(x));
        assert((0x80u8 | (x & 0x3F) as u8) != 10) by (bit_vector);
    }
}

/// The text of a valid input whose last byte is a line feed ends a line.
proof fn lemma_ends_line_bytes(input: Seq<u8>)
    requires
        valid_utf8(input),
        input.len() > 0,
        input.last() == 10,
    ensures
        ends_line(decode_utf8(input)),
{
    let d = decode_utf8(input);
    vstd::utf8::decode_utf8_encode_utf8(input);
    if d.len() == 0 {
        assert(encode_utf8(d) =~= Seq::<u8>::empty());
    } else {
        let c = d.last();
        assert(d =~= d.drop_last() + seq![c]);
        lemma_encode_concat(d.drop_last(), seq![c]);
        assert(seq![c].drop_first() =~= Seq::<char>::empty());
        assert(encode_utf8(seq![c]) =~= encode_scalar(c as u32) + encode_utf8(Seq::<char>::empty()));
        assert(encode_utf8(seq![c]) =~= encode_scalar(c as u32));
        vstd::utf8::char_is_scalar(c);
        assert(encode_scalar(c as u32).len() > 0);
        assert(input.last() == encode_scalar(c as u32).last());
        lemma_newline_scalar(c as u32);
        vstd::utf8::char_u32_cast(c, 10u32);
    }
}

/// Bytes after a complete run are never read: where a run on `input`
/// succeeds and `input` ends with a line feed, appending any valid UTF-8
/// bytes leaves the outcome, and so the result and the coverage points
/// reached, as they were.
pub proof fn law_trailing_bytes_are_ignored(input: Seq<u8>, extra: Seq<u8>)
    requires
        input_outcome(input).ok,
        input.len() > 0,
        input.last() == 10,
        valid_utf8(extra),
    ensures
        input_outcome(input + extra) == input_outcome(input),
{
    lemma_decode_concat(input, extra);
    lemma_ends_line_bytes(input);
    law_trailing_text_is_ignored(decode_utf8(input), decode_utf8(extra));
}

proof fn lemma_pop_first_shorter(bytes: Seq<u8>)
    requires
        valid_first_scalar(bytes),
    ensures
        1 <= length_of_first_scalar(bytes) <= bytes.len(),
        pop_first_scalar(bytes).len() < bytes.len(),
{
}

/// A valid prefix can be stripped from a valid sequence, leaving a valid one.
proof fn lemma_valid_strip(w: Seq<u8>, b: Seq<u8>)
    requires
        valid_utf8(w),
        valid_utf8(w + b),
    ensures
        valid_utf8(b),
    decreases w.len(),
{
    if w.len() == 0 {
        assert(w + b =~= b);
    } else {
        let rest = pop_first_scalar(w);
        lemma_pop_first_shorter(w);
        assert(pop_first_scalar(w + b) =~= rest + b);
        lemma_valid_strip(rest, b);
    }
}

/// A valid sequence splits into two valid ones before a byte that is not a
/// continuation byte.
proof fn lemma_split_before_leading(p: Seq<u8>, q: Seq<u8>)
    requires
        valid_utf8(p + q),
        q.len() > 0,
        !is_continuation_byte(q[0]),
    ensures
        valid_utf8(p),
        valid_utf8(q),
{
    let x = p + q;
    assert(x[p.len() as int] == q[0]);
    vstd::utf8::is_char_boundary_iff_not_is_continuation_byte(x, p.len() as int);
    vstd::utf8::valid_utf8_split(x, p.len() as int);
    assert(x.subrange(0, p.len() as int) =~= p);
    assert(x.subrange(p.len() as int, x.len() as int) =~= q);
}

/// The encoding of a line feed is the single byte 10.
proof fn lemma_newline_encoding()
    ensures
        encode_utf8(seq!['\n']) == seq![10u8],
        valid_utf8(seq![10u8]),
        decode_utf8(seq![10u8]) == seq!['\n'],
{
    let nl = seq!['\n'];
    assert(nl.drop_first() =~= Seq::<char>::empty());
    assert(('\n' as u32) == 10);
    assert((10u32 & 0x7F) as u8 == 10u8) by (bit_vector);
    assert(encode_scalar(10u32) =~= seq![10u8]);
    assert(encode_utf8(Seq::<char>::empty()) =~= Seq::<u8>::empty());
    assert(nl[0] == '\n');
    assert(encode_utf8(nl) == encode_scalar(nl[0] as u32) + encode_utf8(nl.drop_first()));
    assert(encode_utf8(nl) =~= seq![10u8]);
    vstd::utf8::encode_utf8_valid_utf8(nl);
    vstd::utf8::encode_utf8_decode_utf8(nl);
}

/// A valid sequence splits into two valid ones after a line feed.
proof fn lemma_split_after_newline(a: Seq<u8>, q: Seq<u8>)
    requires
        a.len() > 0,
        a.last() == 10,
        valid_utf8(a + q),
    ensures
        valid_utf8(a),
        valid_utf8(q),
{
    let a1 = a.drop_last();
    assert(a + q =~= a1 + (seq![10u8] + q));
    lemma_split_before_leading(a1, seq![10u8] + q);
    lemma_newline_encoding();
    lemma_valid_strip(seq![10u8], q);
    vstd::utf8::valid_utf8_concat(a1, seq![10u8]);
    assert(a1 + seq![10u8] =~= a);
}

/// `a` is empty or ends with a line feed byte.
pub open spec fn ends_line_bytes(a: Seq<u8>) -> bool {
    a.len() == 0 || a.last() == 10
}

/// `b` is empty or starts with a line feed byte.
pub open spec fn starts_line_bytes(b: Seq<u8>) -> bool {
    b.len() == 0 || b[0] == 10
}

/// Inserting valid bytes after a line feed keeps the sequence valid, or
/// invalid, as it was; the valid parts decode piecewise.
proof fn lemma_insert_after_line(a: Seq<u8>, w: Seq<u8>, b: Seq<u8>)
    requires
        ends_line_bytes(a),
        valid_utf8(w),
    ensures
        valid_utf8(a + w + b) == valid_utf8(a + b),
        valid_utf8(a + b) ==> valid_utf8(a) && valid_utf8(b),
{
    assert(a + w + b =~= a + (w + b));
    if a.len() == 0 {
        assert(a + b =~= b);
        assert(a + (w + b) =~= w + b);
        if valid_utf8(w + b) {
            lemma_valid_strip(w, b);
        }
        if valid_utf8(b) {
            vstd::utf8::valid_utf8_concat(w, b);
        }
    } else {
        if valid_utf8(a + (w + b)) {
            lemma_split_after_newline(a, w + b);
            lemma_valid_strip(w, b);
            vstd::utf8::valid_utf8_concat(a, b);
        }
        if valid_utf8(a + b) {
            lemma_split_after_newline(a, b);
            vstd::utf8::valid_utf8_concat(w, b);
            vstd::utf8::valid_utf8_concat(a, w + b);
        }
    }
}

/// Inserting valid bytes before a line feed keeps the sequence valid, or
/// invalid, as it was.
proof fn lemma_insert_before_line(p: Seq<u8>, w: Seq<u8>, q: Seq<u8>)
    requires
        starts_line_bytes(q),
        valid_utf8(w),
    ensures
        valid_utf8(p + w + q) == valid_utf8(p + q),
{
    assert(p + w + q =~= p + (w + q));
    if valid_utf8(p + (w + q)) {
        if w.len() == 0 {
            assert(p + (w + q) =~= p + q);
        } else {
            lemma_pop_first_shorter(w);
            assert((w + q)[0] == w[0]);
            lemma_split_before_leading(p, w + q);
            lemma_valid_strip(w, q);
            vstd::utf8::valid_utf8_concat(p, q);
        }
    }
    if valid_utf8(p + q) {
        if q.len() == 0 {
            assert(p + q =~= p);
            assert(w + q =~= w);
        } else {
            lemma_split_before_leading(p, q);
        }
        vstd::utf8::valid_utf8_concat(w, q);
        vstd::utf8::valid_utf8_concat(p, w + q);
    }
}

/// The text of a valid input that starts with a line feed starts a line.
proof fn lemma_starts_line_bytes(b: Seq<u8>)
    requires
        valid_utf8(b),
        starts_line_bytes(b),
    ensures
        starts_line(decode_utf8(b)),
{
    if b.len() > 0 {
        let rest = b.drop_first();
        assert(b =~= seq![10u8] + rest);
        lemma_newline_encoding();
        lemma_valid_strip(seq![10u8], rest);
        lemma_decode_concat(seq![10u8], rest);
    }
}

/// Blank lines change nothing, on any input: inserting, after a line feed
/// (or at the start), the UTF-8 encoding of a line that holds only
/// whitespace leaves the run's outcome as it was, whether or not the input
/// is valid UTF-8.
pub proof fn law_blank_line_changes_nothing_in_input(a: Seq<u8>, w: Seq<char>, b: Seq<u8>)
    requires
        ends_line_bytes(a),
        all_whitespace(w),
        single_line(w),
    ensures
        input_outcome(a + encode_utf8(w.push('\n')) + b) == input_outcome(a + b),
{
    let wl = encode_utf8(w.push('\n'));
    vstd::utf8::encode_utf8_valid_utf8(w.push('\n'));
    vstd::utf8::encode_utf8_decode_utf8(w.push('\n'));
    lemma_insert_after_line(a, wl, b);
    if valid_utf8(a + b) {
        let da = decode_utf8(a);
        let db = decode_utf8(b);
        lemma_decode_concat(a, b);
        lemma_decode_concat(a, wl);
        vstd::utf8::valid_utf8_concat(a, wl);
        lemma_decode_concat(a + wl, b);
        if a.len() > 0 {
            lemma_ends_line_bytes(a);
        }
        assert(da + w.push('\n') + db == decode_utf8(a + wl + b));
        law_blank_line_changes_nothing_in_a_run(da, w, db);
    }
}

/// Spaces at the edges of a line change nothing, on any input: padding the
/// encoding of a line's text `c`, placed after a line feed (or at the start)
/// and before one (or at the end), with encoded whitespace leaves the run's
/// outcome as it was, whether or not the input is valid UTF-8.
pub proof fn law_line_padding_changes_nothing_in_input(
    a: Seq<u8>,
    w1: Seq<char>,
    c: Seq<char>,
    w2: Seq<char>,
    b: Seq<u8>,
)
    requires
        ends_line_bytes(a),
        starts_line_bytes(b),
        all_whitespace(w1),
        all_whitespace(w2),
        single_line(w1),
        single_line(w2),
        single_line(c),
    ensures
        input_outcome(a + encode_utf8(w1) + encode_utf8(c) + encode_utf8(w2) + b) == input_outcome(
            a + encode_utf8(c) + b,
        ),
{
    let e1 = encode_utf8(w1);
    let ec = encode_utf8(c);
    let e2 = encode_utf8(w2);
    vstd::utf8::encode_utf8_valid_utf8(w1);
    vstd::utf8::encode_utf8_valid_utf8(c);
    vstd::utf8::encode_utf8_valid_utf8(w2);
    vstd::utf8::encode_utf8_decode_utf8(w1);
    vstd::utf8::encode_utf8_decode_utf8(c);
    vstd::utf8::encode_utf8_decode_utf8(w2);
    let rest = ec + e2 + b;
    assert(a + e1 + ec + e2 + b =~= a + e1 + rest);
    lemma_insert_after_line(a, e1, rest);
    assert(a + rest =~= (a + ec) + e2 + b);
    lemma_insert_before_line(a + ec, e2, b);
    assert((a + ec) + b =~= a + (ec + b));
    lemma_insert_after_line(a, ec, b);
    if valid_utf8(a + ec + b) {
        assert(valid_utf8(a) && valid_utf8(b));
        if a.len() > 0 {
            lemma_ends_line_bytes(a);
        }
        lemma_starts_line_bytes(b);
        let da = decode_utf8(a);
        let db = decode_utf8(b);
        vstd::utf8::valid_utf8_concat(a, e1);
        vstd::utf8::valid_utf8_concat(a + e1, ec);
        vstd::utf8::valid_utf8_concat(a + e1 + ec, e2);
        lemma_decode_concat(a, e1);
        lemma_decode_concat(a + e1, ec);
        lemma_decode_concat(a + e1 + ec, e2);
        lemma_decode_concat(a + e1 + ec + e2, b);
        vstd::utf8::valid_utf8_concat(a, ec);
        lemma_decode_concat(a, ec);
        lemma_decode_concat(a + ec, b);
        law_line_padding_changes_nothing_in_a_run(da, w1, c, w2, db);
    }
}

} // verus!
