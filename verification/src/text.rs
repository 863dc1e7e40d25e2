//! The text handling of the example target's input format: Unicode
//! whitespace, trimming, splitting into lines and words, and decimal parsing
//! of `usize` values.

use vstd::prelude::*;

verus! {

/// Unicode whitespace (the `White_Space` property), as `char::is_whitespace`
/// decides it.
pub open spec fn is_whitespace_spec(c: char) -> bool {
    let u = c as u32;
    ||| 0x9 <= u <= 0xD
    ||| u == 0x20
    ||| u == 0x85
    ||| u == 0xA0
    ||| u == 0x1680
    ||| 0x2000 <= u <= 0x200A
    ||| u == 0x2028
    ||| u == 0x2029
    ||| u == 0x202F
    ||| u == 0x205F
    ||| u == 0x3000
}

/// Whether `c` is Unicode whitespace.
pub fn is_whitespace(c: char) -> (r: bool)
    ensures
        r == is_whitespace_spec(c),
{
    let u = c as u32;
    (0x9 <= u && u <= 0xD) || u == 0x20 || u == 0x85 || u == 0xA0 || u == 0x1680 || (0x2000 <= u
        && u <= 0x200A) || u == 0x2028 || u == 0x2029 || u == 0x202F || u == 0x205F || u == 0x3000
}

/// `s` without its leading whitespace.
pub open spec fn trim_start(s: Seq<char>) -> Seq<char>
    decreases s.len(),
{
    if s.len() > 0 && is_whitespace_spec(s[0]) {
        trim_start(s.drop_first())
    } else {
        s
    }
}

/// `s` without its trailing whitespace.
pub open spec fn trim_end(s: Seq<char>) -> Seq<char>
    decreases s.len(),
{
    if s.len() > 0 && is_whitespace_spec(s.last()) {
        trim_end(s.drop_last())
    } else {
        s
    }
}

/// `s` without leading and trailing whitespace.
pub open spec fn trim(s: Seq<char>) -> Seq<char> {
    trim_end(trim_start(s))
}

/// The separator of lines (`'\n'`) or, with `by_whitespace`, of words (any
/// whitespace).
pub open spec fn is_separator(c: char, by_whitespace: bool) -> bool {
    if by_whitespace {
        is_whitespace_spec(c)
    } else {
        c == '\n'
    }
}

/// The pieces of `s` between separators, in order, empty ones included:
/// one more than there are separators.
pub open spec fn pieces(s: Seq<char>, by_whitespace: bool) -> Seq<Seq<char>>
    decreases s.len(),
{
    if s.len() == 0 {
        seq![Seq::empty()]
    } else {
        let p = pieces(s.drop_last(), by_whitespace);
        if is_separator(s.last(), by_whitespace) {
            p.push(Seq::empty())
        } else {
            p.update(p.len() - 1, p.last().push(s.last()))
        }
    }
}

/// The pieces, each trimmed, with the empty ones left out.
pub open spec fn trimmed_nonempty(ps: Seq<Seq<char>>) -> Seq<Seq<char>>
    decreases ps.len(),
{
    if ps.len() == 0 {
        Seq::empty()
    } else if trim(ps.last()).len() > 0 {
        trimmed_nonempty(ps.drop_last()).push(trim(ps.last()))
    } else {
        trimmed_nonempty(ps.drop_last())
    }
}

/// The pieces with the empty ones left out.
pub open spec fn nonempty(ps: Seq<Seq<char>>) -> Seq<Seq<char>>
    decreases ps.len(),
{
    if ps.len() == 0 {
        Seq::empty()
    } else if ps.last().len() > 0 {
        nonempty(ps.drop_last()).push(ps.last())
    } else {
        nonempty(ps.drop_last())
    }
}

/// The lines of `s`, trimmed, with the blank ones left out (what
/// `s.lines().map(str::trim).filter(|l| !l.is_empty())` yields).
pub open spec fn nonblank_lines_spec(s: Seq<char>) -> Seq<Seq<char>> {
    trimmed_nonempty(pieces(s, false))
}

/// The words of `s`: its maximal runs of non-whitespace characters (what
/// `s.split_whitespace()` yields).
pub open spec fn words_spec(s: Seq<char>) -> Seq<Seq<char>> {
    nonempty(pieces(s, true))
}

/// Every character of `s` is whitespace.
pub open spec fn all_whitespace(s: Seq<char>) -> bool {
    forall|i: int| 0 <= i < s.len() ==> is_whitespace_spec(#[trigger] s[i])
}

/// No character of `s` is a line break.
pub open spec fn single_line(s: Seq<char>) -> bool {
    forall|i: int| 0 <= i < s.len() ==> #[trigger] s[i] != '\n'
}

/// `s` is empty or ends with a line break.
pub open spec fn ends_line(s: Seq<char>) -> bool {
    s.len() == 0 || s.last() == '\n'
}

/// `s` is empty or starts with a line break.
pub open spec fn starts_line(s: Seq<char>) -> bool {
    s.len() == 0 || s[0] == '\n'
}

proof fn lemma_pieces_nonempty(s: Seq<char>, by_whitespace: bool)
    ensures
        pieces(s, by_whitespace).len() >= 1,
    decreases s.len(),
{
    if s.len() > 0 {
        lemma_pieces_nonempty(s.drop_last(), by_whitespace);
    }
}

/// The pieces of a concatenation: those of `a` and of `b`, the last of
/// `a`'s joined with the first of `b`'s.
proof fn lemma_pieces_concat(a: Seq<char>, b: Seq<char>, by_whitespace: bool)
    ensures
        pieces(a + b, by_whitespace) == pieces(a, by_whitespace).drop_last() + seq![
            pieces(a, by_whitespace).last() + pieces(b, by_whitespace)[0],
        ] + pieces(b, by_whitespace).drop_first(),
    decreases b.len(),
{
    lemma_pieces_nonempty(a, by_whitespace);
    lemma_pieces_nonempty(b, by_whitespace);
    let pa = pieces(a, by_whitespace);
    if b.len() == 0 {
        assert(a + b =~= a);
        assert(pa.last() + pieces(b, by_whitespace)[0] =~= pa.last());
        assert(pa.drop_last() + seq![pa.last()] + pieces(b, by_whitespace).drop_first() =~= pa);
    } else {
        let b1 = b.drop_last();
        let c = b.last();
        lemma_pieces_concat(a, b1, by_whitespace);
        lemma_pieces_nonempty(b1, by_whitespace);
        assert((a + b).drop_last() =~= a + b1);
        assert((a + b).last() == c);
        let q1 = pieces(b1, by_whitespace);
        let r1 = pieces(a + b1, by_whitespace);
        if is_separator(c, by_whitespace) {
            assert(pieces(b, by_whitespace) == q1.push(Seq::empty()));
            assert(r1.push(Seq::empty()) =~= pa.drop_last() + seq![pa.last() + q1.push(Seq::empty())[0]]
                + q1.push(Seq::empty()).drop_first());
        } else {
            let q = q1.update(q1.len() - 1, q1.last().push(c));
            assert(pieces(b, by_whitespace) == q);
            if q1.len() == 1 {
                assert(r1.update(r1.len() - 1, r1.last().push(c)) =~= pa.drop_last() + seq![
                    pa.last() + q[0],
                ] + q.drop_first());
            } else {
                assert(r1.update(r1.len() - 1, r1.last().push(c)) =~= pa.drop_last() + seq![
                    pa.last() + q[0],
                ] + q.drop_first());
            }
        }
    }
}

/// Trimming pieces and leaving out the empty ones goes piecewise over a
/// concatenation.
proof fn lemma_trimmed_nonempty_concat(x: Seq<Seq<char>>, y: Seq<Seq<char>>)
    ensures
        trimmed_nonempty(x + y) == trimmed_nonempty(x) + trimmed_nonempty(y),
    decreases y.len(),
{
    if y.len() == 0 {
        assert(x + y =~= x);
        assert(trimmed_nonempty(x) + trimmed_nonempty(y) =~= trimmed_nonempty(x));
    } else {
        lemma_trimmed_nonempty_concat(x, y.drop_last());
        assert((x + y).drop_last() =~= x + y.drop_last());
        assert((x + y).last() == y.last());
        if trim(y.last()).len() > 0 {
            assert(trimmed_nonempty(x) + trimmed_nonempty(y) =~= (trimmed_nonempty(x)
                + trimmed_nonempty(y.drop_last())).push(trim(y.last())));
        }
    }
}

/// The lines of a text whose first part ends a line are those of the first
/// part followed by those of the rest.
pub proof fn lemma_lines_concat(a: Seq<char>, b: Seq<char>)
    requires
        ends_line(a),
    ensures
        nonblank_lines_spec(a + b) == nonblank_lines_spec(a) + nonblank_lines_spec(b),
{
    lemma_pieces_concat(a, b, false);
    lemma_pieces_nonempty(a, false);
    lemma_pieces_nonempty(b, false);
    let pa = pieces(a, false);
    let pb = pieces(b, false);
    assert(pa.last().len() == 0) by {
        if a.len() > 0 {
            assert(pa == pieces(a.drop_last(), false).push(Seq::empty()));
        }
    }
    assert(pa.last() + pb[0] =~= pb[0]);
    assert(pa.drop_last() + seq![pb[0]] + pb.drop_first() =~= pa.drop_last() + pb);
    lemma_trimmed_nonempty_concat(pa.drop_last(), pb);
    lemma_trimmed_nonempty_concat(pa.drop_last(), seq![pa.last()]);
    assert(pa.drop_last() + seq![pa.last()] =~= pa);
    assert(trim(pa.last()) =~= Seq::<char>::empty());
    assert(trimmed_nonempty(seq![pa.last()]) =~= Seq::<Seq<char>>::empty()) by {
        assert(seq![pa.last()].drop_last() =~= Seq::<Seq<char>>::empty());
    }
}

proof fn lemma_trim_start_whitespace_prefix(w: Seq<char>, x: Seq<char>)
    requires
        all_whitespace(w),
    ensures
        trim_start(w + x) == trim_start(x),
    decreases w.len(),
{
    if w.len() > 0 {
        assert((w + x)[0] == w[0]);
        assert((w + x).drop_first() =~= w.drop_first() + x);
        lemma_trim_start_whitespace_prefix(w.drop_first(), x);
    } else {
        assert(w + x =~= x);
    }
}

proof fn lemma_trim_end_whitespace_suffix(x: Seq<char>, w: Seq<char>)
    requires
        all_whitespace(w),
    ensures
        trim_end(x + w) == trim_end(x),
    decreases w.len(),
{
    if w.len() > 0 {
        assert((x + w).last() == w.last());
        assert((x + w).drop_last() =~= x + w.drop_last());
        lemma_trim_end_whitespace_suffix(x, w.drop_last());
    } else {
        assert(x + w =~= x);
    }
}

proof fn lemma_trim_start_concat(x: Seq<char>, y: Seq<char>)
    ensures
        trim_start(x + y) == if trim_start(x).len() > 0 {
            trim_start(x) + y
        } else {
            trim_start(y)
        },
    decreases x.len(),
{
    if x.len() == 0 {
        assert(x + y =~= y);
    } else {
        assert((x + y)[0] == x[0]);
        assert((x + y).drop_first() =~= x.drop_first() + y);
        lemma_trim_start_concat(x.drop_first(), y);
    }
}

proof fn lemma_trim_all_whitespace(w: Seq<char>)
    requires
        all_whitespace(w),
    ensures
        trim_start(w).len() == 0,
        trim(w).len() == 0,
{
    lemma_trim_start_whitespace_prefix(w, Seq::empty());
    assert(w + Seq::<char>::empty() =~= w);
}

/// Whitespace around a line's text does not change its trimmed form.
pub proof fn lemma_trim_padding(w1: Seq<char>, c: Seq<char>, w2: Seq<char>)
    requires
        all_whitespace(w1),
        all_whitespace(w2),
    ensures
        trim(w1 + c + w2) == trim(c),
{
    assert(w1 + c + w2 =~= w1 + (c + w2));
    lemma_trim_start_whitespace_prefix(w1, c + w2);
    lemma_trim_start_concat(c, w2);
    if trim_start(c).len() > 0 {
        lemma_trim_end_whitespace_suffix(trim_start(c), w2);
    } else {
        lemma_trim_all_whitespace(w2);
        assert(trim_end(trim_start(c)).len() == 0);
    }
}

/// A line holding only whitespace is blank: it adds no line.
proof fn lemma_trimmed_nonempty_single(y: Seq<char>)
    ensures
        trimmed_nonempty(seq![y]) == if trim(y).len() > 0 {
            seq![trim(y)]
        } else {
            Seq::<Seq<char>>::empty()
        },
{
    let e = seq![y].drop_last();
    assert(e =~= Seq::<Seq<char>>::empty());
    assert(trimmed_nonempty(e) == Seq::<Seq<char>>::empty());
    assert(seq![y].last() == y);
    assert(Seq::<Seq<char>>::empty().push(trim(y)) =~= seq![trim(y)]);
}

proof fn lemma_whitespace_line(w: Seq<char>)
    requires
        all_whitespace(w),
        single_line(w),
    ensures
        nonblank_lines_spec(w.push('\n')) == Seq::<Seq<char>>::empty(),
        nonblank_lines_spec(w) == Seq::<Seq<char>>::empty(),
{
    lemma_single_line_pieces(w);
    lemma_trim_all_whitespace(w);
    lemma_trimmed_nonempty_single(w);
    lemma_trimmed_nonempty_single(Seq::<char>::empty());
    lemma_trim_all_whitespace(Seq::<char>::empty());
    let w1 = w.push('\n');
    assert(w1.drop_last() =~= w);
    assert(w1.last() == '\n');
    assert(pieces(w1, false) == seq![w].push(Seq::<char>::empty()));
    assert(seq![w].push(Seq::<char>::empty()) =~= seq![w] + seq![Seq::<char>::empty()]);
    lemma_trimmed_nonempty_concat(seq![w], seq![Seq::<char>::empty()]);
}

proof fn lemma_single_line_pieces(c: Seq<char>)
    requires
        single_line(c),
    ensures
        pieces(c, false) == seq![c],
    decreases c.len(),
{
    if c.len() == 0 {
        assert(c =~= Seq::<char>::empty());
    } else {
        let c1 = c.drop_last();
        assert(single_line(c1)) by {
            assert forall|i: int| 0 <= i < c1.len() implies #[trigger] c1[i] != '\n' by {
                assert(c1[i] == c[i]);
            }
        }
        lemma_single_line_pieces(c1);
        assert(c[c.len() - 1] != '\n');
        assert(c1.push(c.last()) =~= c);
        assert(seq![c1].update(0, c1.push(c.last())) =~= seq![c]);
    }
}

/// The lines of a text made of one line's text `y` and the rest `b`,
/// where `b` is empty or starts a new line, depend on `y` only through its
/// trimmed form.
proof fn lemma_lines_of_line(y: Seq<char>, b: Seq<char>)
    requires
        single_line(y),
        starts_line(b),
    ensures
        nonblank_lines_spec(y + b) == (if trim(y).len() > 0 {
            seq![trim(y)]
        } else {
            Seq::<Seq<char>>::empty()
        }) + (if b.len() > 0 {
            nonblank_lines_spec(b.drop_first())
        } else {
            Seq::<Seq<char>>::empty()
        }),
{
    lemma_single_line_pieces(y);
    let one = if trim(y).len() > 0 {
        seq![trim(y)]
    } else {
        Seq::<Seq<char>>::empty()
    };
    lemma_trimmed_nonempty_single(y);
    if b.len() == 0 {
        assert(y + b =~= y);
        assert(one + Seq::<Seq<char>>::empty() =~= one);
    } else {
        let y1 = y.push('\n');
        assert(y + b =~= y1 + b.drop_first());
        lemma_lines_concat(y1, b.drop_first());
        assert(y1.drop_last() =~= y);
        assert(pieces(y1, false) == seq![y].push(Seq::empty()));
        lemma_trimmed_nonempty_concat(seq![y], seq![Seq::<char>::empty()]);
        assert(seq![y] + seq![Seq::<char>::empty()] =~= seq![y].push(Seq::empty()));
        lemma_trimmed_nonempty_single(Seq::<char>::empty());
        lemma_trim_all_whitespace(Seq::<char>::empty());
        assert(one + Seq::<Seq<char>>::empty() =~= one);
    }
}

/// Blank lines change nothing: inserting, at the start of a line, a line
/// that holds only whitespace leaves the text's non-blank lines as they
/// were.
pub proof fn law_blank_line_changes_nothing(a: Seq<char>, w: Seq<char>, b: Seq<char>)
    requires
        ends_line(a),
        all_whitespace(w),
        single_line(w),
    ensures
        nonblank_lines_spec(a + w.push('\n') + b) == nonblank_lines_spec(a + b),
{
    lemma_whitespace_line(w);
    let w1 = w.push('\n');
    assert(ends_line(a + w1));
    assert(a + w1 + b =~= a + (w1 + b));
    lemma_lines_concat(a, w1 + b);
    lemma_lines_concat(w1, b);
    lemma_lines_concat(a, b);
    assert(Seq::<Seq<char>>::empty() + nonblank_lines_spec(b) =~= nonblank_lines_spec(b));
}

/// Spaces at the edges of a line change nothing: padding a line's text `c`
/// with whitespace before and after leaves the text's non-blank lines as
/// they were.
pub proof fn law_line_padding_changes_nothing(
    a: Seq<char>,
    w1: Seq<char>,
    c: Seq<char>,
    w2: Seq<char>,
    b: Seq<char>,
)
    requires
        ends_line(a),
        starts_line(b),
        all_whitespace(w1),
        all_whitespace(w2),
        single_line(w1),
        single_line(w2),
        single_line(c),
    ensures
        nonblank_lines_spec(a + w1 + c + w2 + b) == nonblank_lines_spec(a + c + b),
{
    let y = w1 + c + w2;
    assert(single_line(y)) by {
        assert forall|i: int| 0 <= i < y.len() implies #[trigger] y[i] != '\n' by {
            if i < w1.len() {
                assert(y[i] == w1[i]);
            } else if i < w1.len() + c.len() {
                assert(y[i] == c[i - w1.len()]);
            } else {
                assert(y[i] == w2[i - w1.len() - c.len()]);
            }
        }
    }
    assert(a + w1 + c + w2 + b =~= a + (y + b));
    assert(a + c + b =~= a + (c + b));
    lemma_lines_concat(a, y + b);
    lemma_lines_concat(a, c + b);
    lemma_lines_of_line(y, b);
    lemma_lines_of_line(c, b);
    lemma_trim_padding(w1, c, w2);
}

/// `s` with leading and trailing whitespace removed.
pub fn trim_chars(s: &[char]) -> (t: Vec<char>)
    ensures
        t@ == trim(s@),
{
    let n = s.len();
    let mut start: usize = 0;
    assert(s@.subrange(0, n as int) =~= s@);
    while start < n && is_whitespace(s[start])
        invariant
            n == s@.len(),
            start <= n,
            trim_start(s@) == trim_start(s@.subrange(start as int, n as int)),
        decreases n - start,
    {
        assert(s@.subrange(start as int, n as int).drop_first() =~= s@.subrange(
            start + 1,
            n as int,
        ));
        start = start + 1;
    }
    assert(trim_start(s@.subrange(start as int, n as int)) == s@.subrange(start as int, n as int));
    let mut end: usize = n;
    while end > start && is_whitespace(s[end - 1])
        invariant
            n == s@.len(),
            start <= end <= n,
            trim(s@) == trim_end(s@.subrange(start as int, end as int)),
        decreases end - start,
    {
        assert(s@.subrange(start as int, end as int).drop_last() =~= s@.subrange(
            start as int,
            end - 1,
        ));
        end = end - 1;
    }
    let mut t: Vec<char> = Vec::new();
    let mut k: usize = start;
    while k < end
        invariant
            start <= k <= end <= n,
            n == s@.len(),
            t@ == s@.subrange(start as int, k as int),
        decreases end - k,
    {
        t.push(s[k]);
        k = k + 1;
        assert(t@ =~= s@.subrange(start as int, k as int));
    }
    t
}

/// The lines of `text`, trimmed, with the blank ones left out.
pub fn nonblank_lines(text: &[char]) -> (lines: Vec<Vec<char>>)
    ensures
        lines.deep_view() == nonblank_lines_spec(text@),
{
    split_pieces(text, false)
}

/// The words of `text`: its maximal runs of non-whitespace characters.
pub fn words(text: &[char]) -> (ws: Vec<Vec<char>>)
    ensures
        ws.deep_view() == words_spec(text@),
{
    split_pieces(text, true)
}

/// Keep `piece` (trimmed, for lines) where it is not empty.
fn keep_piece(out: &mut Vec<Vec<char>>, piece: &Vec<char>, by_whitespace: bool)
    ensures
        !by_whitespace ==> final(out).deep_view() == (if trim(piece@).len() > 0 {
            old(out).deep_view().push(trim(piece@))
        } else {
            old(out).deep_view()
        }),
        by_whitespace ==> final(out).deep_view() == (if piece@.len() > 0 {
            old(out).deep_view().push(piece@)
        } else {
            old(out).deep_view()
        }),
{
    let t = if by_whitespace {
        let mut c: Vec<char> = Vec::new();
        let mut k: usize = 0;
        while k < piece.len()
            invariant
                k <= piece@.len(),
                c@ == piece@.take(k as int),
            decreases piece@.len() - k,
        {
            c.push(piece[k]);
            k = k + 1;
            assert(c@ =~= piece@.take(k as int));
        }
        assert(piece@.take(piece@.len() as int) =~= piece@);
        c
    } else {
        trim_chars(piece.as_slice())
    };
    if t.len() > 0 {
        let ghost before = out.deep_view();
        assert(t.deep_view() =~= t@);
        out.push(t);
        assert(out.deep_view() =~= before.push(t@));
    }
}

/// Split `text` at separators and keep the non-empty pieces (trimmed, for
/// lines).
fn split_pieces(text: &[char], by_whitespace: bool) -> (out: Vec<Vec<char>>)
    ensures
        !by_whitespace ==> out.deep_view() == trimmed_nonempty(pieces(text@, false)),
        by_whitespace ==> out.deep_view() == nonempty(pieces(text@, true)),
{
    let n = text.len();
    let mut out: Vec<Vec<char>> = Vec::new();
    let mut cur: Vec<char> = Vec::new();
    let mut i: usize = 0;
    assert(out.deep_view() =~= Seq::<Seq<char>>::empty());
    while i < n
        invariant
            n == text@.len(),
            i <= n,
            pieces(text@.take(i as int), by_whitespace).len() >= 1,
            !by_whitespace ==> out.deep_view() == trimmed_nonempty(
                pieces(text@.take(i as int), false).drop_last(),
            ),
            by_whitespace ==> out.deep_view() == nonempty(
                pieces(text@.take(i as int), true).drop_last(),
            ),
            cur@ == pieces(text@.take(i as int), by_whitespace).last(),
        decreases n - i,
    {
        let c = text[i];
        let ghost pre = text@.take(i as int);
        let ghost p = pieces(pre, by_whitespace);
        assert(text@.take(i + 1).drop_last() =~= pre);
        assert(text@.take(i + 1).last() == c);
        let sep = if by_whitespace { is_whitespace(c) } else { c == '\n' };
        if sep {
            keep_piece(&mut out, &cur, by_whitespace);
            cur = Vec::new();
            assert(pieces(text@.take(i + 1), by_whitespace) == p.push(Seq::empty()));
            assert(p.push(Seq::<char>::empty()).drop_last() =~= p);
            assert(p.drop_last().push(p.last()) =~= p);
        } else {
            cur.push(c);
            assert(pieces(text@.take(i + 1), by_whitespace) == p.update(
                p.len() - 1,
                p.last().push(c),
            ));
            assert(p.update(p.len() - 1, p.last().push(c)).drop_last() =~= p.drop_last());
        }
        i = i + 1;
    }
    assert(text@.take(n as int) =~= text@);
    let ghost p = pieces(text@, by_whitespace);
    assert(p.drop_last().push(p.last()) =~= p);
    keep_piece(&mut out, &cur, by_whitespace);
    out
}

/// `c` is one of the ASCII digits `0` to `9`.
pub open spec fn is_ascii_digit(c: char) -> bool {
    48 <= (c as u32) <= 57
}

/// The value of the digit `c`.
pub open spec fn digit_value(c: char) -> nat {
    ((c as u32) - 48) as nat
}

/// The value of the decimal numeral `ds`, most significant digit first.
pub open spec fn decimal_value(ds: Seq<char>) -> nat
    decreases ds.len(),
{
    if ds.len() == 0 {
        0
    } else {
        decimal_value(ds.drop_last()) * 10 + digit_value(ds.last())
    }
}

/// Every character of `ds` is an ASCII digit.
pub open spec fn all_digits(ds: Seq<char>) -> bool {
    forall|i: int| 0 <= i < ds.len() ==> is_ascii_digit(#[trigger] ds[i])
}

/// The digits of an unsigned numeral: `s` without one leading `+`, where
/// something follows it.
pub open spec fn unsigned_digits(s: Seq<char>) -> Seq<char> {
    if s.len() > 1 && s[0] == '+' {
        s.drop_first()
    } else {
        s
    }
}

/// What `str::parse::<usize>` gives for `s`: an optional `+` followed by
/// one or more ASCII digits whose value fits in `usize`.
pub open spec fn parse_usize_spec(s: Seq<char>) -> Option<usize> {
    let ds = unsigned_digits(s);
    if ds.len() > 0 && all_digits(ds) && decimal_value(ds) <= usize::MAX {
        Some(decimal_value(ds) as usize)
    } else {
        None
    }
}

proof fn lemma_decimal_value_prefix(ds: Seq<char>, k: int)
    requires
        all_digits(ds),
        0 <= k <= ds.len(),
    ensures
        decimal_value(ds.take(k)) <= decimal_value(ds),
    decreases ds.len(),
{
    if k < ds.len() {
        let p = ds.drop_last();
        assert(all_digits(p)) by {
            assert forall|i: int| 0 <= i < p.len() implies is_ascii_digit(#[trigger] p[i]) by {
                assert(p[i] == ds[i]);
            }
        }
        lemma_decimal_value_prefix(p, k);
        assert(p.take(k) =~= ds.take(k));
    } else {
        assert(ds.take(k) =~= ds);
    }
}

/// Parse `s` as a decimal `usize`, as `str::parse::<usize>` does.
pub fn parse_usize(s: &[char]) -> (r: Option<usize>)
    ensures
        r == parse_usize_spec(s@),
{
    let n = s.len();
    let start: usize = if n > 1 && s[0] == '+' { 1 } else { 0 };
    let ghost ds = unsigned_digits(s@);
    assert(ds =~= s@.subrange(start as int, n as int));
    if start == n {
        return None;
    }
    let mut v: usize = 0;
    let mut i: usize = start;
    while i < n
        invariant
            n == s@.len(),
            start <= i <= n,
            ds == s@.subrange(start as int, n as int),
            ds == unsigned_digits(s@),
            all_digits(ds.take(i - start)),
            v == decimal_value(ds.take(i - start)),
        decreases n - i,
    {
        let c = s[i];
        let u = c as u32;
        let ghost k = i - start;
        assert(ds[k] == c);
        if u < 48 || u > 57 {
            assert(!all_digits(ds)) by {
                assert(!is_ascii_digit(ds[k]));
            }
            return None;
        }
        let d = (u - 48) as usize;
        assert(ds.take(k + 1).drop_last() =~= ds.take(k));
        assert(decimal_value(ds.take(k + 1)) == v * 10 + d);
        if v > (usize::MAX - d) / 10 {
            proof {
                assert(v * 10 + d > usize::MAX) by (nonlinear_arith)
                    requires
                        v > (usize::MAX - d) / 10,
                        d <= 9,
                ;
                if all_digits(ds) {
                    lemma_decimal_value_prefix(ds, k + 1);
                }
            }
            return None;
        }
        assert(v * 10 + d <= usize::MAX) by (nonlinear_arith)
            requires
                v <= (usize::MAX - d) / 10,
                d <= 9,
        ;
        v = v * 10 + d;
        i = i + 1;
        assert(all_digits(ds.take(i - start))) by {
            assert forall|j: int| 0 <= j < ds.take(k + 1).len() implies is_ascii_digit(
                #[trigger] ds.take(k + 1)[j],
            ) by {
                if j < k {
                    assert(ds.take(k + 1)[j] == ds.take(k)[j]);
                }
            }
        }
    }
    assert(ds.take(n - start) =~= ds);
    Some(v)
}

/// The characters of `s`, in order.
pub fn chars_of(s: &str) -> (cs: Vec<char>)
    ensures
        cs@ == s@,
{
    broadcast use vstd::string::group_string_axioms;
    let mut cs: Vec<char> = Vec::new();
    for c in it: s.chars()
        invariant
            cs@ == it.seq().take(it.index() as int),
    {
        cs.push(c);
    }
    cs
}

} // verus!
