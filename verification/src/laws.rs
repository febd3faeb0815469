//! Laws of the formatter, proved about the model in `model`.
//!
//! The executable `format` returns exactly `spec_format`, so each law stated
//! here carries over to it: when a pass succeeds and when it fails with which
//! error, that the output ends with exactly one newline, that it keeps the
//! structural content and the string literals of the input, and that a second
//! pass over the output reproduces it unchanged.
use vstd::prelude::*;

use crate::model::{
    dips_below_zero, fmt_cons, fmt_from, indent_at, is_closer, is_opener, is_space, lead,
    lemma_fmt_cons_assoc, lemma_fmt_cons_empty, lemma_lit_close_in_range, lemma_peak_at_least,
    lit_close, literals_from, lits_closed_from, peak_depth, spec_format, strip_from, Emitted,
    FormatError,
};

verus! {

/// The text a successful scan emits never ends with a newline: every chunk
/// ends with the token character it lays out, and a literal ends with its
/// closing quote.
proof fn lemma_emitted_no_trailing_newline(
    s: Seq<char>,
    i: int,
    depth: int,
    nl: bool,
    width: int,
    limit: int,
)
    ensures
        fmt_from(s, i, depth, nl, width, limit) matches Ok(e) ==> (e.text.len() > 0
            ==> e.text.last() != '\n'),
    decreases s.len() - i,
{
    if i < 0 || i >= s.len() {
    } else {
        let c = s[i];
        if is_space(c) {
            lemma_emitted_no_trailing_newline(s, i + 1, depth, nl, width, limit);
        } else if is_opener(c) {
            if depth + 1 < limit {
                lemma_emitted_no_trailing_newline(s, i + 1, depth + 1, true, width, limit);
            }
        } else if is_closer(c) {
            if depth > 0 {
                lemma_emitted_no_trailing_newline(s, i + 1, depth - 1, nl, width, limit);
            }
        } else if c == ',' {
            lemma_emitted_no_trailing_newline(s, i + 1, depth, true, width, limit);
        } else if c == ':' {
            lemma_emitted_no_trailing_newline(s, i + 1, depth, false, width, limit);
        } else if c == '"' {
            match lit_close(s, i + 1) {
                None => {},
                Some(j) => {
                    lemma_lit_close_in_range(s, i + 1);
                    lemma_emitted_no_trailing_newline(s, j + 1, depth, false, width, limit);
                },
            }
        } else {
            lemma_emitted_no_trailing_newline(s, i + 1, depth, false, width, limit);
        }
    }
}

/// Law: the output of a successful pass ends with exactly one newline,
/// whatever trailing whitespace the input had.
pub proof fn lemma_trailing_newline(s: Seq<char>, width: int, limit: int)
    ensures
        spec_format(s, width, limit) matches Ok(t) ==> t.len() >= 1 && t[t.len() - 1] == '\n' && (
        t.len() >= 2 ==> t[t.len() - 2] != '\n'),
{
    lemma_emitted_no_trailing_newline(s, 0, 0, false, width, limit);
}

/// A scan succeeds exactly when every literal is closed, no closer appears at
/// level zero, and the nesting depth stays below the ceiling.
proof fn lemma_outcome(s: Seq<char>, i: int, depth: int, nl: bool, width: int, limit: int)
    requires
        0 <= depth < limit,
    ensures
        fmt_from(s, i, depth, nl, width, limit) is Ok <==> (lits_closed_from(s, i)
            && !dips_below_zero(s, i, depth) && peak_depth(s, i, depth) < limit),
    decreases s.len() - i,
{
    if i < 0 || i >= s.len() {
    } else {
        let c = s[i];
        if is_space(c) {
            lemma_outcome(s, i + 1, depth, nl, width, limit);
        } else if is_opener(c) {
            if depth + 1 >= limit {
                lemma_peak_at_least(s, i + 1, depth + 1);
            } else {
                lemma_outcome(s, i + 1, depth + 1, true, width, limit);
            }
        } else if is_closer(c) {
            if depth > 0 {
                lemma_outcome(s, i + 1, depth - 1, nl, width, limit);
            }
        } else if c == ',' {
            lemma_outcome(s, i + 1, depth, true, width, limit);
        } else if c == ':' {
            lemma_outcome(s, i + 1, depth, false, width, limit);
        } else if c == '"' {
            match lit_close(s, i + 1) {
                None => {},
                Some(j) => {
                    lemma_lit_close_in_range(s, i + 1);
                    lemma_peak_at_least(s, j + 1, depth);
                    lemma_outcome(s, j + 1, depth, false, width, limit);
                },
            }
        } else {
            lemma_outcome(s, i + 1, depth, false, width, limit);
        }
    }
}

/// A clean scan whose nesting reaches the ceiling fails with `DepthExceeded`.
proof fn lemma_err_depth(s: Seq<char>, i: int, depth: int, nl: bool, width: int, limit: int)
    requires
        0 <= depth < limit,
        lits_closed_from(s, i),
        !dips_below_zero(s, i, depth),
        peak_depth(s, i, depth) >= limit,
    ensures
        fmt_from(s, i, depth, nl, width, limit) == Err::<Emitted, FormatError>(
            FormatError::DepthExceeded,
        ),
    decreases s.len() - i,
{
    if i < 0 || i >= s.len() {
    } else {
        let c = s[i];
        if is_space(c) {
            lemma_err_depth(s, i + 1, depth, nl, width, limit);
        } else if is_opener(c) {
            if depth + 1 < limit {
                lemma_err_depth(s, i + 1, depth + 1, true, width, limit);
            }
        } else if is_closer(c) {
            lemma_err_depth(s, i + 1, depth - 1, nl, width, limit);
        } else if c == ',' {
            lemma_err_depth(s, i + 1, depth, true, width, limit);
        } else if c == ':' {
            lemma_err_depth(s, i + 1, depth, false, width, limit);
        } else if c == '"' {
            match lit_close(s, i + 1) {
                None => {},
                Some(j) => {
                    lemma_lit_close_in_range(s, i + 1);
                    lemma_err_depth(s, j + 1, depth, false, width, limit);
                },
            }
        } else {
            lemma_err_depth(s, i + 1, depth, false, width, limit);
        }
    }
}

/// A scan that meets a closer at level zero, with closed literals and nesting
/// below the ceiling, fails with `UnbalancedStructure`.
proof fn lemma_err_unbalanced(s: Seq<char>, i: int, depth: int, nl: bool, width: int, limit: int)
    requires
        0 <= depth < limit,
        lits_closed_from(s, i),
        dips_below_zero(s, i, depth),
        peak_depth(s, i, depth) < limit,
    ensures
        fmt_from(s, i, depth, nl, width, limit) == Err::<Emitted, FormatError>(
            FormatError::UnbalancedStructure,
        ),
    decreases s.len() - i,
{
    if i < 0 || i >= s.len() {
    } else {
        let c = s[i];
        if is_space(c) {
            lemma_err_unbalanced(s, i + 1, depth, nl, width, limit);
        } else if is_opener(c) {
            lemma_peak_at_least(s, i + 1, depth + 1);
            lemma_err_unbalanced(s, i + 1, depth + 1, true, width, limit);
        } else if is_closer(c) {
            if depth > 0 {
                lemma_err_unbalanced(s, i + 1, depth - 1, nl, width, limit);
            }
        } else if c == ',' {
            lemma_err_unbalanced(s, i + 1, depth, true, width, limit);
        } else if c == ':' {
            lemma_err_unbalanced(s, i + 1, depth, false, width, limit);
        } else if c == '"' {
            match lit_close(s, i + 1) {
                None => {},
                Some(j) => {
                    lemma_lit_close_in_range(s, i + 1);
                    lemma_err_unbalanced(s, j + 1, depth, false, width, limit);
                },
            }
        } else {
            lemma_err_unbalanced(s, i + 1, depth, false, width, limit);
        }
    }
}

/// A scan with an open literal at the end of the input, but balanced and
/// below the ceiling up to there, fails with `UnterminatedString`.
proof fn lemma_err_unterminated(s: Seq<char>, i: int, depth: int, nl: bool, width: int, limit: int)
    requires
        0 <= depth < limit,
        !lits_closed_from(s, i),
        !dips_below_zero(s, i, depth),
        peak_depth(s, i, depth) < limit,
    ensures
        fmt_from(s, i, depth, nl, width, limit) == Err::<Emitted, FormatError>(
            FormatError::UnterminatedString,
        ),
    decreases s.len() - i,
{
    if i < 0 || i >= s.len() {
    } else {
        let c = s[i];
        if is_space(c) {
            lemma_err_unterminated(s, i + 1, depth, nl, width, limit);
        } else if is_opener(c) {
            lemma_peak_at_least(s, i + 1, depth + 1);
            lemma_err_unterminated(s, i + 1, depth + 1, true, width, limit);
        } else if is_closer(c) {
            lemma_err_unterminated(s, i + 1, depth - 1, nl, width, limit);
        } else if c == ',' {
            lemma_err_unterminated(s, i + 1, depth, true, width, limit);
        } else if c == ':' {
            lemma_err_unterminated(s, i + 1, depth, false, width, limit);
        } else if c == '"' {
            match lit_close(s, i + 1) {
                None => {},
                Some(j) => {
                    lemma_lit_close_in_range(s, i + 1);
                    lemma_err_unterminated(s, j + 1, depth, false, width, limit);
                },
            }
        } else {
            lemma_err_unterminated(s, i + 1, depth, false, width, limit);
        }
    }
}

/// Every character of an emitted lead (a newline and the indentation after
/// it) is whitespace.
proof fn lemma_lead_is_space(depth: int, nl: bool, width: int)
    ensures
        forall|t: int|
            0 <= t < lead(depth, nl, width).len() ==> is_space(#[trigger] lead(depth, nl, width)[t]),
{
    if nl {
        let l = lead(depth, nl, width);
        assert forall|t: int| 0 <= t < l.len() implies is_space(l[t]) by {
            if t == 0 {
                assert(l[0] == '\n');
            } else {
                assert(l[t] == indent_at(depth, width)[t - 1]);
                assert(l[t] == ' ');
            }
        }
    }
}

/// A scan, the structural content and the literal bodies are unchanged by
/// skipping a run of whitespace.
proof fn lemma_ws_skip(v: Seq<char>, a: int, b: int, depth: int, nl: bool, width: int, limit: int)
    requires
        0 <= a <= b <= v.len(),
        forall|t: int| a <= t < b ==> is_space(#[trigger] v[t]),
    ensures
        fmt_from(v, a, depth, nl, width, limit) == fmt_from(v, b, depth, nl, width, limit),
        strip_from(v, a) == strip_from(v, b),
        literals_from(v, a) == literals_from(v, b),
    decreases b - a,
{
    if a < b {
        lemma_ws_skip(v, a + 1, b, depth, nl, width, limit);
    }
}

/// A copy of the unscanned part of a literal body closes at the copied
/// closing quote: scanning the copy finds its end exactly where the original
/// scan did.
proof fn lemma_lit_close_copy(s: Seq<char>, a: int, j: int, v: Seq<char>, p: int)
    requires
        0 <= a,
        0 <= p,
        lit_close(s, a) == Some(j),
        p + (j - a) < v.len(),
        v.subrange(p, p + (j - a)) == s.subrange(a, j),
        v[p + (j - a)] == '"',
    ensures
        lit_close(v, p) == Some(p + (j - a)),
    decreases j - a,
{
    lemma_lit_close_in_range(s, a);
    assert(a <= j < s.len());
    if a < j {
        assert(v.subrange(p, p + (j - a))[0] == s.subrange(a, j)[0]);
        assert(v.subrange(p, p + (j - a))[0] == v[p]);
        assert(s.subrange(a, j)[0] == s[a]);
        if s[a] == '\\' {
            lemma_lit_close_in_range(s, a + 2);
            assert(v.subrange(p + 2, p + 2 + (j - (a + 2))) =~= s.subrange(a + 2, j)) by {
                assert forall|m: int|
                    0 <= m < j - (a + 2) implies v.subrange(p + 2, p + 2 + (j - (a + 2)))[m]
                    == #[trigger] s.subrange(a + 2, j)[m] by {
                    assert(v.subrange(p, p + (j - a))[m + 2] == s.subrange(a, j)[m + 2]);
                    assert(v.subrange(p, p + (j - a))[m + 2] == v[p + 2 + m]);
                    assert(s.subrange(a, j)[m + 2] == s[a + 2 + m]);
                    assert(v.subrange(p + 2, p + 2 + (j - (a + 2)))[m] == v[p + 2 + m]);
                    assert(s.subrange(a + 2, j)[m] == s[a + 2 + m]);
                }
            }
            lemma_lit_close_copy(s, a + 2, j, v, p + 2);
        } else {
            lemma_lit_close_in_range(s, a + 1);
            assert(v.subrange(p + 1, p + 1 + (j - (a + 1))) =~= s.subrange(a + 1, j)) by {
                assert forall|m: int|
                    0 <= m < j - (a + 1) implies v.subrange(p + 1, p + 1 + (j - (a + 1)))[m]
                    == #[trigger] s.subrange(a + 1, j)[m] by {
                    assert(v.subrange(p, p + (j - a))[m + 1] == s.subrange(a, j)[m + 1]);
                    assert(v.subrange(p, p + (j - a))[m + 1] == v[p + 1 + m]);
                    assert(s.subrange(a, j)[m + 1] == s[a + 1 + m]);
                    assert(v.subrange(p + 1, p + 1 + (j - (a + 1)))[m] == v[p + 1 + m]);
                    assert(s.subrange(a + 1, j)[m] == s[a + 1 + m]);
                }
            }
            lemma_lit_close_copy(s, a + 1, j, v, p + 1);
        }
    }
}

/// A window of `v` known to equal `a + b` has `b` as the window's tail.
proof fn lemma_window_tail(v: Seq<char>, k: int, a: Seq<char>, b: Seq<char>)
    requires
        0 <= k,
        k + a.len() + b.len() <= v.len(),
        v.subrange(k, k + a.len() + b.len()) == a + b,
    ensures
        v.subrange(k + a.len(), k + a.len() + b.len()) == b,
        forall|m: int| 0 <= m < a.len() ==> v[k + m] == #[trigger] a[m],
{
    assert forall|m: int| 0 <= m < a.len() implies v[k + m] == #[trigger] a[m] by {
        assert(v.subrange(k, k + a.len() + b.len())[m] == (a + b)[m]);
        assert(v.subrange(k, k + a.len() + b.len())[m] == v[k + m]);
        assert((a + b)[m] == a[m]);
    }
    assert(v.subrange(k + a.len(), k + a.len() + b.len()) =~= b) by {
        assert forall|m: int|
            0 <= m < b.len() implies v.subrange(k + a.len(), k + a.len() + b.len())[m]
            == #[trigger] b[m] by {
            assert(v.subrange(k, k + a.len() + b.len())[a.len() + m] == (a + b)[a.len() + m]);
            assert(v.subrange(k, k + a.len() + b.len())[a.len() + m] == v[k + a.len() + m]);
            assert((a + b)[a.len() + m] == b[m]);
            assert(v.subrange(k + a.len(), k + a.len() + b.len())[m] == v[k + a.len() + m]);
        }
    }
}

/// Scanning a copy of emitted text replays the scan that emitted it: it
/// re-emits the same text and ends in the same state, it has the same
/// structural content as the text the original scan consumed, and it carries
/// the same literal bodies. Each kind of token has its own lemma below;
/// this one dispatches on the character at the scan position.
proof fn lemma_replay(
    s: Seq<char>,
    i: int,
    depth: int,
    nl: bool,
    width: int,
    limit: int,
    v: Seq<char>,
    k: int,
)
    requires
        0 <= i,
        0 <= k,
        fmt_from(s, i, depth, nl, width, limit) is Ok,
        k + fmt_from(s, i, depth, nl, width, limit)->Ok_0.text.len() <= v.len(),
        v.subrange(k, k + fmt_from(s, i, depth, nl, width, limit)->Ok_0.text.len() as int)
            == fmt_from(s, i, depth, nl, width, limit)->Ok_0.text,
    ensures
        ({
            let e = fmt_from(s, i, depth, nl, width, limit)->Ok_0;
            &&& fmt_from(v, k, depth, nl, width, limit) == fmt_cons(
                e.text,
                fmt_from(v, k + e.text.len(), e.depth, e.nl, width, limit),
            )
            &&& strip_from(v, k) == strip_from(s, i) + strip_from(v, k + e.text.len())
            &&& literals_from(v, k) == literals_from(s, i) + literals_from(v, k + e.text.len())
        }),
    decreases s.len() - i, 1int,
{
    if i >= s.len() {
        lemma_fmt_cons_empty(fmt_from(v, k, depth, nl, width, limit));
        assert(Seq::<char>::empty() + strip_from(v, k) =~= strip_from(v, k));
        assert(Seq::<Seq<char>>::empty() + literals_from(v, k) =~= literals_from(v, k));
    } else {
        let c = s[i];
        if is_space(c) {
            lemma_replay(s, i + 1, depth, nl, width, limit, v, k);
        } else if is_opener(c) {
            lemma_replay_opener(s, i, depth, nl, width, limit, v, k);
        } else if is_closer(c) {
            lemma_replay_closer(s, i, depth, nl, width, limit, v, k);
        } else if c == ',' {
            lemma_replay_comma(s, i, depth, nl, width, limit, v, k);
        } else if c == ':' {
            lemma_replay_colon(s, i, depth, nl, width, limit, v, k);
        } else if c != '"' {
            lemma_replay_content(s, i, depth, nl, width, limit, v, k);
        } else {
            lemma_replay_literal(s, i, depth, nl, width, limit, v, k);
        }
    }
}

/// Replay of an opening bracket: an optional fresh line, then the bracket.
proof fn lemma_replay_opener(
    s: Seq<char>,
    i: int,
    depth: int,
    nl: bool,
    width: int,
    limit: int,
    v: Seq<char>,
    k: int,
)
    requires
        0 <= i < s.len(),
        is_opener(s[i]),
        0 <= k,
        fmt_from(s, i, depth, nl, width, limit) is Ok,
        k + fmt_from(s, i, depth, nl, width, limit)->Ok_0.text.len() <= v.len(),
        v.subrange(k, k + fmt_from(s, i, depth, nl, width, limit)->Ok_0.text.len() as int)
            == fmt_from(s, i, depth, nl, width, limit)->Ok_0.text,
    ensures
        ({
            let e = fmt_from(s, i, depth, nl, width, limit)->Ok_0;
            &&& fmt_from(v, k, depth, nl, width, limit) == fmt_cons(
                e.text,
                fmt_from(v, k + e.text.len(), e.depth, e.nl, width, limit),
            )
            &&& strip_from(v, k) == strip_from(s, i) + strip_from(v, k + e.text.len())
            &&& literals_from(v, k) == literals_from(s, i) + literals_from(v, k + e.text.len())
        }),
    decreases s.len() - i, 0int,
{
    let r = fmt_from(s, i, depth, nl, width, limit);
    let e = r->Ok_0;
    let c = s[i];
    let ll = lead(depth, nl, width);
    let cch = ll + seq![c];
    let r1 = fmt_from(s, i + 1, depth + 1, true, width, limit);
    assert(r == fmt_cons(cch, r1));
    let e1 = r1->Ok_0;
    assert(e.text == cch + e1.text);
    assert(v.subrange(k, k + cch.len() + e1.text.len()) == cch + e1.text);
    lemma_window_tail(v, k, cch, e1.text);
    lemma_lead_is_space(depth, nl, width);
    let p = k + ll.len();
    assert forall|t: int| k <= t < p implies is_space(v[t]) by {
        assert(v[t] == cch[t - k]);
        assert(cch[t - k] == ll[t - k]);
    }
    lemma_ws_skip(v, k, p, depth, nl, width, limit);
    assert(v[p] == cch[ll.len() as int]);
    assert(v[p] == c);
    assert(fmt_from(v, p, depth, nl, width, limit) == fmt_cons(
        cch,
        fmt_from(v, p + 1, depth + 1, true, width, limit),
    ));
    let k1 = k + cch.len();
    lemma_replay(s, i + 1, depth + 1, true, width, limit, v, k1);
    let x = fmt_from(v, k1 + e1.text.len(), e1.depth, e1.nl, width, limit);
    lemma_fmt_cons_assoc(cch, e1.text, x);
    assert(strip_from(v, p) == seq![c] + strip_from(v, p + 1));
    assert(strip_from(s, i) == seq![c] + strip_from(s, i + 1));
    assert(strip_from(v, k) =~= strip_from(s, i) + strip_from(v, k + e.text.len()));
    assert(literals_from(v, p) == literals_from(v, p + 1));
    assert(literals_from(v, k) =~= literals_from(s, i) + literals_from(v, k + e.text.len()));
}

/// Replay of a closing bracket: always a fresh line at the shallower level,
/// then the bracket.
proof fn lemma_replay_closer(
    s: Seq<char>,
    i: int,
    depth: int,
    nl: bool,
    width: int,
    limit: int,
    v: Seq<char>,
    k: int,
)
    requires
        0 <= i < s.len(),
        is_closer(s[i]),
        0 <= k,
        fmt_from(s, i, depth, nl, width, limit) is Ok,
        k + fmt_from(s, i, depth, nl, width, limit)->Ok_0.text.len() <= v.len(),
        v.subrange(k, k + fmt_from(s, i, depth, nl, width, limit)->Ok_0.text.len() as int)
            == fmt_from(s, i, depth, nl, width, limit)->Ok_0.text,
    ensures
        ({
            let e = fmt_from(s, i, depth, nl, width, limit)->Ok_0;
            &&& fmt_from(v, k, depth, nl, width, limit) == fmt_cons(
                e.text,
                fmt_from(v, k + e.text.len(), e.depth, e.nl, width, limit),
            )
            &&& strip_from(v, k) == strip_from(s, i) + strip_from(v, k + e.text.len())
            &&& literals_from(v, k) == literals_from(s, i) + literals_from(v, k + e.text.len())
        }),
    decreases s.len() - i, 0int,
{
    let r = fmt_from(s, i, depth, nl, width, limit);
    let e = r->Ok_0;
    let c = s[i];
    let ll = seq!['\n'] + indent_at(depth - 1, width);
    let cch = seq!['\n'] + indent_at(depth - 1, width) + seq![c];
    let r1 = fmt_from(s, i + 1, depth - 1, nl, width, limit);
    assert(r == fmt_cons(cch, r1));
    let e1 = r1->Ok_0;
    assert(e.text == cch + e1.text);
    assert(cch =~= ll + seq![c]);
    assert(v.subrange(k, k + cch.len() + e1.text.len()) == cch + e1.text);
    lemma_window_tail(v, k, cch, e1.text);
    assert forall|t: int| 0 <= t < ll.len() implies is_space(#[trigger] ll[t]) by {
        if t == 0 {
            assert(ll[0] == '\n');
        } else {
            assert(ll[t] == indent_at(depth - 1, width)[t - 1]);
            assert(ll[t] == ' ');
        }
    }
    let p = k + ll.len();
    assert forall|t: int| k <= t < p implies is_space(v[t]) by {
        assert(v[t] == cch[t - k]);
        assert(cch[t - k] == ll[t - k]);
    }
    lemma_ws_skip(v, k, p, depth, nl, width, limit);
    assert(v[p] == cch[ll.len() as int]);
    assert(v[p] == c);
    assert(fmt_from(v, p, depth, nl, width, limit) == fmt_cons(
        cch,
        fmt_from(v, p + 1, depth - 1, nl, width, limit),
    ));
    let k1 = k + cch.len();
    lemma_replay(s, i + 1, depth - 1, nl, width, limit, v, k1);
    let x = fmt_from(v, k1 + e1.text.len(), e1.depth, e1.nl, width, limit);
    lemma_fmt_cons_assoc(cch, e1.text, x);
    assert(strip_from(v, p) == seq![c] + strip_from(v, p + 1));
    assert(strip_from(s, i) == seq![c] + strip_from(s, i + 1));
    assert(strip_from(v, k) =~= strip_from(s, i) + strip_from(v, k + e.text.len()));
    assert(literals_from(v, p) == literals_from(v, p + 1));
    assert(literals_from(v, k) =~= literals_from(s, i) + literals_from(v, k + e.text.len()));
}

/// Replay of a comma: copied in place, the next token on a fresh line.
proof fn lemma_replay_comma(
    s: Seq<char>,
    i: int,
    depth: int,
    nl: bool,
    width: int,
    limit: int,
    v: Seq<char>,
    k: int,
)
    requires
        0 <= i < s.len(),
        s[i] == ',',
        0 <= k,
        fmt_from(s, i, depth, nl, width, limit) is Ok,
        k + fmt_from(s, i, depth, nl, width, limit)->Ok_0.text.len() <= v.len(),
        v.subrange(k, k + fmt_from(s, i, depth, nl, width, limit)->Ok_0.text.len() as int)
            == fmt_from(s, i, depth, nl, width, limit)->Ok_0.text,
    ensures
        ({
            let e = fmt_from(s, i, depth, nl, width, limit)->Ok_0;
            &&& fmt_from(v, k, depth, nl, width, limit) == fmt_cons(
                e.text,
                fmt_from(v, k + e.text.len(), e.depth, e.nl, width, limit),
            )
            &&& strip_from(v, k) == strip_from(s, i) + strip_from(v, k + e.text.len())
            &&& literals_from(v, k) == literals_from(s, i) + literals_from(v, k + e.text.len())
        }),
    decreases s.len() - i, 0int,
{
    let r = fmt_from(s, i, depth, nl, width, limit);
    let e = r->Ok_0;
    let c = s[i];
    let cch = seq![c];
    let r1 = fmt_from(s, i + 1, depth, true, width, limit);
    assert(r == fmt_cons(cch, r1));
    let e1 = r1->Ok_0;
    assert(e.text == cch + e1.text);
    assert(v.subrange(k, k + cch.len() + e1.text.len()) == cch + e1.text);
    lemma_window_tail(v, k, cch, e1.text);
    assert(v[k] == cch[0]);
    assert(v[k] == c);
    assert(fmt_from(v, k, depth, nl, width, limit) == fmt_cons(
        cch,
        fmt_from(v, k + 1, depth, true, width, limit),
    ));
    let k1 = k + 1;
    lemma_replay(s, i + 1, depth, true, width, limit, v, k1);
    let x = fmt_from(v, k1 + e1.text.len(), e1.depth, e1.nl, width, limit);
    lemma_fmt_cons_assoc(cch, e1.text, x);
    assert(strip_from(v, k) == seq![c] + strip_from(v, k + 1));
    assert(strip_from(s, i) == seq![c] + strip_from(s, i + 1));
    assert(strip_from(v, k) =~= strip_from(s, i) + strip_from(v, k + e.text.len()));
    assert(literals_from(v, k) == literals_from(v, k + 1));
    assert(literals_from(v, k) =~= literals_from(s, i) + literals_from(v, k + e.text.len()));
}

/// Replay of a colon: the second scan emits the colon and a space, then
/// skips the space it reads back.
proof fn lemma_replay_colon(
    s: Seq<char>,
    i: int,
    depth: int,
    nl: bool,
    width: int,
    limit: int,
    v: Seq<char>,
    k: int,
)
    requires
        0 <= i < s.len(),
        s[i] == ':',
        0 <= k,
        fmt_from(s, i, depth, nl, width, limit) is Ok,
        k + fmt_from(s, i, depth, nl, width, limit)->Ok_0.text.len() <= v.len(),
        v.subrange(k, k + fmt_from(s, i, depth, nl, width, limit)->Ok_0.text.len() as int)
            == fmt_from(s, i, depth, nl, width, limit)->Ok_0.text,
    ensures
        ({
            let e = fmt_from(s, i, depth, nl, width, limit)->Ok_0;
            &&& fmt_from(v, k, depth, nl, width, limit) == fmt_cons(
                e.text,
                fmt_from(v, k + e.text.len(), e.depth, e.nl, width, limit),
            )
            &&& strip_from(v, k) == strip_from(s, i) + strip_from(v, k + e.text.len())
            &&& literals_from(v, k) == literals_from(s, i) + literals_from(v, k + e.text.len())
        }),
    decreases s.len() - i, 0int,
{
    let r = fmt_from(s, i, depth, nl, width, limit);
    let e = r->Ok_0;
    let c = s[i];
    let cch = seq![c, ' '];
    let r1 = fmt_from(s, i + 1, depth, false, width, limit);
    assert(r == fmt_cons(cch, r1));
    let e1 = r1->Ok_0;
    assert(e.text == cch + e1.text);
    assert(v.subrange(k, k + cch.len() + e1.text.len()) == cch + e1.text);
    lemma_window_tail(v, k, cch, e1.text);
    assert(v[k] == cch[0]);
    assert(v[k] == c);
    assert(v[k + 1] == cch[1]);
    assert(v[k + 1] == ' ');
    assert(fmt_from(v, k, depth, nl, width, limit) == fmt_cons(
        cch,
        fmt_from(v, k + 1, depth, false, width, limit),
    ));
    lemma_ws_skip(v, k + 1, k + 2, depth, false, width, limit);
    let k1 = k + 2;
    lemma_replay(s, i + 1, depth, false, width, limit, v, k1);
    let x = fmt_from(v, k1 + e1.text.len(), e1.depth, e1.nl, width, limit);
    lemma_fmt_cons_assoc(cch, e1.text, x);
    assert(strip_from(v, k) == seq![c] + strip_from(v, k + 1));
    assert(strip_from(v, k + 1) == strip_from(v, k + 2));
    assert(strip_from(s, i) == seq![c] + strip_from(s, i + 1));
    assert(strip_from(v, k) =~= strip_from(s, i) + strip_from(v, k + e.text.len()));
    assert(literals_from(v, k) == literals_from(v, k + 1));
    assert(literals_from(v, k + 1) == literals_from(v, k + 2));
    assert(literals_from(v, k) =~= literals_from(s, i) + literals_from(v, k + e.text.len()));
}

/// Replay of a content character: an optional fresh line, then the character
/// verbatim.
proof fn lemma_replay_content(
    s: Seq<char>,
    i: int,
    depth: int,
    nl: bool,
    width: int,
    limit: int,
    v: Seq<char>,
    k: int,
)
    requires
        0 <= i < s.len(),
        !is_space(s[i]),
        !is_opener(s[i]),
        !is_closer(s[i]),
        s[i] != ',',
        s[i] != ':',
        s[i] != '"',
        0 <= k,
        fmt_from(s, i, depth, nl, width, limit) is Ok,
        k + fmt_from(s, i, depth, nl, width, limit)->Ok_0.text.len() <= v.len(),
        v.subrange(k, k + fmt_from(s, i, depth, nl, width, limit)->Ok_0.text.len() as int)
            == fmt_from(s, i, depth, nl, width, limit)->Ok_0.text,
    ensures
        ({
            let e = fmt_from(s, i, depth, nl, width, limit)->Ok_0;
            &&& fmt_from(v, k, depth, nl, width, limit) == fmt_cons(
                e.text,
                fmt_from(v, k + e.text.len(), e.depth, e.nl, width, limit),
            )
            &&& strip_from(v, k) == strip_from(s, i) + strip_from(v, k + e.text.len())
            &&& literals_from(v, k) == literals_from(s, i) + literals_from(v, k + e.text.len())
        }),
    decreases s.len() - i, 0int,
{
    let r = fmt_from(s, i, depth, nl, width, limit);
    let e = r->Ok_0;
    let c = s[i];
    let ll = lead(depth, nl, width);
    let cch = ll + seq![c];
    let r1 = fmt_from(s, i + 1, depth, false, width, limit);
    assert(r == fmt_cons(cch, r1));
    let e1 = r1->Ok_0;
    assert(e.text == cch + e1.text);
    assert(v.subrange(k, k + cch.len() + e1.text.len()) == cch + e1.text);
    lemma_window_tail(v, k, cch, e1.text);
    lemma_lead_is_space(depth, nl, width);
    let p = k + ll.len();
    assert forall|t: int| k <= t < p implies is_space(v[t]) by {
        assert(v[t] == cch[t - k]);
        assert(cch[t - k] == ll[t - k]);
    }
    lemma_ws_skip(v, k, p, depth, nl, width, limit);
    assert(v[p] == cch[ll.len() as int]);
    assert(v[p] == c);
    assert(fmt_from(v, p, depth, nl, width, limit) == fmt_cons(
        cch,
        fmt_from(v, p + 1, depth, false, width, limit),
    ));
    let k1 = k + cch.len();
    lemma_replay(s, i + 1, depth, false, width, limit, v, k1);
    let x = fmt_from(v, k1 + e1.text.len(), e1.depth, e1.nl, width, limit);
    lemma_fmt_cons_assoc(cch, e1.text, x);
    assert(strip_from(v, p) == seq![c] + strip_from(v, p + 1));
    assert(strip_from(s, i) == seq![c] + strip_from(s, i + 1));
    assert(strip_from(v, k) =~= strip_from(s, i) + strip_from(v, k + e.text.len()));
    assert(literals_from(v, p) == literals_from(v, p + 1));
    assert(literals_from(v, k) =~= literals_from(s, i) + literals_from(v, k + e.text.len()));
}

/// Replay of a string literal: an optional fresh line, the opening quote,
/// the body verbatim, and the closing quote.
proof fn lemma_replay_literal(
    s: Seq<char>,
    i: int,
    depth: int,
    nl: bool,
    width: int,
    limit: int,
    v: Seq<char>,
    k: int,
)
    requires
        0 <= i < s.len(),
        s[i] == '"',
        !is_space(s[i]),
        !is_opener(s[i]),
        !is_closer(s[i]),
        0 <= k,
        fmt_from(s, i, depth, nl, width, limit) is Ok,
        k + fmt_from(s, i, depth, nl, width, limit)->Ok_0.text.len() <= v.len(),
        v.subrange(k, k + fmt_from(s, i, depth, nl, width, limit)->Ok_0.text.len() as int)
            == fmt_from(s, i, depth, nl, width, limit)->Ok_0.text,
    ensures
        ({
            let e = fmt_from(s, i, depth, nl, width, limit)->Ok_0;
            &&& fmt_from(v, k, depth, nl, width, limit) == fmt_cons(
                e.text,
                fmt_from(v, k + e.text.len(), e.depth, e.nl, width, limit),
            )
            &&& strip_from(v, k) == strip_from(s, i) + strip_from(v, k + e.text.len())
            &&& literals_from(v, k) == literals_from(s, i) + literals_from(v, k + e.text.len())
        }),
    decreases s.len() - i, 0int,
{
    let r = fmt_from(s, i, depth, nl, width, limit);
    let e = r->Ok_0;
    match lit_close(s, i + 1) {
        None => {
            assert(false);
        },
        Some(j) => {
            lemma_lit_close_in_range(s, i + 1);
            let ll = lead(depth, nl, width);
            let body = s.subrange(i + 1, j);
            let cch = ll + seq!['"'] + body + seq!['"'];
            let r1 = fmt_from(s, j + 1, depth, false, width, limit);
            assert(r == fmt_cons(cch, r1));
            let e1 = r1->Ok_0;
            assert(e.text == cch + e1.text);
            assert(v.subrange(k, k + cch.len() + e1.text.len()) == cch + e1.text);
            lemma_window_tail(v, k, cch, e1.text);
            lemma_lead_is_space(depth, nl, width);
            let p = k + ll.len();
            assert forall|t: int| k <= t < p implies is_space(v[t]) by {
                assert(v[t] == cch[t - k]);
                assert(cch[t - k] == ll[t - k]);
            }
            lemma_ws_skip(v, k, p, depth, nl, width, limit);
            assert(v[p] == cch[ll.len() as int]);
            assert(cch[ll.len() as int] == '"') by {
                assert((ll + seq!['"'])[ll.len() as int] == '"');
                assert(cch[ll.len() as int] == (ll + seq!['"'])[ll.len() as int]);
            }
            let pv = p + 1;
            let jv = pv + body.len();
            assert(v.subrange(pv, pv + (j - (i + 1))) =~= body) by {
                assert forall|m: int|
                    0 <= m < body.len() implies v.subrange(pv, pv + (j - (i + 1)))[m]
                    == #[trigger] body[m] by {
                    assert(v[k + (ll.len() + 1 + m)] == cch[ll.len() + 1 + m]);
                    assert(cch[ll.len() + 1 + m] == body[m]) by {
                        assert((ll + seq!['"'] + body)[ll.len() + 1 + m] == body[m]);
                        assert(cch[ll.len() + 1 + m] == (ll + seq!['"'] + body)[ll.len() + 1 + m]);
                    }
                    assert(v.subrange(pv, pv + (j - (i + 1)))[m] == v[pv + m]);
                }
            }
            assert(v[jv] == cch[ll.len() + 1 + body.len() as int]);
            assert(cch[ll.len() + 1 + body.len() as int] == '"');
            lemma_lit_close_copy(s, i + 1, j, v, pv);
            assert(lit_close(v, pv) == Some(jv));
            assert(v.subrange(pv, jv) == body);
            assert(fmt_from(v, p, depth, nl, width, limit) == fmt_cons(
                ll + seq!['"'] + v.subrange(pv, jv) + seq!['"'],
                fmt_from(v, jv + 1, depth, false, width, limit),
            ));
            assert(ll + seq!['"'] + v.subrange(pv, jv) + seq!['"'] == cch);
            let k1 = k + cch.len();
            assert(jv + 1 == k1);
            lemma_replay(s, j + 1, depth, false, width, limit, v, k1);
            let x = fmt_from(v, k1 + e1.text.len(), e1.depth, e1.nl, width, limit);
            lemma_fmt_cons_assoc(cch, e1.text, x);
            // structural content keeps the whole quoted literal
            assert(strip_from(v, p) == seq!['"'] + v.subrange(pv, jv) + seq!['"'] + strip_from(
                v,
                jv + 1,
            ));
            assert(strip_from(s, i) == seq!['"'] + body + seq!['"'] + strip_from(s, j + 1));
            assert(strip_from(v, k) =~= strip_from(s, i) + strip_from(v, k + e.text.len()));
            // literal bodies: this one, then the rest
            assert(literals_from(v, p) == seq![v.subrange(pv, jv)] + literals_from(v, jv + 1));
            assert(literals_from(s, i) == seq![body] + literals_from(s, j + 1));
            assert(literals_from(v, k) =~= literals_from(s, i) + literals_from(
                v,
                k + e.text.len(),
            ));
        },
    }
}

/// Law: a formatting pass succeeds exactly when every string literal of the
/// input is closed, no closing bracket appears at nesting level zero, and the
/// nesting depth stays below the ceiling `limit`.
pub proof fn lemma_success_characterization(s: Seq<char>, width: int, limit: int)
    requires
        limit >= 1,
    ensures
        spec_format(s, width, limit) is Ok <==> (lits_closed_from(s, 0) && !dips_below_zero(
            s,
            0,
            0,
        ) && peak_depth(s, 0, 0) < limit),
{
    lemma_outcome(s, 0, 0, false, width, limit);
}

/// Law (depth ceiling): for a ceiling `limit`, an otherwise clean input
/// succeeds exactly when its nesting depth stays below the ceiling, and fails
/// with `DepthExceeded` as soon as some nesting level reaches it.
pub proof fn lemma_depth_ceiling(s: Seq<char>, width: int, limit: int)
    requires
        limit >= 1,
        lits_closed_from(s, 0),
        !dips_below_zero(s, 0, 0),
    ensures
        peak_depth(s, 0, 0) < limit <==> spec_format(s, width, limit) is Ok,
        peak_depth(s, 0, 0) >= limit ==> spec_format(s, width, limit) == Err::<
            Seq<char>,
            FormatError,
        >(FormatError::DepthExceeded),
{
    lemma_outcome(s, 0, 0, false, width, limit);
    if peak_depth(s, 0, 0) >= limit {
        lemma_err_depth(s, 0, 0, false, width, limit);
    }
}

/// Law (balance check): an input with a closing bracket at nesting level zero
/// (its literals closed and its nesting below the ceiling) fails with
/// `UnbalancedStructure`.
pub proof fn lemma_balance_check(s: Seq<char>, width: int, limit: int)
    requires
        limit >= 1,
        lits_closed_from(s, 0),
        dips_below_zero(s, 0, 0),
        peak_depth(s, 0, 0) < limit,
    ensures
        spec_format(s, width, limit) == Err::<Seq<char>, FormatError>(
            FormatError::UnbalancedStructure,
        ),
{
    lemma_err_unbalanced(s, 0, 0, false, width, limit);
}

/// Law (unterminated literal): an input whose last string literal is still
/// open at the end (balanced and below the ceiling up to there) fails with
/// `UnterminatedString`.
pub proof fn lemma_unterminated_literal(s: Seq<char>, width: int, limit: int)
    requires
        limit >= 1,
        !lits_closed_from(s, 0),
        !dips_below_zero(s, 0, 0),
        peak_depth(s, 0, 0) < limit,
    ensures
        spec_format(s, width, limit) == Err::<Seq<char>, FormatError>(
            FormatError::UnterminatedString,
        ),
{
    lemma_err_unterminated(s, 0, 0, false, width, limit);
}

/// Law (idempotence): formatting already-formatted output with the same
/// configuration returns it unchanged, byte for byte.
pub proof fn lemma_idempotence(s: Seq<char>, width: int, limit: int)
    requires
        spec_format(s, width, limit) is Ok,
    ensures
        spec_format(spec_format(s, width, limit)->Ok_0, width, limit) == spec_format(
            s,
            width,
            limit,
        ),
{
    let e = fmt_from(s, 0, 0, false, width, limit)->Ok_0;
    let t = e.text + seq!['\n'];
    assert(t.subrange(0, e.text.len() as int) =~= e.text);
    lemma_replay(s, 0, 0, false, width, limit, t, 0);
    assert forall|m: int| e.text.len() <= m < t.len() implies is_space(t[m]) by {
        assert(t[m] == seq!['\n'][m - e.text.len()]);
    }
    lemma_ws_skip(t, e.text.len() as int, t.len() as int, e.depth, e.nl, width, limit);
    assert(fmt_from(t, 0, 0, false, width, limit) == fmt_cons(
        e.text,
        fmt_from(t, e.text.len() as int, e.depth, e.nl, width, limit),
    ));
    assert(e.text + Seq::<char>::empty() =~= e.text);
}

/// Law (structural content preservation): stripping the whitespace that
/// stands outside string literals from the input and from the output leaves
/// the same character sequence — a pass moves whitespace and nothing else.
pub proof fn lemma_structure_preserved(s: Seq<char>, width: int, limit: int)
    requires
        spec_format(s, width, limit) is Ok,
    ensures
        strip_from(spec_format(s, width, limit)->Ok_0, 0) == strip_from(s, 0),
{
    let e = fmt_from(s, 0, 0, false, width, limit)->Ok_0;
    let t = e.text + seq!['\n'];
    assert(t.subrange(0, e.text.len() as int) =~= e.text);
    lemma_replay(s, 0, 0, false, width, limit, t, 0);
    assert forall|m: int| e.text.len() <= m < t.len() implies is_space(t[m]) by {
        assert(t[m] == seq!['\n'][m - e.text.len()]);
    }
    lemma_ws_skip(t, e.text.len() as int, t.len() as int, 0, false, width, limit);
    assert(strip_from(t, t.len() as int) == Seq::<char>::empty());
    assert(strip_from(s, 0) + Seq::<char>::empty() =~= strip_from(s, 0));
}

/// Law (string literal passthrough): the output carries the same literal
/// bodies, in the same order, as the input — every character between quotes,
/// escape pairs and whitespace included, appears there unchanged.
pub proof fn lemma_literals_preserved(s: Seq<char>, width: int, limit: int)
    requires
        spec_format(s, width, limit) is Ok,
    ensures
        literals_from(spec_format(s, width, limit)->Ok_0, 0) == literals_from(s, 0),
{
    let e = fmt_from(s, 0, 0, false, width, limit)->Ok_0;
    let t = e.text + seq!['\n'];
    assert(t.subrange(0, e.text.len() as int) =~= e.text);
    lemma_replay(s, 0, 0, false, width, limit, t, 0);
    assert forall|m: int| e.text.len() <= m < t.len() implies is_space(t[m]) by {
        assert(t[m] == seq!['\n'][m - e.text.len()]);
    }
    lemma_ws_skip(t, e.text.len() as int, t.len() as int, 0, false, width, limit);
    assert(literals_from(t, t.len() as int) == Seq::<Seq<char>>::empty());
    assert(literals_from(s, 0) + Seq::<Seq<char>>::empty() =~= literals_from(s, 0));
}

} // verus!
