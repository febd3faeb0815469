//! Mathematical model of the re-indenting scan.
//!
//! `fmt_from` is the single-pass state machine over a sequence of characters:
//! it tracks the nesting depth and the pending-newline flag, copies string
//! literals verbatim, drops all other whitespace, and lays structural
//! characters out on indented lines. The executable formatter is proved to
//! return exactly `spec_format`, and every law of the formatter is proved
//! about these functions.
use vstd::prelude::*;

verus! {

/// A failure of one formatting pass. The scan stops at the first failure,
/// in input order; no partial output is produced.
#[derive(Clone, Copy, Debug, PartialEq, Eq, Structural)]
pub enum FormatError {
    /// The nesting depth reached the configured ceiling.
    DepthExceeded,
    /// A closing bracket or brace appeared with no open structure.
    UnbalancedStructure,
    /// A string literal was still open when the input ended.
    UnterminatedString,
}

/// Whitespace that the formatter controls: never kept outside string literals.
pub open spec fn is_space(c: char) -> bool {
    c == ' ' || c == '\t' || c == '\n'
}

/// A character that opens a nesting level.
pub open spec fn is_opener(c: char) -> bool {
    c == '{' || c == '['
}

/// A character that closes a nesting level.
pub open spec fn is_closer(c: char) -> bool {
    c == '}' || c == ']'
}

/// Index of the unescaped double quote that ends a literal whose body starts
/// at `i` (one past the opening quote). A backslash always escapes the next
/// character, so an escaped quote does not end the literal. `None` when the
/// scan runs past the end of the input.
pub open spec fn lit_close(s: Seq<char>, i: int) -> Option<int>
    decreases s.len() - i,
{
    if i < 0 || i >= s.len() {
        None
    } else if s[i] == '"' {
        Some(i)
    } else if s[i] == '\\' {
        if i + 1 >= s.len() {
            None
        } else {
            lit_close(s, i + 2)
        }
    } else {
        lit_close(s, i + 1)
    }
}

/// The closing quote found from `i` lies at or after `i`, inside the input,
/// and is a quote character.
pub proof fn lemma_lit_close_in_range(s: Seq<char>, i: int)
    ensures
        lit_close(s, i) matches Some(j) ==> i <= j < s.len() && s[j] == '"',
    decreases s.len() - i,
{
    if 0 <= i < s.len() && s[i] != '"' {
        if s[i] == '\\' {
            if i + 1 < s.len() {
                lemma_lit_close_in_range(s, i + 2);
            }
        } else {
            lemma_lit_close_in_range(s, i + 1);
        }
    }
}

/// `n` space characters (none when `n` is negative).
pub open spec fn spaces(n: int) -> Seq<char> {
    Seq::new((if n < 0 { 0 } else { n }) as nat, |k: int| ' ')
}

/// The indentation prefix of a line at nesting level `depth`:
/// `depth * width` spaces.
pub open spec fn indent_at(depth: int, width: int) -> Seq<char> {
    spaces(depth * width)
}

/// What a pending newline emits before the next token: a newline and the
/// current indentation when the flag is set, nothing otherwise.
pub open spec fn lead(depth: int, nl: bool, width: int) -> Seq<char> {
    if nl {
        seq!['\n'] + indent_at(depth, width)
    } else {
        Seq::empty()
    }
}

/// Text already emitted when the scan of a suffix completes, together with
/// the scan state it ends in.
pub ghost struct Emitted {
    pub text: Seq<char>,
    pub depth: int,
    pub nl: bool,
}

/// Prepends already-emitted text to the result of scanning the rest.
pub open spec fn fmt_cons(pre: Seq<char>, r: Result<Emitted, FormatError>) -> Result<
    Emitted,
    FormatError,
> {
    match r {
        Ok(e) => Ok(Emitted { text: pre + e.text, depth: e.depth, nl: e.nl }),
        Err(e) => Err(e),
    }
}

/// Joining two emitted chunks before a remainder is the same as emitting them
/// one after the other.
pub proof fn lemma_fmt_cons_assoc(a: Seq<char>, b: Seq<char>, r: Result<Emitted, FormatError>)
    ensures
        fmt_cons(a, fmt_cons(b, r)) == fmt_cons(a + b, r),
{
    match r {
        Ok(e) => {
            assert(a + (b + e.text) =~= (a + b) + e.text);
        },
        Err(_) => {},
    }
}

/// Emitting nothing before a remainder leaves it unchanged.
pub proof fn lemma_fmt_cons_empty(r: Result<Emitted, FormatError>)
    ensures
        fmt_cons(Seq::empty(), r) == r,
{
    match r {
        Ok(e) => {
            assert(Seq::empty() + e.text =~= e.text);
        },
        Err(_) => {},
    }
}

/// One left-to-right scan of `s` from position `i`, at nesting level `depth`
/// with pending-newline flag `nl`, indenting `width` spaces per level and
/// failing when the depth reaches `limit`. Yields the emitted text and the
/// final state, or the first failure in input order.
pub open spec fn fmt_from(
    s: Seq<char>,
    i: int,
    depth: int,
    nl: bool,
    width: int,
    limit: int,
) -> Result<Emitted, FormatError>
    decreases s.len() - i,
{
    if i < 0 || i >= s.len() {
        Ok(Emitted { text: Seq::empty(), depth, nl })
    } else {
        let c = s[i];
        if is_space(c) {
            fmt_from(s, i + 1, depth, nl, width, limit)
        } else if is_opener(c) {
            if depth + 1 >= limit {
                Err(FormatError::DepthExceeded)
            } else {
                fmt_cons(
                    lead(depth, nl, width) + seq![c],
                    fmt_from(s, i + 1, depth + 1, true, width, limit),
                )
            }
        } else if is_closer(c) {
            if depth <= 0 {
                Err(FormatError::UnbalancedStructure)
            } else {
                fmt_cons(
                    seq!['\n'] + indent_at(depth - 1, width) + seq![c],
                    fmt_from(s, i + 1, depth - 1, nl, width, limit),
                )
            }
        } else if c == ',' {
            fmt_cons(seq![c], fmt_from(s, i + 1, depth, true, width, limit))
        } else if c == ':' {
            fmt_cons(seq![c, ' '], fmt_from(s, i + 1, depth, false, width, limit))
        } else if c == '"' {
            match lit_close(s, i + 1) {
                None => Err(FormatError::UnterminatedString),
                Some(j) => {
                    proof {
                        lemma_lit_close_in_range(s, i + 1);
                    }
                    fmt_cons(
                        lead(depth, nl, width) + seq!['"'] + s.subrange(i + 1, j) + seq!['"'],
                        fmt_from(s, j + 1, depth, false, width, limit),
                    )
                },
            }
        } else {
            fmt_cons(lead(depth, nl, width) + seq![c], fmt_from(s, i + 1, depth, false, width, limit))
        }
    }
}

/// The characters of `s` from `i` on with the whitespace outside string
/// literals removed: the structural content that a formatting pass must keep.
/// A literal keeps its quotes and everything between them. An unterminated
/// literal keeps the raw tail of the input.
pub open spec fn strip_from(s: Seq<char>, i: int) -> Seq<char>
    decreases s.len() - i,
{
    if i < 0 || i >= s.len() {
        Seq::empty()
    } else {
        let c = s[i];
        if is_space(c) {
            strip_from(s, i + 1)
        } else if c == '"' {
            match lit_close(s, i + 1) {
                None => s.subrange(i, s.len() as int),
                Some(j) => {
                    proof {
                        lemma_lit_close_in_range(s, i + 1);
                    }
                    seq!['"'] + s.subrange(i + 1, j) + seq!['"'] + strip_from(s, j + 1)
                },
            }
        } else {
            seq![c] + strip_from(s, i + 1)
        }
    }
}

/// The bodies of the string literals of `s` from `i` on, in scan order,
/// without their quotes. A trailing unterminated literal contributes nothing.
pub open spec fn literals_from(s: Seq<char>, i: int) -> Seq<Seq<char>>
    decreases s.len() - i,
{
    if i < 0 || i >= s.len() {
        Seq::empty()
    } else if s[i] == '"' {
        match lit_close(s, i + 1) {
            None => Seq::empty(),
            Some(j) => {
                proof {
                    lemma_lit_close_in_range(s, i + 1);
                }
                seq![s.subrange(i + 1, j)] + literals_from(s, j + 1)
            },
        }
    } else {
        literals_from(s, i + 1)
    }
}

/// Whether every string literal of `s` from `i` on is closed before the input
/// ends.
pub open spec fn lits_closed_from(s: Seq<char>, i: int) -> bool
    decreases s.len() - i,
{
    if i < 0 || i >= s.len() {
        true
    } else if s[i] == '"' {
        match lit_close(s, i + 1) {
            None => false,
            Some(j) => {
                proof {
                    lemma_lit_close_in_range(s, i + 1);
                }
                lits_closed_from(s, j + 1)
            },
        }
    } else {
        lits_closed_from(s, i + 1)
    }
}

/// Whether a scan of `s` from `i`, starting at nesting level `depth`, meets a
/// closer when the level is already zero. Characters inside string literals
/// do not count; the scan stops where an unterminated literal begins.
pub open spec fn dips_below_zero(s: Seq<char>, i: int, depth: int) -> bool
    decreases s.len() - i,
{
    if i < 0 || i >= s.len() {
        false
    } else {
        let c = s[i];
        if is_opener(c) {
            dips_below_zero(s, i + 1, depth + 1)
        } else if is_closer(c) {
            depth <= 0 || dips_below_zero(s, i + 1, depth - 1)
        } else if c == '"' {
            match lit_close(s, i + 1) {
                None => false,
                Some(j) => {
                    proof {
                        lemma_lit_close_in_range(s, i + 1);
                    }
                    dips_below_zero(s, j + 1, depth)
                },
            }
        } else {
            dips_below_zero(s, i + 1, depth)
        }
    }
}

/// The greatest nesting level a scan of `s` from `i` reaches, starting at
/// level `depth` (which counts as reached). Characters inside string literals
/// do not count; the scan stops where an unterminated literal begins.
pub open spec fn peak_depth(s: Seq<char>, i: int, depth: int) -> int
    decreases s.len() - i,
{
    if i < 0 || i >= s.len() {
        depth
    } else {
        let c = s[i];
        if is_opener(c) {
            vstd::math::max(depth, peak_depth(s, i + 1, depth + 1))
        } else if is_closer(c) {
            vstd::math::max(depth, peak_depth(s, i + 1, depth - 1))
        } else if c == '"' {
            match lit_close(s, i + 1) {
                None => depth,
                Some(j) => {
                    proof {
                        lemma_lit_close_in_range(s, i + 1);
                    }
                    vstd::math::max(depth, peak_depth(s, j + 1, depth))
                },
            }
        } else {
            vstd::math::max(depth, peak_depth(s, i + 1, depth))
        }
    }
}

/// The peak of a scan is at least its starting level.
pub proof fn lemma_peak_at_least(s: Seq<char>, i: int, depth: int)
    ensures
        peak_depth(s, i, depth) >= depth,
    decreases s.len() - i,
{
    if 0 <= i < s.len() {
        let c = s[i];
        if c == '"' && !is_opener(c) && !is_closer(c) {
            match lit_close(s, i + 1) {
                None => {},
                Some(j) => {
                    lemma_lit_close_in_range(s, i + 1);
                    lemma_peak_at_least(s, j + 1, depth);
                },
            }
        }
    }
}

/// The whole formatting pass: scan from the start at depth zero with no
/// pending newline, and end the output with a single newline.
pub open spec fn spec_format(s: Seq<char>, width: int, limit: int) -> Result<
    Seq<char>,
    FormatError,
> {
    match fmt_from(s, 0, 0, false, width, limit) {
        Ok(e) => Ok(e.text + seq!['\n']),
        Err(er) => Err(er),
    }
}

} // verus!
