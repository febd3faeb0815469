//! A single-pass re-indenter for JSON-like text.
//!
//! The formatter re-emits the token content of its input with normalized
//! whitespace: indentation proportional to nesting depth, one value per line,
//! one space after each colon, and string literals passed through untouched.
//! It tolerates malformed and non-JSON input: everything outside the six
//! structural characters `{ } [ ] , :` and whitespace is copied verbatim.
use vstd::prelude::*;

pub mod chars;
pub mod laws;
pub mod model;
pub mod opts;

verus! {

use crate::chars::{chars_to_string, to_chars};
use crate::model::{
    dips_below_zero, fmt_cons, fmt_from, indent_at, lead, lemma_fmt_cons_assoc,
    lemma_peak_at_least, lit_close, peak_depth, spaces, spec_format, Emitted, FormatError,
};
use crate::opts::Opts;

/// Appends the indentation of nesting level `depth`: `depth * width` spaces.
fn push_indent(out: &mut Vec<char>, depth: usize, width: usize)
    ensures
        final(out)@ == old(out)@ + indent_at(depth as int, width as int),
{
    let mut k: usize = 0;
    while k < depth
        invariant
            k <= depth,
            out@ == old(out)@ + spaces(k as int * width as int),
        decreases depth - k,
    {
        let mut j: usize = 0;
        while j < width
            invariant
                j <= width,
                k < depth,
                out@ == old(out)@ + spaces(k as int * width as int + j as int),
            decreases width - j,
        {
            out.push(' ');
            j = j + 1;
            proof {
                assert(out@ =~= old(out)@ + spaces(k as int * width as int + j as int));
            }
        }
        k = k + 1;
        proof {
            assert(k as int * width as int == (k - 1) as int * width as int + width as int)
                by (nonlinear_arith);
        }
    }
}

/// Re-indents JSON-like text: one scan of `input` that lays structural
/// characters out on lines indented `opts.indent` spaces per nesting level,
/// puts one space after each colon, copies string literals verbatim, drops
/// all other whitespace, and ends the output with a newline. Fails with the
/// first error the scan meets: `DepthExceeded` when the nesting depth reaches
/// `opts.depth`, `UnbalancedStructure` on a closer at depth zero, and
/// `UnterminatedString` on a literal still open at the end of the input.
pub fn format(opts: &Opts, input: &String) -> (r: Result<String, FormatError>)
    requires
        opts.depth >= 1,
    ensures
        r matches Ok(t) ==> spec_format(input@, opts.indent as int, opts.depth as int)
            == Ok::<Seq<char>, FormatError>(t@),
        r matches Err(e) ==> spec_format(input@, opts.indent as int, opts.depth as int)
            == Err::<Seq<char>, FormatError>(e),
{
    let ghost s = input@;
    let ghost w = opts.indent as int;
    let ghost lim = opts.depth as int;
    let vc = to_chars(input.as_str());
    let n = vc.len();
    let mut out: Vec<char> = Vec::new();
    let mut depth: usize = 0;
    let mut nl: bool = false;
    let mut i: usize = 0;
    while i < n
        invariant
            vc@ == s,
            n == vc.len(),
            i <= n,
            (depth as int) < lim,
            lim == opts.depth as int,
            w == opts.indent as int,
            s == input@,
            fmt_from(s, 0, 0, false, w, lim) == fmt_cons(
                out@,
                fmt_from(s, i as int, depth as int, nl, w, lim),
            ),
        decreases n - i,
    {
        let c = vc[i];
        let ghost pre = out@;
        let ghost rest0 = fmt_from(s, i as int, depth as int, nl, w, lim);
        if c == '{' || c == '[' {
            if depth + 1 >= opts.depth {
                proof {
                    assert(rest0 == Err::<Emitted, FormatError>(FormatError::DepthExceeded));
                }
                return Err(FormatError::DepthExceeded);
            }
            if nl {
                out.push('\n');
                push_indent(&mut out, depth, opts.indent);
            }
            out.push(c);
            proof {
                assert(out@ =~= pre + (lead(depth as int, nl, w) + seq![c]));
                assert(rest0 == fmt_cons(
                    lead(depth as int, nl, w) + seq![c],
                    fmt_from(s, i as int + 1, depth as int + 1, true, w, lim),
                ));
                lemma_fmt_cons_assoc(
                    pre,
                    lead(depth as int, nl, w) + seq![c],
                    fmt_from(s, i as int + 1, depth as int + 1, true, w, lim),
                );
            }
            depth = depth + 1;
            nl = true;
            i = i + 1;
        } else if c == '}' || c == ']' {
            if depth == 0 {
                proof {
                    assert(rest0 == Err::<Emitted, FormatError>(FormatError::UnbalancedStructure));
                }
                return Err(FormatError::UnbalancedStructure);
            }
            depth = depth - 1;
            out.push('\n');
            push_indent(&mut out, depth, opts.indent);
            out.push(c);
            proof {
                assert(out@ =~= pre + (seq!['\n'] + indent_at(depth as int, w) + seq![c]));
                assert(rest0 == fmt_cons(
                    seq!['\n'] + indent_at(depth as int, w) + seq![c],
                    fmt_from(s, i as int + 1, depth as int, nl, w, lim),
                ));
                lemma_fmt_cons_assoc(
                    pre,
                    seq!['\n'] + indent_at(depth as int, w) + seq![c],
                    fmt_from(s, i as int + 1, depth as int, nl, w, lim),
                );
            }
            i = i + 1;
        } else if c == ',' {
            out.push(c);
            nl = true;
            proof {
                assert(out@ =~= pre + seq![c]);
                lemma_fmt_cons_assoc(
                    pre,
                    seq![c],
                    fmt_from(s, i as int + 1, depth as int, true, w, lim),
                );
            }
            i = i + 1;
        } else if c == ':' {
            out.push(c);
            out.push(' ');
            nl = false;
            proof {
                assert(out@ =~= pre + seq![c, ' ']);
                lemma_fmt_cons_assoc(
                    pre,
                    seq![c, ' '],
                    fmt_from(s, i as int + 1, depth as int, false, w, lim),
                );
            }
            i = i + 1;
        } else if c == '"' {
            let ghost nl0 = nl;
            let ghost q = i as int;
            if nl {
                out.push('\n');
                push_indent(&mut out, depth, opts.indent);
                nl = false;
            }
            out.push(c);
            i = i + 1;
            proof {
                assert(out@ =~= pre + lead(depth as int, nl0, w) + seq!['"'] + s.subrange(
                    q + 1,
                    i as int,
                ));
            }
            loop
                invariant
                    vc@ == s,
                    n == vc.len(),
                    s == input@,
                    0 <= q < s.len(),
                    q + 1 <= i as int <= n as int,
                    s[q] == '"',
                    (depth as int) < lim,
                    lim == opts.depth as int,
                    w == opts.indent as int,
                    lit_close(s, q + 1) == lit_close(s, i as int),
                    out@ == pre + lead(depth as int, nl0, w) + seq!['"'] + s.subrange(
                        q + 1,
                        i as int,
                    ),
                    fmt_from(s, 0, 0, false, w, lim) == fmt_cons(
                        pre,
                        fmt_from(s, q, depth as int, nl0, w, lim),
                    ),
                ensures
                    i < n,
                    s[i as int] == '"',
                    q + 1 <= i as int,
                    lit_close(s, q + 1) == Some(i as int),
                    out@ == pre + lead(depth as int, nl0, w) + seq!['"'] + s.subrange(
                        q + 1,
                        i as int,
                    ),
                decreases n - i,
            {
                if i >= n {
                    proof {
                        assert(lit_close(s, i as int) is None);
                        assert(fmt_from(s, q, depth as int, nl0, w, lim) == Err::<
                            Emitted,
                            FormatError,
                        >(FormatError::UnterminatedString));
                    }
                    return Err(FormatError::UnterminatedString);
                }
                let d = vc[i];
                if d == '"' {
                    proof {
                        assert(lit_close(s, i as int) == Some(i as int));
                    }
                    break;
                }
                if d == '\\' {
                    if i + 1 >= n {
                        proof {
                            assert(lit_close(s, i as int) is None);
                            assert(fmt_from(s, q, depth as int, nl0, w, lim) == Err::<
                                Emitted,
                                FormatError,
                            >(FormatError::UnterminatedString));
                        }
                        return Err(FormatError::UnterminatedString);
                    }
                    out.push(d);
                    out.push(vc[i + 1]);
                    i = i + 2;
                    proof {
                        assert(out@ =~= pre + lead(depth as int, nl0, w) + seq!['"'] + s.subrange(
                            q + 1,
                            i as int,
                        ));
                    }
                } else {
                    out.push(d);
                    i = i + 1;
                    proof {
                        assert(out@ =~= pre + lead(depth as int, nl0, w) + seq!['"'] + s.subrange(
                            q + 1,
                            i as int,
                        ));
                    }
                }
            }
            let ghost body = s.subrange(q + 1, i as int);
            out.push(c);
            i = i + 1;
            nl = false;
            proof {
                assert(out@ =~= pre + (lead(depth as int, nl0, w) + seq!['"'] + body + seq!['"']));
                assert(fmt_from(s, q, depth as int, nl0, w, lim) == fmt_cons(
                    lead(depth as int, nl0, w) + seq!['"'] + body + seq!['"'],
                    fmt_from(s, i as int, depth as int, false, w, lim),
                ));
                lemma_fmt_cons_assoc(
                    pre,
                    lead(depth as int, nl0, w) + seq!['"'] + body + seq!['"'],
                    fmt_from(s, i as int, depth as int, false, w, lim),
                );
            }
        } else if c == ' ' || c == '\t' || c == '\n' {
            i = i + 1;
        } else {
            if nl {
                out.push('\n');
                push_indent(&mut out, depth, opts.indent);
            }
            out.push(c);
            proof {
                assert(out@ =~= pre + (lead(depth as int, nl, w) + seq![c]));
                assert(rest0 == fmt_cons(
                    lead(depth as int, nl, w) + seq![c],
                    fmt_from(s, i as int + 1, depth as int, false, w, lim),
                ));
                lemma_fmt_cons_assoc(
                    pre,
                    lead(depth as int, nl, w) + seq![c],
                    fmt_from(s, i as int + 1, depth as int, false, w, lim),
                );
            }
            nl = false;
            i = i + 1;
        }
    }
    proof {
        assert(fmt_from(s, i as int, depth as int, nl, w, lim) == Ok::<Emitted, FormatError>(
            Emitted { text: Seq::empty(), depth: depth as int, nl },
        ));
    }
    out.push('\n');
    let ghost done = fmt_from(s, 0, 0, false, w, lim);
    proof {
        assert(done is Ok);
        assert(out@ =~= done->Ok_0.text + seq!['\n']);
    }
    Ok(chars_to_string(&out))
}

/// The greatest nesting level a scan of `input` reaches: the figure a caller
/// may report as diagnostics after formatting. `None` when a closing bracket
/// appears at level zero — on such input a formatting pass fails with
/// `UnbalancedStructure` instead.
pub fn max_nesting(input: &String) -> (r: Option<usize>)
    ensures
        r matches Some(m) ==> !dips_below_zero(input@, 0, 0) && m == peak_depth(input@, 0, 0),
        r is None ==> dips_below_zero(input@, 0, 0),
{
    let ghost s = input@;
    let vc = to_chars(input.as_str());
    let n = vc.len();
    let mut depth: usize = 0;
    let mut best: usize = 0;
    let mut i: usize = 0;
    while i < n
        invariant
            vc@ == s,
            n == vc.len(),
            s == input@,
            i <= n,
            depth <= best <= i,
            dips_below_zero(s, 0, 0) == dips_below_zero(s, i as int, depth as int),
            peak_depth(s, 0, 0) == vstd::math::max(
                best as int,
                peak_depth(s, i as int, depth as int),
            ),
        decreases n - i,
    {
        let c = vc[i];
        if c == '{' || c == '[' {
            proof {
                lemma_peak_at_least(s, i as int + 1, depth as int + 1);
            }
            depth = depth + 1;
            if best < depth {
                best = depth;
            }
            i = i + 1;
        } else if c == '}' || c == ']' {
            if depth == 0 {
                return None;
            }
            depth = depth - 1;
            i = i + 1;
        } else if c == '"' {
            let ghost q = i as int;
            i = i + 1;
            loop
                invariant
                    vc@ == s,
                    n == vc.len(),
                    s == input@,
                    0 <= q < s.len(),
                    q + 1 <= i as int <= n as int,
                    s[q] == '"',
                    depth <= best,
                    best as int <= q,
                    lit_close(s, q + 1) == lit_close(s, i as int),
                    dips_below_zero(s, 0, 0) == dips_below_zero(s, q, depth as int),
                    peak_depth(s, 0, 0) == vstd::math::max(
                        best as int,
                        peak_depth(s, q, depth as int),
                    ),
                ensures
                    i < n,
                    s[i as int] == '"',
                    lit_close(s, q + 1) == Some(i as int),
                decreases n - i,
            {
                if i >= n {
                    proof {
                        assert(lit_close(s, i as int) is None);
                        assert(peak_depth(s, q, depth as int) == depth as int);
                        assert(!dips_below_zero(s, q, depth as int));
                    }
                    return Some(best);
                }
                let d = vc[i];
                if d == '"' {
                    proof {
                        assert(lit_close(s, i as int) == Some(i as int));
                    }
                    break;
                }
                if d == '\\' {
                    if i + 1 >= n {
                        proof {
                            assert(lit_close(s, i as int) is None);
                            assert(peak_depth(s, q, depth as int) == depth as int);
                            assert(!dips_below_zero(s, q, depth as int));
                        }
                        return Some(best);
                    }
                    i = i + 2;
                } else {
                    i = i + 1;
                }
            }
            proof {
                lemma_peak_at_least(s, i as int + 1, depth as int);
            }
            i = i + 1;
        } else {
            i = i + 1;
        }
    }
    Some(best)
}

} // verus!
