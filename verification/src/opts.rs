//! The formatter's configuration.
//!
//! `Opts` carries what one formatting pass needs — the indentation width and
//! the nesting-depth ceiling — together with the surrounding program's
//! bookkeeping (program name, input and output paths, verbosity), which the
//! formatter itself never reads.
use vstd::prelude::*;

use crate::chars::{chars_to_string, to_chars};

verus! {

/// Configuration of one formatting pass, plus the calling program's settings.
pub struct Opts {
    /// The program path as invoked.
    pub program: String,
    /// The stem of the program path: its last component without an extension.
    pub program_base: String,
    /// Nesting-depth ceiling: the scan fails when the depth reaches it.
    pub depth: usize,
    /// Spaces of indentation per nesting level.
    pub indent: usize,
    /// Input path; `None` means standard input.
    pub input: Option<String>,
    /// Output path; `None` means standard output.
    pub output: Option<String>,
    /// Verbosity of the surrounding program's diagnostics.
    pub verbose: usize,
}

/// The largest index at which `c` occurs in `s`, or -1 when it does not occur.
pub open spec fn last_index_of(s: Seq<char>, c: char) -> int
    decreases s.len(),
{
    if s.len() == 0 {
        -1
    } else if s[s.len() - 1] == c {
        s.len() - 1
    } else {
        last_index_of(s.drop_last(), c)
    }
}

pub proof fn lemma_last_index_of_in_range(s: Seq<char>, c: char)
    ensures
        -1 <= last_index_of(s, c) < s.len(),
        last_index_of(s, c) >= 0 ==> s[last_index_of(s, c)] == c,
    decreases s.len(),
{
    if s.len() > 0 && s[s.len() - 1] != c {
        lemma_last_index_of_in_range(s.drop_last(), c);
    }
}

/// The last component of a path: the characters after its last `/`
/// (the whole path when it has none).
pub open spec fn spec_file_name(path: Seq<char>) -> Seq<char> {
    path.subrange(last_index_of(path, '/') + 1, path.len() as int)
}

/// The stem of a path: its last component, with the part from the last `.` on
/// removed — unless that `.` is the component's first character or the
/// component has none, in which case the component stays whole.
pub open spec fn spec_stem(path: Seq<char>) -> Seq<char> {
    let name = spec_file_name(path);
    let dot = last_index_of(name, '.');
    if dot <= 0 {
        name
    } else {
        name.subrange(0, dot)
    }
}

/// The index after the last occurrence of `c` in `v`, or 0 when it does not
/// occur.
fn pos_after_last(v: &Vec<char>, c: char) -> (r: usize)
    ensures
        r == last_index_of(v@, c) + 1,
{
    let mut t: usize = v.len();
    proof {
        assert(v@.subrange(0, v@.len() as int) =~= v@);
    }
    while t > 0
        invariant
            t <= v.len(),
            last_index_of(v@, c) == last_index_of(v@.subrange(0, t as int), c),
        decreases t,
    {
        if v[t - 1] == c {
            proof {
                assert(v@.subrange(0, t as int).len() == t);
                assert(v@.subrange(0, t as int)[t - 1] == c);
            }
            return t;
        }
        proof {
            assert(v@.subrange(0, t as int).drop_last() =~= v@.subrange(0, (t - 1) as int));
        }
        t = t - 1;
    }
    proof {
        assert(v@.subrange(0, 0) =~= Seq::<char>::empty());
    }
    0
}

/// The elements of `v` from `a` up to `b`, in order.
fn copy_range(v: &Vec<char>, a: usize, b: usize) -> (r: Vec<char>)
    requires
        a <= b <= v.len(),
    ensures
        r@ == v@.subrange(a as int, b as int),
{
    let mut r: Vec<char> = Vec::new();
    let mut k: usize = a;
    while k < b
        invariant
            a <= k <= b <= v.len(),
            r@ == v@.subrange(a as int, k as int),
        decreases b - k,
    {
        r.push(v[k]);
        k = k + 1;
        proof {
            assert(r@ =~= v@.subrange(a as int, k as int));
        }
    }
    r
}

impl Opts {
    /// The default configuration for a program invoked as `program`:
    /// indentation of four spaces, a nesting ceiling of 32 levels, standard
    /// input and output, and no verbosity.
    pub fn defaults(program: &String) -> (r: Opts)
        ensures
            r.program@ == program@,
            r.program_base@ == spec_stem(program@),
            r.depth == 32,
            r.indent == 4,
            r.input is None,
            r.output is None,
            r.verbose == 0,
    {
        let pv = to_chars(program.as_str());
        proof {
            lemma_last_index_of_in_range(pv@, '/');
        }
        let start = pos_after_last(&pv, '/');
        let name = copy_range(&pv, start, pv.len());
        proof {
            lemma_last_index_of_in_range(name@, '.');
        }
        let dot = pos_after_last(&name, '.');
        let stem = if dot <= 1 {
            copy_range(&name, 0, name.len())
        } else {
            copy_range(&name, 0, dot - 1)
        };
        proof {
            assert(name@.subrange(0, name@.len() as int) =~= name@);
        }
        Opts {
            program: program.clone(),
            program_base: chars_to_string(&stem),
            depth: 32,
            indent: 4,
            input: None,
            output: None,
            verbose: 0,
        }
    }
}

} // verus!
