//! Interned string literals and unescaping of their raw source text.

use vstd::prelude::*;
use vstd::std_specs::iter::IteratorSpec;

verus! {

/// Leftmost, non-overlapping replacement of `pat` by `rep`: scan from the
/// front; wherever `pat` starts, emit `rep` and continue after it, otherwise
/// keep the character.
pub open spec fn spec_replace(s: Seq<char>, pat: Seq<char>, rep: Seq<char>) -> Seq<char>
    decreases s.len(),
    when pat.len() > 0
{
    if s.len() == 0 {
        s
    } else if pat.len() <= s.len() && s.take(pat.len() as int) == pat {
        rep + spec_replace(s.skip(pat.len() as int), pat, rep)
    } else {
        seq![s[0]] + spec_replace(s.skip(1), pat, rep)
    }
}

/// The unescaped form of a raw literal: each escape sequence replaced by the
/// character it stands for, one pass per sequence, in this order.
pub open spec fn spec_unescaped(s: Seq<char>) -> Seq<char> {
    let s1 = spec_replace(s, seq!['\\', 'n'], seq!['\n']);
    let s2 = spec_replace(s1, seq!['\\', '\\'], seq!['\\']);
    let s3 = spec_replace(s2, seq!['\\', 't'], seq!['\t']);
    let s4 = spec_replace(s3, seq!['\\', '"'], seq!['"']);
    let s5 = spec_replace(s4, seq!['\\', '\n'], seq!['\n']);
    spec_replace(s5, seq!['\\', '\r', '\n'], seq!['\r', '\n'])
}

/// The string's characters, in order.
fn str_chars(s: &str) -> (r: Vec<char>)
    ensures
        r@ == s@,
{
    let mut it = s.chars();
    let mut out: Vec<char> = Vec::new();
    proof {
        assert(out@ + it.remaining() =~= s@);
    }
    loop
        invariant_except_break
            it.obeys_prophetic_iter_laws(),
            it.decrease() is Some,
            out@ + it.remaining() == s@,
        ensures
            out@ == s@,
        decreases it.decrease()->0,
    {
        match it.next() {
            Some(c) => {
                out.push(c);
                proof {
                    assert(out@ + it.remaining() =~= s@);
                }
            },
            None => {
                proof {
                    assert(out@ + it.remaining() =~= out@);
                }
                break ;
            },
        }
    }
    out
}

/// Relies on String's FromIterator over char: builds the string with exactly
/// the given characters, in order.
#[verifier::external_body]
fn chars_to_string(v: &Vec<char>) -> (r: String)
    ensures
        r@ == v@,
{
    v.iter().collect()
}

/// Whether `pat` occurs in `s` starting at position `i`.
fn matches_at(s: &Vec<char>, pat: &Vec<char>, i: usize) -> (r: bool)
    requires
        i <= s@.len(),
    ensures
        r == (i + pat@.len() <= s@.len() && s@.subrange(i as int, i + pat@.len()) == pat@),
{
    if pat.len() > s.len() - i {
        return false;
    }
    let mut k: usize = 0;
    while k < pat.len()
        invariant
            k <= pat@.len(),
            i + pat@.len() <= s@.len(),
            s@.len() <= usize::MAX,
            forall|j: int| 0 <= j < k ==> s@[i + j] == pat@[j],
        decreases pat@.len() - k,
    {
        if s[i + k] != pat[k] {
            proof {
                let sub = s@.subrange(i as int, i + pat@.len());
                assert(sub[k as int] != pat@[k as int]);
            }
            return false;
        }
        k = k + 1;
    }
    proof {
        assert(s@.subrange(i as int, i + pat@.len()) =~= pat@);
    }
    true
}

/// Replaces every leftmost, non-overlapping occurrence of `pat` by `rep`.
fn replace_chars(s: &Vec<char>, pat: &Vec<char>, rep: &Vec<char>) -> (r: Vec<char>)
    requires
        pat@.len() > 0,
    ensures
        r@ == spec_replace(s@, pat@, rep@),
{
    let mut out: Vec<char> = Vec::new();
    let mut i: usize = 0;
    proof {
        assert(s@.skip(0) =~= s@);
        assert(Seq::<char>::empty() + spec_replace(s@, pat@, rep@) =~= spec_replace(
            s@,
            pat@,
            rep@,
        ));
    }
    while i < s.len()
        invariant
            i <= s@.len(),
            pat@.len() > 0,
            spec_replace(s@, pat@, rep@) == out@ + spec_replace(s@.skip(i as int), pat@, rep@),
        decreases s@.len() - i,
    {
        let ghost rest = s@.skip(i as int);
        if matches_at(s, pat, i) {
            proof {
                assert(rest.take(pat@.len() as int) =~= s@.subrange(i as int, i + pat@.len()));
                assert(rest.skip(pat@.len() as int) =~= s@.skip(i + pat@.len()));
            }
            let ghost out0 = out@;
            let mut k: usize = 0;
            while k < rep.len()
                invariant
                    k <= rep@.len(),
                    out@ == out0 + rep@.take(k as int),
                decreases rep@.len() - k,
            {
                proof {
                    assert(rep@.take(k + 1) =~= rep@.take(k as int).push(rep@[k as int]));
                }
                out.push(rep[k]);
                k = k + 1;
            }
            proof {
                assert(rep@.take(rep@.len() as int) =~= rep@);
                assert(out@ =~= out0 + rep@);
            }
            i = i + pat.len();
        } else {
            proof {
                if pat@.len() <= rest.len() && rest.take(pat@.len() as int) == pat@ {
                    assert(s@.subrange(i as int, i + pat@.len()) =~= rest.take(
                        pat@.len() as int,
                    ));
                    assert(false);
                }
                assert(seq![s@[i as int]] =~= rest.take(1));
                assert(rest.skip(1) =~= s@.skip(i + 1));
            }
            out.push(s[i]);
            i = i + 1;
        }
    }
    proof {
        assert(s@.skip(s@.len() as int) =~= Seq::<char>::empty());
        assert(spec_replace(Seq::<char>::empty(), pat@, rep@) == Seq::<char>::empty());
        assert(out@ + Seq::<char>::empty() =~= out@);
    }
    out
}

/// Replaces the escape sequences of a raw string literal by the characters
/// they stand for, one pass per sequence.
pub fn unesacpe_string(raw: &str) -> (r: String)
    ensures
        r@ == spec_unescaped(raw@),
{
    let chars = str_chars(raw);
    let mut pat_n: Vec<char> = Vec::new();
    pat_n.push('\\');
    pat_n.push('n');
    let mut rep_n: Vec<char> = Vec::new();
    rep_n.push('\n');
    let mut pat_bs: Vec<char> = Vec::new();
    pat_bs.push('\\');
    pat_bs.push('\\');
    let mut rep_bs: Vec<char> = Vec::new();
    rep_bs.push('\\');
    let mut pat_t: Vec<char> = Vec::new();
    pat_t.push('\\');
    pat_t.push('t');
    let mut rep_t: Vec<char> = Vec::new();
    rep_t.push('\t');
    let mut pat_q: Vec<char> = Vec::new();
    pat_q.push('\\');
    pat_q.push('"');
    let mut rep_q: Vec<char> = Vec::new();
    rep_q.push('"');
    let mut pat_nl: Vec<char> = Vec::new();
    pat_nl.push('\\');
    pat_nl.push('\n');
    let mut rep_nl: Vec<char> = Vec::new();
    rep_nl.push('\n');
    let mut pat_crlf: Vec<char> = Vec::new();
    pat_crlf.push('\\');
    pat_crlf.push('\r');
    pat_crlf.push('\n');
    let mut rep_crlf: Vec<char> = Vec::new();
    rep_crlf.push('\r');
    rep_crlf.push('\n');
    proof {
        assert(pat_n@ =~= seq!['\\', 'n']);
        assert(rep_n@ =~= seq!['\n']);
        assert(pat_bs@ =~= seq!['\\', '\\']);
        assert(rep_bs@ =~= seq!['\\']);
        assert(pat_t@ =~= seq!['\\', 't']);
        assert(rep_t@ =~= seq!['\t']);
        assert(pat_q@ =~= seq!['\\', '"']);
        assert(rep_q@ =~= seq!['"']);
        assert(pat_nl@ =~= seq!['\\', '\n']);
        assert(rep_nl@ =~= seq!['\n']);
        assert(pat_crlf@ =~= seq!['\\', '\r', '\n']);
        assert(rep_crlf@ =~= seq!['\r', '\n']);
    }
    let s1 = replace_chars(&chars, &pat_n, &rep_n);
    let s2 = replace_chars(&s1, &pat_bs, &rep_bs);
    let s3 = replace_chars(&s2, &pat_t, &rep_t);
    let s4 = replace_chars(&s3, &pat_q, &rep_q);
    let s5 = replace_chars(&s4, &pat_nl, &rep_nl);
    let s6 = replace_chars(&s5, &pat_crlf, &rep_crlf);
    chars_to_string(&s6)
}

/// The table of interned string literals, each holding its raw source text.
pub struct SourceMap {
    pub literals: Vec<String>,
}

impl SourceMap {
    /// An empty literal table.
    pub fn new() -> (r: SourceMap)
        ensures
            r.literals@.len() == 0,
    {
        SourceMap { literals: Vec::new() }
    }

    /// Interns a literal's raw text, handing back its handle.
    pub fn intern(&mut self, raw: String) -> (r: StringLiteral)
        requires
            old(self).literals@.len() < 65536,
        ensures
            final(self).literals@ == old(self).literals@.push(raw),
            r.raw as int == old(self).literals@.len(),
    {
        let idx = self.literals.len() as u16;
        self.literals.push(raw);
        StringLiteral { raw: idx }
    }
}

/// A handle to an interned string literal.
#[derive(Clone, Copy, PartialEq, Eq, Structural)]
pub struct StringLiteral {
    pub raw: u16,
}

impl StringLiteral {
    /// The literal's raw source text, escape sequences untouched.
    pub fn raw_contents<'a>(self, sm: &'a SourceMap) -> (r: &'a str)
        requires
            (self.raw as int) < sm.literals@.len(),
        ensures
            r@ == sm.literals@[self.raw as int]@,
    {
        sm.literals[self.raw as usize].as_str()
    }

    /// Hands the literal's raw contents to `f` and returns its result.
    pub fn with_raw_contents<T, F: FnOnce(&str) -> T>(self, sm: &SourceMap, f: F) -> (r: T)
        requires
            (self.raw as int) < sm.literals@.len(),
            forall|s: &str| s@ == sm.literals@[self.raw as int]@ ==> f.requires((s,)),
        ensures
            exists|s: &str| s@ == sm.literals@[self.raw as int]@ && f.ensures((s,), r),
    {
        let contents = self.raw_contents(sm);
        f(contents)
    }

    /// The literal's contents with escape sequences such as a doubled
    /// backslash replaced by the character they stand for.
    pub fn unescaped_contents(self, sm: &SourceMap) -> (r: String)
        requires
            (self.raw as int) < sm.literals@.len(),
        ensures
            r@ == spec_unescaped(sm.literals@[self.raw as int]@),
    {
        unesacpe_string(self.raw_contents(sm))
    }

    /// How many literals the table holds.
    pub fn global_count(sm: &SourceMap) -> (r: usize)
        ensures
            r == sm.literals@.len(),
    {
        sm.literals.len()
    }
}

} // verus!
