//! Pretokenization: splitting a text unit into atomic symbols.
//!
//! The classification rule is evaluated left to right, first match wins at
//! each position: an apostrophe-led contraction suffix (`'s`, `'t`, `'re`,
//! `'ve`, `'m`, `'ll`, `'d`); else a maximal run of letters; else a maximal
//! run of numeric characters; else a maximal run of characters that are
//! neither whitespace nor letters nor numerics; else a maximal run of
//! whitespace. Concatenating the produced symbols in order reproduces the
//! input exactly.

use vstd::prelude::*;

verus! {

use crate::chars::char_is_letter;
use crate::chars::char_is_numeric;
use crate::chars::char_is_whitespace;
use crate::chars::letter_char;
use crate::chars::numeric_char;
use crate::chars::whitespace_char;
use vstd::string::StrSliceExecFns;

/// One of the four character classes whose maximal runs form symbols.
#[derive(Clone, Copy)]
pub enum CharClass {
    Letter,
    Numeric,
    Other,
    Space,
}

/// Whether `c` belongs to the class `cl`.
pub open spec fn in_class(cl: CharClass, c: char) -> bool {
    match cl {
        CharClass::Letter => letter_char(c),
        CharClass::Numeric => numeric_char(c),
        CharClass::Other => !whitespace_char(c) && !letter_char(c) && !numeric_char(c),
        CharClass::Space => whitespace_char(c),
    }
}

/// Decides membership of `c` in the class `cl`.
fn char_in_class(cl: CharClass, c: char) -> (r: bool)
    ensures
        r == in_class(cl, c),
{
    match cl {
        CharClass::Letter => char_is_letter(c),
        CharClass::Numeric => char_is_numeric(c),
        CharClass::Other => !char_is_whitespace(c) && !char_is_letter(c) && !char_is_numeric(c),
        CharClass::Space => char_is_whitespace(c),
    }
}

/// The length of the maximal prefix of `s` whose characters all lie in `cl`.
pub open spec fn run_len(cl: CharClass, s: Seq<char>) -> nat
    decreases s.len(),
{
    if s.len() == 0 || !in_class(cl, s[0]) {
        0
    } else {
        1 + run_len(cl, s.drop_first())
    }
}

/// `run_len` is the unique cut `k` with all of `s[..k]` in the class and
/// either the end of `s` or an out-of-class character at `s[k]`.
pub proof fn lemma_run_len_is(cl: CharClass, s: Seq<char>, k: int)
    requires
        0 <= k <= s.len(),
        forall|j: int| 0 <= j < k ==> in_class(cl, s[j]),
        k < s.len() ==> !in_class(cl, s[k]),
    ensures
        run_len(cl, s) == k,
    decreases k,
{
    if k == 0 {
    } else {
        assert(in_class(cl, s[0]));
        let t = s.drop_first();
        assert(forall|j: int| 0 <= j < k - 1 ==> t[j] == s[j + 1] && in_class(cl, s[j + 1]));
        lemma_run_len_is(cl, t, k - 1);
    }
}

/// The length of the contraction suffix at the start of `s`, or 0 if `s`
/// does not start with one.
pub open spec fn contraction_len(s: Seq<char>) -> nat {
    if s.len() >= 2 && s[0] == '\'' && (s[1] == 's' || s[1] == 't' || s[1] == 'm' || s[1] == 'd') {
        2
    } else if s.len() >= 3 && s[0] == '\'' && ((s[1] == 'r' && s[2] == 'e') || (s[1] == 'v'
        && s[2] == 'e') || (s[1] == 'l' && s[2] == 'l')) {
        3
    } else {
        0
    }
}

/// The length of the first symbol of `s` under the classification rule.
pub open spec fn first_token_len(s: Seq<char>) -> nat
    recommends
        s.len() > 0,
{
    if contraction_len(s) > 0 {
        contraction_len(s)
    } else if letter_char(s[0]) {
        run_len(CharClass::Letter, s)
    } else if numeric_char(s[0]) {
        run_len(CharClass::Numeric, s)
    } else if !whitespace_char(s[0]) {
        run_len(CharClass::Other, s)
    } else {
        run_len(CharClass::Space, s)
    }
}

/// A nonempty text always has a first symbol, of at least one character.
pub proof fn lemma_first_token_len(s: Seq<char>)
    requires
        s.len() > 0,
    ensures
        1 <= first_token_len(s) <= s.len(),
{
    lemma_run_len_le(CharClass::Letter, s);
    lemma_run_len_le(CharClass::Numeric, s);
    lemma_run_len_le(CharClass::Other, s);
    lemma_run_len_le(CharClass::Space, s);
}

/// A maximal run never extends past the end of the text.
proof fn lemma_run_len_le(cl: CharClass, s: Seq<char>)
    ensures
        run_len(cl, s) <= s.len(),
    decreases s.len(),
{
    if s.len() > 0 && in_class(cl, s[0]) {
        lemma_run_len_le(cl, s.drop_first());
    }
}

/// The symbols of `s`, in order: the first symbol, then the symbols of the
/// rest of the text.
pub open spec fn spec_pretokenize(s: Seq<char>) -> Seq<Seq<char>>
    decreases s.len(),
    via spec_pretokenize_decreases
{
    if s.len() == 0 {
        Seq::empty()
    } else {
        seq![s.take(first_token_len(s) as int)] + spec_pretokenize(
            s.skip(first_token_len(s) as int),
        )
    }
}

#[via_fn]
proof fn spec_pretokenize_decreases(s: Seq<char>) {
    if s.len() > 0 {
        lemma_first_token_len(s);
    }
}

/// The concatenation of a sequence of symbols.
pub open spec fn concat_syms(ts: Seq<Seq<char>>) -> Seq<char>
    decreases ts.len(),
{
    if ts.len() == 0 {
        Seq::empty()
    } else {
        ts[0] + concat_syms(ts.drop_first())
    }
}

/// Pretokenization covers the input: concatenating the symbols of `s`, in
/// order, reproduces `s` exactly.
pub proof fn lemma_pretokenize_covers(s: Seq<char>)
    ensures
        concat_syms(spec_pretokenize(s)) == s,
    decreases s.len(),
{
    if s.len() == 0 {
        assert(concat_syms(spec_pretokenize(s)) =~= s);
    } else {
        lemma_first_token_len(s);
        let k = first_token_len(s) as int;
        let ts = spec_pretokenize(s);
        lemma_pretokenize_covers(s.skip(k));
        assert(ts.drop_first() =~= spec_pretokenize(s.skip(k)));
        assert(concat_syms(ts) =~= s.take(k) + concat_syms(spec_pretokenize(s.skip(k))));
        assert(s.take(k) + s.skip(k) =~= s);
    }
}

/// Every produced symbol is nonempty, so a text of `n` characters yields at
/// most `n` symbols.
pub proof fn lemma_pretokenize_sizes(s: Seq<char>)
    ensures
        forall|i: int| 0 <= i < spec_pretokenize(s).len() ==> spec_pretokenize(s)[i].len() >= 1,
        spec_pretokenize(s).len() <= s.len(),
    decreases s.len(),
{
    if s.len() > 0 {
        lemma_first_token_len(s);
        let k = first_token_len(s) as int;
        lemma_pretokenize_sizes(s.skip(k));
        let ts = spec_pretokenize(s);
        assert(forall|i: int|
            1 <= i < ts.len() ==> ts[i] == spec_pretokenize(s.skip(k))[i - 1]);
    }
}

/// Computes the length of the first symbol of the suffix of `text` that
/// starts at character position `from`.
fn first_token_len_at(text: &str, from: usize, n: usize) -> (k: usize)
    requires
        n == text@.len(),
        from < n,
    ensures
        k == first_token_len(text@.skip(from as int)),
        1 <= k,
        from + k <= n,
{
    let ghost s = text@.skip(from as int);
    proof {
        lemma_first_token_len(s);
    }
    let c0 = text.get_char(from);
    assert(c0 == s[0]);
    if c0 == '\'' && from + 1 < n {
        let c1 = text.get_char(from + 1);
        assert(c1 == s[1]);
        if c1 == 's' || c1 == 't' || c1 == 'm' || c1 == 'd' {
            return 2;
        }
        if from + 2 < n {
            let c2 = text.get_char(from + 2);
            assert(c2 == s[2]);
            if (c1 == 'r' && c2 == 'e') || (c1 == 'v' && c2 == 'e') || (c1 == 'l' && c2 == 'l') {
                return 3;
            }
        }
    }
    assert(contraction_len(s) == 0);
    let cl = if char_is_letter(c0) {
        CharClass::Letter
    } else if char_is_numeric(c0) {
        CharClass::Numeric
    } else if !char_is_whitespace(c0) {
        CharClass::Other
    } else {
        CharClass::Space
    };
    assert(in_class(cl, s[0]));
    assert(first_token_len(s) == run_len(cl, s));
    let mut k: usize = 1;
    while from + k < n && char_in_class(cl, text.get_char(from + k))
        invariant
            n == text@.len(),
            from < n,
            1 <= k,
            from + k <= n,
            s == text@.skip(from as int),
            forall|j: int| 0 <= j < k ==> in_class(cl, s[j]),
        decreases n - from - k,
    {
        assert(text@[from + k as int] == s[k as int]);
        k = k + 1;
    }
    proof {
        if from + k < n {
            assert(text@[from + k as int] == s[k as int]);
        }
        lemma_run_len_is(cl, s, k as int);
    }
    k
}

/// Splits `text` into its symbols under the classification rule.
///
/// The symbols, concatenated in order, reproduce `text` exactly.
pub fn pretokenize(text: &str) -> (symbols: Vec<String>)
    ensures
        symbols.deep_view() == spec_pretokenize(text@),
        concat_syms(symbols.deep_view()) == text@,
{
    let n = text.unicode_len();
    let mut out: Vec<String> = Vec::new();
    let mut i: usize = 0;
    proof {
        assert(out.deep_view() =~= Seq::<Seq<char>>::empty());
        assert(text@.skip(0) =~= text@);
        assert(out.deep_view() + spec_pretokenize(text@) =~= spec_pretokenize(text@));
    }
    while i < n
        invariant
            n == text@.len(),
            i <= n,
            spec_pretokenize(text@) == out.deep_view() + spec_pretokenize(text@.skip(i as int)),
        decreases n - i,
    {
        let ghost s = text@.skip(i as int);
        let ghost prev = out.deep_view();
        let k = first_token_len_at(text, i, n);
        let sym = text.substring_char(i, i + k).to_owned();
        assert(sym@ =~= s.take(first_token_len(s) as int));
        out.push(sym);
        proof {
            assert(out.deep_view() =~= prev + seq![sym@]);
            assert(s.skip(first_token_len(s) as int) =~= text@.skip(i + k as int));
            assert(spec_pretokenize(s) =~= seq![sym@] + spec_pretokenize(
                text@.skip(i + k as int),
            ));
            assert(prev + spec_pretokenize(s) =~= (prev + seq![sym@]) + spec_pretokenize(
                text@.skip(i + k as int),
            ));
        }
        i = i + k;
    }
    proof {
        assert(text@.skip(n as int) =~= Seq::<char>::empty());
        assert(out.deep_view() + Seq::<Seq<char>>::empty() =~= out.deep_view());
        lemma_pretokenize_covers(text@);
    }
    out
}

} // verus!
