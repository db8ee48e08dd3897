//! Merge application: folding learned merge rules into a symbol sequence.
//!
//! The sequence is repeatedly scanned left to right; the first adjacent pair
//! that matches any rule is merged into the concatenation of its two
//! symbols, and the scan restarts, until no adjacent pair matches any rule.
//! Ties within one scan are resolved purely by position: the leftmost
//! eligible pair wins.

use vstd::prelude::*;

verus! {

use crate::pairs::TokenPair;
use crate::pretokenizer::concat_syms;

/// Whether the ordered pair `(a, b)` is one of the merge rules.
pub open spec fn rules_contain(
    rules: Seq<(Seq<char>, Seq<char>)>,
    a: Seq<char>,
    b: Seq<char>,
) -> bool {
    exists|r: int| 0 <= r < rules.len() && rules[r] == (a, b)
}

/// The least position of `ts` whose adjacent pair is a rule, or -1 when no
/// adjacent pair matches any rule.
pub open spec fn first_match(ts: Seq<Seq<char>>, rules: Seq<(Seq<char>, Seq<char>)>) -> int
    decreases ts.len(),
{
    if ts.len() < 2 {
        -1
    } else if rules_contain(rules, ts[0], ts[1]) {
        0
    } else {
        let r = first_match(ts.drop_first(), rules);
        if r < 0 {
            -1
        } else {
            r + 1
        }
    }
}

/// `first_match` points at a matching window with no earlier match, and is
/// -1 exactly when no window matches.
pub proof fn lemma_first_match(ts: Seq<Seq<char>>, rules: Seq<(Seq<char>, Seq<char>)>)
    ensures
        first_match(ts, rules) >= 0 ==> first_match(ts, rules) + 1 < ts.len() && rules_contain(
            rules,
            ts[first_match(ts, rules)],
            ts[first_match(ts, rules) + 1],
        ),
        first_match(ts, rules) < 0 ==> forall|j: int|
            0 <= j && j + 1 < ts.len() ==> !#[trigger] rules_contain(rules, ts[j], ts[j + 1]),
    decreases ts.len(),
{
    if ts.len() >= 2 && !rules_contain(rules, ts[0], ts[1]) {
        let td = ts.drop_first();
        lemma_first_match(td, rules);
        if first_match(td, rules) < 0 {
            assert forall|j: int| 0 <= j && j + 1 < ts.len() implies !#[trigger] rules_contain(
                rules,
                ts[j],
                ts[j + 1],
            ) by {
                if j > 0 {
                    assert(td[j - 1] == ts[j] && td[j] == ts[j + 1]);
                }
            }
        } else {
            assert(td[first_match(td, rules)] == ts[first_match(ts, rules)]);
            assert(td[first_match(td, rules) + 1] == ts[first_match(ts, rules) + 1]);
        }
    }
}

/// `first_match` is exactly the position of a matching window all of whose
/// predecessors fail to match.
pub proof fn lemma_first_match_is(
    ts: Seq<Seq<char>>,
    rules: Seq<(Seq<char>, Seq<char>)>,
    i: int,
)
    requires
        0 <= i,
        i + 1 < ts.len(),
        rules_contain(rules, ts[i], ts[i + 1]),
        forall|j: int| 0 <= j < i ==> !#[trigger] rules_contain(rules, ts[j], ts[j + 1]),
    ensures
        first_match(ts, rules) == i,
    decreases i,
{
    if i > 0 {
        let td = ts.drop_first();
        assert(forall|j: int| 0 <= j < ts.len() - 1 ==> td[j] == ts[j + 1]);
        assert(forall|j: int| 0 <= j < i - 1 ==> !#[trigger] rules_contain(rules, td[j], td[j + 1]));
        lemma_first_match_is(td, rules, i - 1);
    }
}

/// `ts` with the adjacent symbols at `i` and `i + 1` folded into one.
pub open spec fn merge_at(ts: Seq<Seq<char>>, i: int) -> Seq<Seq<char>>
    recommends
        0 <= i,
        i + 1 < ts.len(),
{
    ts.take(i) + seq![ts[i] + ts[i + 1]] + ts.skip(i + 2)
}

/// The result of folding merges into `ts` until no adjacent pair matches
/// any rule, always merging the leftmost eligible pair first.
pub open spec fn spec_apply_merges(
    ts: Seq<Seq<char>>,
    rules: Seq<(Seq<char>, Seq<char>)>,
) -> Seq<Seq<char>>
    decreases ts.len(),
    via spec_apply_merges_decreases
{
    if first_match(ts, rules) < 0 {
        ts
    } else {
        spec_apply_merges(merge_at(ts, first_match(ts, rules)), rules)
    }
}

#[via_fn]
proof fn spec_apply_merges_decreases(ts: Seq<Seq<char>>, rules: Seq<(Seq<char>, Seq<char>)>) {
    lemma_first_match(ts, rules);
}

/// Concatenation distributes over appending symbol sequences.
pub proof fn lemma_concat_syms_append(a: Seq<Seq<char>>, b: Seq<Seq<char>>)
    ensures
        concat_syms(a + b) == concat_syms(a) + concat_syms(b),
    decreases a.len(),
{
    if a.len() == 0 {
        assert(a + b =~= b);
        assert(concat_syms(a) + concat_syms(b) =~= concat_syms(b));
    } else {
        assert((a + b).drop_first() =~= a.drop_first() + b);
        assert((a + b)[0] == a[0]);
        lemma_concat_syms_append(a.drop_first(), b);
        assert(a[0] + (concat_syms(a.drop_first()) + concat_syms(b)) =~= (a[0] + concat_syms(
            a.drop_first(),
        )) + concat_syms(b));
    }
}

/// Merging one adjacent pair keeps the concatenated text unchanged.
proof fn lemma_merge_at_concat(ts: Seq<Seq<char>>, i: int)
    requires
        0 <= i,
        i + 1 < ts.len(),
    ensures
        concat_syms(merge_at(ts, i)) == concat_syms(ts),
{
    let a = ts.take(i);
    let mid = seq![ts[i] + ts[i + 1]];
    let tail = ts.skip(i + 2);
    lemma_concat_syms_append(a + mid, tail);
    lemma_concat_syms_append(a, mid);
    assert(mid.drop_first() =~= Seq::<Seq<char>>::empty());
    assert(mid.len() == 1 && mid[0] == ts[i] + ts[i + 1]);
    assert(concat_syms(mid) == mid[0] + concat_syms(Seq::<Seq<char>>::empty()));
    assert((ts[i] + ts[i + 1]) + Seq::<char>::empty() =~= ts[i] + ts[i + 1]);
    assert(concat_syms(mid) =~= ts[i] + ts[i + 1]);
    let m1 = seq![ts[i]];
    let m2 = seq![ts[i + 1]];
    lemma_concat_syms_append((a + m1) + m2, tail);
    lemma_concat_syms_append(a + m1, m2);
    lemma_concat_syms_append(a, m1);
    assert(m1.drop_first() =~= Seq::<Seq<char>>::empty());
    assert(ts[i] + Seq::<char>::empty() =~= ts[i]);
    assert(concat_syms(m1) =~= ts[i]);
    assert(m2.drop_first() =~= Seq::<Seq<char>>::empty());
    assert(ts[i + 1] + Seq::<char>::empty() =~= ts[i + 1]);
    assert(concat_syms(m2) =~= ts[i + 1]);
    assert(((a + m1) + m2) + tail =~= ts);
    assert((a + mid) + tail =~= merge_at(ts, i));
    assert(concat_syms(merge_at(ts, i)) =~= concat_syms(ts));
}

/// Folding merges reaches a fixpoint (no adjacent pair matches any rule),
/// keeps the concatenated text unchanged, and never lengthens the sequence
/// nor empties a nonempty one.
pub proof fn lemma_apply_merges(ts: Seq<Seq<char>>, rules: Seq<(Seq<char>, Seq<char>)>)
    ensures
        first_match(spec_apply_merges(ts, rules), rules) == -1,
        concat_syms(spec_apply_merges(ts, rules)) == concat_syms(ts),
        spec_apply_merges(ts, rules).len() <= ts.len(),
        ts.len() >= 1 ==> spec_apply_merges(ts, rules).len() >= 1,
    decreases ts.len(),
{
    lemma_first_match(ts, rules);
    let i = first_match(ts, rules);
    if i >= 0 {
        lemma_merge_at_concat(ts, i);
        lemma_apply_merges(merge_at(ts, i), rules);
    }
}

/// Decides whether `(a, b)` is one of the merge rules.
fn pair_in_rules(rules: &Vec<TokenPair>, a: &String, b: &String) -> (r: bool)
    ensures
        r == rules_contain(rules.deep_view(), a@, b@),
{
    let n = rules.len();
    let mut i: usize = 0;
    while i < n
        invariant
            n == rules@.len(),
            i <= n,
            forall|j: int| 0 <= j < i ==> rules.deep_view()[j] != (a@, b@),
        decreases n - i,
    {
        let rule = &rules[i];
        if rule.left.eq(a) && rule.right.eq(b) {
            assert(rules.deep_view()[i as int] == (a@, b@));
            return true;
        }
        assert(rules.deep_view()[i as int] != (a@, b@));
        i = i + 1;
    }
    false
}

/// Finds the leftmost position whose adjacent pair is a rule.
fn find_first_match(toks: &Vec<String>, rules: &Vec<TokenPair>) -> (r: Option<usize>)
    ensures
        match r {
            Some(i) => i == first_match(toks.deep_view(), rules.deep_view()) && i + 1
                < toks@.len(),
            None => first_match(toks.deep_view(), rules.deep_view()) == -1,
        },
{
    let ghost ts = toks.deep_view();
    let n = toks.len();
    if n < 2 {
        return None;
    }
    let mut i: usize = 0;
    while i + 1 < n
        invariant
            ts == toks.deep_view(),
            n == ts.len(),
            2 <= n,
            i + 1 <= n,
            forall|j: int|
                0 <= j < i ==> !#[trigger] rules_contain(rules.deep_view(), ts[j], ts[j + 1]),
        decreases n - i,
    {
        if pair_in_rules(rules, &toks[i], &toks[i + 1]) {
            proof {
                lemma_first_match_is(ts, rules.deep_view(), i as int);
            }
            return Some(i);
        }
        i = i + 1;
    }
    proof {
        lemma_first_match(ts, rules.deep_view());
        if first_match(ts, rules.deep_view()) >= 0 {
            assert(false);
        }
    }
    None
}

/// Folds all learned merges into `tokens`: repeatedly merges the leftmost
/// adjacent pair that matches any rule, restarting the scan after each
/// merge, until no adjacent pair matches any rule.
///
/// The result is the unique fixpoint of that strategy; it spells the same
/// text as the input and is never longer.
pub fn apply_merges_to_tokens(tokens: Vec<String>, merges: &Vec<TokenPair>) -> (r: Vec<String>)
    ensures
        r.deep_view() == spec_apply_merges(tokens.deep_view(), merges.deep_view()),
        first_match(r.deep_view(), merges.deep_view()) == -1,
        concat_syms(r.deep_view()) == concat_syms(tokens.deep_view()),
        r@.len() <= tokens@.len(),
        tokens@.len() >= 1 ==> r@.len() >= 1,
{
    let ghost orig = tokens.deep_view();
    let ghost rules = merges.deep_view();
    let mut cur = tokens;
    let mut done = false;
    while !done
        invariant
            rules == merges.deep_view(),
            spec_apply_merges(cur.deep_view(), rules) == spec_apply_merges(orig, rules),
            done ==> first_match(cur.deep_view(), rules) == -1,
        decreases cur@.len() + (if done {
            0int
        } else {
            1int
        }),
    {
        let ghost before = cur.deep_view();
        match find_first_match(&cur, merges) {
            None => {
                done = true;
            },
            Some(i) => {
                let len_now = cur.len();
                assert(i + 1 < len_now);
                let right = cur.remove(i + 1);
                let mut combined = cur[i].clone();
                combined.append(right.as_str());
                cur[i] = combined;
                proof {
                    assert(cur.deep_view() =~= merge_at(before, i as int));
                }
            },
        }
    }
    proof {
        assert(cur.deep_view() == spec_apply_merges(orig, rules));
        lemma_apply_merges(orig, rules);
        assert(orig.len() == tokens@.len() && cur.deep_view().len() == cur@.len());
    }
    cur
}

} // verus!
