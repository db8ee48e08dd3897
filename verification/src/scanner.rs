//! Corpus scanning: one full pass over the corpus lines.
//!
//! Each line is pretokenized, the merges learned so far are folded in, the
//! adjacent pairs of the resulting symbol sequence are counted, and the
//! per-line counts are summed into one pass-level table. The aggregate is a
//! pure function of the lines and the merge list, so the pass is
//! reproducible and independent of how the work would be distributed.

use vstd::prelude::*;

verus! {

use crate::merges::apply_merges_to_tokens;
use crate::merges::lemma_apply_merges;
use crate::merges::spec_apply_merges;
use crate::pairs::PairTable;
use crate::pairs::TokenPair;
use crate::pairs::count_token_pairs;
use crate::pairs::freq_of;
use crate::pairs::keys_distinct;
use crate::pairs::find_key;
use crate::pairs::counts_positive;
use crate::pairs::lemma_bump;
use crate::pairs::lemma_bump_counts_positive;
use crate::pairs::lemma_count_pairs_positive;
use crate::pairs::lemma_count_pairs;
use crate::pairs::lemma_find_key;
use crate::pairs::lemma_freq_via_drop_first;
use crate::pairs::pair_count;
use crate::pairs::spec_bump;
use crate::pairs::spec_count_pairs;
use crate::pairs::total_count;
use crate::pretokenizer::lemma_pretokenize_sizes;
use crate::pretokenizer::pretokenize;
use crate::pretokenizer::spec_pretokenize;

/// The symbol sequence a line contributes to the pass: its pretokens with
/// all learned merges folded in.
pub open spec fn merged_tokens(line: Seq<char>, rules: Seq<(Seq<char>, Seq<char>)>) -> Seq<
    Seq<char>,
> {
    spec_apply_merges(spec_pretokenize(line), rules)
}

/// The pair-frequency table of one line.
pub open spec fn spec_line_table(line: Seq<char>, rules: Seq<(Seq<char>, Seq<char>)>) -> Seq<
    ((Seq<char>, Seq<char>), nat),
> {
    spec_count_pairs(merged_tokens(line, rules))
}

/// The table `g` with every entry of `m` added in, front to back.
pub open spec fn spec_merge_tables(
    g: Seq<((Seq<char>, Seq<char>), nat)>,
    m: Seq<((Seq<char>, Seq<char>), nat)>,
) -> Seq<((Seq<char>, Seq<char>), nat)>
    decreases m.len(),
{
    if m.len() == 0 {
        g
    } else {
        spec_merge_tables(spec_bump(g, m[0].0, m[0].1), m.drop_first())
    }
}

/// Merging tables sums their counts key-wise and their totals, and keeps
/// keys distinct.
pub proof fn lemma_merge_tables(
    g: Seq<((Seq<char>, Seq<char>), nat)>,
    m: Seq<((Seq<char>, Seq<char>), nat)>,
)
    requires
        keys_distinct(g),
        keys_distinct(m),
    ensures
        keys_distinct(spec_merge_tables(g, m)),
        total_count(spec_merge_tables(g, m)) == total_count(g) + total_count(m),
        forall|k: (Seq<char>, Seq<char>)| #[trigger] freq_of(spec_merge_tables(g, m), k)
            == freq_of(g, k) + freq_of(m, k),
    decreases m.len(),
{
    if m.len() > 0 {
        let key0 = m[0].0;
        let g2 = spec_bump(g, key0, m[0].1);
        let md = m.drop_first();
        lemma_bump(g, key0, m[0].1);
        assert(keys_distinct(md)) by {
            assert(forall|i: int, j: int|
                0 <= i < j < md.len() ==> md[i] == m[i + 1] && md[j] == m[j + 1]);
        }
        lemma_merge_tables(g2, md);
        assert forall|k: (Seq<char>, Seq<char>)| #[trigger] freq_of(spec_merge_tables(g, m), k)
            == freq_of(g, k) + freq_of(m, k) by {
            lemma_freq_via_drop_first(m, k);
            if k == key0 {
                assert(freq_of(md, k) == 0) by {
                    lemma_find_key(md, k);
                    if find_key(md, k) >= 0 {
                        assert(false);
                    }
                }
            }
        }
    }
}

/// Splitting a table front/back splits its total.
pub proof fn lemma_total_skip_step(m: Seq<((Seq<char>, Seq<char>), nat)>, i: int)
    requires
        0 <= i < m.len(),
    ensures
        total_count(m.skip(i)) == m[i].1 + total_count(m.skip(i + 1)),
{
    assert(m.skip(i).drop_first() =~= m.skip(i + 1));
    assert(m.skip(i)[0] == m[i]);
}

/// Adds every entry of `other` into `acc`.
fn absorb_table(acc: &mut PairTable, other: &PairTable)
    requires
        old(acc).wf(),
        other.wf(),
        total_count(old(acc)@) + total_count(other@) <= u64::MAX,
    ensures
        final(acc).wf(),
        final(acc)@ == spec_merge_tables(old(acc)@, other@),
{
    let ghost g0 = acc@;
    let ghost m = other@;
    let n = other.len();
    proof {
        assert(m.skip(0) =~= m);
    }
    let mut i: usize = 0;
    while i < n
        invariant
            m == other@,
            n == m.len(),
            i <= n,
            acc.wf(),
            keys_distinct(m),
            spec_merge_tables(g0, m) == spec_merge_tables(acc@, m.skip(i as int)),
            total_count(acc@) + total_count(m.skip(i as int)) <= u64::MAX,
        decreases n - i,
    {
        let ghost before = acc@;
        proof {
            lemma_total_skip_step(m, i as int);
        }
        let e = other.entry_at(i);
        proof {
            lemma_bump(before, m[i as int].0, m[i as int].1);
        }
        acc.bump(e.0, e.1);
        proof {
            assert(m.skip(i as int)[0] == m[i as int]);
            assert(m.skip(i as int).drop_first() =~= m.skip(i + 1));
            assert(spec_merge_tables(before, m.skip(i as int)) == spec_merge_tables(
                spec_bump(before, m[i as int].0, m[i as int].1),
                m.skip(i + 1),
            ));
        }
        i = i + 1;
    }
    proof {
        assert(m.skip(n as int) =~= Seq::<((Seq<char>, Seq<char>), nat)>::empty());
    }
}

/// The total character count of the corpus lines; every pair occurrence
/// counted in a pass stems from a distinct window, so pass totals are
/// bounded by this weight.
pub open spec fn corpus_weight(lines: Seq<Seq<char>>) -> nat
    decreases lines.len(),
{
    if lines.len() == 0 {
        0
    } else {
        lines[0].len() + corpus_weight(lines.drop_first())
    }
}

/// The corpus weight is additive over concatenation.
pub proof fn lemma_corpus_weight_append(a: Seq<Seq<char>>, b: Seq<Seq<char>>)
    ensures
        corpus_weight(a + b) == corpus_weight(a) + corpus_weight(b),
    decreases a.len(),
{
    if a.len() == 0 {
        assert(a + b =~= b);
    } else {
        assert((a + b).drop_first() =~= a.drop_first() + b);
        assert((a + b)[0] == a[0]);
        lemma_corpus_weight_append(a.drop_first(), b);
    }
}

/// One more line adds exactly its length to the weight of a prefix.
pub proof fn lemma_corpus_weight_take_step(lines: Seq<Seq<char>>, i: int)
    requires
        0 <= i < lines.len(),
    ensures
        corpus_weight(lines.take(i + 1)) == corpus_weight(lines.take(i)) + lines[i].len(),
{
    assert(lines.take(i + 1) =~= lines.take(i) + seq![lines[i]]);
    lemma_corpus_weight_append(lines.take(i), seq![lines[i]]);
    assert(seq![lines[i]].drop_first() =~= Seq::<Seq<char>>::empty());
    assert(seq![lines[i]].len() == 1 && seq![lines[i]][0] == lines[i]);
    assert(corpus_weight(seq![lines[i]]) == lines[i].len() + corpus_weight(
        Seq::<Seq<char>>::empty(),
    ));
}

/// A prefix of the corpus weighs no more than the whole corpus.
pub proof fn lemma_corpus_weight_take_le(lines: Seq<Seq<char>>, i: int)
    requires
        0 <= i <= lines.len(),
    ensures
        corpus_weight(lines.take(i)) <= corpus_weight(lines),
{
    assert(lines =~= lines.take(i) + lines.skip(i));
    lemma_corpus_weight_append(lines.take(i), lines.skip(i));
}

/// A line's table records every adjacent pair of its merged symbol
/// sequence, with a total below the line's character count.
pub proof fn lemma_line_table(line: Seq<char>, rules: Seq<(Seq<char>, Seq<char>)>)
    ensures
        keys_distinct(spec_line_table(line, rules)),
        total_count(spec_line_table(line, rules)) <= line.len(),
        forall|k: (Seq<char>, Seq<char>)| #[trigger] freq_of(spec_line_table(line, rules), k)
            == pair_count(merged_tokens(line, rules), k),
{
    let toks = spec_pretokenize(line);
    let merged = merged_tokens(line, rules);
    lemma_pretokenize_sizes(line);
    lemma_apply_merges(toks, rules);
    lemma_count_pairs(merged);
}

/// The pass-level table: every line's table summed in, in line order.
pub open spec fn spec_scan(lines: Seq<Seq<char>>, rules: Seq<(Seq<char>, Seq<char>)>) -> Seq<
    ((Seq<char>, Seq<char>), nat),
>
    decreases lines.len(),
{
    if lines.len() == 0 {
        Seq::empty()
    } else {
        spec_merge_tables(
            spec_scan(lines.drop_last(), rules),
            spec_line_table(lines.last(), rules),
        )
    }
}

/// The number of adjacent occurrences of `key` across the whole corpus,
/// after folding the learned merges into every line.
pub open spec fn corpus_pair_count(
    lines: Seq<Seq<char>>,
    rules: Seq<(Seq<char>, Seq<char>)>,
    key: (Seq<char>, Seq<char>),
) -> nat
    decreases lines.len(),
{
    if lines.len() == 0 {
        0
    } else {
        corpus_pair_count(lines.drop_last(), rules, key) + pair_count(
            merged_tokens(lines.last(), rules),
            key,
        )
    }
}

/// Correctness of a pass: the aggregate table is well formed, counts every
/// pair exactly as often as it occurs across the corpus, and weighs no more
/// than the corpus.
pub proof fn lemma_scan(lines: Seq<Seq<char>>, rules: Seq<(Seq<char>, Seq<char>)>)
    ensures
        keys_distinct(spec_scan(lines, rules)),
        total_count(spec_scan(lines, rules)) <= corpus_weight(lines),
        forall|k: (Seq<char>, Seq<char>)| #[trigger] freq_of(spec_scan(lines, rules), k)
            == corpus_pair_count(lines, rules, k),
    decreases lines.len(),
{
    if lines.len() > 0 {
        let prev = spec_scan(lines.drop_last(), rules);
        let lt = spec_line_table(lines.last(), rules);
        lemma_scan(lines.drop_last(), rules);
        lemma_line_table(lines.last(), rules);
        lemma_merge_tables(prev, lt);
        assert(lines =~= lines.drop_last() + seq![lines.last()]);
        lemma_corpus_weight_append(lines.drop_last(), seq![lines.last()]);
        assert(seq![lines.last()].drop_first() =~= Seq::<Seq<char>>::empty());
    }
}

/// Pretokenizes one text unit, folds the learned merges in, and counts the
/// adjacent pairs of the result.
pub fn map_count_pairs(text: &str, merges: &Vec<TokenPair>) -> (t: PairTable)
    ensures
        t@ == spec_line_table(text@, merges.deep_view()),
        t.wf(),
        total_count(t@) <= text@.len(),
        forall|k: (Seq<char>, Seq<char>)| #[trigger] freq_of(t@, k) == pair_count(
            merged_tokens(text@, merges.deep_view()),
            k,
        ),
{
    let base_tokens = pretokenize(text);
    let tokens = apply_merges_to_tokens(base_tokens, merges);
    let t = count_token_pairs(&tokens);
    proof {
        lemma_line_table(text@, merges.deep_view());
    }
    t
}

/// Performs one full pass over the corpus: sums the pair counts of every
/// line, with the learned merges folded into each line first.
///
/// The result is exactly the key-wise sum of the per-line tables, in
/// deterministic first-occurrence order.
pub fn scan_corpus(lines: &Vec<String>, merges: &Vec<TokenPair>) -> (t: PairTable)
    requires
        corpus_weight(lines.deep_view()) <= u64::MAX,
    ensures
        t@ == spec_scan(lines.deep_view(), merges.deep_view()),
        t.wf(),
        total_count(t@) <= corpus_weight(lines.deep_view()),
        forall|k: (Seq<char>, Seq<char>)| #[trigger] freq_of(t@, k) == corpus_pair_count(
            lines.deep_view(),
            merges.deep_view(),
            k,
        ),
{
    let ghost ls = lines.deep_view();
    let ghost rules = merges.deep_view();
    let mut t = PairTable::new();
    let n = lines.len();
    proof {
        assert(ls.take(0) =~= Seq::<Seq<char>>::empty());
    }
    let mut i: usize = 0;
    while i < n
        invariant
            ls == lines.deep_view(),
            rules == merges.deep_view(),
            n == ls.len(),
            i <= n,
            t.wf(),
            t@ == spec_scan(ls.take(i as int), rules),
            total_count(t@) <= corpus_weight(ls.take(i as int)),
            corpus_weight(ls) <= u64::MAX,
        decreases n - i,
    {
        let line_table = map_count_pairs(lines[i].as_str(), merges);
        proof {
            lemma_corpus_weight_take_step(ls, i as int);
            lemma_corpus_weight_take_le(ls, i + 1);
            lemma_scan(ls.take(i as int), rules);
            lemma_line_table(ls[i as int], rules);
        }
        absorb_table(&mut t, &line_table);
        proof {
            lemma_merge_tables(spec_scan(ls.take(i as int), rules), line_table@);
            assert(ls.take(i + 1).drop_last() =~= ls.take(i as int));
            assert(ls.take(i + 1).last() == ls[i as int]);
            assert(t@ == spec_scan(ls.take(i + 1), rules));
        }
        i = i + 1;
    }
    proof {
        assert(ls.take(n as int) =~= ls);
        lemma_scan(ls, rules);
    }
    t
}

/// Computes the corpus weight, or reports that it does not fit in a `u64`.
pub fn corpus_weight_of(lines: &Vec<String>) -> (w: Option<u64>)
    ensures
        match w {
            Some(v) => v == corpus_weight(lines.deep_view()),
            None => corpus_weight(lines.deep_view()) > u64::MAX,
        },
{
    let ghost ls = lines.deep_view();
    let n = lines.len();
    let mut w: u64 = 0;
    proof {
        assert(ls.take(0) =~= Seq::<Seq<char>>::empty());
    }
    let mut i: usize = 0;
    while i < n
        invariant
            ls == lines.deep_view(),
            n == ls.len(),
            i <= n,
            w == corpus_weight(ls.take(i as int)),
        decreases n - i,
    {
        let len = vstd::string::StrSliceExecFns::unicode_len(lines[i].as_str());
        proof {
            lemma_corpus_weight_take_step(ls, i as int);
            assert(usize::MAX <= u64::MAX);
        }
        if (len as u64) > u64::MAX - w {
            proof {
                lemma_corpus_weight_take_le(ls, i + 1);
            }
            return None;
        }
        w = w + (len as u64);
        i = i + 1;
    }
    proof {
        assert(ls.take(n as int) =~= ls);
    }
    Some(w)
}

/// In a sequence where no adjacent pair matches any rule, every rule pair
/// has an adjacent-occurrence count of zero.
pub proof fn lemma_no_match_pair_count(
    ts: Seq<Seq<char>>,
    rules: Seq<(Seq<char>, Seq<char>)>,
    key: (Seq<char>, Seq<char>),
)
    requires
        forall|j: int|
            0 <= j && j + 1 < ts.len() ==> !#[trigger] crate::merges::rules_contain(
                rules,
                ts[j],
                ts[j + 1],
            ),
        crate::merges::rules_contain(rules, key.0, key.1),
    ensures
        pair_count(ts, key) == 0,
    decreases ts.len(),
{
    if ts.len() >= 2 {
        assert(forall|j: int|
            0 <= j < ts.drop_last().len() ==> #[trigger] ts.drop_last()[j] == ts[j]);
        lemma_no_match_pair_count(ts.drop_last(), rules, key);
        if (ts[ts.len() - 2], ts[ts.len() - 1]) == key {
            let j = ts.len() - 2;
            assert(!crate::merges::rules_contain(rules, ts[j], ts[j + 1]));
            assert(false);
        }
    }
}

/// Once a pair is a rule, a pass counts no occurrence of it anywhere in the
/// corpus: every line's merged symbol sequence is a fixpoint of the rules.
pub proof fn lemma_scan_rule_pair_zero(
    lines: Seq<Seq<char>>,
    rules: Seq<(Seq<char>, Seq<char>)>,
    key: (Seq<char>, Seq<char>),
)
    requires
        crate::merges::rules_contain(rules, key.0, key.1),
    ensures
        freq_of(spec_scan(lines, rules), key) == 0,
    decreases lines.len(),
{
    lemma_scan(lines, rules);
    assert(corpus_pair_count(lines, rules, key) == 0) by {
        lemma_corpus_rule_pair_zero(lines, rules, key);
    }
}

/// The corpus-wide occurrence count of a rule pair is zero.
proof fn lemma_corpus_rule_pair_zero(
    lines: Seq<Seq<char>>,
    rules: Seq<(Seq<char>, Seq<char>)>,
    key: (Seq<char>, Seq<char>),
)
    requires
        crate::merges::rules_contain(rules, key.0, key.1),
    ensures
        corpus_pair_count(lines, rules, key) == 0,
    decreases lines.len(),
{
    if lines.len() > 0 {
        lemma_corpus_rule_pair_zero(lines.drop_last(), rules, key);
        let merged = merged_tokens(lines.last(), rules);
        lemma_apply_merges(spec_pretokenize(lines.last()), rules);
        crate::merges::lemma_first_match(merged, rules);
        lemma_no_match_pair_count(merged, rules, key);
    }
}

/// Merging tables of positive counts yields positive counts.
pub proof fn lemma_merge_tables_positive(
    g: Seq<((Seq<char>, Seq<char>), nat)>,
    m: Seq<((Seq<char>, Seq<char>), nat)>,
)
    requires
        counts_positive(g),
        counts_positive(m),
    ensures
        counts_positive(spec_merge_tables(g, m)),
    decreases m.len(),
{
    if m.len() > 0 {
        assert(m[0].1 >= 1);
        lemma_bump_counts_positive(g, m[0].0, m[0].1);
        assert(counts_positive(m.drop_first())) by {
            assert(forall|i: int|
                0 <= i < m.drop_first().len() ==> #[trigger] m.drop_first()[i] == m[i + 1]);
        }
        lemma_merge_tables_positive(spec_bump(g, m[0].0, m[0].1), m.drop_first());
    }
}

/// Every count a pass records is positive.
pub proof fn lemma_scan_positive(lines: Seq<Seq<char>>, rules: Seq<(Seq<char>, Seq<char>)>)
    ensures
        counts_positive(spec_scan(lines, rules)),
    decreases lines.len(),
{
    if lines.len() > 0 {
        lemma_scan_positive(lines.drop_last(), rules);
        lemma_count_pairs_positive(merged_tokens(lines.last(), rules));
        lemma_merge_tables_positive(
            spec_scan(lines.drop_last(), rules),
            spec_line_table(lines.last(), rules),
        );
    }
}

/// Corpus-wide pair counts are additive over splitting the line sequence.
pub proof fn lemma_corpus_pair_count_append(
    a: Seq<Seq<char>>,
    b: Seq<Seq<char>>,
    rules: Seq<(Seq<char>, Seq<char>)>,
    key: (Seq<char>, Seq<char>),
)
    ensures
        corpus_pair_count(a + b, rules, key) == corpus_pair_count(a, rules, key)
            + corpus_pair_count(b, rules, key),
    decreases b.len(),
{
    if b.len() == 0 {
        assert(a + b =~= a);
    } else {
        assert((a + b).drop_last() =~= a + b.drop_last());
        assert((a + b).last() == b.last());
        lemma_corpus_pair_count_append(a, b.drop_last(), rules, key);
    }
}

/// Removing one line removes exactly its contribution to the corpus count.
proof fn lemma_corpus_pair_count_remove(
    lines: Seq<Seq<char>>,
    i: int,
    rules: Seq<(Seq<char>, Seq<char>)>,
    key: (Seq<char>, Seq<char>),
)
    requires
        0 <= i < lines.len(),
    ensures
        corpus_pair_count(lines, rules, key) == corpus_pair_count(lines.remove(i), rules, key)
            + pair_count(merged_tokens(lines[i], rules), key),
{
    let a = lines.take(i);
    let mid = seq![lines[i]];
    let b = lines.skip(i + 1);
    assert(lines =~= (a + mid) + b);
    assert(lines.remove(i) =~= a + b);
    lemma_corpus_pair_count_append(a + mid, b, rules, key);
    lemma_corpus_pair_count_append(a, mid, rules, key);
    lemma_corpus_pair_count_append(a, b, rules, key);
    assert(corpus_pair_count(mid, rules, key) == pair_count(merged_tokens(lines[i], rules), key))
        by {
        assert(mid.len() == 1);
        assert(mid.drop_last() =~= Seq::<Seq<char>>::empty());
        assert(corpus_pair_count(Seq::<Seq<char>>::empty(), rules, key) == 0);
        assert(mid.last() == lines[i]);
    }
}

/// Corpus-wide pair counts depend only on which lines the corpus holds (as
/// a multiset), not on their order: the count is a sum of per-line counts.
pub proof fn lemma_corpus_pair_count_permutation(
    l1: Seq<Seq<char>>,
    l2: Seq<Seq<char>>,
    rules: Seq<(Seq<char>, Seq<char>)>,
    key: (Seq<char>, Seq<char>),
)
    requires
        l1.to_multiset() == l2.to_multiset(),
    ensures
        corpus_pair_count(l1, rules, key) == corpus_pair_count(l2, rules, key),
    decreases l1.len(),
{
    l1.to_multiset_ensures();
    l2.to_multiset_ensures();
    if l1.len() == 0 {
        assert(l2.len() == 0);
    } else {
        let last = l1.last();
        assert(l1.contains(last));
        assert(l1.to_multiset().count(last) > 0);
        assert(l2.to_multiset().count(last) > 0);
        assert(l2.contains(last));
        let i = choose|i: int| 0 <= i < l2.len() && l2[i] == last;
        lemma_corpus_pair_count_remove(l2, i, rules, key);
        assert(l1.drop_last() =~= l1.remove(l1.len() - 1));
        assert(l1.remove(l1.len() - 1).to_multiset() =~= l1.to_multiset().remove(last));
        assert(l2.remove(i).to_multiset() =~= l2.to_multiset().remove(last));
        lemma_corpus_pair_count_permutation(l1.drop_last(), l2.remove(i), rules, key);
    }
}

/// A resumable corpus pass: lines are fed one at a time, so a caller can
/// stream the corpus from its source instead of materializing it, and memory
/// stays bounded by the table, not the corpus.
pub struct CorpusPass {
    /// The running pass-level table.
    pub table: PairTable,
    /// The exact corpus weight (total characters) of the lines fed so far.
    pub weight: u64,
    /// The lines fed so far.
    pub processed: Ghost<Seq<Seq<char>>>,
}

impl CorpusPass {
    /// The lines fed so far.
    pub open spec fn lines(&self) -> Seq<Seq<char>> {
        self.processed@
    }

    /// The pass invariant under a merge list: the table aggregates exactly
    /// the fed lines, and the tracked weight is their character count.
    pub open spec fn wf(&self, rules: Seq<(Seq<char>, Seq<char>)>) -> bool {
        &&& self.table.wf()
        &&& self.table@ == spec_scan(self.processed@, rules)
        &&& self.weight as nat == corpus_weight(self.processed@)
    }

    /// Starts an empty pass.
    pub fn new() -> (p: CorpusPass)
        ensures
            p.lines() == Seq::<Seq<char>>::empty(),
            forall|rules: Seq<(Seq<char>, Seq<char>)>| #[trigger] p.wf(rules),
    {
        let p = CorpusPass { table: PairTable::new(), weight: 0, processed: Ghost(Seq::empty()) };
        proof {
            assert forall|rules: Seq<(Seq<char>, Seq<char>)>| #[trigger] p.wf(rules) by {
                assert(p.table@ =~= spec_scan(p.processed@, rules));
            }
        }
        p
    }

    /// Feeds one line into the pass. Returns `false`, leaving the pass
    /// unchanged, when the accumulated corpus weight would no longer fit in
    /// 64 bits.
    pub fn feed_line(&mut self, line: &str, merges: &Vec<TokenPair>) -> (ok: bool)
        requires
            old(self).wf(merges.deep_view()),
        ensures
            final(self).wf(merges.deep_view()),
            ok ==> final(self).lines() == old(self).lines().push(line@),
            !ok ==> final(self).lines() == old(self).lines() && corpus_weight(
                old(self).lines().push(line@),
            ) > u64::MAX,
    {
        let ghost rules = merges.deep_view();
        let ghost fed = self.processed@;
        let len = vstd::string::StrSliceExecFns::unicode_len(line);
        proof {
            assert(fed.push(line@).drop_last() =~= fed);
            assert(fed.push(line@).last() == line@);
            assert(fed.push(line@) =~= fed + seq![line@]);
            lemma_corpus_weight_append(fed, seq![line@]);
            assert(seq![line@].drop_first() =~= Seq::<Seq<char>>::empty());
            assert(seq![line@].len() == 1 && seq![line@][0] == line@);
            assert(corpus_weight(seq![line@]) == line@.len() + corpus_weight(
                Seq::<Seq<char>>::empty(),
            ));
            assert(corpus_weight(fed.push(line@)) == corpus_weight(fed) + line@.len());
            assert(usize::MAX <= u64::MAX);
        }
        if (len as u64) > u64::MAX - self.weight {
            return false;
        }
        let line_table = map_count_pairs(line, merges);
        proof {
            lemma_scan(fed, rules);
            lemma_line_table(line@, rules);
        }
        absorb_table(&mut self.table, &line_table);
        self.weight = self.weight + (len as u64);
        self.processed = Ghost(fed.push(line@));
        proof {
            lemma_merge_tables(spec_scan(fed, rules), spec_line_table(line@, rules));
            assert(self.table@ == spec_scan(fed.push(line@), rules));
        }
        true
    }

    /// Ends the pass, handing out the aggregated table.
    pub fn finish(self) -> (t: PairTable)
        ensures
            t == self.table,
    {
        self.table
    }
}

} // verus!
