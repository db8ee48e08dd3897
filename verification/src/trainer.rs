//! The merge trainer: repeated corpus passes, one committed merge per pass.
//!
//! Each round scans the whole corpus with the merges learned so far, selects
//! the pair with the highest frequency — ties are broken in favour of the
//! lexicographically least pair (by code point, left symbol first), an order
//! intrinsic to the pair, so that selection depends on the counts alone and
//! not on the order in which the corpus lines were processed — and commits
//! it: the pair is appended to the merge list and the merged symbol is
//! entered into the vocabulary with the winning frequency. Training stops
//! when the merge list reaches the target vocabulary size or no pair has
//! positive frequency.

use vstd::prelude::*;

verus! {

use crate::pairs::PairTable;
use crate::pairs::TokenPair;
use crate::pairs::counts_positive;
use crate::pairs::find_key;
use crate::pairs::freq_of;
use crate::pairs::keys_distinct;
use crate::pairs::lemma_find_key;
use crate::pairs::lemma_freq_at_index;
use crate::pairs::lemma_pair_lt_strict;
use crate::pairs::lemma_pair_lt_transitive;
use crate::pairs::pair_lt;
use crate::pairs::token_pair_lt;
use crate::scanner::corpus_weight;
use crate::scanner::lemma_corpus_pair_count_permutation;
use crate::scanner::lemma_scan;
use crate::scanner::lemma_scan_positive;
use crate::scanner::scan_corpus;
use crate::scanner::spec_scan;

/// Whether entry `e` wins over entry `f`: a strictly higher count, or an
/// equal count and a lexicographically smaller pair.
pub open spec fn better_entry(
    e: ((Seq<char>, Seq<char>), nat),
    f: ((Seq<char>, Seq<char>), nat),
) -> bool {
    e.1 > f.1 || (e.1 == f.1 && pair_lt(e.0, f.0))
}

/// The index of the winning entry: the highest count, the lexicographically
/// least pair among equally counted ones; -1 for an empty table. The winner
/// is a function of the table's contents alone, not of entry order.
pub open spec fn best_idx(m: Seq<((Seq<char>, Seq<char>), nat)>) -> int
    decreases m.len(),
{
    if m.len() == 0 {
        -1
    } else if m.len() == 1 {
        0
    } else {
        let r = best_idx(m.drop_last());
        if better_entry(m[m.len() - 1], m[r]) {
            m.len() - 1
        } else {
            r
        }
    }
}

/// The best index is valid, carries a maximal count and, in a table with
/// distinct keys, the lexicographically least pair among the maximal ones.
pub proof fn lemma_best_idx(m: Seq<((Seq<char>, Seq<char>), nat)>)
    requires
        m.len() > 0,
    ensures
        0 <= best_idx(m) < m.len(),
        forall|i: int| 0 <= i < m.len() ==> (#[trigger] m[i].1) <= m[best_idx(m)].1,
        keys_distinct(m) ==> forall|i: int|
            0 <= i < m.len() && i != best_idx(m) && (#[trigger] m[i].1) == m[best_idx(m)].1
                ==> pair_lt(m[best_idx(m)].0, m[i].0),
    decreases m.len(),
{
    if m.len() > 1 {
        let md = m.drop_last();
        lemma_best_idx(md);
        assert(forall|i: int| 0 <= i < m.len() - 1 ==> md[i] == m[i]);
        if keys_distinct(m) {
            assert(keys_distinct(md)) by {
                assert(forall|i: int, j: int|
                    0 <= i < j < md.len() ==> md[i] == m[i] && md[j] == m[j]);
            }
            let r = best_idx(md);
            let last = m.len() - 1;
            let b = best_idx(m);
            assert forall|i: int|
                0 <= i < m.len() && i != b && (#[trigger] m[i].1) == m[b].1 implies pair_lt(
                m[b].0,
                m[i].0,
            ) by {
                if better_entry(m[last], m[r]) {
                    if m[last].1 > m[r].1 {
                        assert(m[i].1 <= m[r].1);
                        assert(false);
                    } else if i != r {
                        lemma_pair_lt_transitive(m[last].0, m[r].0, m[i].0);
                    }
                } else {
                    if i == last {
                        lemma_pair_lt_strict(m[last].0, m[r].0);
                        assert(m[r].0 != m[last].0);
                    }
                }
            }
        }
    }
}

/// Selects the winning entry of the pass: the pair with the highest count,
/// the lexicographically least pair on ties, or nothing when the table is
/// empty.
pub fn select_best(t: &PairTable) -> (r: Option<(TokenPair, u64)>)
    ensures
        match r {
            Some(e) => t@.len() > 0 && (e.0@, e.1 as nat) == t@[best_idx(t@)],
            None => t@.len() == 0,
        },
{
    let ghost m = t@;
    let n = t.len();
    if n == 0 {
        return None;
    }
    proof {
        assert(m.take(1).len() == 1);
    }
    let mut best: usize = 0;
    let mut i: usize = 1;
    while i < n
        invariant
            m == t@,
            n == m.len(),
            1 <= i <= n,
            best < i,
            best == best_idx(m.take(i as int)),
        decreases n - i,
    {
        proof {
            assert(m.take(i + 1).drop_last() =~= m.take(i as int));
            assert(m.take(i + 1)[i as int] == m[i as int]);
            lemma_best_idx(m.take(i as int));
        }
        let ci = t.entries[i].1;
        let cb = t.entries[best].1;
        proof {
            assert(m[i as int].1 == ci as nat && m[best as int].1 == cb as nat);
            assert(m[i as int].0 == t.entries[i as int].0@);
            assert(m[best as int].0 == t.entries[best as int].0@);
        }
        if ci > cb {
            best = i;
        } else if ci == cb && token_pair_lt(&t.entries[i].0, &t.entries[best].0) {
            best = i;
        }
        i = i + 1;
    }
    proof {
        assert(m.take(n as int) =~= m);
    }
    Some(t.entry_at(best))
}

/// The index of the first vocabulary entry for `key`, or -1.
pub open spec fn vocab_find(m: Seq<(Seq<char>, nat)>, key: Seq<char>) -> int
    decreases m.len(),
{
    if m.len() == 0 {
        -1
    } else if m[0].0 == key {
        0
    } else {
        let r = vocab_find(m.drop_first(), key);
        if r < 0 {
            -1
        } else {
            r + 1
        }
    }
}

/// The vocabulary with `key` bound to `c`: an existing entry is overwritten,
/// a missing key is appended.
pub open spec fn spec_vocab_upsert(m: Seq<(Seq<char>, nat)>, key: Seq<char>, c: nat) -> Seq<
    (Seq<char>, nat),
> {
    let i = vocab_find(m, key);
    if i >= 0 {
        m.update(i, (key, c))
    } else {
        m.push((key, c))
    }
}

/// `vocab_find` points at the first entry with the key when all earlier
/// entries have other keys.
proof fn lemma_vocab_find_is(m: Seq<(Seq<char>, nat)>, key: Seq<char>, i: int)
    requires
        0 <= i < m.len(),
        m[i].0 == key,
        forall|j: int| 0 <= j < i ==> m[j].0 != key,
    ensures
        vocab_find(m, key) == i,
    decreases i,
{
    if i > 0 {
        let md = m.drop_first();
        assert(forall|j: int| 0 <= j < i - 1 ==> md[j] == m[j + 1]);
        lemma_vocab_find_is(md, key, i - 1);
    }
}

/// `vocab_find` finds a valid entry holding the key, and is -1 exactly when
/// the key is absent.
pub proof fn lemma_vocab_find(m: Seq<(Seq<char>, nat)>, key: Seq<char>)
    ensures
        vocab_find(m, key) >= 0 ==> 0 <= vocab_find(m, key) < m.len() && m[vocab_find(m, key)].0
            == key,
        vocab_find(m, key) < 0 ==> forall|j: int| 0 <= j < m.len() ==> m[j].0 != key,
    decreases m.len(),
{
    if m.len() > 0 && m[0].0 != key {
        lemma_vocab_find(m.drop_first(), key);
        assert(forall|j: int| 1 <= j < m.len() ==> m[j] == m.drop_first()[j - 1]);
    }
}

/// The mathematical value of a vocabulary: its symbols and counts in entry
/// order.
pub open spec fn vocab_model(v: Seq<(String, u64)>) -> Seq<(Seq<char>, nat)> {
    Seq::new(v.len(), |i: int| (v[i].0@, v[i].1 as nat))
}

/// Binds `sym` to `c` in the vocabulary, overwriting an existing entry.
fn vocab_upsert(vocab: &mut Vec<(String, u64)>, sym: String, c: u64)
    ensures
        vocab_model(final(vocab)@) == spec_vocab_upsert(vocab_model(old(vocab)@), sym@, c as nat),
        final(vocab)@.len() <= old(vocab)@.len() + 1,
{
    let ghost m = vocab_model(vocab@);
    let n = vocab.len();
    let mut i: usize = 0;
    while i < n
        invariant
            m == vocab_model(vocab@),
            vocab == old(vocab),
            n == vocab@.len(),
            i <= n,
            forall|j: int| 0 <= j < i ==> m[j].0 != sym@,
        decreases n - i,
    {
        if vocab[i].0.eq(&sym) {
            proof {
                lemma_vocab_find_is(m, sym@, i as int);
            }
            let ghost key = sym@;
            vocab[i] = (sym, c);
            proof {
                assert(vocab_model(vocab@) =~= spec_vocab_upsert(m, key, c as nat));
            }
            return ;
        }
        assert(m[i as int].0 != sym@);
        i = i + 1;
    }
    let ghost key = sym@;
    vocab.push((sym, c));
    proof {
        lemma_vocab_find(m, key);
        if vocab_find(m, key) >= 0 {
            assert(false);
        }
        assert(vocab_model(vocab@) =~= spec_vocab_upsert(m, key, c as nat));
    }
}

/// The state of training continued from a given merge list and vocabulary:
/// scan, select, commit, repeat, until the merge list reaches `vocab_size`
/// or the pass yields no pair with positive frequency.
pub open spec fn spec_train_from(
    lines: Seq<Seq<char>>,
    merges: Seq<(Seq<char>, Seq<char>)>,
    vocab: Seq<(Seq<char>, nat)>,
    vocab_size: nat,
) -> (Seq<(Seq<char>, Seq<char>)>, Seq<(Seq<char>, nat)>)
    decreases vocab_size - merges.len(),
{
    if merges.len() >= vocab_size {
        (merges, vocab)
    } else {
        let table = spec_scan(lines, merges);
        let b = best_idx(table);
        if b < 0 || table[b].1 == 0 {
            (merges, vocab)
        } else {
            let pair = table[b].0;
            spec_train_from(
                lines,
                merges.push(pair),
                spec_vocab_upsert(vocab, pair.0 + pair.1, table[b].1),
                vocab_size,
            )
        }
    }
}

/// The merge list and vocabulary learned from `lines` with the target
/// vocabulary size, starting from nothing.
pub open spec fn spec_train(lines: Seq<Seq<char>>, vocab_size: nat) -> (
    Seq<(Seq<char>, Seq<char>)>,
    Seq<(Seq<char>, nat)>,
) {
    spec_train_from(lines, Seq::empty(), Seq::empty(), vocab_size)
}

/// Training only appends to the merge list, never exceeds the target size,
/// and adds at most one vocabulary entry per committed merge.
pub proof fn lemma_train_from_bounds(
    lines: Seq<Seq<char>>,
    merges: Seq<(Seq<char>, Seq<char>)>,
    vocab: Seq<(Seq<char>, nat)>,
    vocab_size: nat,
)
    ensures
        ({
            let (rm, rv) = spec_train_from(lines, merges, vocab, vocab_size);
            &&& merges.len() <= vocab_size ==> rm.len() <= vocab_size
            &&& rm.take(merges.len() as int) == merges
            &&& merges.len() <= rm.len()
            &&& rv.len() <= vocab.len() + (rm.len() - merges.len())
        }),
    decreases vocab_size - merges.len(),
{
    if merges.len() >= vocab_size {
        assert(merges.take(merges.len() as int) =~= merges);
    } else {
        let table = spec_scan(lines, merges);
        let b = best_idx(table);
        if b < 0 || table[b].1 == 0 {
            assert(merges.take(merges.len() as int) =~= merges);
        } else {
            let pair = table[b].0;
            let m2 = merges.push(pair);
            let v2 = spec_vocab_upsert(vocab, pair.0 + pair.1, table[b].1);
            lemma_vocab_find(vocab, pair.0 + pair.1);
            lemma_train_from_bounds(lines, m2, v2, vocab_size);
            let (rm, rv) = spec_train_from(lines, merges, vocab, vocab_size);
            assert(rm.take(m2.len() as int) == m2);
            assert(merges.take(merges.len() as int) =~= merges);
            assert(rm.take(merges.len() as int) =~= rm.take(m2.len() as int).take(
                merges.len() as int,
            ));
            assert(m2.take(merges.len() as int) =~= merges);
            assert(v2.len() <= vocab.len() + 1);
        }
    }
}

/// Monotonic termination: the learned merge list never exceeds the target
/// vocabulary size. (Training always terminates: `spec_train_from` recurses
/// only while the merge list is strictly below the target, growing it by
/// one merge per pass.)
pub proof fn lemma_monotonic_termination(lines: Seq<Seq<char>>, vocab_size: nat)
    ensures
        spec_train(lines, vocab_size).0.len() <= vocab_size,
        spec_train(lines, vocab_size).1.len() <= spec_train(lines, vocab_size).0.len(),
{
    lemma_train_from_bounds(lines, Seq::empty(), Seq::empty(), vocab_size);
}

/// Merge determinism: training is a pure function of the corpus and the
/// configured target size, so two runs on identical input yield the same
/// merge list and the same vocabulary.
pub proof fn lemma_merge_determinism(
    lines: Seq<Seq<char>>,
    vocab_size: nat,
    first: (Seq<(Seq<char>, Seq<char>)>, Seq<(Seq<char>, nat)>),
    second: (Seq<(Seq<char>, Seq<char>)>, Seq<(Seq<char>, nat)>),
)
    requires
        first == spec_train(lines, vocab_size),
        second == spec_train(lines, vocab_size),
    ensures
        first == second,
{
}

/// Two well-formed tables of positive counts that record the same count for
/// every pair select the same winning entry: selection is a function of the
/// counts alone, whatever order the entries sit in.
pub proof fn lemma_winner_from_counts(
    m1: Seq<((Seq<char>, Seq<char>), nat)>,
    m2: Seq<((Seq<char>, Seq<char>), nat)>,
)
    requires
        keys_distinct(m1),
        keys_distinct(m2),
        counts_positive(m1),
        counts_positive(m2),
        forall|k: (Seq<char>, Seq<char>)| #[trigger] freq_of(m1, k) == freq_of(m2, k),
        m1.len() > 0,
    ensures
        m2.len() > 0,
        m1[best_idx(m1)] == m2[best_idx(m2)],
{
    lemma_best_idx(m1);
    let b1 = best_idx(m1);
    let w1 = m1[b1];
    lemma_freq_at_index(m1, b1);
    assert(freq_of(m2, w1.0) == w1.1 && w1.1 >= 1);
    lemma_find_key(m2, w1.0);
    let j1 = find_key(m2, w1.0);
    assert(j1 >= 0);
    assert(m2[j1].0 == w1.0 && m2[j1].1 == w1.1);
    lemma_best_idx(m2);
    let b2 = best_idx(m2);
    let w2 = m2[b2];
    lemma_freq_at_index(m2, b2);
    assert(freq_of(m1, w2.0) == w2.1 && w2.1 >= 1);
    lemma_find_key(m1, w2.0);
    let j2 = find_key(m1, w2.0);
    assert(j2 >= 0);
    assert(m1[j2].0 == w2.0 && m1[j2].1 == w2.1);
    assert(w1.1 <= w2.1);
    assert(w2.1 <= w1.1);
    if w1.0 != w2.0 {
        assert(j1 != b2);
        assert(pair_lt(w2.0, m2[j1].0));
        assert(j2 != b1);
        assert(pair_lt(w1.0, m1[j2].0));
        lemma_pair_lt_strict(w1.0, w2.0);
        assert(false);
    }
}

/// Training is invariant under the order of the corpus lines: two corpora
/// holding the same lines, as a multiset, learn the identical merge list
/// and vocabulary. Each pass's table is a key-wise sum of per-line tables,
/// so its counts are order-free, and frequency ties are broken by the pair
/// itself, never by position.
pub proof fn lemma_line_order_irrelevant(l1: Seq<Seq<char>>, l2: Seq<Seq<char>>, vocab_size: nat)
    requires
        l1.to_multiset() == l2.to_multiset(),
    ensures
        spec_train(l1, vocab_size) == spec_train(l2, vocab_size),
{
    lemma_train_from_permutation(l1, l2, Seq::empty(), Seq::empty(), vocab_size);
}

/// Continued training sees the same pass tables, hence the same winners,
/// over any reordering of the corpus lines.
proof fn lemma_train_from_permutation(
    l1: Seq<Seq<char>>,
    l2: Seq<Seq<char>>,
    merges: Seq<(Seq<char>, Seq<char>)>,
    vocab: Seq<(Seq<char>, nat)>,
    vocab_size: nat,
)
    requires
        l1.to_multiset() == l2.to_multiset(),
    ensures
        spec_train_from(l1, merges, vocab, vocab_size) == spec_train_from(
            l2,
            merges,
            vocab,
            vocab_size,
        ),
    decreases vocab_size - merges.len(),
{
    if merges.len() < vocab_size {
        let t1 = spec_scan(l1, merges);
        let t2 = spec_scan(l2, merges);
        lemma_scan(l1, merges);
        lemma_scan(l2, merges);
        lemma_scan_positive(l1, merges);
        lemma_scan_positive(l2, merges);
        assert forall|k: (Seq<char>, Seq<char>)| #[trigger] freq_of(t1, k) == freq_of(t2, k) by {
            lemma_corpus_pair_count_permutation(l1, l2, merges, k);
        }
        if t1.len() == 0 {
            if t2.len() > 0 {
                lemma_freq_at_index(t2, 0);
                assert(freq_of(t2, t2[0].0) == t2[0].1 && t2[0].1 >= 1);
                assert(find_key(t1, t2[0].0) == -1);
                assert(freq_of(t1, t2[0].0) == 0);
                assert(false);
            }
        } else {
            lemma_winner_from_counts(t1, t2);
            lemma_best_idx(t1);
            lemma_best_idx(t2);
            let w = t1[best_idx(t1)];
            assert(t2[best_idx(t2)] == w);
            assert(w.1 >= 1);
            lemma_train_from_permutation(
                l1,
                l2,
                merges.push(w.0),
                spec_vocab_upsert(vocab, w.0.0 + w.0.1, w.1),
                vocab_size,
            );
        }
    }
}

/// Resumable training state, for callers that stream the corpus themselves:
/// run one full pass over the corpus (`CorpusPass` feeds it line by line),
/// hand the pass's table to `commit_pass`, and repeat while `wants_pass`
/// holds. `train_tokenizer` drives the same steps over an in-memory corpus.
pub struct TrainerState {
    /// The merges learned so far, in rank order.
    pub merges: Vec<TokenPair>,
    /// The merged symbols and their winning frequencies.
    pub vocab: Vec<(String, u64)>,
    /// The target vocabulary size.
    pub vocab_size: usize,
    /// Whether a pass found no pair with positive frequency.
    pub done: bool,
}

impl TrainerState {
    /// Starts training from nothing.
    pub fn new(vocab_size: usize) -> (s: TrainerState)
        ensures
            s.merges.deep_view() == Seq::<(Seq<char>, Seq<char>)>::empty(),
            vocab_model(s.vocab@) == Seq::<(Seq<char>, nat)>::empty(),
            s.vocab_size == vocab_size,
            !s.done,
    {
        let s = TrainerState { merges: Vec::new(), vocab: Vec::new(), vocab_size, done: false };
        proof {
            assert(s.merges.deep_view() =~= Seq::<(Seq<char>, Seq<char>)>::empty());
            assert(vocab_model(s.vocab@) =~= Seq::<(Seq<char>, nat)>::empty());
        }
        s
    }

    /// Whether another corpus pass is still needed.
    pub fn wants_pass(&self) -> (r: bool)
        ensures
            r == (!self.done && self.merges@.len() < self.vocab_size),
    {
        !self.done && self.merges.len() < self.vocab_size
    }

    /// Commits the winning pair of a completed pass: the pair is appended to
    /// the merge list and the merged symbol enters the vocabulary with the
    /// winning frequency; a pass with no positively counted pair ends
    /// training instead. On a table that is the scan of the corpus under the
    /// current merges, this is exactly one step of `spec_train_from`.
    pub fn commit_pass(&mut self, table: &PairTable)
        requires
            !old(self).done,
            old(self).merges@.len() < old(self).vocab_size,
        ensures
            final(self).vocab_size == old(self).vocab_size,
            ({
                let b = best_idx(table@);
                if b < 0 || table@[b].1 == 0 {
                    &&& final(self).done
                    &&& final(self).merges == old(self).merges
                    &&& final(self).vocab == old(self).vocab
                } else {
                    &&& !final(self).done
                    &&& final(self).merges.deep_view() == old(self).merges.deep_view().push(
                        table@[b].0,
                    )
                    &&& vocab_model(final(self).vocab@) == spec_vocab_upsert(
                        vocab_model(old(self).vocab@),
                        table@[b].0.0 + table@[b].0.1,
                        table@[b].1,
                    )
                }
            }),
    {
        let ghost ms = self.merges.deep_view();
        match select_best(table) {
            None => {
                self.done = true;
            },
            Some((pair, freq)) => {
                proof {
                    lemma_best_idx(table@);
                }
                if freq == 0 {
                    self.done = true;
                } else {
                    let merged = pair.left.clone().concat(pair.right.as_str());
                    vocab_upsert(&mut self.vocab, merged, freq);
                    self.merges.push(pair);
                    proof {
                        assert(self.merges.deep_view() =~= ms.push(table@[best_idx(table@)].0));
                    }
                }
            },
        }
    }
}

/// A learned tokenizer: the ordered merge list and the vocabulary of merged
/// symbols with their winning frequencies.
pub struct TrainedTokenizer {
    pub merges: Vec<TokenPair>,
    pub vocab: Vec<(String, u64)>,
}

/// Learns a merge list and vocabulary from the corpus `lines`.
///
/// The result is exactly `spec_train` of the corpus: repeated passes, each
/// committing the most frequent pair, the lexicographically least on ties,
/// until `vocab_size` merges are learned or no pair has positive frequency.
pub fn train_tokenizer(lines: &Vec<String>, vocab_size: usize) -> (r: TrainedTokenizer)
    requires
        corpus_weight(lines.deep_view()) <= u64::MAX,
    ensures
        (r.merges.deep_view(), vocab_model(r.vocab@)) == spec_train(
            lines.deep_view(),
            vocab_size as nat,
        ),
        r.merges@.len() <= vocab_size,
        r.vocab@.len() <= r.merges@.len(),
        merges_distinct(r.merges.deep_view()),
{
    let ghost ls = lines.deep_view();
    let ghost vs = vocab_size as nat;
    let mut state = TrainerState::new(vocab_size);
    while state.wants_pass()
        invariant
            ls == lines.deep_view(),
            vs == vocab_size as nat,
            state.vocab_size == vocab_size,
            corpus_weight(ls) <= u64::MAX,
            spec_train_from(ls, state.merges.deep_view(), vocab_model(state.vocab@), vs)
                == spec_train(ls, vs),
            state.merges@.len() <= vs,
            state.vocab@.len() <= state.merges@.len(),
            state.done ==> spec_train_from(
                ls,
                state.merges.deep_view(),
                vocab_model(state.vocab@),
                vs,
            ) == (state.merges.deep_view(), vocab_model(state.vocab@)),
        decreases vs - state.merges@.len() + (if state.done {
            0int
        } else {
            1int
        }),
    {
        let ghost ms = state.merges.deep_view();
        let ghost vm = vocab_model(state.vocab@);
        let table = scan_corpus(lines, &state.merges);
        state.commit_pass(&table);
        proof {
            let b = best_idx(table@);
            if !(b < 0 || table@[b].1 == 0) {
                lemma_vocab_find(vm, table@[b].0.0 + table@[b].0.1);
                assert(vocab_model(state.vocab@).len() <= vm.len() + 1);
                assert(state.vocab@.len() == vocab_model(state.vocab@).len());
                assert(spec_train_from(ls, ms, vm, vs) == spec_train_from(
                    ls,
                    state.merges.deep_view(),
                    vocab_model(state.vocab@),
                    vs,
                ));
            }
        }
    }
    proof {
        lemma_train_from_bounds(ls, state.merges.deep_view(), vocab_model(state.vocab@), vs);
        lemma_no_duplicate_merges(ls, vs);
    }
    TrainedTokenizer { merges: state.merges, vocab: state.vocab }
}

/// Whether the merge list holds no pair twice.
pub open spec fn merges_distinct(ms: Seq<(Seq<char>, Seq<char>)>) -> bool {
    forall|i: int, j: int| 0 <= i < j < ms.len() ==> ms[i] != ms[j]
}

/// Training never commits a pair twice: a committed pair has positive
/// frequency in its pass, while every already-learned pair counts zero once
/// the merges are folded into the corpus.
pub proof fn lemma_train_from_distinct(
    lines: Seq<Seq<char>>,
    merges: Seq<(Seq<char>, Seq<char>)>,
    vocab: Seq<(Seq<char>, nat)>,
    vocab_size: nat,
)
    requires
        merges_distinct(merges),
    ensures
        merges_distinct(spec_train_from(lines, merges, vocab, vocab_size).0),
    decreases vocab_size - merges.len(),
{
    if merges.len() < vocab_size {
        let table = spec_scan(lines, merges);
        let b = best_idx(table);
        if !(b < 0 || table[b].1 == 0) {
            let pair = table[b].0;
            lemma_best_idx(table);
            crate::scanner::lemma_scan(lines, merges);
            crate::pairs::lemma_freq_at_index(table, b);
            assert(pair == (pair.0, pair.1));
            if crate::merges::rules_contain(merges, pair.0, pair.1) {
                crate::scanner::lemma_scan_rule_pair_zero(lines, merges, pair);
                assert(false);
            }
            let m2 = merges.push(pair);
            assert(merges_distinct(m2)) by {
                assert forall|i: int, j: int| 0 <= i < j < m2.len() implies m2[i] != m2[j] by {
                    if j == m2.len() - 1 {
                        assert(m2[i] == merges[i] && m2[j] == pair);
                        if merges[i] == pair {
                            assert(crate::merges::rules_contain(merges, pair.0, pair.1));
                        }
                    }
                }
            }
            lemma_train_from_distinct(
                lines,
                m2,
                spec_vocab_upsert(vocab, pair.0 + pair.1, table[b].1),
                vocab_size,
            );
        }
    }
}

/// The learned merge list holds no duplicate pair.
pub proof fn lemma_no_duplicate_merges(lines: Seq<Seq<char>>, vocab_size: nat)
    ensures
        merges_distinct(spec_train(lines, vocab_size).0),
{
    lemma_train_from_distinct(lines, Seq::empty(), Seq::empty(), vocab_size);
}

} // verus!
