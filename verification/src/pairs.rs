//! Token pairs and pair-frequency tables.
//!
//! A `TokenPair` is an ordered pair of symbols; a `PairTable` maps pairs to
//! non-negative counts, kept as a list of entries with pairwise-distinct
//! keys. Entries sit in first-insertion order, but that order carries no
//! meaning: only which keys are present and their counts do. The module also
//! defines the lexicographic order on symbols and pairs by which the trainer
//! breaks frequency ties.

use vstd::prelude::*;

verus! {

/// An ordered pair of adjacent symbols.
pub struct TokenPair {
    pub left: String,
    pub right: String,
}

impl View for TokenPair {
    type V = (Seq<char>, Seq<char>);

    open spec fn view(&self) -> (Seq<char>, Seq<char>) {
        (self.left@, self.right@)
    }
}

impl DeepView for TokenPair {
    type V = (Seq<char>, Seq<char>);

    open spec fn deep_view(&self) -> (Seq<char>, Seq<char>) {
        self.view()
    }
}

impl Clone for TokenPair {
    fn clone(&self) -> (r: Self)
        ensures
            r@ == self@,
    {
        TokenPair { left: self.left.clone(), right: self.right.clone() }
    }
}

impl TokenPair {
    /// Builds a pair from its two symbols.
    pub fn new(left: String, right: String) -> (r: Self)
        ensures
            r@ == (left@, right@),
    {
        TokenPair { left, right }
    }

    /// Decides structural equality of two pairs.
    pub fn same_as(&self, other: &TokenPair) -> (r: bool)
        ensures
            r == (self@ == other@),
    {
        let r = self.left.eq(&other.left) && self.right.eq(&other.right);
        proof {
            if self.left@ == other.left@ && self.right@ == other.right@ {
                assert(self@ == other@);
            }
        }
        r
    }
}

/// The index of the first entry of `m` whose key is `key`, or -1.
pub open spec fn find_key(m: Seq<((Seq<char>, Seq<char>), nat)>, key: (Seq<char>, Seq<char>)) -> int
    decreases m.len(),
{
    if m.len() == 0 {
        -1
    } else if m[0].0 == key {
        0
    } else {
        let r = find_key(m.drop_first(), key);
        if r < 0 {
            -1
        } else {
            r + 1
        }
    }
}

/// The count recorded for `key`, or 0 when `key` has no entry.
pub open spec fn freq_of(m: Seq<((Seq<char>, Seq<char>), nat)>, key: (Seq<char>, Seq<char>)) -> nat {
    if find_key(m, key) >= 0 {
        m[find_key(m, key)].1
    } else {
        0
    }
}

/// The sum of all counts in the table.
pub open spec fn total_count(m: Seq<((Seq<char>, Seq<char>), nat)>) -> nat
    decreases m.len(),
{
    if m.len() == 0 {
        0
    } else {
        m[0].1 + total_count(m.drop_first())
    }
}

/// Whether the entries of `m` have pairwise-distinct keys.
pub open spec fn keys_distinct(m: Seq<((Seq<char>, Seq<char>), nat)>) -> bool {
    forall|i: int, j: int| 0 <= i < j < m.len() ==> m[i].0 != m[j].0
}

/// The table `m` with `amt` added to the count of `key`: an existing entry
/// is increased in place, a missing key is appended at the end.
pub open spec fn spec_bump(
    m: Seq<((Seq<char>, Seq<char>), nat)>,
    key: (Seq<char>, Seq<char>),
    amt: nat,
) -> Seq<((Seq<char>, Seq<char>), nat)> {
    let i = find_key(m, key);
    if i >= 0 {
        m.update(i, (key, (m[i].1 + amt) as nat))
    } else {
        m.push((key, amt))
    }
}

/// `find_key` finds a valid entry holding the key, and -1 exactly when the
/// key is absent; the found entry is the first with that key.
pub proof fn lemma_find_key(m: Seq<((Seq<char>, Seq<char>), nat)>, key: (Seq<char>, Seq<char>))
    ensures
        find_key(m, key) >= 0 ==> 0 <= find_key(m, key) < m.len() && m[find_key(m, key)].0 == key,
        find_key(m, key) < 0 ==> forall|j: int| 0 <= j < m.len() ==> m[j].0 != key,
        forall|j: int| 0 <= j < find_key(m, key) ==> m[j].0 != key,
    decreases m.len(),
{
    if m.len() > 0 && m[0].0 != key {
        lemma_find_key(m.drop_first(), key);
        assert(forall|j: int| 1 <= j < m.len() ==> m[j] == m.drop_first()[j - 1]);
    }
}

/// Bumping changes the bumped key's count by `amt` and no other count, and
/// raises the total by `amt`; distinct keys stay distinct.
pub proof fn lemma_bump(
    m: Seq<((Seq<char>, Seq<char>), nat)>,
    key: (Seq<char>, Seq<char>),
    amt: nat,
)
    requires
        keys_distinct(m),
    ensures
        keys_distinct(spec_bump(m, key, amt)),
        freq_of(spec_bump(m, key, amt), key) == freq_of(m, key) + amt,
        forall|k: (Seq<char>, Seq<char>)| k != key ==> freq_of(spec_bump(m, key, amt), k)
            == freq_of(m, k),
        total_count(spec_bump(m, key, amt)) == total_count(m) + amt,
    decreases m.len(),
{
    lemma_find_key(m, key);
    if m.len() == 0 {
        assert(spec_bump(m, key, amt) =~= seq![(key, amt)]);
        assert forall|k: (Seq<char>, Seq<char>)| k != key implies freq_of(
            spec_bump(m, key, amt),
            k,
        ) == freq_of(m, k) by {
            assert(spec_bump(m, key, amt).drop_first() =~= m);
        }
        assert(spec_bump(m, key, amt).drop_first() =~= m);
    } else if m[0].0 == key {
        let b = spec_bump(m, key, amt);
        assert(b =~= seq![(key, (m[0].1 + amt) as nat)] + m.drop_first());
        assert(b.drop_first() =~= m.drop_first());
        assert(total_count(b) == b[0].1 + total_count(b.drop_first()));
        assert forall|k: (Seq<char>, Seq<char>)| k != key implies freq_of(b, k) == freq_of(m, k) by {
            lemma_find_key(b.drop_first(), k);
            lemma_find_key(m, k);
            lemma_find_key(b, k);
        }
    } else {
        let md = m.drop_first();
        assert(keys_distinct(md)) by {
            assert(forall|i: int, j: int|
                0 <= i < j < md.len() ==> md[i] == m[i + 1] && md[j] == m[j + 1]);
        }
        lemma_bump(md, key, amt);
        let b = spec_bump(m, key, amt);
        assert(b.drop_first() =~= spec_bump(md, key, amt)) by {
            lemma_find_key(md, key);
            assert(b =~= seq![m[0]] + spec_bump(md, key, amt));
        }
        assert(b[0] == m[0]);
        assert(b.len() == spec_bump(md, key, amt).len() + 1);
        // distinctness: the only possibly-new key at the end is `key`, which
        // differs from m[0].0; every other entry keeps its key.
        assert(keys_distinct(b)) by {
            let bd = b.drop_first();
            assert(keys_distinct(bd));
            assert forall|j: int| 1 <= j < b.len() implies b[0].0 != #[trigger] b[j].0 by {
                assert(bd[j - 1] == b[j]);
                if find_key(md, key) >= 0 {
                    assert(bd =~= md.update(find_key(md, key), (key, (md[find_key(md, key)].1
                        + amt) as nat)));
                    if j - 1 == find_key(md, key) {
                        assert(bd[j - 1].0 == key);
                    } else {
                        assert(bd[j - 1].0 == md[j - 1].0);
                    }
                } else {
                    assert(bd =~= md.push((key, amt)));
                    if j - 1 == md.len() {
                        assert(bd[j - 1].0 == key);
                    } else {
                        assert(bd[j - 1].0 == md[j - 1].0);
                    }
                }
            }
        }
        assert(freq_of(b, key) == freq_of(m, key) + amt) by {
            lemma_find_key(b, key);
            lemma_freq_via_drop_first(b, key);
            lemma_freq_via_drop_first(m, key);
        }
        assert forall|k: (Seq<char>, Seq<char>)| k != key implies freq_of(b, k) == freq_of(m, k) by {
            lemma_freq_via_drop_first(b, k);
            lemma_freq_via_drop_first(m, k);
        }
        assert(total_count(b) == total_count(m) + amt);
    }
}

/// The count of a key in a nonempty table is the head entry's count when the
/// head holds the key, and the tail's count for it otherwise.
pub proof fn lemma_freq_via_drop_first(
    m: Seq<((Seq<char>, Seq<char>), nat)>,
    key: (Seq<char>, Seq<char>),
)
    requires
        m.len() > 0,
    ensures
        m[0].0 == key ==> freq_of(m, key) == m[0].1,
        m[0].0 != key ==> freq_of(m, key) == freq_of(m.drop_first(), key),
{
    lemma_find_key(m, key);
    lemma_find_key(m.drop_first(), key);
}

/// Every count in the table is at most the total.
pub proof fn lemma_count_le_total(m: Seq<((Seq<char>, Seq<char>), nat)>, i: int)
    requires
        0 <= i < m.len(),
    ensures
        m[i].1 <= total_count(m),
    decreases m.len(),
{
    if i > 0 {
        lemma_count_le_total(m.drop_first(), i - 1);
    }
}

/// A pair-frequency table: a list of (pair, count) entries with distinct
/// keys, in first-insertion order.
pub struct PairTable {
    pub entries: Vec<(TokenPair, u64)>,
}

impl View for PairTable {
    type V = Seq<((Seq<char>, Seq<char>), nat)>;

    open spec fn view(&self) -> Seq<((Seq<char>, Seq<char>), nat)> {
        Seq::new(self.entries@.len(), |i: int| (self.entries@[i].0@, self.entries@[i].1 as nat))
    }
}

impl PairTable {
    /// The table's structural invariant: keys are pairwise distinct.
    pub open spec fn wf(&self) -> bool {
        keys_distinct(self@)
    }

    /// Creates an empty table.
    pub fn new() -> (t: PairTable)
        ensures
            t@ =~= Seq::<((Seq<char>, Seq<char>), nat)>::empty(),
            t.wf(),
    {
        PairTable { entries: Vec::new() }
    }

    /// The number of entries.
    pub fn len(&self) -> (n: usize)
        ensures
            n == self@.len(),
    {
        self.entries.len()
    }

    /// Returns the entry at `i` as a fresh pair and its count.
    pub fn entry_at(&self, i: usize) -> (e: (TokenPair, u64))
        requires
            i < self@.len(),
        ensures
            (e.0@, e.1 as nat) == self@[i as int],
    {
        let e = &self.entries[i];
        (e.0.clone(), e.1)
    }

    /// Adds `amt` to the count of `pair`, appending a new entry when the
    /// pair is not yet present.
    pub(crate) fn bump(&mut self, pair: TokenPair, amt: u64)
        requires
            old(self).wf(),
            total_count(old(self)@) + amt <= u64::MAX,
        ensures
            final(self).wf(),
            final(self)@ == spec_bump(old(self)@, pair@, amt as nat),
    {
        proof {
            lemma_find_key(old(self)@, pair@);
            lemma_bump(old(self)@, pair@, amt as nat);
        }
        let ghost m = self@;
        let n = self.entries.len();
        let mut i: usize = 0;
        while i < n
            invariant
                n == self@.len(),
                i <= n,
                m == self@,
                self == old(self),
                keys_distinct(m),
                total_count(m) + amt <= u64::MAX,
                forall|j: int| 0 <= j < i ==> self@[j].0 != pair@,
            decreases n - i,
        {
            if self.entries[i].0.same_as(&pair) {
                let c = self.entries[i].1;
                proof {
                    lemma_find_key_is(m, pair@, i as int);
                    lemma_count_le_total(m, i as int);
                    assert(m == old(self)@);
                    assert(m[i as int].1 == c as nat);
                    assert(c as nat <= total_count(m));
                    assert(total_count(m) + amt <= u64::MAX);
                    assert(c + amt <= u64::MAX);
                }
                let ghost key = pair@;
                self.entries[i] = (pair, c + amt);
                proof {
                    assert(self@ =~= spec_bump(m, key, amt as nat));
                }
                return ;
            }
            i = i + 1;
        }
        proof {
            lemma_find_key(m, pair@);
            if find_key(m, pair@) >= 0 {
                assert(m[find_key(m, pair@)].0 == pair@);
                assert(false);
            }
        }
        self.entries.push((pair, amt));
        proof {
            assert(self@ =~= spec_bump(m, (self.entries@[self.entries@.len() - 1].0)@, amt as nat));
        }
    }
}

/// `find_key` returns exactly the index whose key matches when all earlier
/// keys differ.
pub proof fn lemma_find_key_is(
    m: Seq<((Seq<char>, Seq<char>), nat)>,
    key: (Seq<char>, Seq<char>),
    i: int,
)
    requires
        0 <= i < m.len(),
        m[i].0 == key,
        forall|j: int| 0 <= j < i ==> m[j].0 != key,
    ensures
        find_key(m, key) == i,
    decreases i,
{
    if i > 0 {
        let md = m.drop_first();
        assert(forall|j: int| 0 <= j < i - 1 ==> md[j] == m[j + 1]);
        lemma_find_key_is(md, key, i - 1);
    }
}

/// The number of adjacent occurrences of the pair `key` in the symbol
/// sequence `ts`, counting overlapping windows.
pub open spec fn pair_count(ts: Seq<Seq<char>>, key: (Seq<char>, Seq<char>)) -> nat
    decreases ts.len(),
{
    if ts.len() < 2 {
        0
    } else {
        pair_count(ts.drop_last(), key) + if (ts[ts.len() - 2], ts[ts.len() - 1]) == key {
            1nat
        } else {
            0nat
        }
    }
}

/// The table counting every adjacent pair of `ts` once per occurrence.
pub open spec fn spec_count_pairs(ts: Seq<Seq<char>>) -> Seq<((Seq<char>, Seq<char>), nat)>
    decreases ts.len(),
{
    if ts.len() < 2 {
        Seq::empty()
    } else {
        spec_bump(spec_count_pairs(ts.drop_last()), (ts[ts.len() - 2], ts[ts.len() - 1]), 1)
    }
}

/// Correctness of pair counting: the table is well formed, records exactly
/// the adjacent-occurrence count of every pair, and its counts sum to
/// `n - 1` for a sequence of `n >= 1` symbols (0 for shorter ones).
pub proof fn lemma_count_pairs(ts: Seq<Seq<char>>)
    ensures
        keys_distinct(spec_count_pairs(ts)),
        forall|key: (Seq<char>, Seq<char>)| #[trigger] freq_of(spec_count_pairs(ts), key)
            == pair_count(ts, key),
        total_count(spec_count_pairs(ts)) == if ts.len() >= 1 {
            ts.len() - 1
        } else {
            0
        },
    decreases ts.len(),
{
    if ts.len() < 2 {
        assert forall|key: (Seq<char>, Seq<char>)| #[trigger] freq_of(spec_count_pairs(ts), key)
            == pair_count(ts, key) by {
            lemma_find_key(spec_count_pairs(ts), key);
        }
    } else {
        let prev = spec_count_pairs(ts.drop_last());
        let key0 = (ts[ts.len() - 2], ts[ts.len() - 1]);
        lemma_count_pairs(ts.drop_last());
        lemma_bump(prev, key0, 1);
        assert forall|key: (Seq<char>, Seq<char>)| #[trigger] freq_of(spec_count_pairs(ts), key)
            == pair_count(ts, key) by {
            if key == key0 {
                assert(freq_of(spec_count_pairs(ts), key) == freq_of(prev, key) + 1);
            } else {
                assert(freq_of(spec_count_pairs(ts), key) == freq_of(prev, key));
            }
        }
    }
}

/// Counts every adjacent pair of `tokens`, overlapping windows included.
///
/// The result is a well-formed table whose count for each pair is exactly
/// that pair's number of adjacent occurrences; the counts sum to one less
/// than the number of symbols (0 when fewer than two symbols).
pub fn count_token_pairs(tokens: &Vec<String>) -> (t: PairTable)
    ensures
        t@ == spec_count_pairs(tokens.deep_view()),
        t.wf(),
        forall|key: (Seq<char>, Seq<char>)| #[trigger] freq_of(t@, key) == pair_count(
            tokens.deep_view(),
            key,
        ),
        total_count(t@) == if tokens@.len() >= 1 {
            tokens@.len() - 1
        } else {
            0
        },
{
    let ghost ts = tokens.deep_view();
    let mut t = PairTable::new();
    let n = tokens.len();
    proof {
        assert(ts.len() == n);
    }
    if n < 2 {
        proof {
            assert(t@ =~= spec_count_pairs(ts));
            lemma_count_pairs(ts);
        }
        return t;
    }
    proof {
        assert(ts.take(1).len() == 1);
        assert(t@ =~= spec_count_pairs(ts.take(1)));
    }
    let mut i: usize = 1;
    while i < n
        invariant
            ts == tokens.deep_view(),
            n == ts.len(),
            1 <= i <= n,
            t@ == spec_count_pairs(ts.take(i as int)),
            t.wf(),
        decreases n - i,
    {
        proof {
            lemma_count_pairs(ts.take(i as int));
            lemma_count_pairs(ts.take(i + 1));
            assert(ts.take(i + 1).drop_last() =~= ts.take(i as int));
            assert(total_count(t@) <= i - 1);
            assert(usize::MAX <= u64::MAX);
        }
        let pair = TokenPair::new(tokens[i - 1].clone(), tokens[i].clone());
        t.bump(pair, 1);
        proof {
            let tt = ts.take(i + 1);
            assert(tt[tt.len() - 2] == ts[i - 1] && tt[tt.len() - 1] == ts[i as int]);
            assert(t@ == spec_count_pairs(ts.take(i + 1)));
        }
        i = i + 1;
    }
    proof {
        assert(ts.take(n as int) =~= ts);
        lemma_count_pairs(ts);
    }
    t
}

/// In a table with distinct keys, the count recorded for the key of any
/// entry is that entry's count.
pub proof fn lemma_freq_at_index(m: Seq<((Seq<char>, Seq<char>), nat)>, b: int)
    requires
        keys_distinct(m),
        0 <= b < m.len(),
    ensures
        freq_of(m, m[b].0) == m[b].1,
{
    lemma_find_key_is(m, m[b].0, b);
}

/// Whether every count in the table is positive.
pub open spec fn counts_positive(m: Seq<((Seq<char>, Seq<char>), nat)>) -> bool {
    forall|i: int| 0 <= i < m.len() ==> (#[trigger] m[i].1) >= 1
}

/// Bumping by a positive amount keeps all counts positive.
pub proof fn lemma_bump_counts_positive(
    m: Seq<((Seq<char>, Seq<char>), nat)>,
    key: (Seq<char>, Seq<char>),
    amt: nat,
)
    requires
        counts_positive(m),
        amt >= 1,
    ensures
        counts_positive(spec_bump(m, key, amt)),
{
    lemma_find_key(m, key);
    let b = spec_bump(m, key, amt);
    assert forall|i: int| 0 <= i < b.len() implies (#[trigger] b[i].1) >= 1 by {
        if find_key(m, key) >= 0 {
            if i != find_key(m, key) {
                assert(b[i] == m[i]);
            }
        } else {
            if i < m.len() {
                assert(b[i] == m[i]);
            }
        }
    }
}

/// Every count in a counting table is positive.
pub proof fn lemma_count_pairs_positive(ts: Seq<Seq<char>>)
    ensures
        counts_positive(spec_count_pairs(ts)),
    decreases ts.len(),
{
    if ts.len() >= 2 {
        lemma_count_pairs_positive(ts.drop_last());
        lemma_count_pairs(ts.drop_last());
        lemma_bump_counts_positive(
            spec_count_pairs(ts.drop_last()),
            (ts[ts.len() - 2], ts[ts.len() - 1]),
            1,
        );
    }
}

/// Strict lexicographic order on symbols, by Unicode code point.
pub open spec fn lex_lt(a: Seq<char>, b: Seq<char>) -> bool
    decreases a.len(),
{
    if b.len() == 0 {
        false
    } else if a.len() == 0 {
        true
    } else if a[0] != b[0] {
        (a[0] as u32) < (b[0] as u32)
    } else {
        lex_lt(a.drop_first(), b.drop_first())
    }
}

/// Strict lexicographic order on pairs: by left symbol, then right symbol.
pub open spec fn pair_lt(p: (Seq<char>, Seq<char>), q: (Seq<char>, Seq<char>)) -> bool {
    lex_lt(p.0, q.0) || (p.0 == q.0 && lex_lt(p.1, q.1))
}

/// `lex_lt` is a strict total order: irreflexive, asymmetric, and any two
/// distinct symbols are ordered.
pub proof fn lemma_lex_lt_strict(a: Seq<char>, b: Seq<char>)
    ensures
        a == b ==> !lex_lt(a, b),
        !(lex_lt(a, b) && lex_lt(b, a)),
        a != b ==> lex_lt(a, b) || lex_lt(b, a),
    decreases a.len() + b.len(),
{
    if a.len() == 0 && b.len() == 0 {
        assert(a =~= b);
    }
    if a.len() > 0 && b.len() > 0 {
        if a[0] == b[0] {
            lemma_lex_lt_strict(a.drop_first(), b.drop_first());
            if a.drop_first() == b.drop_first() {
                assert(a =~= seq![a[0]] + a.drop_first());
                assert(b =~= seq![b[0]] + b.drop_first());
            }
        } else {
            assert((a[0] as u32) != (b[0] as u32)) by {
                if (a[0] as u32) == (b[0] as u32) {
                    vstd::utf8::char_u32_cast(a[0], a[0] as u32);
                    vstd::utf8::char_u32_cast(b[0], b[0] as u32);
                }
            }
        }
    }
}

/// `lex_lt` is transitive.
pub proof fn lemma_lex_lt_transitive(a: Seq<char>, b: Seq<char>, c: Seq<char>)
    requires
        lex_lt(a, b),
        lex_lt(b, c),
    ensures
        lex_lt(a, c),
    decreases a.len() + b.len() + c.len(),
{
    if a.len() > 0 && a[0] == b[0] && b[0] == c[0] {
        lemma_lex_lt_transitive(a.drop_first(), b.drop_first(), c.drop_first());
    }
}

/// `pair_lt` is a strict total order on distinct pairs, and transitive.
pub proof fn lemma_pair_lt_strict(p: (Seq<char>, Seq<char>), q: (Seq<char>, Seq<char>))
    ensures
        p == q ==> !pair_lt(p, q),
        !(pair_lt(p, q) && pair_lt(q, p)),
        p != q ==> pair_lt(p, q) || pair_lt(q, p),
{
    lemma_lex_lt_strict(p.0, q.0);
    lemma_lex_lt_strict(p.1, q.1);
}

/// Transitivity of the pair order.
pub proof fn lemma_pair_lt_transitive(
    p: (Seq<char>, Seq<char>),
    q: (Seq<char>, Seq<char>),
    r: (Seq<char>, Seq<char>),
)
    requires
        pair_lt(p, q),
        pair_lt(q, r),
    ensures
        pair_lt(p, r),
{
    lemma_lex_lt_strict(p.0, q.0);
    lemma_lex_lt_strict(q.0, r.0);
    if lex_lt(p.0, q.0) && lex_lt(q.0, r.0) {
        lemma_lex_lt_transitive(p.0, q.0, r.0);
    } else if p.0 == q.0 && q.0 == r.0 {
        lemma_lex_lt_transitive(p.1, q.1, r.1);
    }
}

/// Decides the lexicographic order of two symbols.
pub fn str_lex_lt(a: &str, b: &str) -> (r: bool)
    ensures
        r == lex_lt(a@, b@),
{
    let na = vstd::string::StrSliceExecFns::unicode_len(a);
    let nb = vstd::string::StrSliceExecFns::unicode_len(b);
    proof {
        assert(a@.skip(0) =~= a@);
        assert(b@.skip(0) =~= b@);
    }
    let mut i: usize = 0;
    while i < na && i < nb
        invariant
            na == a@.len(),
            nb == b@.len(),
            i <= na,
            i <= nb,
            lex_lt(a@, b@) == lex_lt(a@.skip(i as int), b@.skip(i as int)),
        decreases na - i,
    {
        let ca = vstd::string::StrSliceExecFns::get_char(a, i);
        let cb = vstd::string::StrSliceExecFns::get_char(b, i);
        let ghost sa = a@.skip(i as int);
        let ghost sb = b@.skip(i as int);
        proof {
            assert(sa[0] == a@[i as int] && sb[0] == b@[i as int]);
        }
        if ca != cb {
            proof {
                assert(lex_lt(sa, sb) == ((ca as u32) < (cb as u32)));
            }
            return (ca as u32) < (cb as u32);
        }
        proof {
            assert(sa.drop_first() =~= a@.skip(i + 1));
            assert(sb.drop_first() =~= b@.skip(i + 1));
        }
        i = i + 1;
    }
    proof {
        let sa = a@.skip(i as int);
        let sb = b@.skip(i as int);
        assert(sa.len() == na - i && sb.len() == nb - i);
        assert(sa.len() == 0 || sb.len() == 0);
        assert(lex_lt(sa, sb) == (na < nb));
    }
    na < nb
}

/// Decides the lexicographic order of two pairs.
pub fn token_pair_lt(p: &TokenPair, q: &TokenPair) -> (r: bool)
    ensures
        r == pair_lt(p@, q@),
{
    if str_lex_lt(p.left.as_str(), q.left.as_str()) {
        true
    } else if str_lex_lt(q.left.as_str(), p.left.as_str()) {
        false
    } else {
        proof {
            lemma_lex_lt_strict(p.left@, q.left@);
        }
        str_lex_lt(p.right.as_str(), q.right.as_str())
    }
}

} // verus!
