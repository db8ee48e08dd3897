//! The chunk packer: bounded-size text chunks from a stream of lines.
//!
//! Lines are accumulated into a buffer of at most `max` UTF-8 bytes; lines
//! sharing a chunk are joined by a single newline, and a line longer than
//! the available space is split across chunks, always on a character
//! boundary. Stripping the inserted newlines from the concatenated chunks
//! reproduces the concatenated lines exactly.

use vstd::prelude::*;

verus! {

use crate::chars::byte_len;
use crate::chars::char_bytes;
use crate::chars::char_utf8_len;
use crate::chars::lemma_byte_len_concat;
use crate::chars::lemma_byte_len_lower_bound;
use crate::chars::lemma_byte_len_singleton;
use crate::chars::lemma_byte_len_take_step;
use crate::merges::lemma_concat_syms_append;
use crate::pretokenizer::concat_syms;
use vstd::string::StrSliceExecFns;
use vstd::string::StringExecFns;
use vstd::string::StringSliceAdditionalSpecFns;

/// `s` with every newline character removed.
pub open spec fn without_newlines(s: Seq<char>) -> Seq<char>
    decreases s.len(),
{
    if s.len() == 0 {
        Seq::empty()
    } else if s[0] == '\n' {
        without_newlines(s.drop_first())
    } else {
        seq![s[0]] + without_newlines(s.drop_first())
    }
}

/// Removing newlines distributes over concatenation.
pub proof fn lemma_without_newlines_append(a: Seq<char>, b: Seq<char>)
    ensures
        without_newlines(a + b) == without_newlines(a) + without_newlines(b),
    decreases a.len(),
{
    if a.len() == 0 {
        assert(a + b =~= b);
        assert(without_newlines(a) + without_newlines(b) =~= without_newlines(b));
    } else {
        assert((a + b).drop_first() =~= a.drop_first() + b);
        assert((a + b)[0] == a[0]);
        lemma_without_newlines_append(a.drop_first(), b);
        if a[0] != '\n' {
            assert(seq![a[0]] + (without_newlines(a.drop_first()) + without_newlines(b)) =~= (
            seq![a[0]] + without_newlines(a.drop_first())) + without_newlines(b));
        }
    }
}

/// A newline-free text is unchanged by stripping newlines.
pub proof fn lemma_without_newlines_id(s: Seq<char>)
    requires
        forall|j: int| 0 <= j < s.len() ==> s[j] != '\n',
    ensures
        without_newlines(s) == s,
    decreases s.len(),
{
    if s.len() == 0 {
        assert(without_newlines(s) =~= s);
    } else {
        assert(forall|j: int| 0 <= j < s.len() - 1 ==> s.drop_first()[j] == s[j + 1]);
        lemma_without_newlines_id(s.drop_first());
        assert(seq![s[0]] + s.drop_first() =~= s);
    }
}


/// The concatenation of a single symbol is that symbol.
proof fn lemma_concat_syms_singleton(s: Seq<char>)
    ensures
        concat_syms(seq![s]) == s,
{
    assert(seq![s].len() == 1 && seq![s][0] == s);
    assert(seq![s].drop_first() =~= Seq::<Seq<char>>::empty());
    assert(concat_syms(Seq::<Seq<char>>::empty()) =~= Seq::<char>::empty());
    assert(s + Seq::<char>::empty() =~= s);
    assert(concat_syms(seq![s]) =~= s);
}

/// A separator holds no character but newlines.
proof fn lemma_strip_sep(cur: Seq<char>)
    ensures
        without_newlines(newline_sep(cur)) == Seq::<char>::empty(),
{
    let sep = newline_sep(cur);
    if cur.len() > 0 {
        assert(sep.len() == 1 && sep[0] == '\n');
        assert(sep.drop_first() =~= Seq::<char>::empty());
        assert(without_newlines(Seq::<char>::empty()) =~= Seq::<char>::empty());
    } else {
        assert(sep =~= Seq::<char>::empty());
        assert(without_newlines(sep) =~= Seq::<char>::empty());
    }
}

/// The number of characters of the longest prefix of `s` whose UTF-8
/// encoding fits in `space` bytes.
pub open spec fn fit_len(s: Seq<char>, space: nat) -> nat
    decreases s.len(),
{
    if s.len() == 0 || char_bytes(s[0]) > space {
        0
    } else {
        1 + fit_len(s.drop_first(), (space - char_bytes(s[0])) as nat)
    }
}

/// The fitting prefix indeed fits, and one more character would not.
pub proof fn lemma_fit_len(s: Seq<char>, space: nat)
    ensures
        fit_len(s, space) <= s.len(),
        byte_len(s.take(fit_len(s, space) as int)) <= space,
        fit_len(s, space) < s.len() ==> byte_len(s.take(fit_len(s, space) as int)) + char_bytes(
            s[fit_len(s, space) as int],
        ) > space,
    decreases s.len(),
{
    assert(byte_len(s.take(0)) == 0) by {
        assert(s.take(0) =~= Seq::<char>::empty());
    }
    if s.len() > 0 && char_bytes(s[0]) <= space {
        let sd = s.drop_first();
        let space2 = (space - char_bytes(s[0])) as nat;
        lemma_fit_len(sd, space2);
        let k = fit_len(s, space) as int;
        assert(s.take(k).drop_first() =~= sd.take(k - 1));
        assert(s.take(k).len() == k);
        if k > 0 {
            assert(byte_len(s.take(k)) == char_bytes(s[0]) + byte_len(sd.take(k - 1))) by {
                assert(s.take(k)[0] == s[0]);
                assert(s.take(k) =~= seq![s[0]] + sd.take(k - 1));
                lemma_byte_len_concat(seq![s[0]], sd.take(k - 1));
                lemma_byte_len_singleton(s[0]);
            }
        }
        if k < s.len() {
            assert(s[k] == sd[k - 1]);
        }
    }
}

/// The greedy character scan computes exactly `fit_len`.
proof fn lemma_fit_len_is(s: Seq<char>, space: nat, k: int)
    requires
        0 <= k <= s.len(),
        byte_len(s.take(k)) <= space,
        k < s.len() ==> byte_len(s.take(k)) + char_bytes(s[k]) > space,
    ensures
        fit_len(s, space) == k,
    decreases k,
{
    assert(byte_len(s.take(0)) == 0) by {
        assert(s.take(0) =~= Seq::<char>::empty());
    }
    if k == 0 {
        if s.len() > 0 {
            assert(char_bytes(s[0]) > space);
        }
    } else {
        let sd = s.drop_first();
        assert(byte_len(s.take(1)) == char_bytes(s[0])) by {
            assert(s.take(1) =~= seq![s[0]]);
            lemma_byte_len_singleton(s[0]);
        }
        assert(byte_len(s.take(k)) >= char_bytes(s[0])) by {
            assert(s.take(k) =~= seq![s[0]] + sd.take(k - 1));
            lemma_byte_len_concat(seq![s[0]], sd.take(k - 1));
            lemma_byte_len_singleton(s[0]);
        }
        let space2 = (space - char_bytes(s[0])) as nat;
        assert(byte_len(sd.take(k - 1)) == byte_len(s.take(k)) - char_bytes(s[0])) by {
            assert(s.take(k) =~= seq![s[0]] + sd.take(k - 1));
            lemma_byte_len_concat(seq![s[0]], sd.take(k - 1));
            lemma_byte_len_singleton(s[0]);
        }
        if k < s.len() {
            assert(sd[k - 1] == s[k]);
        }
        lemma_fit_len_is(sd, space2, k - 1);
    }
}

/// The single-newline separator placed before a line joining a nonempty
/// buffer.
pub open spec fn newline_sep(cur: Seq<char>) -> Seq<char> {
    if cur.len() > 0 {
        seq!['\n']
    } else {
        Seq::empty()
    }
}

/// The byte cost of that separator.
pub open spec fn sep_cost(cur: Seq<char>) -> nat {
    if cur.len() > 0 {
        1
    } else {
        0
    }
}

/// Packs one line into the running buffer `cur`: the chunks flushed while
/// consuming the line, and the buffer left afterwards. A full buffer is
/// flushed first; a line that fits in the remaining space (one byte
/// reserved for the joining newline) is appended; otherwise the longest
/// fitting prefix ending on a character boundary is appended, the buffer is
/// flushed, and the leftover suffix continues.
pub open spec fn spec_pack_line(line: Seq<char>, cur: Seq<char>, max: nat) -> (
    Seq<Seq<char>>,
    Seq<char>,
)
    decreases line.len(), (if cur.len() > 0 {
        1int
    } else {
        0int
    }),
    via spec_pack_line_decreases
{
    if cur.len() > 0 && byte_len(cur) >= max {
        let r = spec_pack_line(line, Seq::empty(), max);
        (seq![cur] + r.0, r.1)
    } else {
        let avail = (max - byte_len(cur) - sep_cost(cur)) as nat;
        if byte_len(line) <= avail {
            (Seq::empty(), cur + newline_sep(cur) + line)
        } else {
            let k = fit_len(line, avail);
            if k == 0 && cur.len() > 0 {
                let r = spec_pack_line(line, Seq::empty(), max);
                (seq![cur] + r.0, r.1)
            } else if k == 0 {
                // an empty buffer offers the whole budget, so this arm is
                // reached only when one character alone exceeds `max`; the
                // line then leaves as a single (oversized) chunk
                (seq![line], Seq::empty())
            } else {
                let chunk = cur + newline_sep(cur) + line.take(k as int);
                let r = spec_pack_line(line.skip(k as int), Seq::empty(), max);
                (seq![chunk] + r.0, r.1)
            }
        }
    }
}

#[via_fn]
proof fn spec_pack_line_decreases(line: Seq<char>, cur: Seq<char>, max: nat) {
    if cur.len() == 0 || byte_len(cur) < max {
        let avail = (max - byte_len(cur) - sep_cost(cur)) as nat;
        lemma_fit_len(line, avail);
    }
}

/// Packs a sequence of lines into the running buffer, line by line.
pub open spec fn spec_pack_lines(lines: Seq<Seq<char>>, cur: Seq<char>, max: nat) -> (
    Seq<Seq<char>>,
    Seq<char>,
)
    decreases lines.len(),
{
    if lines.len() == 0 {
        (Seq::empty(), cur)
    } else {
        let first = spec_pack_line(lines[0], cur, max);
        let rest = spec_pack_lines(lines.drop_first(), first.1, max);
        (first.0 + rest.0, rest.1)
    }
}

/// The chunks produced from the lines: pack every line, then flush a
/// nonempty final buffer.
pub open spec fn spec_pack(lines: Seq<Seq<char>>, max: nat) -> Seq<Seq<char>> {
    let r = spec_pack_lines(lines, Seq::empty(), max);
    if r.1.len() > 0 {
        r.0.push(r.1)
    } else {
        r.0
    }
}

/// Packing one line emits only chunks within the byte budget, leaves a
/// buffer within the budget, and loses no character: stripping newlines
/// from the emitted chunks and the leftover buffer yields the stripped old
/// buffer followed by the stripped line.
pub proof fn lemma_pack_line(line: Seq<char>, cur: Seq<char>, max: nat)
    requires
        max >= 1,
        byte_len(cur) <= max,
        forall|j: int| 0 <= j < line.len() ==> char_bytes(#[trigger] line[j]) <= max,
    ensures
        ({
            let r = spec_pack_line(line, cur, max);
            &&& forall|i: int| 0 <= i < r.0.len() ==> byte_len(#[trigger] r.0[i]) <= max
            &&& byte_len(r.1) <= max
            &&& without_newlines(concat_syms(r.0) + r.1) == without_newlines(cur)
                + without_newlines(line)
        }),
    decreases line.len(), (if cur.len() > 0 {
        1int
    } else {
        0int
    }),
{
    let r = spec_pack_line(line, cur, max);
    if cur.len() > 0 && byte_len(cur) >= max {
        let e = spec_pack_line(line, Seq::empty(), max);
        lemma_pack_line(line, Seq::empty(), max);
        lemma_flushed_content(cur, e.0, e.1, line);
    } else {
        let avail = (max - byte_len(cur) - sep_cost(cur)) as nat;
        if byte_len(line) <= avail {
            assert(r.0 =~= Seq::<Seq<char>>::empty());
            assert(concat_syms(r.0) =~= Seq::<char>::empty());
            assert(concat_syms(r.0) + r.1 =~= r.1);
            lemma_byte_len_concat(cur + newline_sep(cur), line);
            lemma_byte_len_concat(cur, newline_sep(cur));
            if cur.len() > 0 {
                lemma_byte_len_singleton('\n');
            } else {
                assert(byte_len(newline_sep(cur)) == 0) by {
                    assert(newline_sep(cur) =~= Seq::<char>::empty());
                }
            }
            lemma_without_newlines_append(cur + newline_sep(cur), line);
            lemma_without_newlines_append(cur, newline_sep(cur));
            lemma_strip_sep(cur);
            assert(without_newlines(cur) + Seq::<char>::empty() =~= without_newlines(cur));
        } else {
            let k = fit_len(line, avail);
            lemma_fit_len(line, avail);
            if k == 0 && cur.len() > 0 {
                let e = spec_pack_line(line, Seq::empty(), max);
                lemma_pack_line(line, Seq::empty(), max);
                lemma_flushed_content(cur, e.0, e.1, line);
            } else if k == 0 {
                // with an empty buffer the whole budget is available, and by
                // assumption every character of the line fits in it, so the
                // first character always fits: this branch cannot be reached.
                assert(byte_len(line) > avail);
                assert(line.len() > 0) by {
                    if line.len() == 0 {
                        assert(byte_len(line) == 0) by {
                            assert(line =~= Seq::<char>::empty());
                        }
                    }
                }
                assert(char_bytes(line[0]) > avail);
                assert(avail == max);
                assert(false);
            } else {
                let chunk = cur + newline_sep(cur) + line.take(k as int);
                let e = spec_pack_line(line.skip(k as int), Seq::empty(), max);
                assert(forall|j: int|
                    0 <= j < line.skip(k as int).len() ==> line.skip(k as int)[j] == line[j
                        + k]);
                lemma_pack_line(line.skip(k as int), Seq::empty(), max);
                // the flushed chunk respects the budget
                assert(byte_len(chunk) <= max) by {
                    lemma_byte_len_concat(cur + newline_sep(cur), line.take(k as int));
                    lemma_byte_len_concat(cur, newline_sep(cur));
                    if cur.len() > 0 {
                        lemma_byte_len_singleton('\n');
                    } else {
                        assert(byte_len(newline_sep(cur)) == 0) by {
                            assert(newline_sep(cur) =~= Seq::<char>::empty());
                        }
                    }
                }
                lemma_flushed_content(chunk, e.0, e.1, line.skip(k as int));
                // stripped content of the chunk: old buffer, then the prefix
                assert(without_newlines(chunk) =~= without_newlines(cur) + without_newlines(
                    line.take(k as int),
                )) by {
                    lemma_without_newlines_append(cur + newline_sep(cur), line.take(k as int));
                    lemma_without_newlines_append(cur, newline_sep(cur));
                    lemma_strip_sep(cur);
                    assert(without_newlines(cur) + Seq::<char>::empty() =~= without_newlines(
                        cur,
                    ));
                }
                lemma_without_newlines_append(line.take(k as int), line.skip(k as int));
                assert(line.take(k as int) + line.skip(k as int) =~= line);
                assert(without_newlines(concat_syms(r.0) + r.1) =~= without_newlines(cur)
                    + without_newlines(line));
            }
        }
    }
}

/// Prepending a flushed chunk to the emitted chunks prepends its stripped
/// content to the stripped output.
proof fn lemma_flushed_content(
    chunk: Seq<char>,
    rest: Seq<Seq<char>>,
    tail: Seq<char>,
    line: Seq<char>,
)
    requires
        without_newlines(concat_syms(rest) + tail) == without_newlines(Seq::<char>::empty())
            + without_newlines(line),
    ensures
        without_newlines(concat_syms(seq![chunk] + rest) + tail) == without_newlines(chunk)
            + without_newlines(line),
{
    lemma_concat_syms_append(seq![chunk], rest);
    lemma_concat_syms_singleton(chunk);
    assert((chunk + concat_syms(rest)) + tail =~= chunk + (concat_syms(rest) + tail));
    lemma_without_newlines_append(chunk, concat_syms(rest) + tail);
    assert(without_newlines(Seq::<char>::empty()) =~= Seq::<char>::empty());
    assert(Seq::<char>::empty() + without_newlines(line) =~= without_newlines(line));
}

/// Packing a line sequence: all chunks within budget, buffer within budget,
/// and no character lost.
pub proof fn lemma_pack_lines(lines: Seq<Seq<char>>, cur: Seq<char>, max: nat)
    requires
        max >= 1,
        byte_len(cur) <= max,
        forall|i: int, j: int|
            0 <= i < lines.len() && 0 <= j < lines[i].len() ==> char_bytes(
                #[trigger] lines[i][j],
            ) <= max,
    ensures
        ({
            let r = spec_pack_lines(lines, cur, max);
            &&& forall|i: int| 0 <= i < r.0.len() ==> byte_len(#[trigger] r.0[i]) <= max
            &&& byte_len(r.1) <= max
            &&& without_newlines(concat_syms(r.0) + r.1) == without_newlines(cur)
                + without_newlines(concat_syms(lines))
        }),
    decreases lines.len(),
{
    let r = spec_pack_lines(lines, cur, max);
    if lines.len() == 0 {
        assert(r.0 =~= Seq::<Seq<char>>::empty());
        assert(concat_syms(r.0) =~= Seq::<char>::empty());
        assert(concat_syms(r.0) + r.1 =~= cur);
        assert(concat_syms(lines) =~= Seq::<char>::empty());
        assert(without_newlines(Seq::<char>::empty()) =~= Seq::<char>::empty());
        assert(without_newlines(cur) + Seq::<char>::empty() =~= without_newlines(cur));
    } else {
        let first = spec_pack_line(lines[0], cur, max);
        let rest = spec_pack_lines(lines.drop_first(), first.1, max);
        lemma_pack_line(lines[0], cur, max);
        assert(forall|i: int, j: int|
            0 <= i < lines.drop_first().len() && 0 <= j < lines.drop_first()[i].len()
                ==> lines.drop_first()[i][j] == lines[i + 1][j]);
        lemma_pack_lines(lines.drop_first(), first.1, max);
        assert(forall|i: int|
            0 <= i < r.0.len() ==> r.0[i] == if i < first.0.len() {
                first.0[i]
            } else {
                rest.0[i - first.0.len()]
            });
        // content: chunks of the first line, then of the remaining lines
        lemma_concat_syms_append(first.0, rest.0);
        assert((concat_syms(first.0) + concat_syms(rest.0)) + rest.1 =~= concat_syms(first.0) + (
        concat_syms(rest.0) + rest.1));
        lemma_without_newlines_append(concat_syms(first.0), concat_syms(rest.0) + rest.1);
        lemma_without_newlines_append(concat_syms(first.0), first.1);
        lemma_without_newlines_append(without_newlines(cur), without_newlines(lines[0]));
        assert(concat_syms(lines) == lines[0] + concat_syms(lines.drop_first()));
        lemma_without_newlines_append(lines[0], concat_syms(lines.drop_first()));
        // stitch: strip(first-chunks) + (strip(buffer1) + strip(rest-lines))
        //       == (strip(first-chunks) + strip(buffer1)) + strip(rest-lines)
        assert(without_newlines(concat_syms(first.0)) + (without_newlines(first.1)
            + without_newlines(concat_syms(lines.drop_first()))) =~= (without_newlines(
            concat_syms(first.0),
        ) + without_newlines(first.1)) + without_newlines(concat_syms(lines.drop_first())));
        assert((without_newlines(cur) + without_newlines(lines[0])) + without_newlines(
            concat_syms(lines.drop_first()),
        ) =~= without_newlines(cur) + (without_newlines(lines[0]) + without_newlines(
            concat_syms(lines.drop_first()),
        )));
    }
}

/// Chunk safety: every packed chunk stays within the byte budget, chunk
/// boundaries never split a character (chunks are character sequences, so
/// their UTF-8 encodings are always well formed), and stripping the
/// inserted newlines from the concatenated chunks reproduces the
/// concatenated lines, whenever every character fits the budget and the
/// lines are newline-free.
pub proof fn lemma_chunk_safety(lines: Seq<Seq<char>>, max: nat)
    requires
        max >= 1,
        forall|i: int, j: int|
            0 <= i < lines.len() && 0 <= j < lines[i].len() ==> char_bytes(
                #[trigger] lines[i][j],
            ) <= max,
    ensures
        forall|i: int|
            0 <= i < spec_pack(lines, max).len() ==> byte_len(#[trigger] spec_pack(lines, max)[i])
                <= max,
        without_newlines(concat_syms(spec_pack(lines, max))) == without_newlines(
            concat_syms(lines),
        ),
        (forall|i: int, j: int|
            0 <= i < lines.len() && 0 <= j < lines[i].len() ==> #[trigger] lines[i][j] != '\n')
            ==> without_newlines(concat_syms(spec_pack(lines, max))) == concat_syms(lines),
{
    let r = spec_pack_lines(lines, Seq::empty(), max);
    assert(byte_len(Seq::<char>::empty()) == 0) by {
        assert(Seq::<char>::empty() =~= Seq::<char>::empty().take(0));
        assert(Seq::<char>::empty().take(0) =~= Seq::<char>::empty());
    }
    lemma_pack_lines(lines, Seq::empty(), max);
    let p = spec_pack(lines, max);
    if r.1.len() > 0 {
        assert(p == r.0.push(r.1));
        assert(forall|i: int|
            0 <= i < p.len() ==> p[i] == if i < r.0.len() {
                r.0[i]
            } else {
                r.1
            });
        assert(r.0.push(r.1) =~= r.0 + seq![r.1]);
        lemma_concat_syms_append(r.0, seq![r.1]);
        lemma_concat_syms_singleton(r.1);
        assert(concat_syms(p) == concat_syms(r.0) + r.1);
    } else {
        assert(p == r.0);
        assert(r.1 =~= Seq::<char>::empty());
        assert(concat_syms(r.0) + r.1 =~= concat_syms(r.0));
    }
    assert(without_newlines(Seq::<char>::empty()) =~= Seq::<char>::empty());
    assert(Seq::<char>::empty() + without_newlines(concat_syms(lines)) =~= without_newlines(
        concat_syms(lines),
    ));
    if forall|i: int, j: int|
        0 <= i < lines.len() && 0 <= j < lines[i].len() ==> #[trigger] lines[i][j] != '\n' {
        lemma_concat_syms_no_newline(lines);
        lemma_without_newlines_id(concat_syms(lines));
    }
}

/// Concatenating newline-free lines yields a newline-free text.
proof fn lemma_concat_syms_no_newline(lines: Seq<Seq<char>>)
    requires
        forall|i: int, j: int|
            0 <= i < lines.len() && 0 <= j < lines[i].len() ==> #[trigger] lines[i][j] != '\n',
    ensures
        forall|j: int| 0 <= j < concat_syms(lines).len() ==> concat_syms(lines)[j] != '\n',
    decreases lines.len(),
{
    if lines.len() > 0 {
        assert(forall|i: int, j: int|
            0 <= i < lines.drop_first().len() && 0 <= j < lines.drop_first()[i].len()
                ==> lines.drop_first()[i][j] == lines[i + 1][j]);
        lemma_concat_syms_no_newline(lines.drop_first());
        assert(forall|j: int|
            0 <= j < concat_syms(lines).len() ==> concat_syms(lines)[j] == if j
                < lines[0].len() {
                lines[0][j]
            } else {
                concat_syms(lines.drop_first())[j - lines[0].len()]
            });
    }
}

/// Computes the length in characters of the longest prefix of the suffix of
/// `text` at `from` that fits in `space` bytes.
fn fit_prefix_len(text: &str, from: usize, n: usize, space: usize) -> (k: usize)
    requires
        n == text@.len(),
        from <= n,
    ensures
        k == fit_len(text@.skip(from as int), space as nat),
        from + k <= n,
{
    let ghost s = text@.skip(from as int);
    proof {
        assert(s.take(0) =~= Seq::<char>::empty());
        assert(byte_len(Seq::<char>::empty()) == 0);
    }
    let mut k: usize = 0;
    let mut used: usize = 0;
    let mut stop = false;
    while !stop && from + k < n
        invariant
            n == text@.len(),
            from <= n,
            s == text@.skip(from as int),
            from + k <= n,
            used == byte_len(s.take(k as int)),
            used <= space,
            stop ==> from + k < n && byte_len(s.take(k as int)) + char_bytes(s[k as int])
                > space,
        decreases (n - from - k) + (if stop {
            0int
        } else {
            1int
        }),
    {
        let c = text.get_char(from + k);
        proof {
            assert(text@[from + k as int] == s[k as int]);
        }
        let l = char_utf8_len(c);
        if l > space - used {
            stop = true;
        } else {
            proof {
                lemma_byte_len_take_step(s, k as int);
            }
            used = used + l;
            k = k + 1;
        }
    }
    proof {
        if !stop {
            assert(from + k == n);
            assert(s.len() == n - from);
        }
        lemma_fit_len_is(s, space as nat, k as int);
    }
    k
}

/// Packs the lines into chunks of at most `max` UTF-8 bytes each: lines
/// sharing a chunk are joined by a single newline, and a line that does not
/// fit in the remaining space is split on a character boundary.
///
/// No character is lost: stripping the inserted newlines from the
/// concatenated chunks reproduces the concatenated lines. Every character
/// of every line must fit the budget on its own (a character can take up to
/// four bytes); a budget below that is a configuration error.
pub fn pack_lines(lines: &Vec<String>, max: usize) -> (chunks: Vec<String>)
    requires
        max >= 1,
        forall|i: int, j: int|
            0 <= i < lines.deep_view().len() && 0 <= j < lines.deep_view()[i].len()
                ==> char_bytes(#[trigger] lines.deep_view()[i][j]) <= max,
    ensures
        chunks.deep_view() == spec_pack(lines.deep_view(), max as nat),
        forall|i: int|
            0 <= i < chunks.deep_view().len() ==> byte_len(#[trigger] chunks.deep_view()[i])
                <= max,
        without_newlines(concat_syms(chunks.deep_view())) == without_newlines(
            concat_syms(lines.deep_view()),
        ),
{
    let ghost ls = lines.deep_view();
    let ghost maxn = max as nat;
    let mut chunks: Vec<String> = Vec::new();
    let mut cur = String::new();
    let mut cur_bytes: usize = 0;
    let n = lines.len();
    proof {
        assert(ls.take(0) =~= Seq::<Seq<char>>::empty());
        assert(byte_len(cur@) == 0) by {
            assert(cur@ =~= Seq::<char>::empty().take(0));
            assert(Seq::<char>::empty().take(0) =~= Seq::<char>::empty());
        }
        assert(chunks.deep_view() =~= Seq::<Seq<char>>::empty());
    }
    let mut i: usize = 0;
    while i < n
        invariant
            ls == lines.deep_view(),
            maxn == max as nat,
            max >= 1,
            n == ls.len(),
            i <= n,
            forall|a: int, b: int|
                0 <= a < ls.len() && 0 <= b < ls[a].len() ==> char_bytes(#[trigger] ls[a][b])
                    <= max,
            cur_bytes == byte_len(cur@),
            cur_bytes <= max,
            chunks.deep_view() == spec_pack_lines(ls.take(i as int), Seq::empty(), maxn).0,
            cur@ == spec_pack_lines(ls.take(i as int), Seq::empty(), maxn).1,
        decreases n - i,
    {
        let ghost line_s = ls[i as int];
        let ghost cur_entry = cur@;
        let ghost chunks_entry = chunks.deep_view();
        let ghost mut emitted: Seq<Seq<char>> = Seq::empty();
        let line_str = lines[i].as_str();
        let n_line = line_str.unicode_len();
        let line_bytes = line_str.as_bytes().len();
        proof {
            assert(line_s == lines@[i as int]@);
            assert(line_str@ == line_s);
            assert(line_bytes == line_str.spec_bytes().len());
            assert(line_str.spec_bytes() == vstd::utf8::encode_utf8(line_str@));
            assert(line_bytes == byte_len(line_s));
            assert(chunks_entry + emitted =~= chunks_entry);
            assert(line_s.skip(0) =~= line_s);
            assert(byte_len(line_s.take(0)) == 0) by {
                assert(line_s.take(0) =~= Seq::<char>::empty());
            }
        }
        let mut pos: usize = 0;
        let mut pos_bytes: usize = 0;
        let mut line_done = false;
        while !line_done
            invariant
                maxn == max as nat,
                max >= 1,
                line_s == line_str@,
                n_line == line_s.len(),
                pos <= n_line,
                line_bytes == byte_len(line_s),
                pos_bytes == byte_len(line_s.take(pos as int)),
                forall|b: int| 0 <= b < line_s.len() ==> char_bytes(#[trigger] line_s[b]) <= max,
                cur_bytes == byte_len(cur@),
                cur_bytes <= max,
                chunks.deep_view() == chunks_entry + emitted,
                !line_done ==> spec_pack_line(line_s, cur_entry, maxn) == (emitted
                    + spec_pack_line(line_s.skip(pos as int), cur@, maxn).0, spec_pack_line(
                    line_s.skip(pos as int),
                    cur@,
                    maxn,
                ).1),
                line_done ==> spec_pack_line(line_s, cur_entry, maxn) == (emitted, cur@),
            decreases 4 * (n_line - pos) + 2 * (if line_done {
                0int
            } else {
                1int
            }) + (if cur@.len() > 0 {
                1int
            } else {
                0int
            }),
        {
            let ghost rest = line_s.skip(pos as int);
            let ghost cur_before = cur@;
            proof {
                if cur_bytes > 0 {
                    if cur@.len() == 0 {
                        assert(cur@ =~= Seq::<char>::empty().take(0));
                        assert(Seq::<char>::empty().take(0) =~= Seq::<char>::empty());
                        assert(byte_len(cur@) == 0);
                    }
                    assert(cur@.len() > 0);
                } else {
                    lemma_byte_len_lower_bound(cur@);
                    assert(cur@.len() == 0);
                }
            }
            if cur_bytes >= max {
                // the buffer is already at capacity: flush it
                let ghost dv_before = chunks.deep_view();
                let full = cur;
                cur = String::new();
                cur_bytes = 0;
                chunks.push(full);
                proof {
                    assert(chunks.deep_view() =~= dv_before.push(full@));
                    assert(cur@ =~= Seq::<char>::empty());
                    assert(byte_len(cur@) == 0) by {
                        assert(cur@ =~= Seq::<char>::empty().take(0));
                        assert(Seq::<char>::empty().take(0) =~= Seq::<char>::empty());
                    }
                    let r = spec_pack_line(rest, Seq::empty(), maxn);
                    assert(spec_pack_line(rest, cur_before, maxn) == (seq![cur_before] + r.0, r.1));
                    assert(emitted + (seq![cur_before] + r.0) =~= (emitted.push(cur_before)) + r.0);
                    emitted = emitted.push(cur_before);
                    assert(chunks.deep_view() =~= chunks_entry + emitted);
                }
            } else {
                let sep: usize = if cur_bytes > 0 {
                    1
                } else {
                    0
                };
                let avail = max - cur_bytes - sep;
                proof {
                    assert(sep as nat == sep_cost(cur@));
                    assert(avail as nat == (maxn - byte_len(cur@) - sep_cost(cur@)) as nat);
                    assert(line_s.take(pos as int) + line_s.skip(pos as int) =~= line_s);
                    lemma_byte_len_concat(line_s.take(pos as int), line_s.skip(pos as int));
                }
                let rest_bytes = line_bytes - pos_bytes;
                if rest_bytes <= avail {
                    // the whole remaining line fits: append and move on
                    if sep == 1 {
                        proof {
                            reveal_strlit("\n");
                        }
                        cur.append("\n");
                        proof {
                            assert("\n"@ =~= seq!['\n']);
                        }
                    }
                    let piece = line_str.substring_char(pos, n_line);
                    cur.append(piece);
                    proof {
                        assert(piece@ =~= rest);
                        assert(cur@ =~= cur_before + newline_sep(cur_before) + rest);
                        lemma_byte_len_concat(cur_before + newline_sep(cur_before), rest);
                        lemma_byte_len_concat(cur_before, newline_sep(cur_before));
                        if cur_before.len() > 0 {
                            lemma_byte_len_singleton('\n');
                        } else {
                            assert(newline_sep(cur_before) =~= Seq::<char>::empty());
                            assert(byte_len(Seq::<char>::empty()) == 0) by {
                                assert(Seq::<char>::empty() =~= Seq::<char>::empty().take(0));
                            }
                        }
                    }
                    cur_bytes = cur_bytes + sep + rest_bytes;
                    pos = n_line;
                    pos_bytes = line_bytes;
                    line_done = true;
                    proof {
                        assert(line_s.take(n_line as int) =~= line_s);
                        assert(spec_pack_line(rest, cur_before, maxn) == (
                            Seq::<Seq<char>>::empty(),
                            cur_before + newline_sep(cur_before) + rest,
                        ));
                        assert(emitted + Seq::<Seq<char>>::empty() =~= emitted);
                    }
                } else {
                    let k = fit_prefix_len(line_str, pos, n_line, avail);
                    if k == 0 && cur_bytes > 0 {
                        // not even one character fits beside the buffer: flush
                        let ghost dv_before = chunks.deep_view();
                        let full = cur;
                        cur = String::new();
                        cur_bytes = 0;
                        chunks.push(full);
                        proof {
                            assert(chunks.deep_view() =~= dv_before.push(full@));
                            assert(cur@ =~= Seq::<char>::empty());
                            assert(byte_len(cur@) == 0) by {
                                assert(cur@ =~= Seq::<char>::empty().take(0));
                                assert(Seq::<char>::empty().take(0) =~= Seq::<char>::empty());
                            }
                            let r = spec_pack_line(rest, Seq::empty(), maxn);
                            assert(spec_pack_line(rest, cur_before, maxn) == (seq![cur_before]
                                + r.0, r.1));
                            assert(emitted + (seq![cur_before] + r.0) =~= (emitted.push(
                                cur_before,
                            )) + r.0);
                            emitted = emitted.push(cur_before);
                            assert(chunks.deep_view() =~= chunks_entry + emitted);
                        }
                    } else {
                        proof {
                            if k == 0 {
                                assert(cur_before.len() == 0);
                                assert(avail == max);
                                assert(rest.len() > 0) by {
                                    if rest.len() == 0 {
                                        assert(rest =~= Seq::<char>::empty());
                                        assert(byte_len(rest) == 0) by {
                                            assert(rest =~= Seq::<char>::empty().take(0));
                                        }
                                    }
                                }
                                assert(rest[0] == line_s[pos as int]);
                                assert(char_bytes(rest[0]) <= max);
                                assert(fit_len(rest, avail as nat) >= 1);
                                assert(false);
                            }
                        }
                        // append the longest fitting prefix, then flush
                        if sep == 1 {
                            proof {
                                reveal_strlit("\n");
                            }
                            cur.append("\n");
                            proof {
                                assert("\n"@ =~= seq!['\n']);
                            }
                        }
                        let piece = line_str.substring_char(pos, pos + k);
                        let piece_bytes = piece.as_bytes().len();
                        cur.append(piece);
                        let ghost dv_before = chunks.deep_view();
                        let full = cur;
                        cur = String::new();
                        cur_bytes = 0;
                        chunks.push(full);
                        proof {
                            assert(chunks.deep_view() =~= dv_before.push(full@));
                            assert(piece@ =~= rest.take(k as int));
                            assert(full@ =~= cur_before + newline_sep(cur_before) + rest.take(
                                k as int,
                            ));
                            assert(cur@ =~= Seq::<char>::empty());
                            assert(byte_len(cur@) == 0) by {
                                assert(cur@ =~= Seq::<char>::empty().take(0));
                                assert(Seq::<char>::empty().take(0) =~= Seq::<char>::empty());
                            }
                            assert(rest.skip(k as int) =~= line_s.skip(pos + k));
                            let r = spec_pack_line(line_s.skip(pos + k), Seq::empty(), maxn);
                            assert(spec_pack_line(rest, cur_before, maxn) == (seq![full@] + r.0,
                            r.1));
                            assert(emitted + (seq![full@] + r.0) =~= (emitted.push(full@)) + r.0);
                            emitted = emitted.push(full@);
                            assert(chunks.deep_view() =~= chunks_entry + emitted);
                            // consumed-bytes bookkeeping
                            assert(line_s.take(pos + k) =~= line_s.take(pos as int) + rest.take(
                                k as int,
                            ));
                            lemma_byte_len_concat(line_s.take(pos as int), rest.take(k as int));
                            assert(piece_bytes == piece.spec_bytes().len());
                            assert(piece.spec_bytes() == vstd::utf8::encode_utf8(piece@));
                            assert(piece_bytes == byte_len(rest.take(k as int)));
                            assert(line_s =~= line_s.take(pos + k) + line_s.skip(pos + k));
                            lemma_byte_len_concat(line_s.take(pos + k), line_s.skip(pos + k));
                            assert(pos_bytes + piece_bytes == byte_len(line_s.take(pos + k)));
                            assert(pos_bytes + piece_bytes <= line_bytes);
                        }
                        pos_bytes = pos_bytes + piece_bytes;
                        pos = pos + k;
                    }
                }
            }
        }
        proof {
            assert(ls.take(i + 1) =~= ls.take(i as int).push(line_s));
            lemma_pack_lines_snoc(ls.take(i as int), line_s, Seq::empty(), maxn);
        }
        i = i + 1;
    }
    proof {
        assert(ls.take(n as int) =~= ls);
    }
    if cur_bytes > 0 {
        proof {
            if cur@.len() == 0 {
                assert(cur@ =~= Seq::<char>::empty().take(0));
                assert(Seq::<char>::empty().take(0) =~= Seq::<char>::empty());
                assert(byte_len(cur@) == 0);
            }
        }
        chunks.push(cur);
        proof {
            let r = spec_pack_lines(ls, Seq::empty(), maxn);
            assert(chunks.deep_view() =~= r.0.push(r.1));
        }
    } else {
        proof {
            lemma_byte_len_lower_bound(cur@);
            assert(cur@.len() == 0);
        }
    }
    proof {
        lemma_chunk_safety(ls, maxn);
    }
    chunks
}

/// Appending one more line packs the earlier lines first and feeds the
/// buffer they leave into the new line.
proof fn lemma_pack_lines_snoc(lines: Seq<Seq<char>>, l: Seq<char>, cur: Seq<char>, max: nat)
    ensures
        spec_pack_lines(lines.push(l), cur, max) == ({
            let a = spec_pack_lines(lines, cur, max);
            let b = spec_pack_line(l, a.1, max);
            (a.0 + b.0, b.1)
        }),
    decreases lines.len(),
{
    let a = spec_pack_lines(lines, cur, max);
    let b = spec_pack_line(l, a.1, max);
    if lines.len() == 0 {
        assert(lines.push(l)[0] == l);
        assert(lines.push(l).drop_first() =~= Seq::<Seq<char>>::empty());
        let first = spec_pack_line(l, cur, max);
        assert(a == (Seq::<Seq<char>>::empty(), cur));
        assert(first.0 + Seq::<Seq<char>>::empty() =~= first.0);
        assert(lines.push(l).drop_first() == Seq::<Seq<char>>::empty());
        assert(spec_pack_lines(Seq::<Seq<char>>::empty(), first.1, max) == (
            Seq::<Seq<char>>::empty(),
            first.1,
        ));
        assert(spec_pack_lines(lines.push(l), cur, max) == (first.0, first.1));
        assert(a.0 + b.0 =~= b.0);
    } else {
        assert(lines.push(l)[0] == lines[0]);
        assert(lines.push(l).drop_first() =~= lines.drop_first().push(l));
        let first = spec_pack_line(lines[0], cur, max);
        lemma_pack_lines_snoc(lines.drop_first(), l, first.1, max);
        let ad = spec_pack_lines(lines.drop_first(), first.1, max);
        let bd = spec_pack_line(l, ad.1, max);
        assert(first.0 + (ad.0 + bd.0) =~= (first.0 + ad.0) + bd.0);
    }
}

/// Decides whether every character of every line fits the byte budget on
/// its own: the packer's precondition, testable by a caller.
pub fn lines_fit(lines: &Vec<String>, max: usize) -> (r: bool)
    ensures
        r == (forall|i: int, j: int|
            0 <= i < lines.deep_view().len() && 0 <= j < lines.deep_view()[i].len()
                ==> char_bytes(#[trigger] lines.deep_view()[i][j]) <= max),
{
    let ghost ls = lines.deep_view();
    let n = lines.len();
    let mut i: usize = 0;
    while i < n
        invariant
            ls == lines.deep_view(),
            n == ls.len(),
            i <= n,
            forall|a: int, b: int|
                0 <= a < i && 0 <= b < ls[a].len() ==> char_bytes(#[trigger] ls[a][b]) <= max,
        decreases n - i,
    {
        let line_str = lines[i].as_str();
        let m = line_str.unicode_len();
        proof {
            assert(line_str@ == ls[i as int]);
        }
        let mut j: usize = 0;
        while j < m
            invariant
                line_str@ == ls[i as int],
                i < n,
                n == ls.len(),
                ls == lines.deep_view(),
                m == ls[i as int].len(),
                j <= m,
                forall|b: int| 0 <= b < j ==> char_bytes(#[trigger] ls[i as int][b]) <= max,
            decreases m - j,
        {
            let c = line_str.get_char(j);
            if char_utf8_len(c) > max {
                proof {
                    assert(char_bytes(ls[i as int][j as int]) > max);
                }
                return false;
            }
            j = j + 1;
        }
        i = i + 1;
    }
    true
}

} // verus!
