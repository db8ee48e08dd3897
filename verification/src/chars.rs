//! Character classification and UTF-8 byte lengths.
//!
//! The pretokenizer splits text by the Unicode classes "letter", "numeric"
//! and "whitespace"; those classes are decided by the standard library and
//! are only named here. The chunk packer measures text by its UTF-8 byte
//! length, which is specified exactly via `vstd::utf8`.

use vstd::prelude::*;

verus! {

use vstd::utf8::encode_scalar;
use vstd::utf8::encode_utf8;

/// Whether the standard library classifies `c` as a Unicode letter.
pub uninterp spec fn letter_char(c: char) -> bool;

/// Whether the standard library classifies `c` as a Unicode numeric character.
pub uninterp spec fn numeric_char(c: char) -> bool;

/// Whether the standard library classifies `c` as Unicode whitespace.
pub uninterp spec fn whitespace_char(c: char) -> bool;

/// Relies on char::is_alphabetic: true exactly for characters with the
/// Unicode `Alphabetic` property; the result depends on the character alone.
#[verifier::external_body]
pub(crate) fn char_is_letter(c: char) -> (r: bool)
    ensures
        r == letter_char(c),
{
    c.is_alphabetic()
}

/// Relies on char::is_numeric: true exactly for characters in the Unicode
/// number categories `Nd`, `Nl`, `No`; the result depends on the character alone.
#[verifier::external_body]
pub(crate) fn char_is_numeric(c: char) -> (r: bool)
    ensures
        r == numeric_char(c),
{
    c.is_numeric()
}

/// Relies on char::is_whitespace: true exactly for characters with the
/// Unicode `White_Space` property; the result depends on the character alone.
#[verifier::external_body]
pub(crate) fn char_is_whitespace(c: char) -> (r: bool)
    ensures
        r == whitespace_char(c),
{
    c.is_whitespace()
}

/// The number of bytes in the UTF-8 encoding of one character.
pub open spec fn char_bytes(c: char) -> nat {
    encode_scalar(c as u32).len()
}

/// The number of bytes in the UTF-8 encoding of a character sequence.
pub open spec fn byte_len(s: Seq<char>) -> nat {
    encode_utf8(s).len()
}

/// Computes the UTF-8 byte length of one character.
pub fn char_utf8_len(c: char) -> (n: usize)
    ensures
        n == char_bytes(c),
        1 <= n <= 4,
{
    proof {
        vstd::utf8::char_is_scalar(c);
    }
    let u = c as u32;
    if u < 0x80 {
        1
    } else if u < 0x800 {
        2
    } else if u < 0x10000 {
        3
    } else {
        4
    }
}

/// A UTF-8 byte length is additive over concatenation.
pub proof fn lemma_byte_len_concat(a: Seq<char>, b: Seq<char>)
    ensures
        byte_len(a + b) == byte_len(a) + byte_len(b),
    decreases a.len(),
{
    if a.len() == 0 {
        assert(a + b =~= b);
    } else {
        assert((a + b).drop_first() =~= a.drop_first() + b);
        assert((a + b)[0] == a[0]);
        lemma_byte_len_concat(a.drop_first(), b);
    }
}

/// The byte length of a one-character sequence is that character's length.
pub proof fn lemma_byte_len_singleton(c: char)
    ensures
        byte_len(seq![c]) == char_bytes(c),
{
    let s = seq![c];
    assert(s.len() == 1);
    assert(s[0] == c);
    assert(s.drop_first() =~= Seq::<char>::empty());
    assert(encode_utf8(Seq::<char>::empty()) =~= Seq::<u8>::empty());
    assert(encode_utf8(s) =~= encode_scalar(c as u32) + encode_utf8(s.drop_first()));
    assert(encode_scalar(c as u32) + Seq::<u8>::empty() =~= encode_scalar(c as u32));
}

/// Extending a prefix by one character grows its byte length by that
/// character's byte length.
pub proof fn lemma_byte_len_take_step(s: Seq<char>, k: int)
    requires
        0 <= k < s.len(),
    ensures
        byte_len(s.take(k + 1)) == byte_len(s.take(k)) + char_bytes(s[k]),
{
    assert(s.take(k + 1) =~= s.take(k) + seq![s[k]]);
    lemma_byte_len_concat(s.take(k), seq![s[k]]);
    lemma_byte_len_singleton(s[k]);
}

/// Every character costs at least one byte, so a sequence's byte length is
/// at least its character count.
pub proof fn lemma_byte_len_lower_bound(s: Seq<char>)
    ensures
        byte_len(s) >= s.len(),
    decreases s.len(),
{
    if s.len() > 0 {
        vstd::utf8::char_is_scalar(s[0]);
        lemma_byte_len_lower_bound(s.drop_first());
    }
}

} // verus!
