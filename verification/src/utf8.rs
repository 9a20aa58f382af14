//! Facts about the UTF-8 encoding of character sequences, and the
//! executable helpers on `str` that rest on them.

use vstd::prelude::*;
use vstd::utf8::*;
use vstd::string::*;

verus! {

/// Whether `c` is an ASCII character: one that UTF-8 encodes as the single
/// byte `c as u8`.
pub open spec fn is_ascii_char(c: char) -> bool {
    c <= '\u{7f}'
}

/// Encoding goes through concatenation.
pub proof fn lemma_encode_utf8_concat(a: Seq<char>, b: Seq<char>)
    ensures
        encode_utf8(a + b) == encode_utf8(a) + encode_utf8(b),
    decreases a.len(),
{
    if a.len() == 0 {
        assert(a + b =~= b);
        assert(encode_utf8(a) + encode_utf8(b) =~= encode_utf8(b));
    } else {
        lemma_encode_utf8_concat(a.drop_first(), b);
        assert((a + b).drop_first() =~= a.drop_first() + b);
        assert(encode_utf8(a + b) =~= encode_utf8(a) + encode_utf8(b));
    }
}

/// Two character sequences with the same UTF-8 encoding are the same.
pub proof fn lemma_encode_utf8_injective(a: Seq<char>, b: Seq<char>)
    requires
        encode_utf8(a) == encode_utf8(b),
    ensures
        a == b,
{
    encode_utf8_decode_utf8(a);
    encode_utf8_decode_utf8(b);
}

/// An ASCII character alone is encoded as its one byte.
pub proof fn lemma_encode_ascii_char(c: char)
    requires
        is_ascii_char(c),
    ensures
        encode_utf8(seq![c]) == seq![c as u8],
{
    let chars = seq![c];
    assert(is_ascii_chars(chars));
    is_ascii_chars_encode_utf8(chars);
    assert(encode_utf8(chars) =~= seq![c as u8]);
}

/// Only an ASCII character alone is encoded as that character's one byte.
pub proof fn lemma_decode_ascii_char(chars: Seq<char>, c: char)
    requires
        is_ascii_char(c),
        encode_utf8(chars) == seq![c as u8],
    ensures
        chars == seq![c],
{
    lemma_encode_ascii_char(c);
    lemma_encode_utf8_injective(chars, seq![c]);
}

/// Where an ASCII character stands in a text, its byte stands in the
/// encoding: right after the encoding of what precedes it.
pub proof fn lemma_ascii_char_encoded(chars: Seq<char>, j: int)
    requires
        0 <= j < chars.len(),
        is_ascii_char(chars[j]),
    ensures
        encode_utf8(chars.take(j)).len() < encode_utf8(chars).len(),
        encode_utf8(chars)[encode_utf8(chars.take(j)).len() as int] == chars[j] as u8,
        encode_utf8(chars) == encode_utf8(chars.take(j)) + seq![chars[j] as u8] + encode_utf8(
            chars.skip(j + 1),
        ),
{
    let before = chars.take(j);
    let after = chars.skip(j + 1);
    assert(chars =~= before + seq![chars[j]] + after);
    lemma_encode_utf8_concat(before + seq![chars[j]], after);
    lemma_encode_utf8_concat(before, seq![chars[j]]);
    lemma_encode_ascii_char(chars[j]);
}

/// A text whose encoding lacks the byte of an ASCII character lacks the
/// character.
pub proof fn lemma_ascii_byte_absent(chars: Seq<char>, c: char)
    requires
        is_ascii_char(c),
        !encode_utf8(chars).contains(c as u8),
    ensures
        !chars.contains(c),
{
    if chars.contains(c) {
        let j = choose|j: int| 0 <= j < chars.len() && chars[j] == c;
        lemma_ascii_char_encoded(chars, j);
        let i = encode_utf8(chars.take(j)).len() as int;
        assert(encode_utf8(chars)[i] == c as u8);
    }
}

/// An ASCII byte in an encoding stands at a character boundary, and so
/// does the byte after it.
pub proof fn lemma_ascii_byte_boundaries(chars: Seq<char>, i: int)
    requires
        0 <= i < encode_utf8(chars).len(),
        encode_utf8(chars)[i] <= 0x7f,
    ensures
        is_char_boundary(encode_utf8(chars), i),
        is_char_boundary(encode_utf8(chars), i + 1),
{
    let bytes = encode_utf8(chars);
    encode_utf8_valid_utf8(chars);
    is_char_boundary_iff_is_leading_byte(bytes, i);
    if i + 1 < bytes.len() {
        // What follows the byte is a valid encoding, so it begins with a
        // leading byte.
        valid_utf8_split(bytes, i);
        let next = pop_first_scalar(bytes.subrange(i, bytes.len() as int));
        assert(next =~= bytes.subrange(i + 1, bytes.len() as int));
        assert(valid_utf8(next));
        assert(valid_first_scalar(next));
        is_char_boundary_iff_is_leading_byte(bytes, i + 1);
    } else {
        is_char_boundary_start_end_of_seq(bytes);
    }
}

/// A valid encoding that begins another valid encoding ends at a character
/// boundary of it.
pub proof fn lemma_valid_prefix_boundary(bytes: Seq<u8>, prefix: Seq<u8>)
    requires
        valid_utf8(bytes),
        valid_utf8(prefix),
        prefix.len() <= bytes.len(),
        bytes.subrange(0, prefix.len() as int) == prefix,
    ensures
        is_char_boundary(bytes, prefix.len() as int),
    decreases prefix.len(),
{
    if prefix.len() > 0 {
        // Both begin with the same character, and what follows it in
        // `prefix` begins what follows it in `bytes`.
        assert(forall|n: int| 0 <= n < prefix.len() ==> prefix[n] == bytes[n]);
        assert(length_of_first_scalar(bytes) == length_of_first_scalar(prefix));
        let rest = pop_first_scalar(bytes);
        let prefix_rest = pop_first_scalar(prefix);
        assert(rest.subrange(0, prefix_rest.len() as int) =~= prefix_rest);
        lemma_valid_prefix_boundary(rest, prefix_rest);
    }
}

/// Whether two byte slices hold the same bytes.
pub fn bytes_eq(a: &[u8], b: &[u8]) -> (r: bool)
    ensures
        r == (a@ == b@),
{
    if a.len() != b.len() {
        return false;
    }
    let mut i: usize = 0;
    while i < a.len()
        invariant
            a@.len() == b@.len(),
            i <= a@.len(),
            forall|k: int| 0 <= k < i ==> a@[k] == b@[k],
        decreases a@.len() - i,
    {
        if a[i] != b[i] {
            return false;
        }
        i += 1;
    }
    assert(a@ =~= b@);
    true
}

/// Whether two string slices hold the same text.
pub fn str_eq(a: &str, b: &str) -> (r: bool)
    ensures
        r == (a@ == b@),
{
    let r = bytes_eq(a.as_bytes(), b.as_bytes());
    proof {
        if r {
            lemma_encode_utf8_injective(a@, b@);
        }
    }
    r
}

/// Cuts `s` in two at the byte index `mid`, which must lie between two
/// characters.
pub fn split_at_boundary<'a>(s: &'a str, mid: usize) -> (r: (&'a str, &'a str))
    requires
        is_char_boundary(s.spec_bytes(), mid as int),
    ensures
        s@ == r.0@ + r.1@,
        r.0.spec_bytes() == s.spec_bytes().subrange(0, mid as int),
        r.1.spec_bytes() == s.spec_bytes().subrange(mid as int, s.spec_bytes().len() as int),
{
    let r = s.split_at(mid);
    proof {
        encode_utf8_valid_utf8(s@);
        lemma_encode_utf8_concat(r.0@, r.1@);
        assert(r.0.spec_bytes() + r.1.spec_bytes() =~= s.spec_bytes());
        lemma_encode_utf8_injective(s@, r.0@ + r.1@);
    }
    r
}

} // verus!
