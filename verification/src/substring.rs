//! Containment of one sequence in another as a contiguous run, and the
//! search that decides it for string slices.

use vstd::prelude::*;
use vstd::utf8::*;
use vstd::string::*;
use crate::utf8::{lemma_encode_utf8_concat, lemma_valid_prefix_boundary};

verus! {

/// Whether `needle` stands in `haystack` at index `i`.
pub open spec fn occurs_at<T>(haystack: Seq<T>, needle: Seq<T>, i: int) -> bool {
    &&& 0 <= i
    &&& i + needle.len() <= haystack.len()
    &&& haystack.subrange(i, i + needle.len()) == needle
}

/// Whether `needle` stands somewhere in `haystack` as a contiguous run.
pub open spec fn is_substring<T>(needle: Seq<T>, haystack: Seq<T>) -> bool {
    exists|i: int| occurs_at(haystack, needle, i)
}

/// The empty sequence is contained in every sequence.
pub proof fn lemma_empty_is_substring<T>(haystack: Seq<T>)
    ensures
        is_substring(Seq::<T>::empty(), haystack),
{
    assert(haystack.subrange(0, 0) =~= Seq::<T>::empty());
    assert(occurs_at(haystack, Seq::<T>::empty(), 0));
}

/// Where a text contains another, its encoding contains the other's
/// encoding.
proof fn lemma_substring_encoded(needle: Seq<char>, haystack: Seq<char>)
    requires
        is_substring(needle, haystack),
    ensures
        is_substring(encode_utf8(needle), encode_utf8(haystack)),
{
    let j = choose|j: int| occurs_at(haystack, needle, j);
    let before = haystack.take(j);
    let after = haystack.skip(j + needle.len());
    assert(haystack =~= before + needle + after);
    lemma_encode_utf8_concat(before + needle, after);
    lemma_encode_utf8_concat(before, needle);
    let i = encode_utf8(before).len() as int;
    assert(encode_utf8(haystack).subrange(i, i + encode_utf8(needle).len()) =~= encode_utf8(
        needle,
    ));
    assert(occurs_at(encode_utf8(haystack), encode_utf8(needle), i));
}

/// Where the encoding of a text contains the encoding of another, the
/// text contains the other: the run of bytes begins and ends between two
/// characters.
proof fn lemma_substring_decoded(needle: Seq<char>, haystack: Seq<char>)
    requires
        is_substring(encode_utf8(needle), encode_utf8(haystack)),
    ensures
        is_substring(needle, haystack),
{
    let nb = encode_utf8(needle);
    let hb = encode_utf8(haystack);
    encode_utf8_valid_utf8(needle);
    encode_utf8_valid_utf8(haystack);
    if needle.len() == 0 {
        assert(needle =~= Seq::<char>::empty());
        lemma_empty_is_substring(haystack);
    } else {
        let i = choose|i: int| occurs_at(hb, nb, i);
        assert(nb.len() > 0 && !is_continuation_byte(nb[0])) by {
            encode_utf8_first_scalar(needle);
        }
        assert(hb[i] == nb[0]) by {
            assert(hb.subrange(i, i + nb.len())[0] == nb[0]);
        }
        assert(is_char_boundary(hb, i)) by {
            is_char_boundary_iff_not_is_continuation_byte(hb, i);
        }
        let head = hb.subrange(0, i);
        let tail = hb.subrange(i, hb.len() as int);
        assert(valid_utf8(head) && valid_utf8(tail) && decode_utf8(hb) == decode_utf8(head)
            + decode_utf8(tail)) by {
            valid_utf8_split(hb, i);
            decode_utf8_split(hb, i);
        }
        let n = nb.len() as int;
        assert(tail.subrange(0, n) =~= nb);
        lemma_valid_prefix_boundary(tail, nb);
        let after = tail.subrange(n, tail.len() as int);
        assert(valid_utf8(after) && decode_utf8(tail) == decode_utf8(nb) + decode_utf8(after)) by {
            valid_utf8_split(tail, n);
            decode_utf8_split(tail, n);
        }
        encode_utf8_decode_utf8(needle);
        encode_utf8_decode_utf8(haystack);
        let j = decode_utf8(head).len() as int;
        assert(haystack == decode_utf8(head) + needle + decode_utf8(after));
        assert(haystack.subrange(j, j + needle.len()) =~= needle);
        assert(occurs_at(haystack, needle, j));
    }
}

/// A text contains another exactly where its encoding contains the
/// other's encoding.
pub proof fn lemma_substring_utf8(needle: Seq<char>, haystack: Seq<char>)
    ensures
        is_substring(encode_utf8(needle), encode_utf8(haystack)) == is_substring(needle, haystack),
{
    if is_substring(needle, haystack) {
        lemma_substring_encoded(needle, haystack);
    }
    if is_substring(encode_utf8(needle), encode_utf8(haystack)) {
        lemma_substring_decoded(needle, haystack);
    }
}

/// Whether the bytes of `haystack` from index `i` on begin with `needle`.
fn bytes_occur_at(haystack: &[u8], needle: &[u8], i: usize) -> (r: bool)
    requires
        i + needle@.len() <= haystack@.len() <= usize::MAX,
    ensures
        r == occurs_at(haystack@, needle@, i as int),
{
    let len: usize = needle.len();
    let mut k: usize = 0;
    while k < len
        invariant
            i + len <= haystack@.len() <= usize::MAX,
            len == needle@.len(),
            k <= len,
            forall|n: int| 0 <= n < k ==> haystack@[i + n] == needle@[n],
        decreases len - k,
    {
        if haystack[i + k] != needle[k] {
            assert(haystack@.subrange(i as int, i + needle@.len())[k as int] != needle@[k as int]);
            return false;
        }
        k += 1;
    }
    assert(haystack@.subrange(i as int, i + needle@.len()) =~= needle@);
    true
}

/// Whether `needle` stands somewhere in `haystack`, byte for byte.
pub fn bytes_contain(haystack: &[u8], needle: &[u8]) -> (r: bool)
    ensures
        r == is_substring(needle@, haystack@),
{
    if needle.len() > haystack.len() {
        return false;
    }
    let last: usize = haystack.len() - needle.len();
    let mut i: usize = 0;
    while i < last
        invariant
            last + needle@.len() == haystack@.len() <= usize::MAX,
            i <= last,
            forall|n: int| 0 <= n < i ==> !occurs_at(haystack@, needle@, n),
        decreases last - i,
    {
        if bytes_occur_at(haystack, needle, i) {
            return true;
        }
        i += 1;
    }
    bytes_occur_at(haystack, needle, last)
}

/// Whether the text `needle` stands somewhere in the text `haystack`.
pub fn contains(haystack: &str, needle: &str) -> (r: bool)
    ensures
        r == is_substring(needle@, haystack@),
{
    proof {
        lemma_substring_utf8(needle@, haystack@);
    }
    bytes_contain(haystack.as_bytes(), needle.as_bytes())
}

} // verus!
