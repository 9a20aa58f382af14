//! The lines of a text.
//!
//! A line ends with a line feed, or with a carriage return and a line feed;
//! neither belongs to the line. The last line may lack its ending. A text
//! that ends with a line ending has no empty line after it, so the empty
//! text has no line at all.

use vstd::prelude::*;
use vstd::utf8::*;
use vstd::string::*;
use crate::utf8::{
    lemma_ascii_byte_absent, lemma_ascii_byte_boundaries, lemma_ascii_char_encoded,
    lemma_decode_ascii_char, lemma_encode_utf8_injective, split_at_boundary,
};

verus! {

/// The byte that encodes a line feed.
pub const LINE_FEED: u8 = 0x0a;

/// The byte that encodes a carriage return.
pub const CARRIAGE_RETURN: u8 = 0x0d;

/// The index of the first line feed in `text`, or the length of `text`
/// where it holds none.
pub open spec fn first_line_feed(text: Seq<char>) -> int
    decreases text.len(),
{
    if text.len() == 0 || text[0] == '\n' {
        0
    } else {
        1 + first_line_feed(text.drop_first())
    }
}

/// `line` without the carriage return at its end, if it has one.
pub open spec fn without_carriage_return(line: Seq<char>) -> Seq<char> {
    if line.len() > 0 && line.last() == '\r' {
        line.drop_last()
    } else {
        line
    }
}

/// The first line of a text that is not empty.
pub open spec fn first_line(text: Seq<char>) -> Seq<char> {
    let end = first_line_feed(text);
    if end == text.len() {
        text
    } else {
        without_carriage_return(text.take(end))
    }
}

/// What follows the first line of `text` and its ending.
pub open spec fn after_first_line(text: Seq<char>) -> Seq<char> {
    let end = first_line_feed(text);
    if end == text.len() {
        Seq::empty()
    } else {
        text.skip(end + 1)
    }
}

/// The lines of `text`, in order.
pub open spec fn lines_of(text: Seq<char>) -> Seq<Seq<char>>
    decreases text.len(),
    via lines_of_decreases
{
    if text.len() == 0 {
        Seq::empty()
    } else {
        seq![first_line(text)] + lines_of(after_first_line(text))
    }
}

#[via_fn]
proof fn lines_of_decreases(text: Seq<char>) {
    lemma_first_line_feed(text);
}

/// The views of a sequence of string slices.
pub open spec fn line_views(lines: Seq<&str>) -> Seq<Seq<char>> {
    lines.map_values(|line: &str| line@)
}

/// `first_line_feed` is in range, no line feed stands before it, and one
/// stands at it unless it is the length of the text.
pub proof fn lemma_first_line_feed(text: Seq<char>)
    ensures
        0 <= first_line_feed(text) <= text.len(),
        forall|k: int| 0 <= k < first_line_feed(text) ==> text[k] != '\n',
        first_line_feed(text) < text.len() ==> text[first_line_feed(text)] == '\n',
    decreases text.len(),
{
    if text.len() == 0 || text[0] == '\n' {
    } else {
        let rest = text.drop_first();
        lemma_first_line_feed(rest);
        assert forall|k: int| 0 <= k < first_line_feed(text) implies text[k] != '\n' by {
            if k > 0 {
                assert(text[k] == rest[k - 1]);
            }
        }
    }
}

/// The index at which a line feed stands, or the text ends, with no line
/// feed before it, is `first_line_feed`.
pub proof fn lemma_first_line_feed_is(text: Seq<char>, end: int)
    requires
        0 <= end <= text.len(),
        forall|k: int| 0 <= k < end ==> text[k] != '\n',
        end < text.len() ==> text[end] == '\n',
    ensures
        first_line_feed(text) == end,
{
    lemma_first_line_feed(text);
}

/// What follows the first line of a text that is not empty is shorter
/// than the text.
pub proof fn lemma_after_first_line_shorter(text: Seq<char>)
    requires
        text.len() > 0,
    ensures
        after_first_line(text).len() < text.len(),
{
    lemma_first_line_feed(text);
}

/// The index of the first `byte` in `bytes`, or the length of `bytes`
/// where it holds none.
fn find_byte(bytes: &[u8], byte: u8) -> (i: usize)
    ensures
        i <= bytes@.len(),
        forall|k: int| 0 <= k < i ==> bytes@[k] != byte,
        i < bytes@.len() ==> bytes@[i as int] == byte,
{
    let mut i: usize = 0;
    while i < bytes.len() && bytes[i] != byte
        invariant
            i <= bytes@.len(),
            forall|k: int| 0 <= k < i ==> bytes@[k] != byte,
        decreases bytes@.len() - i,
    {
        i += 1;
    }
    i
}

/// `line` without the carriage return at its end, if it has one.
fn strip_carriage_return<'a>(line: &'a str) -> (r: &'a str)
    ensures
        r@ == without_carriage_return(line@),
{
    let bytes = line.as_bytes();
    let n: usize = bytes.len();
    if n > 0 && bytes[n - 1] == CARRIAGE_RETURN {
        proof {
            lemma_ascii_byte_boundaries(line@, n - 1);
        }
        let (kept, cr) = split_at_boundary(line, n - 1);
        proof {
            assert(cr.spec_bytes() =~= seq![CARRIAGE_RETURN]);
            lemma_decode_ascii_char(cr@, '\r');
            assert(line@.drop_last() =~= kept@);
        }
        kept
    } else {
        proof {
            if line@.len() > 0 && line@.last() == '\r' {
                let last = line@.len() - 1;
                lemma_ascii_char_encoded(line@, last);
                assert(line@.skip(last + 1) =~= Seq::<char>::empty());
                assert(encode_utf8(line@.skip(last + 1)) =~= Seq::<u8>::empty());
                assert(bytes@[n - 1] == CARRIAGE_RETURN);
            }
        }
        line
    }
}

/// Cuts `text` after its first line: the line, without its ending, and
/// what follows the ending. Both are slices of `text`.
pub fn split_first_line<'a>(text: &'a str) -> (r: (&'a str, &'a str))
    ensures
        r.0@ == first_line(text@),
        r.1@ == after_first_line(text@),
{
    let bytes = text.as_bytes();
    let end: usize = find_byte(bytes, LINE_FEED);
    if end == bytes.len() {
        proof {
            encode_utf8_valid_utf8(text@);
            is_char_boundary_start_end_of_seq(bytes@);
        }
        let (line, rest) = split_at_boundary(text, end);
        proof {
            assert(!bytes@.contains(LINE_FEED));
            lemma_ascii_byte_absent(text@, '\n');
            lemma_first_line_feed(text@);
            assert(rest.spec_bytes() =~= encode_utf8(Seq::<char>::empty()));
            lemma_encode_utf8_injective(rest@, Seq::<char>::empty());
            assert(line@ =~= text@);
        }
        (line, rest)
    } else {
        proof {
            lemma_ascii_byte_boundaries(text@, end as int);
        }
        let (line, tail) = split_at_boundary(text, end);
        proof {
            lemma_ascii_byte_boundaries(tail@, 0);
        }
        let (feed, rest) = split_at_boundary(tail, 1);
        proof {
            assert(feed.spec_bytes() =~= seq![LINE_FEED]);
            lemma_decode_ascii_char(feed@, '\n');
            assert(!line.spec_bytes().contains(LINE_FEED));
            lemma_ascii_byte_absent(line@, '\n');
            lemma_first_line_feed_is(text@, line@.len() as int);
            assert(text@.take(line@.len() as int) =~= line@);
            assert(text@.skip(line@.len() as int + 1) =~= rest@);
        }
        (strip_carriage_return(line), rest)
    }
}

/// The lines of `text`, in order, each a slice of `text`.
pub fn lines<'a>(text: &'a str) -> (r: Vec<&'a str>)
    ensures
        line_views(r@) == lines_of(text@),
{
    let mut found: Vec<&'a str> = Vec::new();
    let mut rest: &'a str = text;
    while !rest.is_empty()
        invariant
            lines_of(text@) == line_views(found@) + lines_of(rest@),
        decreases rest@.len(),
    {
        let (line, after) = split_first_line(rest);
        proof {
            lemma_after_first_line_shorter(rest@);
            assert(line_views(found@.push(line)) =~= line_views(found@) + seq![line@]);
        }
        found.push(line);
        rest = after;
    }
    assert(line_views(found@) + lines_of(rest@) =~= line_views(found@));
    found
}

/// Whether the characters of `text` from `start` up to `end` make up a
/// line: the line starts the text or follows a line feed, holds no line
/// feed, and ends where the text ends or where a line ending stands. A
/// carriage return before a line feed is part of the ending.
pub open spec fn is_line_span(text: Seq<char>, start: int, end: int) -> bool {
    &&& 0 <= start <= end <= text.len()
    &&& start == 0 || text[start - 1] == '\n'
    &&& forall|k: int| start <= k < end ==> text[k] != '\n'
    &&& {
        ||| end == text.len()
        ||| text[end] == '\n' && !(start < end && text[end - 1] == '\r')
        ||| end + 1 < text.len() && text[end] == '\r' && text[end + 1] == '\n'
    }
}

/// The first line of a text that is not empty is a slice of the text,
/// from its start to the first line ending or to the end of the text.
pub proof fn lemma_first_line_is_slice(text: Seq<char>) -> (end: int)
    requires
        text.len() > 0,
    ensures
        is_line_span(text, 0, end),
        first_line(text) == text.subrange(0, end),
{
    lemma_first_line_feed(text);
    let feed = first_line_feed(text);
    if feed == text.len() {
        assert(text.subrange(0, feed) =~= text);
        feed
    } else {
        let line = text.take(feed);
        if line.len() > 0 && line.last() == '\r' {
            assert(line.drop_last() =~= text.subrange(0, feed - 1));
            feed - 1
        } else {
            feed
        }
    }
}

/// Every line of a text is a slice of the text, cut at line boundaries:
/// nothing is added to a line and nothing is taken from it.
pub proof fn lemma_line_is_slice(text: Seq<char>, k: int) -> (span: (int, int))
    requires
        0 <= k < lines_of(text).len(),
    ensures
        is_line_span(text, span.0, span.1),
        lines_of(text)[k] == text.subrange(span.0, span.1),
    decreases text.len(),
{
    if k == 0 {
        let end = lemma_first_line_is_slice(text);
        (0, end)
    } else {
        lemma_first_line_feed(text);
        let feed = first_line_feed(text);
        let after = after_first_line(text);
        assert(lines_of(text)[k] == lines_of(after)[k - 1]);
        assert(feed < text.len()) by {
            if feed == text.len() {
                assert(lines_of(after) =~= Seq::<Seq<char>>::empty());
            }
        }
        let inner = lemma_line_is_slice(after, k - 1);
        let shift = feed + 1;
        let span = (inner.0 + shift, inner.1 + shift);
        assert(forall|n: int| 0 <= n < after.len() ==> after[n] == text[n + shift]);
        assert(after.subrange(inner.0, inner.1) =~= text.subrange(span.0, span.1));
        assert(is_line_span(text, span.0, span.1)) by {
            assert forall|n: int| span.0 <= n < span.1 implies text[n] != '\n' by {
                assert(after[n - shift] != '\n');
            }
            if inner.0 > 0 {
                assert(after[inner.0 - 1] == text[span.0 - 1]);
            }
            if inner.1 < after.len() {
                assert(after[inner.1] == text[span.1]);
                if inner.1 + 1 < after.len() {
                    assert(after[inner.1 + 1] == text[span.1 + 1]);
                }
                if inner.0 < inner.1 {
                    assert(after[inner.1 - 1] == text[span.1 - 1]);
                }
            }
        }
        span
    }
}

} // verus!
