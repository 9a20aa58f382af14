//! The search itself: the lines of a text that contain a query, with or
//! without regard to case.

use vstd::prelude::*;
use vstd::string::*;
use crate::config::Config;
use crate::lines::{
    after_first_line, first_line, is_line_span, lemma_after_first_line_shorter,
    lemma_line_is_slice, line_views, lines_of, split_first_line,
};
use crate::substring::{contains, is_substring, lemma_empty_is_substring};

verus! {

/// The lowercase form of a text, as `str::to_lowercase` computes it by
/// Unicode's rules. It is a function of the whole text: the lowercase form
/// of a character may depend on its neighbours, and may be more than one
/// character long.
pub uninterp spec fn lowercase(text: Seq<char>) -> Seq<char>;

/// `str::to_lowercase` is not verified here. It is taken to return the
/// lowercase form of its argument, which depends on the text alone, and
/// to return the empty text for the empty text. Nothing else is claimed
/// of it.
pub assume_specification[ str::to_lowercase ](text: &str) -> (r: String)
    ensures
        r@ == lowercase(text@),
        text@.len() == 0 ==> r@.len() == 0,
;

/// Whether `line` matches `query`: it contains the query, either as both
/// stand or after both have been put in lowercase.
pub open spec fn line_matches(query: Seq<char>, line: Seq<char>, case_sensitive: bool) -> bool {
    if case_sensitive {
        is_substring(query, line)
    } else {
        is_substring(lowercase(query), lowercase(line))
    }
}

/// The lines of `contents` that match `query`, as they stand in
/// `contents` and in their order there.
pub open spec fn matching_lines(query: Seq<char>, contents: Seq<char>, case_sensitive: bool) -> Seq<
    Seq<char>,
> {
    lines_of(contents).filter(|line: Seq<char>| line_matches(query, line, case_sensitive))
}

/// The matches in a text that is not empty are its first line, if that
/// matches, and then the matches in what follows that line.
pub proof fn lemma_matching_lines_step(query: Seq<char>, contents: Seq<char>, case_sensitive: bool)
    requires
        contents.len() > 0,
    ensures
        matching_lines(query, contents, case_sensitive) == if line_matches(
            query,
            first_line(contents),
            case_sensitive,
        ) {
            seq![first_line(contents)] + matching_lines(
                query,
                after_first_line(contents),
                case_sensitive,
            )
        } else {
            matching_lines(query, after_first_line(contents), case_sensitive)
        },
{
    let pred = |line: Seq<char>| line_matches(query, line, case_sensitive);
    let head = seq![first_line(contents)];
    let tail = lines_of(after_first_line(contents));
    Seq::filter_distributes_over_add(head, tail, pred);
    reveal_with_fuel(Seq::filter, 2);
    assert(head.drop_last() =~= Seq::<Seq<char>>::empty());
    if pred(first_line(contents)) {
        assert(head.filter(pred) =~= head);
    } else {
        assert(head.filter(pred) =~= Seq::<Seq<char>>::empty());
        assert(head.filter(pred) + tail.filter(pred) =~= tail.filter(pred));
    }
}

/// The lines of `contents` that contain `query`, in order, each a slice
/// of `contents`.
pub fn search<'a>(query: &str, contents: &'a str) -> (r: Vec<&'a str>)
    ensures
        line_views(r@) == matching_lines(query@, contents@, true),
        query@.len() == 0 ==> line_views(r@) == lines_of(contents@),
        contents@.len() == 0 ==> r@.len() == 0,
{
    let mut found: Vec<&'a str> = Vec::new();
    let mut rest: &'a str = contents;
    while !rest.is_empty()
        invariant
            matching_lines(query@, contents@, true) == line_views(found@) + matching_lines(
                query@,
                rest@,
                true,
            ),
            contents@.len() == 0 ==> found@.len() == 0,
        decreases rest@.len(),
    {
        let (line, after) = split_first_line(rest);
        proof {
            lemma_matching_lines_step(query@, rest@, true);
            lemma_after_first_line_shorter(rest@);
            assert(line_views(found@.push(line)) =~= line_views(found@) + seq![line@]);
        }
        if contains(line, query) {
            found.push(line);
        }
        rest = after;
    }
    proof {
        assert(line_views(found@) + matching_lines(query@, rest@, true) =~= line_views(found@));
        if query@.len() == 0 {
            assert(query@ =~= Seq::<char>::empty());
            lemma_empty_query_matches_every_line(contents@);
        }
    }
    found
}

/// The lines of `contents` whose lowercase form contains the lowercase
/// form of `query`, in order, each a slice of `contents` as it stands
/// there.
pub fn search_case_insensitive<'a>(query: &str, contents: &'a str) -> (r: Vec<&'a str>)
    ensures
        line_views(r@) == matching_lines(query@, contents@, false),
        query@.len() == 0 ==> line_views(r@) == lines_of(contents@),
        contents@.len() == 0 ==> r@.len() == 0,
{
    let folded_query = query.to_lowercase();
    let mut found: Vec<&'a str> = Vec::new();
    let mut rest: &'a str = contents;
    while !rest.is_empty()
        invariant
            folded_query@ == lowercase(query@),
            query@.len() == 0 ==> folded_query@.len() == 0,
            matching_lines(query@, contents@, false) == line_views(found@) + matching_lines(
                query@,
                rest@,
                false,
            ),
            contents@.len() == 0 ==> found@.len() == 0,
        decreases rest@.len(),
    {
        let (line, after) = split_first_line(rest);
        proof {
            lemma_matching_lines_step(query@, rest@, false);
            lemma_after_first_line_shorter(rest@);
            assert(line_views(found@.push(line)) =~= line_views(found@) + seq![line@]);
        }
        let folded_line = line.to_lowercase();
        if contains(folded_line.as_str(), folded_query.as_str()) {
            found.push(line);
        }
        rest = after;
    }
    proof {
        assert(line_views(found@) + matching_lines(query@, rest@, false) =~= line_views(found@));
        if query@.len() == 0 {
            lemma_empty_lowercase_matches_every_line(query@, contents@);
        }
    }
    found
}

/// The search that `config` asks for, in `contents`: the text of the file
/// that `config` names.
pub fn run<'a>(config: &Config, contents: &'a str) -> (r: Vec<&'a str>)
    ensures
        line_views(r@) == matching_lines(config.query@, contents@, config.case_sensitive),
        config.query@.len() == 0 ==> line_views(r@) == lines_of(contents@),
        contents@.len() == 0 ==> r@.len() == 0,
{
    if config.case_sensitive {
        search(config.query.as_str(), contents)
    } else {
        search_case_insensitive(config.query.as_str(), contents)
    }
}

/// Whether `at` lists, in rising order, the indices of exactly the lines
/// of `contents` that match `query`.
pub open spec fn is_match_index(
    query: Seq<char>,
    contents: Seq<char>,
    case_sensitive: bool,
    at: Seq<int>,
) -> bool {
    let lines = lines_of(contents);
    &&& forall|k: int| 0 <= k < at.len() ==> 0 <= #[trigger] at[k] < lines.len()
    &&& forall|k: int, l: int| 0 <= k < l < at.len() ==> at[k] < at[l]
    &&& forall|i: int|
        0 <= i < lines.len() ==> (at.contains(i) <==> #[trigger] line_matches(
            query,
            lines[i],
            case_sensitive,
        ))
}

/// The indices, in rising order, of the elements of `full` that meet
/// `pred`, with what holds of them: the elements at these indices, in
/// this order, are `full.filter(pred)`.
proof fn lemma_filter_indices<A>(full: Seq<A>, pred: spec_fn(A) -> bool) -> (at: Seq<int>)
    ensures
        at.len() == full.filter(pred).len(),
        forall|k: int| 0 <= k < at.len() ==> 0 <= #[trigger] at[k] < full.len(),
        forall|k: int| 0 <= k < at.len() ==> full.filter(pred)[k] == full[#[trigger] at[k]],
        forall|k: int, l: int| 0 <= k < l < at.len() ==> at[k] < at[l],
        forall|i: int| 0 <= i < full.len() ==> (at.contains(i) <==> pred(#[trigger] full[i])),
    decreases full.len(),
{
    reveal(Seq::filter);
    if full.len() == 0 {
        Seq::empty()
    } else {
        let init = full.drop_last();
        let last = full.len() - 1;
        let before = lemma_filter_indices(init, pred);
        let at = if pred(full.last()) {
            before.push(last)
        } else {
            before
        };
        assert forall|i: int| 0 <= i < full.len() implies (at.contains(i) <==> pred(
            #[trigger] full[i],
        )) by {
            if i < last {
                assert(init[i] == full[i]);
                if before.contains(i) {
                    let k = choose|k: int| 0 <= k < before.len() && before[k] == i;
                    assert(at[k] == i);
                }
            } else if pred(full.last()) {
                assert(at[before.len() as int] == last);
            }
        }
        at
    }
}

/// A search keeps the order of the lines, leaves out no line that matches
/// and repeats none: its result is the lines of the contents at the
/// indices, in rising order, of exactly those that match.
pub proof fn lemma_matches_in_order(
    query: Seq<char>,
    contents: Seq<char>,
    case_sensitive: bool,
) -> (at: Seq<int>)
    ensures
        is_match_index(query, contents, case_sensitive, at),
        at.len() == matching_lines(query, contents, case_sensitive).len(),
        forall|k: int|
            0 <= k < at.len() ==> matching_lines(query, contents, case_sensitive)[k] == lines_of(
                contents,
            )[#[trigger] at[k]],
{
    let pred = |line: Seq<char>| line_matches(query, line, case_sensitive);
    let at = lemma_filter_indices(lines_of(contents), pred);
    assert forall|i: int| 0 <= i < lines_of(contents).len() implies (at.contains(i)
        <==> #[trigger] line_matches(query, lines_of(contents)[i], case_sensitive)) by {
        assert(pred(lines_of(contents)[i]) == line_matches(
            query,
            lines_of(contents)[i],
            case_sensitive,
        ));
    }
    at
}

/// Every line that a search returns is a slice of the contents, cut at
/// line boundaries: nothing is added to it and nothing is taken from it.
pub proof fn lemma_match_is_slice(
    query: Seq<char>,
    contents: Seq<char>,
    case_sensitive: bool,
    k: int,
) -> (span: (int, int))
    requires
        0 <= k < matching_lines(query, contents, case_sensitive).len(),
    ensures
        is_line_span(contents, span.0, span.1),
        matching_lines(query, contents, case_sensitive)[k] == contents.subrange(span.0, span.1),
{
    let at = lemma_matches_in_order(query, contents, case_sensitive);
    lemma_line_is_slice(contents, at[k])
}

/// With the empty query, a search that regards case returns every line of
/// the contents.
pub proof fn lemma_empty_query_matches_every_line(contents: Seq<char>)
    ensures
        matching_lines(Seq::empty(), contents, true) == lines_of(contents),
{
    let pred = |line: Seq<char>| line_matches(Seq::empty(), line, true);
    assert forall|i: int| 0 <= i < lines_of(contents).len() implies pred(
        #[trigger] lines_of(contents)[i],
    ) by {
        lemma_empty_is_substring(lines_of(contents)[i]);
    }
    lemma_filter_keeps_all(lines_of(contents), pred);
}

/// With a query whose lowercase form is empty, a search that disregards
/// case returns every line of the contents.
proof fn lemma_empty_lowercase_matches_every_line(query: Seq<char>, contents: Seq<char>)
    requires
        lowercase(query).len() == 0,
    ensures
        matching_lines(query, contents, false) == lines_of(contents),
{
    let pred = |line: Seq<char>| line_matches(query, line, false);
    assert(lowercase(query) =~= Seq::<char>::empty());
    assert forall|i: int| 0 <= i < lines_of(contents).len() implies pred(
        #[trigger] lines_of(contents)[i],
    ) by {
        lemma_empty_is_substring(lowercase(lines_of(contents)[i]));
    }
    lemma_filter_keeps_all(lines_of(contents), pred);
}

/// A filter that every element passes keeps the sequence as it is.
proof fn lemma_filter_keeps_all<A>(full: Seq<A>, pred: spec_fn(A) -> bool)
    requires
        forall|i: int| 0 <= i < full.len() ==> pred(#[trigger] full[i]),
    ensures
        full.filter(pred) == full,
    decreases full.len(),
{
    reveal(Seq::filter);
    if full.len() > 0 {
        let init = full.drop_last();
        assert forall|i: int| 0 <= i < init.len() implies pred(#[trigger] init[i]) by {
            assert(init[i] == full[i]);
        }
        lemma_filter_keeps_all(init, pred);
        assert(init.push(full.last()) =~= full);
    }
}

/// In the empty text a search finds nothing, whatever the query.
pub proof fn lemma_empty_contents_match_nothing(query: Seq<char>, case_sensitive: bool)
    ensures
        matching_lines(query, Seq::empty(), case_sensitive) == Seq::<Seq<char>>::empty(),
{
    reveal(Seq::filter);
    assert(lines_of(Seq::empty()) =~= Seq::<Seq<char>>::empty());
}

/// Two results of the same search hold the same lines in the same order:
/// what a search returns depends on its arguments alone.
pub proof fn lemma_search_repeats(
    query: Seq<char>,
    contents: Seq<char>,
    case_sensitive: bool,
    first: Seq<&str>,
    second: Seq<&str>,
)
    requires
        line_views(first) == matching_lines(query, contents, case_sensitive),
        line_views(second) == matching_lines(query, contents, case_sensitive),
    ensures
        first.len() == second.len(),
        forall|k: int| 0 <= k < first.len() ==> first[k]@ == second[k]@,
{
    assert(line_views(first).len() == first.len());
    assert(line_views(second).len() == second.len());
    assert forall|k: int| 0 <= k < first.len() implies first[k]@ == second[k]@ by {
        assert(line_views(first)[k] == first[k]@);
        assert(line_views(second)[k] == second[k]@);
    }
}

} // verus!
