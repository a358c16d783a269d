//! The search itself: the lines of a text that hold a query.

use crate::folding::{case_folded, fold_case, lemma_fold_concat};
use crate::lines::{after_first_line, first_line, lines_of, split_first_line};
use crate::substring::{
    contains, is_substring, lemma_empty_is_substring, lemma_middle_is_substring,
    lemma_occurrence_splits, occurs_at,
};
use vstd::prelude::*;
use vstd::string::*;

verus! {

/// The test of a case-sensitive search: does the line hold `query`?
pub open spec fn holds(query: Seq<char>) -> spec_fn(Seq<char>) -> bool {
    |line: Seq<char>| is_substring(query, line)
}

/// The test of a case-insensitive search: does the folded line hold the
/// folded `query`?
pub open spec fn holds_ignoring_case(query: Seq<char>) -> spec_fn(Seq<char>) -> bool {
    |line: Seq<char>| is_substring(case_folded(query), case_folded(line))
}

/// The lines of `text` in which `query` occurs, in the order of the text.
pub open spec fn matching_lines(query: Seq<char>, text: Seq<char>) -> Seq<Seq<char>> {
    lines_of(text).filter(holds(query))
}

/// The lines of `text` in which `query` occurs when case is ignored, in the
/// order of the text.
pub open spec fn matching_lines_ignoring_case(query: Seq<char>, text: Seq<char>) -> Seq<
    Seq<char>,
> {
    lines_of(text).filter(holds_ignoring_case(query))
}

/// Selecting among the lines of a text that is not empty: the first line if
/// it passes, then the selection among the lines of the rest.
pub proof fn lemma_select_unfold(text: Seq<char>, keep: spec_fn(Seq<char>) -> bool)
    requires
        text.len() > 0,
    ensures
        lines_of(text).filter(keep) == (if keep(first_line(text)) {
            seq![first_line(text)]
        } else {
            Seq::empty()
        }) + lines_of(after_first_line(text)).filter(keep),
{
    lines_of(after_first_line(text)).lemma_filter_prepend(first_line(text), keep);
}

/// A selection among lines holds exactly the lines that pass.
proof fn lemma_select_members(text: Seq<char>, keep: spec_fn(Seq<char>) -> bool)
    ensures
        forall|line: Seq<char>| #[trigger]
            lines_of(text).filter(keep).contains(line) <==> lines_of(text).contains(line) && keep(
                line,
            ),
{
    let lines = lines_of(text);
    let kept = lines.filter(keep);
    assert forall|line: Seq<char>| #[trigger] kept.contains(line) implies lines.contains(line)
        && keep(line) by {
        let i = choose|i: int| 0 <= i < kept.len() && kept[i] == line;
        lines.lemma_filter_pred(keep, i);
        lines.lemma_filter_contains_rev(keep, line);
    }
    assert forall|line: Seq<char>| lines.contains(line) && keep(line) implies #[trigger]
        kept.contains(line) by {
        let i = choose|i: int| 0 <= i < lines.len() && lines[i] == line;
        lines.lemma_filter_contains(keep, i);
    }
}

/// What a search finds is a line of the text that holds the query, and every
/// such line is found; with case ignored, the same of the folded line and
/// the folded query.
pub proof fn lemma_search_finds_exactly(query: Seq<char>, text: Seq<char>)
    ensures
        forall|line: Seq<char>| #[trigger]
            matching_lines(query, text).contains(line) <==> lines_of(text).contains(line)
                && is_substring(query, line),
        forall|line: Seq<char>| #[trigger]
            matching_lines_ignoring_case(query, text).contains(line) <==> lines_of(
                text,
            ).contains(line) && is_substring(case_folded(query), case_folded(line)),
{
    lemma_select_members(text, holds(query));
    lemma_select_members(text, holds_ignoring_case(query));
}

/// A search for the empty query returns every line of the text, in order.
pub proof fn lemma_empty_query_matches_every_line(query: Seq<char>, text: Seq<char>)
    requires
        query.len() == 0,
    ensures
        matching_lines(query, text) == lines_of(text),
    decreases text.len(),
{
    if text.len() == 0 {
        reveal(Seq::filter);
    } else {
        lemma_select_unfold(text, holds(query));
        lemma_empty_is_substring(query, first_line(text));
        lemma_empty_query_matches_every_line(query, after_first_line(text));
    }
}

/// So does a search for it that ignores case.
pub proof fn lemma_empty_query_matches_every_line_ignoring_case(
    query: Seq<char>,
    text: Seq<char>,
)
    requires
        query.len() == 0,
    ensures
        matching_lines_ignoring_case(query, text) == lines_of(text),
    decreases text.len(),
{
    if text.len() == 0 {
        reveal(Seq::filter);
    } else {
        lemma_select_unfold(text, holds_ignoring_case(query));
        lemma_empty_is_substring(case_folded(query), case_folded(first_line(text)));
        lemma_empty_query_matches_every_line_ignoring_case(query, after_first_line(text));
    }
}

/// Folding keeps occurrences: a text that holds `needle` holds it folded
/// once both are folded.
pub proof fn lemma_fold_keeps_substring(needle: Seq<char>, hay: Seq<char>)
    requires
        is_substring(needle, hay),
    ensures
        is_substring(case_folded(needle), case_folded(hay)),
{
    let at = choose|at: int| occurs_at(needle, hay, at);
    let before = hay.take(at);
    let after = hay.skip(at + needle.len());
    lemma_occurrence_splits(needle, hay, at);
    lemma_fold_concat(before + needle, after);
    lemma_fold_concat(before, needle);
    lemma_middle_is_substring(case_folded(before), case_folded(needle), case_folded(after));
}

/// A case-insensitive search finds every line that the case-sensitive search
/// for the same query finds in the same text, and has them in the same order:
/// the case-sensitive result is the case-insensitive one with the lines left
/// out that do not hold the query as it is written.
pub proof fn lemma_ignoring_case_finds_more(query: Seq<char>, text: Seq<char>)
    ensures
        matching_lines(query, text) == matching_lines_ignoring_case(query, text).filter(
            holds(query),
        ),
        forall|line: Seq<char>| #[trigger]
            matching_lines(query, text).contains(line) ==> matching_lines_ignoring_case(
                query,
                text,
            ).contains(line),
    decreases text.len(),
{
    let exact = holds(query);
    let folded = holds_ignoring_case(query);
    if text.len() == 0 {
        reveal(Seq::filter);
    } else {
        let first = first_line(text);
        let rest = after_first_line(text);
        lemma_select_unfold(text, exact);
        lemma_select_unfold(text, folded);
        lemma_ignoring_case_finds_more(query, rest);
        let head = if folded(first) {
            seq![first]
        } else {
            Seq::empty()
        };
        if exact(first) {
            lemma_fold_keeps_substring(query, first);
        }
        Seq::filter_distributes_over_add(head, lines_of(rest).filter(folded), exact);
        Seq::<Seq<char>>::empty().lemma_filter_prepend(first, exact);
        assert(Seq::<Seq<char>>::empty().filter(exact) == Seq::<Seq<char>>::empty()) by {
            reveal(Seq::filter);
        }
        assert(seq![first] + Seq::<Seq<char>>::empty() == seq![first]);
    }
    let found = matching_lines(query, text);
    let wider = matching_lines_ignoring_case(query, text);
    assert forall|line: Seq<char>| #[trigger] found.contains(line) implies wider.contains(
        line,
    ) by {
        wider.lemma_filter_contains_rev(exact, line);
    }
}

/// A search is a function of its query and text alone: two results that each
/// are what `search` returns for the same query and the same text hold the
/// same lines in the same order.
pub proof fn lemma_search_is_repeatable(
    query: Seq<char>,
    text: Seq<char>,
    first: Seq<Seq<char>>,
    second: Seq<Seq<char>>,
)
    requires
        first == matching_lines(query, text),
        second == matching_lines(query, text),
    ensures
        first == second,
{
}

/// The lines of `contents` that contain `query`, in their order. Each is a
/// slice of `contents`. The empty query is in every line.
pub fn search<'a>(query: &str, contents: &'a str) -> (results: Vec<&'a str>)
    ensures
        results.deep_view() == matching_lines(query@, contents@),
        query@.len() == 0 ==> results.deep_view() == lines_of(contents@),
{
    proof {
        if query@.len() == 0 {
            lemma_empty_query_matches_every_line(query@, contents@);
        }
    }
    let mut results: Vec<&'a str> = Vec::new();
    let mut rest: &'a str = contents;
    assert(results.deep_view() == Seq::<Seq<char>>::empty());
    while !rest.is_empty()
        invariant
            results.deep_view() + matching_lines(query@, rest@) == matching_lines(
                query@,
                contents@,
            ),
        decreases rest@.len(),
    {
        proof {
            lemma_select_unfold(rest@, holds(query@));
        }
        let (line, tail) = split_first_line(rest);
        if contains(line, query) {
            let ghost before = results.deep_view();
            results.push(line);
            assert(results.deep_view() == before.push(line@));
        }
        rest = tail;
    }
    assert(lines_of(rest@) == Seq::<Seq<char>>::empty());
    results
}

/// The lines of `contents` that contain `query` when case is ignored, in
/// their order. Each is a slice of `contents`. The query is folded once and
/// each line once.
pub fn search_case_insensitive<'a>(query: &str, contents: &'a str) -> (results: Vec<&'a str>)
    ensures
        results.deep_view() == matching_lines_ignoring_case(query@, contents@),
        query@.len() == 0 ==> results.deep_view() == lines_of(contents@),
{
    proof {
        if query@.len() == 0 {
            lemma_empty_query_matches_every_line_ignoring_case(query@, contents@);
        }
    }
    let folded_query = fold_case(query);
    let mut results: Vec<&'a str> = Vec::new();
    let mut rest: &'a str = contents;
    assert(results.deep_view() == Seq::<Seq<char>>::empty());
    while !rest.is_empty()
        invariant
            folded_query@ == case_folded(query@),
            results.deep_view() + matching_lines_ignoring_case(query@, rest@)
                == matching_lines_ignoring_case(query@, contents@),
        decreases rest@.len(),
    {
        proof {
            lemma_select_unfold(rest@, holds_ignoring_case(query@));
        }
        let (line, tail) = split_first_line(rest);
        let folded_line = fold_case(line);
        if contains(folded_line.as_str(), folded_query.as_str()) {
            let ghost before = results.deep_view();
            results.push(line);
            assert(results.deep_view() == before.push(line@));
        }
        rest = tail;
    }
    assert(lines_of(rest@) == Seq::<Seq<char>>::empty());
    results
}

} // verus!
