//! Picking the lines of a text that hold a query.
//!
//! Unlike a search for matches, this only asks of each line whether the
//! query occurs in it, as it is written or after lowercasing both, and keeps
//! the lines for which it does. The empty query occurs nowhere, as it has no
//! match anywhere: no line holds it.

use vstd::prelude::*;
use vstd::string::*;
use vstd::utf8::*;
use crate::fold::{lowercase, lowercased};
use crate::lines::{lines_of, split_lines, texts};
use crate::text::{find_first, lemma_first_occurrence, occurs_at};

verus! {

/// A line that holds the query: its text and its number.
pub struct SearchResult {
    pub value: String,
    /// The number of the line in its text, counted from 0.
    pub line_index: usize,
}

/// A search result as a mathematical value.
pub ghost struct ResultView {
    pub value: Seq<char>,
    pub line_index: int,
}

impl View for SearchResult {
    type V = ResultView;

    open spec fn view(&self) -> ResultView {
        ResultView { value: self.value@, line_index: self.line_index as int }
    }
}

/// The views of a sequence of search results.
pub open spec fn result_views(results: Seq<SearchResult>) -> Seq<ResultView> {
    results.map_values(|result: SearchResult| result@)
}

/// `needle` stands somewhere in `hay`.
pub open spec fn contains(hay: Seq<u8>, needle: Seq<u8>) -> bool {
    exists|at: int| occurs_at(hay, needle, at)
}

/// The line holds the query: as written, or, where `fold` is set, after
/// both are lowercased. No line holds the empty query.
pub open spec fn holds_query(query: Seq<char>, line: Seq<char>, fold: bool) -> bool {
    if query.len() == 0 {
        false
    } else if fold {
        contains(encode_utf8(lowercase(line)), encode_utf8(lowercase(query)))
    } else {
        contains(encode_utf8(line), encode_utf8(query))
    }
}

/// The result for a line, if it holds the query.
pub open spec fn result_of(query: Seq<char>, line: Seq<char>, index: int, fold: bool) -> Seq<
    ResultView,
> {
    if holds_query(query, line, fold) {
        seq![ResultView { value: line, line_index: index }]
    } else {
        Seq::empty()
    }
}

/// The results for the given lines, the first of which has the number
/// `index`.
pub open spec fn results_from(
    query: Seq<char>,
    lines: Seq<Seq<char>>,
    index: int,
    fold: bool,
) -> Seq<ResultView>
    decreases lines.len(),
{
    if lines.len() == 0 {
        Seq::empty()
    } else {
        result_of(query, lines[0], index, fold) + results_from(
            query,
            lines.drop_first(),
            index + 1,
            fold,
        )
    }
}

/// Each result stands for a line that holds the query: it has that line's
/// number and its text. The results are in ascending order of their line
/// numbers.
pub proof fn lemma_results_are_lines(
    query: Seq<char>,
    lines: Seq<Seq<char>>,
    index: int,
    fold: bool,
)
    ensures
        forall|k: int|
            0 <= k < results_from(query, lines, index, fold).len() ==> {
                let result = #[trigger] results_from(query, lines, index, fold)[k];
                &&& index <= result.line_index < index + lines.len()
                &&& result.value == lines[result.line_index - index]
                &&& holds_query(query, result.value, fold)
            },
        forall|j: int, k: int|
            0 <= j < k < results_from(query, lines, index, fold).len() ==> (
            #[trigger] results_from(query, lines, index, fold)[j]).line_index < (
            #[trigger] results_from(query, lines, index, fold)[k]).line_index,
    decreases lines.len(),
{
    if lines.len() > 0 {
        let rest = lines.drop_first();
        lemma_results_are_lines(query, rest, index + 1, fold);
        let tail = results_from(query, rest, index + 1, fold);
        assert forall|k: int| 0 <= k < tail.len() implies (#[trigger] tail[k]).value
            == lines[tail[k].line_index - index] by {
            assert(rest[tail[k].line_index - (index + 1)] == lines[tail[k].line_index - index]);
        }
    }
}

/// Each line that holds the query has a result, under the line's own
/// number: lines that do not hold it are left out and are counted all the
/// same.
pub proof fn lemma_lines_have_results(
    query: Seq<char>,
    lines: Seq<Seq<char>>,
    index: int,
    fold: bool,
    at: int,
)
    requires
        0 <= at < lines.len(),
        holds_query(query, lines[at], fold),
    ensures
        exists|k: int|
            0 <= k < results_from(query, lines, index, fold).len() && (#[trigger] results_from(
                query,
                lines,
                index,
                fold,
            )[k]).line_index == index + at,
    decreases lines.len(),
{
    let rest = lines.drop_first();
    let head = result_of(query, lines[0], index, fold);
    let tail = results_from(query, rest, index + 1, fold);
    if at == 0 {
        assert(results_from(query, lines, index, fold)[0].line_index == index);
    } else {
        assert(rest[at - 1] == lines[at]);
        lemma_lines_have_results(query, rest, index + 1, fold, at - 1);
        let k = choose|k: int| 0 <= k < tail.len() && (#[trigger] tail[k]).line_index == index + at;
        assert(results_from(query, lines, index, fold)[head.len() + k] == tail[k]);
    }
}

/// The empty query gives no result, whatever the lines.
pub proof fn lemma_empty_query_has_no_results(
    query: Seq<char>,
    lines: Seq<Seq<char>>,
    index: int,
    fold: bool,
)
    requires
        query.len() == 0,
    ensures
        results_from(query, lines, index, fold).len() == 0,
    decreases lines.len(),
{
    if lines.len() > 0 {
        lemma_empty_query_has_no_results(query, lines.drop_first(), index + 1, fold);
    }
}

/// Whether `needle` stands somewhere in `hay`.
pub fn contains_bytes(hay: &[u8], needle: &[u8]) -> (found: bool)
    ensures
        found == contains(hay@, needle@),
{
    if needle.len() > hay.len() {
        return false;
    }
    let last: usize = hay.len() - needle.len();
    proof {
        lemma_first_occurrence(hay@, needle@, 0, last as int);
    }
    find_first(hay, needle, 0, last).is_some()
}

/// Keeps the lines of `contents` that hold `query`.
fn select_lines(query: &str, contents: &str, fold: bool) -> (results: Vec<SearchResult>)
    ensures
        result_views(results@) == results_from(query@, lines_of(contents@), 0, fold),
        query@.len() == 0 ==> results@.len() == 0,
{
    proof {
        if query@.len() == 0 {
            lemma_empty_query_has_no_results(query@, lines_of(contents@), 0, fold);
        }
    }
    let lines = split_lines(contents);
    let mut results: Vec<SearchResult> = Vec::new();
    let mut index: usize = 0;
    let ghost all = texts(lines@);
    assert(all.skip(0) =~= all);
    assert(result_views(results@) + results_from(query@, all, 0, fold) =~= results_from(
        query@,
        all,
        0,
        fold,
    ));
    while index < lines.len()
        invariant
            index <= lines.len(),
            all == texts(lines@),
            result_views(results@) + results_from(
                query@,
                all.skip(index as int),
                index as int,
                fold,
            ) == results_from(query@, all, 0, fold),
        decreases lines.len() - index,
    {
        let ghost rest = all.skip(index as int);
        let ghost before = result_views(results@);
        let line: &str = lines[index];
        assert(rest[0] == line@);
        assert(rest.drop_first() =~= all.skip(index + 1));
        let holds = if query.is_empty() {
            false
        } else if fold {
            let lower_line = lowercased(line);
            let lower_query = lowercased(query);
            contains_bytes(lower_line.as_str().as_bytes(), lower_query.as_str().as_bytes())
        } else {
            contains_bytes(line.as_bytes(), query.as_bytes())
        };
        if holds {
            let result = SearchResult { value: line.to_owned(), line_index: index };
            assert(seq![result@] =~= result_of(query@, line@, index as int, fold));
            results.push(result);
            assert(result_views(results@) =~= before + result_of(
                query@,
                line@,
                index as int,
                fold,
            ));
        } else {
            assert(before + result_of(query@, line@, index as int, fold) =~= before);
        }
        assert(result_views(results@) + results_from(query@, rest.drop_first(), index + 1, fold)
            =~= before + results_from(query@, rest, index as int, fold));
        index += 1;
    }
    assert(all.skip(index as int) =~= Seq::<Seq<char>>::empty());
    assert(result_views(results@) + Seq::<ResultView>::empty() =~= result_views(results@));
    results
}

/// The lines of `contents` in which `query` occurs when case does not
/// count, in the order of the text, each with its number. The empty query
/// occurs in no line.
pub fn search_with_case_insensitive(query: &str, contents: &str) -> (results: Vec<SearchResult>)
    ensures
        result_views(results@) == results_from(query@, lines_of(contents@), 0, true),
        query@.len() == 0 ==> results@.len() == 0,
{
    select_lines(query, contents, true)
}

/// The lines of `contents` in which `query` occurs as it is written, in the
/// order of the text, each with its number. The empty query occurs in no
/// line.
pub fn search_case_sensitive(query: &str, contents: &str) -> (results: Vec<SearchResult>)
    ensures
        result_views(results@) == results_from(query@, lines_of(contents@), 0, false),
        query@.len() == 0 ==> results@.len() == 0,
{
    select_lines(query, contents, false)
}

} // verus!
