//! Finding the occurrences of a query in one line.
//!
//! The line and the query are lowercased and the lowercase query is looked
//! for in the lowercase line, from left to right and without overlap. Each
//! offset found is then taken as an offset into the line as it was written: a
//! match record is made for it only if the query's length in bytes from there
//! is a span of the line whose text lowercases to the lowercase query, and
//! that does not begin before the end of the record before it. On text whose
//! characters keep their length in bytes when lowercased, every offset found
//! passes that test. Where lowercasing changes a length, offsets in the two
//! texts drift apart, and the test drops what no longer is an occurrence.

use vstd::prelude::*;
use vstd::string::*;
use vstd::utf8::*;
use crate::fold::{lowercase, lowercased};
use crate::text::{
    find_all, is_span, is_span_of, occurrences, offsets, same_bytes, span_text, substring,
};

verus! {

/// One occurrence of a query in a line.
#[derive(Debug)]
pub struct LineMatch {
    /// Byte offset in the line at which the occurrence begins.
    pub start: usize,
    /// Byte offset in the line behind the occurrence.
    pub end: usize,
    /// Whether the text of the occurrence is the query as it was written,
    /// not only up to case.
    pub case_sensitive: bool,
    /// The query that was looked for.
    pub query: String,
}

/// A match record as a mathematical value.
pub ghost struct MatchView {
    pub start: int,
    pub end: int,
    pub exact: bool,
    pub query: Seq<char>,
}

impl View for LineMatch {
    type V = MatchView;

    open spec fn view(&self) -> MatchView {
        MatchView {
            start: self.start as int,
            end: self.end as int,
            exact: self.case_sensitive,
            query: self.query@,
        }
    }
}

impl LineMatch {
    /// A record with the given fields.
    pub fn new(start: usize, end: usize, case_sensitive: bool, query: String) -> (record:
        LineMatch)
        ensures
            record.start == start,
            record.end == end,
            record.case_sensitive == case_sensitive,
            record.query == query,
    {
        LineMatch { start, end, case_sensitive, query }
    }

    /// The record's offsets are a span of `line`.
    pub open spec fn fits(&self, line: Seq<char>) -> bool {
        is_span(encode_utf8(line), self.start as int, self.end as int)
    }

    /// Whether the record's offsets are a span of `line`.
    pub fn fits_line(&self, line: &str) -> (fits: bool)
        ensures
            fits == self.fits(line@),
    {
        is_span_of(line, self.start, self.end)
    }
}

/// The views of a sequence of records.
pub open spec fn views(records: Seq<LineMatch>) -> Seq<MatchView> {
    records.map_values(|record: LineMatch| record@)
}

/// The text of `line` in `start..end` and `query` have the same lowercase
/// form.
pub open spec fn folds_to_query(line: Seq<char>, query: Seq<char>, start: int, end: int) -> bool {
    lowercase(span_text(encode_utf8(line), start, end)) == lowercase(query)
}

/// An offset found in the lowercase line gives a record: the query's length
/// from `start` is a span of `line` that begins at or behind `last_end` and
/// whose text is the query up to case.
pub open spec fn accepts(line: Seq<char>, query: Seq<char>, last_end: int, start: int) -> bool {
    let end = start + encode_utf8(query).len();
    &&& last_end <= start
    &&& is_span(encode_utf8(line), start, end)
    &&& folds_to_query(line, query, start, end)
}

/// The record for an occurrence of `query` at `start` in `line`. It is exact
/// where the bytes of the line there are the bytes of the query.
pub open spec fn record_at(line: Seq<char>, query: Seq<char>, start: int) -> MatchView {
    let end = start + encode_utf8(query).len();
    MatchView {
        start,
        end,
        exact: encode_utf8(line).subrange(start, end) == encode_utf8(query),
        query,
    }
}

/// The records that the offsets `found` give, taken in order, where
/// `last_end` is the end of the record made last.
pub open spec fn select(line: Seq<char>, query: Seq<char>, found: Seq<int>, last_end: int) -> Seq<
    MatchView,
>
    decreases found.len(),
{
    if found.len() == 0 {
        Seq::empty()
    } else if accepts(line, query, last_end, found[0]) {
        seq![record_at(line, query, found[0])] + select(
            line,
            query,
            found.drop_first(),
            found[0] + encode_utf8(query).len(),
        )
    } else {
        select(line, query, found.drop_first(), last_end)
    }
}

/// The match set of `query` in `line`: empty for an empty query, else the
/// records given by the occurrences of the lowercase query in the lowercase
/// line.
pub open spec fn match_set(query: Seq<char>, line: Seq<char>) -> Seq<MatchView> {
    if query.len() == 0 {
        Seq::empty()
    } else {
        select(
            line,
            query,
            occurrences(encode_utf8(lowercase(line)), encode_utf8(lowercase(query)), 0),
            0,
        )
    }
}

/// The records are in ascending order and no two of them overlap: each one
/// ends where a later one begins, or before.
pub open spec fn ascending_disjoint(records: Seq<MatchView>) -> bool {
    forall|i: int, j: int|
        0 <= i < j < records.len() ==> (#[trigger] records[i]).end <= (#[trigger] records[j]).start
}

/// Every record is a span of `line` that is not empty, carries `query`, and
/// holds text that is the query up to case; it is marked exact just where
/// that text is the query byte for byte.
pub open spec fn records_of(records: Seq<MatchView>, query: Seq<char>, line: Seq<char>) -> bool {
    forall|i: int|
        0 <= i < records.len() ==> {
            let record = #[trigger] records[i];
            &&& record.start < record.end
            &&& record.end == record.start + encode_utf8(query).len()
            &&& is_span(encode_utf8(line), record.start, record.end)
            &&& folds_to_query(line, query, record.start, record.end)
            &&& record.exact == (encode_utf8(line).subrange(record.start, record.end)
                == encode_utf8(query))
            &&& record.query == query
        }
}

/// A text that is not empty has an encoding that is not empty.
pub proof fn lemma_encoding_not_empty(text: Seq<char>)
    requires
        text.len() > 0,
    ensures
        encode_utf8(text).len() > 0,
{
    assert(encode_scalar(text[0] as u32).len() > 0);
}

/// What `select` returns for a query that is not empty: records of the query
/// in the line, in ascending order, disjoint, none beginning before
/// `last_end`.
pub proof fn lemma_select(line: Seq<char>, query: Seq<char>, found: Seq<int>, last_end: int)
    requires
        query.len() > 0,
    ensures
        records_of(select(line, query, found, last_end), query, line),
        ascending_disjoint(select(line, query, found, last_end)),
        forall|i: int|
            0 <= i < select(line, query, found, last_end).len() ==> last_end <= (
            #[trigger] select(line, query, found, last_end)[i]).start,
    decreases found.len(),
{
    lemma_encoding_not_empty(query);
    if found.len() > 0 {
        let width = encode_utf8(query).len() as int;
        if accepts(line, query, last_end, found[0]) {
            lemma_select(line, query, found.drop_first(), found[0] + width);
        } else {
            lemma_select(line, query, found.drop_first(), last_end);
        }
    }
}

/// Every record of a match set holds text of the line that lowercases to the
/// lowercase query, and is marked exact just where that text is the query
/// itself.
pub proof fn lemma_match_set_records(query: Seq<char>, line: Seq<char>)
    ensures
        records_of(match_set(query, line), query, line),
{
    if query.len() > 0 {
        lemma_select(
            line,
            query,
            occurrences(encode_utf8(lowercase(line)), encode_utf8(lowercase(query)), 0),
            0,
        );
    }
}

/// The records of a match set are sorted by their start and do not overlap.
pub proof fn lemma_match_set_ascending_disjoint(query: Seq<char>, line: Seq<char>)
    ensures
        ascending_disjoint(match_set(query, line)),
{
    if query.len() > 0 {
        lemma_select(
            line,
            query,
            occurrences(encode_utf8(lowercase(line)), encode_utf8(lowercase(query)), 0),
            0,
        );
    }
}

/// A query that is longer than the line, in bytes, has no match in it.
pub proof fn lemma_long_query_has_no_match(query: Seq<char>, line: Seq<char>)
    requires
        encode_utf8(query).len() > encode_utf8(line).len(),
    ensures
        match_set(query, line).len() == 0,
{
    lemma_match_set_records(query, line);
    if match_set(query, line).len() > 0 {
        let record = match_set(query, line)[0];
        assert(record.end <= encode_utf8(line).len());
    }
}

/// Finds the occurrences of `query` in `line` without regard to case.
///
/// Returns the match set of the query in the line: one record for each
/// occurrence, in ascending order, no two overlapping. An empty query has no
/// occurrences.
pub fn search_in_line(query: &str, line: &str) -> (matches: Vec<LineMatch>)
    ensures
        views(matches@) == match_set(query@, line@),
        records_of(views(matches@), query@, line@),
        ascending_disjoint(views(matches@)),
{
    proof {
        lemma_match_set_records(query@, line@);
        lemma_match_set_ascending_disjoint(query@, line@);
    }
    let mut matches: Vec<LineMatch> = Vec::new();
    if query.is_empty() {
        assert(views(matches@) =~= match_set(query@, line@));
        return matches;
    }
    let lower_query = lowercased(query);
    let lower_line = lowercased(line);
    let found = find_all(lower_line.as_str().as_bytes(), lower_query.as_str().as_bytes());
    let line_bytes = line.as_bytes();
    let query_bytes = query.as_bytes();
    let width: usize = query_bytes.len();
    let mut last_end: usize = 0;
    let mut i: usize = 0;
    assert(offsets(found@).skip(0) =~= offsets(found@));
    assert(views(matches@) + select(line@, query@, offsets(found@), 0) =~= select(
        line@,
        query@,
        offsets(found@),
        0,
    ));
    while i < found.len()
        invariant
            i <= found.len(),
            query@.len() > 0,
            lower_query@ == lowercase(query@),
            line_bytes@ == encode_utf8(line@),
            query_bytes@ == encode_utf8(query@),
            width == query_bytes@.len(),
            views(matches@) + select(
                line@,
                query@,
                offsets(found@).skip(i as int),
                last_end as int,
            ) == select(line@, query@, offsets(found@), 0),
        decreases found.len() - i,
    {
        let start: usize = found[i];
        let ghost rest = offsets(found@).skip(i as int);
        let ghost before = views(matches@);
        assert(rest[0] == start as int);
        assert(rest.drop_first() =~= offsets(found@).skip(i + 1));
        let mut accepted: bool = false;
        if last_end <= start && start <= line_bytes.len() && width <= line_bytes.len() - start {
            let end: usize = start + width;
            if is_span_of(line, start, end) {
                let part = substring(line, start, end);
                let lower_part = lowercased(part);
                if lower_part == lower_query {
                    let exact = same_bytes(part.as_bytes(), query_bytes);
                    let record = LineMatch::new(start, end, exact, query.to_owned());
                    assert(record@ == record_at(line@, query@, start as int));
                    matches.push(record);
                    assert(views(matches@) =~= before + seq![record_at(line@, query@, start as int)]);
                    assert(accepts(line@, query@, last_end as int, start as int));
                    assert(views(matches@) + select(line@, query@, rest.drop_first(), end as int)
                        =~= before + select(line@, query@, rest, last_end as int));
                    last_end = end;
                    accepted = true;
                }
            }
        }
        if !accepted {
            assert(!accepts(line@, query@, last_end as int, start as int));
        }
        i += 1;
    }
    assert(offsets(found@).skip(i as int) =~= Seq::<int>::empty());
    assert(views(matches@) + Seq::<MatchView>::empty() =~= views(matches@));
    matches
}

} // verus!
