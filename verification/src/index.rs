//! Matches addressed by line number.
//!
//! A highlight index is a match together with the number of the line that it
//! lies in, so that a list of them can be shown against the whole text: for
//! each index the line that it names, with the match emphasised where its
//! text is the query as written.

use vstd::prelude::*;
use vstd::string::*;
use vstd::utf8::*;
use crate::lines::{lines_of, split_lines, texts};
use crate::markup::{lemma_strip_rendering, no_codes, strip_markup};
use crate::matcher::{match_set, search_in_line, views, MatchView};
use crate::paint::{is_rendering, lemma_plain_rendering, render};
use crate::segment::{
    lemma_piece_tiles, lemma_tiles_concat, lemma_tiles_spans, piece, push_piece, segment_views,
    Segment, SegmentKind, SegmentView,
};
use crate::text::{is_span, is_span_of};

verus! {

/// A match and the number of its line.
#[derive(Debug)]
pub struct HighlightStringIndex {
    /// Byte offset in the line at which the match begins.
    pub start: usize,
    /// Byte offset in the line behind the match.
    pub end: usize,
    /// Whether the text of the match is the query as it was written.
    pub case_sensitive: bool,
    /// The number of the line in its text, counted from 0.
    pub line_index: usize,
}

/// A highlight index as a mathematical value.
pub ghost struct IndexView {
    pub start: int,
    pub end: int,
    pub exact: bool,
    pub line_index: int,
}

impl View for HighlightStringIndex {
    type V = IndexView;

    open spec fn view(&self) -> IndexView {
        IndexView {
            start: self.start as int,
            end: self.end as int,
            exact: self.case_sensitive,
            line_index: self.line_index as int,
        }
    }
}

impl HighlightStringIndex {
    /// An index with the given fields.
    pub fn new(start: usize, end: usize, case_sensitive: bool, line_index: usize) -> (index:
        HighlightStringIndex)
        ensures
            index.start == start,
            index.end == end,
            index.case_sensitive == case_sensitive,
            index.line_index == line_index,
    {
        HighlightStringIndex { start, end, case_sensitive, line_index }
    }
}

/// The views of a sequence of indexes.
pub open spec fn index_views(indexes: Seq<HighlightStringIndex>) -> Seq<IndexView> {
    indexes.map_values(|index: HighlightStringIndex| index@)
}

/// The index for a match record in the line with the given number.
pub open spec fn index_of(record: MatchView, line_index: int) -> IndexView {
    IndexView { start: record.start, end: record.end, exact: record.exact, line_index }
}

/// The index names a line of the text and is a span of that line.
pub open spec fn index_fits(index: IndexView, lines: Seq<Seq<char>>) -> bool {
    &&& 0 <= index.line_index < lines.len()
    &&& is_span(encode_utf8(lines[index.line_index]), index.start, index.end)
}

/// The segments of a line for one index: the match, emphasised where it is
/// exact, between the plain text before it and behind it.
pub open spec fn index_pieces(index: IndexView, line: Seq<char>) -> Seq<SegmentView> {
    let kind = if index.exact {
        SegmentKind::ExactCase
    } else {
        SegmentKind::Plain
    };
    piece(SegmentKind::Plain, 0, index.start) + piece(kind, index.start, index.end) + piece(
        SegmentKind::Plain,
        index.end,
        encode_utf8(line).len() as int,
    )
}

/// Finds the occurrences of `query` in `contents` without regard to case and
/// returns them as indexes into the line numbered `content_string_index`.
pub fn get_highlighted_string_indexes(
    query: &str,
    contents: &str,
    content_string_index: usize,
) -> (indexes: Vec<HighlightStringIndex>)
    ensures
        index_views(indexes@) == match_set(query@, contents@).map_values(
            |record: MatchView| index_of(record, content_string_index as int),
        ),
{
    let matches = search_in_line(query, contents);
    let mut indexes: Vec<HighlightStringIndex> = Vec::new();
    let mut i: usize = 0;
    while i < matches.len()
        invariant
            i <= matches.len(),
            indexes@.len() == i,
            forall|j: int|
                0 <= j < i ==> (#[trigger] indexes@[j])@ == index_of(
                    matches@[j]@,
                    content_string_index as int,
                ),
        decreases matches.len() - i,
    {
        let record = &matches[i];
        indexes.push(
            HighlightStringIndex::new(
                record.start,
                record.end,
                record.case_sensitive,
                content_string_index,
            ),
        );
        i += 1;
    }
    assert(index_views(indexes@) =~= views(matches@).map_values(
        |record: MatchView| index_of(record, content_string_index as int),
    ));
    indexes
}

/// Whether every index names a line of `contents` and is a span of it.
pub fn indexes_fit(indexes: &Vec<HighlightStringIndex>, contents: &str) -> (fit: bool)
    ensures
        fit == forall|i: int|
            0 <= i < indexes@.len() ==> index_fits(
                (#[trigger] indexes@[i])@,
                lines_of(contents@),
            ),
{
    let lines = split_lines(contents);
    let mut i: usize = 0;
    while i < indexes.len()
        invariant
            i <= indexes.len(),
            texts(lines@) == lines_of(contents@),
            forall|j: int|
                0 <= j < i ==> index_fits((#[trigger] indexes@[j])@, lines_of(contents@)),
        decreases indexes.len() - i,
    {
        let index = &indexes[i];
        if index.line_index >= lines.len() {
            return false;
        }
        let line: &str = lines[index.line_index];
        assert(texts(lines@)[index.line_index as int] == line@);
        if !is_span_of(line, index.start, index.end) {
            return false;
        }
        i += 1;
    }
    true
}

/// Shows each index against the text: the line that it names, with the match
/// emphasised where it is exact. The results stand in the order of the
/// indexes, one for each, and each is its line again when the colour codes
/// are taken out.
pub fn get_highligted_results(highligtet_indexes: Vec<HighlightStringIndex>, contents: &str) -> (results:
    Vec<String>)
    requires
        forall|i: int|
            0 <= i < highligtet_indexes@.len() ==> index_fits(
                (#[trigger] highligtet_indexes@[i])@,
                lines_of(contents@),
            ),
    ensures
        results@.len() == highligtet_indexes@.len(),
        forall|i: int|
            0 <= i < results@.len() ==> {
                let index = highligtet_indexes@[i]@;
                let line = lines_of(contents@)[index.line_index];
                &&& is_rendering(
                    (#[trigger] results@[i])@,
                    index_pieces(index, line),
                    encode_utf8(line),
                )
                &&& !index.exact ==> results@[i]@ == line
                &&& no_codes(line) ==> strip_markup(results@[i]@) == line
            },
{
    let lines = split_lines(contents);
    let mut results: Vec<String> = Vec::new();
    let mut i: usize = 0;
    while i < highligtet_indexes.len()
        invariant
            i <= highligtet_indexes.len(),
            results@.len() == i,
            texts(lines@) == lines_of(contents@),
            forall|j: int|
                0 <= j < highligtet_indexes@.len() ==> index_fits(
                    (#[trigger] highligtet_indexes@[j])@,
                    lines_of(contents@),
                ),
            forall|j: int|
                0 <= j < i ==> {
                    let index = highligtet_indexes@[j]@;
                    let line = lines_of(contents@)[index.line_index];
                    &&& is_rendering(
                        (#[trigger] results@[j])@,
                        index_pieces(index, line),
                        encode_utf8(line),
                    )
                    &&& !index.exact ==> results@[j]@ == line
                    &&& no_codes(line) ==> strip_markup(results@[j]@) == line
                },
        decreases highligtet_indexes.len() - i,
    {
        let index = &highligtet_indexes[i];
        assert(index_fits(highligtet_indexes@[i as int]@, lines_of(contents@)));
        let line: &str = lines[index.line_index];
        assert(texts(lines@)[index.line_index as int] == line@);
        let result = show_index(index, line);
        results.push(result);
        i += 1;
    }
    results
}

/// Shows one index against its line.
fn show_index(index: &HighlightStringIndex, line: &str) -> (out: String)
    requires
        is_span(encode_utf8(line@), index.start as int, index.end as int),
    ensures
        is_rendering(out@, index_pieces(index@, line@), encode_utf8(line@)),
        !index.case_sensitive ==> out@ == line@,
        no_codes(line@) ==> strip_markup(out@) == line@,
{
    let ghost bytes = encode_utf8(line@);
    let len: usize = line.as_bytes().len();
    let kind = if index.case_sensitive {
        SegmentKind::ExactCase
    } else {
        SegmentKind::Plain
    };
    let mut segments: Vec<Segment> = Vec::new();
    push_piece(&mut segments, SegmentKind::Plain, 0, index.start);
    push_piece(&mut segments, kind, index.start, index.end);
    push_piece(&mut segments, SegmentKind::Plain, index.end, len);
    proof {
        encode_utf8_valid_utf8(line@);
        is_char_boundary_start_end_of_seq(bytes);
        let first = piece(SegmentKind::Plain, 0, index.start as int);
        let second = piece(kind, index.start as int, index.end as int);
        let third = piece(SegmentKind::Plain, index.end as int, len as int);
        assert(segment_views(segments@) =~= first + second + third);
        lemma_piece_tiles(SegmentKind::Plain, bytes, 0, index.start as int);
        lemma_piece_tiles(kind, bytes, index.start as int, index.end as int);
        lemma_piece_tiles(SegmentKind::Plain, bytes, index.end as int, len as int);
        lemma_tiles_concat(first, second, bytes, 0, index.start as int, index.end as int);
        lemma_tiles_concat(first + second, third, bytes, 0, index.end as int, len as int);
        lemma_tiles_spans(segment_views(segments@), bytes, 0, len as int);
    }
    let out = render(&segments, line);
    proof {
        assert(bytes.subrange(0, len as int) =~= bytes);
        encode_utf8_decode_utf8(line@);
        if !index.case_sensitive {
            lemma_plain_rendering(out@, segment_views(segments@), bytes, 0, len as int);
        }
        if no_codes(line@) {
            lemma_strip_rendering(out@, segment_views(segments@), bytes, 0, len as int);
        }
    }
    out
}

} // verus!
