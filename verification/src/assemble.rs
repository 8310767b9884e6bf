//! Putting a line together from its matches.
//!
//! The matches of a line are walked in order. Before each match stands the
//! plain text between the end of the match before it and its own start, then
//! come the segments of the match; behind the last match stands the rest of
//! the line, plain. A match that is not a span of the line, or that begins
//! before the end of the match before it, is passed over, so that the
//! segments cover the line exactly once whatever matches are handed in.

use vstd::prelude::*;
use vstd::string::*;
use vstd::utf8::*;
use crate::highlight::{lemma_match_pieces_tile, match_pieces};
use crate::matcher::{views, LineMatch, MatchView};
use crate::markup::{lemma_strip_rendering, no_codes, strip_markup};
use crate::paint::{is_rendering, lemma_plain_rendering, render};
use crate::segment::{
    content, lemma_piece_tiles, lemma_tiles_concat, lemma_tiles_content, lemma_tiles_spans, piece,
    push_piece, segment_views, tiles, Segment, SegmentKind, SegmentView,
};
use crate::text::is_span;

verus! {

/// The matches of one line, with the line's number.
#[derive(Debug)]
pub struct Line {
    pub matchs: Vec<LineMatch>,
    /// The number of the line in its text, counted from 0.
    pub line_index: usize,
}

impl Line {
    /// A line with the given number and no matches yet.
    pub fn new(line_index: usize) -> (line: Line)
        ensures
            line.matchs@.len() == 0,
            line.line_index == line_index,
    {
        Line { matchs: Vec::new(), line_index }
    }

    /// Adds a match behind those that the line has.
    pub fn add_match(&mut self, line_match: LineMatch)
        ensures
            final(self).matchs@ == old(self).matchs@.push(line_match),
            final(self).line_index == old(self).line_index,
    {
        self.matchs.push(line_match);
    }
}

/// A match takes part in the line: it is a span of the line and begins at
/// or behind `last_end`.
pub open spec fn takes_part(line: Seq<char>, record: MatchView, last_end: int) -> bool {
    last_end <= record.start && is_span(encode_utf8(line), record.start, record.end)
}

/// The segments of the line from `last_end` on, given the matches that are
/// still to come.
pub open spec fn assembled(line: Seq<char>, records: Seq<MatchView>, last_end: int) -> Seq<
    SegmentView,
>
    decreases records.len(),
{
    if records.len() == 0 {
        piece(SegmentKind::Plain, last_end, encode_utf8(line).len() as int)
    } else if takes_part(line, records[0], last_end) {
        piece(SegmentKind::Plain, last_end, records[0].start) + match_pieces(line, records[0])
            + assembled(line, records.drop_first(), records[0].end)
    } else {
        assembled(line, records.drop_first(), last_end)
    }
}

/// The segments of the line from a character boundary on cover the line from
/// there to its end.
pub proof fn lemma_assembled_tiles(line: Seq<char>, records: Seq<MatchView>, last_end: int)
    requires
        is_span(encode_utf8(line), last_end, encode_utf8(line).len() as int),
    ensures
        tiles(
            assembled(line, records, last_end),
            encode_utf8(line),
            last_end,
            encode_utf8(line).len() as int,
        ),
    decreases records.len(),
{
    let bytes = encode_utf8(line);
    let len = bytes.len() as int;
    if records.len() == 0 {
        lemma_piece_tiles(SegmentKind::Plain, bytes, last_end, len);
    } else if takes_part(line, records[0], last_end) {
        let record = records[0];
        lemma_piece_tiles(SegmentKind::Plain, bytes, last_end, record.start);
        lemma_match_pieces_tile(line, record);
        lemma_assembled_tiles(line, records.drop_first(), record.end);
        lemma_tiles_concat(
            piece(SegmentKind::Plain, last_end, record.start),
            match_pieces(line, record),
            bytes,
            last_end,
            record.start,
            record.end,
        );
        lemma_tiles_concat(
            piece(SegmentKind::Plain, last_end, record.start) + match_pieces(line, record),
            assembled(line, records.drop_first(), record.end),
            bytes,
            last_end,
            record.end,
            len,
        );
    } else {
        lemma_assembled_tiles(line, records.drop_first(), last_end);
    }
}

/// Whatever the matches, the segments of a line cover it from its first byte
/// to its last, and their texts put together are the line: highlighting
/// loses, doubles and moves nothing.
pub proof fn lemma_assembled_is_line(line: Seq<char>, records: Seq<MatchView>)
    ensures
        tiles(
            assembled(line, records, 0),
            encode_utf8(line),
            0,
            encode_utf8(line).len() as int,
        ),
        content(assembled(line, records, 0), encode_utf8(line)) == encode_utf8(line),
        decode_utf8(content(assembled(line, records, 0), encode_utf8(line))) == line,
{
    let bytes = encode_utf8(line);
    encode_utf8_valid_utf8(line);
    encode_utf8_decode_utf8(line);
    is_char_boundary_start_end_of_seq(bytes);
    lemma_assembled_tiles(line, records, 0);
    lemma_tiles_content(assembled(line, records, 0), bytes, 0, bytes.len() as int);
    assert(bytes.subrange(0, bytes.len() as int) =~= bytes);
}

/// Taking the colour codes out of a highlighted line gives the line back,
/// whatever its matches, where the line holds none of the codes.
pub proof fn lemma_stripped_rendering_is_line(
    out: Seq<char>,
    line: Seq<char>,
    records: Seq<MatchView>,
)
    requires
        is_rendering(out, assembled(line, records, 0), encode_utf8(line)),
        no_codes(line),
    ensures
        strip_markup(out) == line,
{
    let bytes = encode_utf8(line);
    encode_utf8_valid_utf8(line);
    encode_utf8_decode_utf8(line);
    is_char_boundary_start_end_of_seq(bytes);
    lemma_assembled_is_line(line, records);
    assert(bytes.subrange(0, bytes.len() as int) =~= bytes);
    lemma_strip_rendering(out, assembled(line, records, 0), bytes, 0, bytes.len() as int);
}

/// Cuts a line into segments around its matches.
///
/// The segments cover the line exactly once, in order: their texts put
/// together are the line.
pub fn assemble_segments(matches: &Vec<LineMatch>, line: &str) -> (out: Vec<Segment>)
    ensures
        segment_views(out@) == assembled(line@, views(matches@), 0),
        tiles(segment_views(out@), encode_utf8(line@), 0, encode_utf8(line@).len() as int),
        content(segment_views(out@), encode_utf8(line@)) == encode_utf8(line@),
{
    proof {
        lemma_assembled_is_line(line@, views(matches@));
    }
    let mut out: Vec<Segment> = Vec::new();
    let line_len: usize = line.as_bytes().len();
    let mut last_end: usize = 0;
    let mut i: usize = 0;
    let ghost records = views(matches@);
    assert(records.skip(0) =~= records);
    assert(segment_views(out@) + assembled(line@, records, 0) =~= assembled(line@, records, 0));
    while i < matches.len()
        invariant
            i <= matches.len(),
            records == views(matches@),
            line_len == encode_utf8(line@).len(),
            segment_views(out@) + assembled(line@, records.skip(i as int), last_end as int)
                == assembled(line@, records, 0),
        decreases matches.len() - i,
    {
        let ghost rest = records.skip(i as int);
        let ghost before = segment_views(out@);
        let record = &matches[i];
        assert(rest[0] == record@);
        assert(rest.drop_first() =~= records.skip(i + 1));
        if last_end <= record.start && record.fits_line(line) {
            push_piece(&mut out, SegmentKind::Plain, last_end, record.start);
            let mut inner = record.segments(line);
            let ghost middle = segment_views(out@);
            let ghost added = segment_views(inner@);
            out.append(&mut inner);
            assert(segment_views(out@) =~= middle + added);
            assert(segment_views(out@) + assembled(line@, rest.drop_first(), record.end as int)
                =~= before + assembled(line@, rest, last_end as int));
            last_end = record.end;
        }
        i += 1;
    }
    assert(records.skip(i as int) =~= Seq::<MatchView>::empty());
    push_piece(&mut out, SegmentKind::Plain, last_end, line_len);
    out
}

/// The line with its matches highlighted: the segments of the line, each
/// shown as its kind asks. A line without matches comes back unchanged, and
/// a line that holds no colour code itself comes back when the colour codes
/// are taken out again.
pub fn highlighted_line(highlighted_indexes: &Line, line: &str) -> (out: String)
    ensures
        is_rendering(
            out@,
            assembled(line@, views(highlighted_indexes.matchs@), 0),
            encode_utf8(line@),
        ),
        highlighted_indexes.matchs@.len() == 0 ==> out@ == line@,
        no_codes(line@) ==> strip_markup(out@) == line@,
{
    let segments = assemble_segments(&highlighted_indexes.matchs, line);
    proof {
        lemma_tiles_spans(
            segment_views(segments@),
            encode_utf8(line@),
            0,
            encode_utf8(line@).len() as int,
        );
    }
    let out = render(&segments, line);
    proof {
        if no_codes(line@) {
            lemma_stripped_rendering_is_line(out@, line@, views(highlighted_indexes.matchs@));
        }
        if highlighted_indexes.matchs@.len() == 0 {
            let bytes = encode_utf8(line@);
            encode_utf8_valid_utf8(line@);
            encode_utf8_decode_utf8(line@);
            is_char_boundary_start_end_of_seq(bytes);
            lemma_plain_rendering(out@, segment_views(segments@), bytes, 0, bytes.len() as int);
            assert(bytes.subrange(0, bytes.len() as int) =~= bytes);
        }
    }
    out
}

} // verus!
