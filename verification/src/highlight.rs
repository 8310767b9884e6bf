//! Cutting one match into segments, and painting it.
//!
//! A match whose text is the query as written is one emphasised segment. A
//! match that differs from the query in case is broken down further, to show
//! which of its letters are as the query has them. The letters of the query
//! are taken in order, and each is looked for in the match from the place
//! where the one before it was found: where it is found, as written, it
//! becomes an emphasised segment of its own, and the text passed over on the
//! way to it is marked as lying inside the match. A letter that is not found
//! leaves the place of the search as it was. What remains of the match behind
//! the last letter found is marked as lying inside the match too.
//!
//! Looking for each letter from the place of the search on, not from the
//! beginning of the match, keeps the segments in the order of the text when
//! the query holds a letter twice.

use vstd::prelude::*;
use vstd::slice::*;
use vstd::string::*;
use vstd::utf8::*;
use crate::markup::{lemma_strip_rendering, no_codes, strip_markup};
use crate::matcher::{LineMatch, MatchView};
use crate::paint::{is_rendering, render};
use crate::segment::{
    lemma_piece_tiles, lemma_tiles_concat, lemma_tiles_spans, piece, push_piece, segment_views,
    tiles, Segment, SegmentKind, SegmentView,
};
use crate::text::{
    find_first, first_occurrence, is_span, lemma_first_occurrence, lemma_next_boundary, occurs_at,
    span_text,
};

verus! {

/// The segments of the part `cursor..end` of a match that is not exact,
/// where `query` holds the letters that are still to be looked for.
pub open spec fn near_match_pieces(line: Seq<u8>, query: Seq<char>, cursor: int, end: int) -> Seq<
    SegmentView,
>
    decreases query.len(),
{
    if query.len() == 0 {
        piece(SegmentKind::InsideMatch, cursor, end)
    } else {
        let letter = encode_scalar(query[0] as u32);
        match first_occurrence(line, letter, cursor, end - letter.len()) {
            Some(at) => piece(SegmentKind::InsideMatch, cursor, at) + piece(
                SegmentKind::FoldedCase,
                at,
                at + letter.len(),
            ) + near_match_pieces(line, query.drop_first(), at + letter.len(), end),
            None => near_match_pieces(line, query.drop_first(), cursor, end),
        }
    }
}

/// The segments of a match in a line.
pub open spec fn match_pieces(line: Seq<char>, record: MatchView) -> Seq<SegmentView> {
    if record.exact {
        piece(SegmentKind::ExactCase, record.start, record.end)
    } else {
        near_match_pieces(encode_utf8(line), record.query, record.start, record.end)
    }
}

/// The number of bytes of a character's encoding, read off its first byte.
pub open spec fn width_of_leading(first: u8) -> int {
    if first <= 0x7f {
        1
    } else if 0xc0 <= first <= 0xdf {
        2
    } else if 0xe0 <= first <= 0xef {
        3
    } else {
        4
    }
}

/// The encoding of one character: it is not empty, it is a character's whole
/// encoding, and its length is what its first byte says.
pub proof fn lemma_letter(letter: char)
    ensures
        encode_scalar(letter as u32).len() > 0,
        valid_first_scalar(encode_scalar(letter as u32)),
        encode_scalar(letter as u32).len() == width_of_leading(encode_scalar(letter as u32)[0]),
{
    let text = seq![letter];
    encode_utf8_first_scalar(text);
    assert(encode_utf8(text.drop_first()) =~= Seq::<u8>::empty());
    assert(encode_utf8(text) =~= encode_scalar(letter as u32));
}

/// Where the encoding of a character stands in valid text, it stands
/// between two character boundaries.
pub proof fn lemma_letter_span(line: Seq<u8>, letter: char, at: int)
    requires
        valid_utf8(line),
        occurs_at(line, encode_scalar(letter as u32), at),
    ensures
        is_span(line, at, at + encode_scalar(letter as u32).len()),
{
    let bytes = encode_scalar(letter as u32);
    lemma_letter(letter);
    assert(line.subrange(at, at + bytes.len())[0] == bytes[0]);
    is_char_boundary_iff_not_is_continuation_byte(line, at);
    lemma_next_boundary(line, at);
    assert(line.subrange(at, line.len() as int)[0] == bytes[0]);
}

/// The segments of a near match cover the part of the match they were made
/// for.
pub proof fn lemma_near_match_tiles(line: Seq<u8>, query: Seq<char>, cursor: int, end: int)
    requires
        valid_utf8(line),
        is_span(line, cursor, end),
    ensures
        tiles(near_match_pieces(line, query, cursor, end), line, cursor, end),
    decreases query.len(),
{
    if query.len() == 0 {
        lemma_piece_tiles(SegmentKind::InsideMatch, line, cursor, end);
    } else {
        let letter = encode_scalar(query[0] as u32);
        lemma_first_occurrence(line, letter, cursor, end - letter.len());
        match first_occurrence(line, letter, cursor, end - letter.len()) {
            Some(at) => {
                let behind = at + letter.len();
                lemma_letter(query[0]);
                lemma_letter_span(line, query[0], at);
                lemma_piece_tiles(SegmentKind::InsideMatch, line, cursor, at);
                lemma_piece_tiles(SegmentKind::FoldedCase, line, at, behind);
                lemma_near_match_tiles(line, query.drop_first(), behind, end);
                lemma_tiles_concat(
                    piece(SegmentKind::InsideMatch, cursor, at),
                    piece(SegmentKind::FoldedCase, at, behind),
                    line,
                    cursor,
                    at,
                    behind,
                );
                lemma_tiles_concat(
                    piece(SegmentKind::InsideMatch, cursor, at) + piece(
                        SegmentKind::FoldedCase,
                        at,
                        behind,
                    ),
                    near_match_pieces(line, query.drop_first(), behind, end),
                    line,
                    cursor,
                    behind,
                    end,
                );
            },
            None => {
                lemma_near_match_tiles(line, query.drop_first(), cursor, end);
            },
        }
    }
}

/// The segments of a match that is a span of the line cover that span.
pub proof fn lemma_match_pieces_tile(line: Seq<char>, record: MatchView)
    requires
        is_span(encode_utf8(line), record.start, record.end),
    ensures
        tiles(match_pieces(line, record), encode_utf8(line), record.start, record.end),
{
    encode_utf8_valid_utf8(line);
    if record.exact {
        lemma_piece_tiles(SegmentKind::ExactCase, encode_utf8(line), record.start, record.end);
    } else {
        lemma_near_match_tiles(encode_utf8(line), record.query, record.start, record.end);
    }
}

/// The number of bytes of the encoding that begins with `first`.
fn leading_width(first: u8) -> (width: usize)
    ensures
        width == width_of_leading(first),
{
    if first <= 0x7f {
        1
    } else if 0xc0 <= first && first <= 0xdf {
        2
    } else if 0xe0 <= first && first <= 0xef {
        3
    } else {
        4
    }
}

impl LineMatch {
    /// Cuts the match into its segments.
    ///
    /// The segments cover the match from its start to its end: put together,
    /// their texts are the text of the match.
    pub fn segments(&self, line: &str) -> (out: Vec<Segment>)
        requires
            self.fits(line@),
        ensures
            segment_views(out@) == match_pieces(line@, self@),
            tiles(segment_views(out@), encode_utf8(line@), self.start as int, self.end as int),
    {
        proof {
            lemma_match_pieces_tile(line@, self@);
        }
        let mut out: Vec<Segment> = Vec::new();
        if self.case_sensitive {
            push_piece(&mut out, SegmentKind::ExactCase, self.start, self.end);
            assert(segment_views(out@) =~= match_pieces(line@, self@));
            return out;
        }
        let line_bytes = line.as_bytes();
        let query_bytes = self.query.as_str().as_bytes();
        let end: usize = self.end;
        let mut cursor: usize = self.start;
        let mut next: usize = 0;
        let ghost mut remaining: Seq<char> = self.query@;
        assert(query_bytes@.subrange(0, query_bytes@.len() as int) =~= query_bytes@);
        assert(segment_views(out@) + near_match_pieces(line_bytes@, remaining, cursor as int, end as int)
            =~= near_match_pieces(line_bytes@, remaining, cursor as int, end as int));
        while next < query_bytes.len()
            invariant
                next <= query_bytes.len(),
                line_bytes@ == encode_utf8(line@),
                query_bytes@.subrange(next as int, query_bytes@.len() as int) == encode_utf8(
                    remaining,
                ),
                self.start <= cursor <= end <= line_bytes.len(),
                end == self.end,
                segment_views(out@) + near_match_pieces(
                    line_bytes@,
                    remaining,
                    cursor as int,
                    end as int,
                ) == near_match_pieces(
                    line_bytes@,
                    self.query@,
                    self.start as int,
                    self.end as int,
                ),
            decreases query_bytes.len() - next,
        {
            let ghost rest_bytes = query_bytes@.subrange(next as int, query_bytes@.len() as int);
            let ghost letter = encode_scalar(remaining[0] as u32);
            let ghost before = segment_views(out@);
            proof {
                assert(rest_bytes.len() > 0);
                assert(remaining.len() > 0);
                lemma_letter(remaining[0]);
                encode_utf8_first_scalar(remaining);
                assert(rest_bytes[0] == query_bytes@[next as int]);
                assert(rest_bytes =~= letter + encode_utf8(remaining.drop_first()));
                assert(letter[0] == rest_bytes[0]);
            }
            let width: usize = leading_width(query_bytes[next]);
            assert(width == letter.len());
            assert(next + width <= query_bytes.len());
            let letter_bytes = slice_subrange(query_bytes, next, next + width);
            assert(letter_bytes@ =~= letter);
            assert(query_bytes@.subrange(next + width, query_bytes@.len() as int)
                =~= rest_bytes.subrange(width as int, rest_bytes.len() as int));
            assert(rest_bytes.subrange(width as int, rest_bytes.len() as int) =~= encode_utf8(
                remaining.drop_first(),
            ));
            let mut found: Option<usize> = None;
            if width <= end - cursor {
                found = find_first(line_bytes, letter_bytes, cursor, end - width);
            }
            proof {
                lemma_first_occurrence(line_bytes@, letter, cursor as int, end - width);
            }
            match found {
                Some(at) => {
                    push_piece(&mut out, SegmentKind::InsideMatch, cursor, at);
                    push_piece(&mut out, SegmentKind::FoldedCase, at, at + width);
                    assert(segment_views(out@) + near_match_pieces(
                        line_bytes@,
                        remaining.drop_first(),
                        at + width,
                        end as int,
                    ) =~= before + near_match_pieces(
                        line_bytes@,
                        remaining,
                        cursor as int,
                        end as int,
                    ));
                    cursor = at + width;
                },
                None => {
                    assert(first_occurrence(line_bytes@, letter, cursor as int, end - width)
                        is None);
                },
            }
            next = next + width;
            proof {
                remaining = remaining.drop_first();
            }
        }
        proof {
            assert(encode_utf8(remaining).len() == 0);
            if remaining.len() > 0 {
                lemma_letter(remaining[0]);
            }
            assert(remaining.len() == 0);
        }
        push_piece(&mut out, SegmentKind::InsideMatch, cursor, end);
        out
    }

    /// The text of the match, painted: its segments, each shown as its kind
    /// asks. Without the colour codes it is the text of the match.
    pub fn get_value_to_highlight(&self, value: &str) -> (out: String)
        requires
            self.fits(value@),
        ensures
            is_rendering(out@, match_pieces(value@, self@), encode_utf8(value@)),
            no_codes(span_text(encode_utf8(value@), self.start as int, self.end as int))
                ==> strip_markup(out@) == span_text(
                encode_utf8(value@),
                self.start as int,
                self.end as int,
            ),
    {
        let segments = self.segments(value);
        proof {
            lemma_tiles_spans(
                segment_views(segments@),
                encode_utf8(value@),
                self.start as int,
                self.end as int,
            );
        }
        let out = render(&segments, value);
        proof {
            let bytes = encode_utf8(value@);
            encode_utf8_valid_utf8(value@);
            if no_codes(span_text(bytes, self.start as int, self.end as int)) {
                lemma_strip_rendering(
                    out@,
                    segment_views(segments@),
                    bytes,
                    self.start as int,
                    self.end as int,
                );
            }
        }
        out
    }
}

} // verus!
