//! Painting segments for a terminal.
//!
//! Emphasised text is painted green and text marked as lying inside a match
//! yellow, by the `colored` crate. Whether that crate writes colour codes at
//! all is decided outside this library, by the environment of the process
//! and by the terminal, and it inserts further codes into text that already
//! holds the reset code. What is stated of painted text is therefore what
//! holds either way.

use vstd::prelude::*;
use vstd::string::*;
use vstd::utf8::*;
use crate::segment::{
    lemma_tiles_spans, segment_views, tiles, Segment, SegmentKind, SegmentView,
};
use crate::text::{is_span, is_span_of, lemma_span_text_concat, span_text, substring};

verus! {

/// The code that switches the foreground colour to green.
pub open spec fn sgr_green() -> Seq<char> {
    seq!['\u{1b}', '[', '3', '2', 'm']
}

/// The code that switches the foreground colour to yellow.
pub open spec fn sgr_yellow() -> Seq<char> {
    seq!['\u{1b}', '[', '3', '3', 'm']
}

/// The code that switches all colours off.
pub open spec fn sgr_reset() -> Seq<char> {
    seq!['\u{1b}', '[', '0', 'm']
}

/// `code` stands in `text` at `at`.
pub open spec fn holds_at(text: Seq<char>, code: Seq<char>, at: int) -> bool {
    &&& 0 <= at
    &&& at + code.len() <= text.len()
    &&& text.subrange(at, at + code.len()) == code
}

/// The text holds the reset code somewhere.
pub open spec fn holds_reset(text: Seq<char>) -> bool {
    exists|at: int| holds_at(text, sgr_reset(), at)
}

/// `out` is `text` painted with the colour that `on` switches on: the text
/// alone where colours are off, else the text between `on` and the reset
/// code. Of text that holds the reset code itself nothing is said.
pub open spec fn is_painted(out: Seq<char>, text: Seq<char>, on: Seq<char>) -> bool {
    ||| out == text
    ||| out == on + text + sgr_reset()
    ||| holds_reset(text)
}

/// `out` shows `text` as a segment of the given kind is shown.
pub open spec fn is_shown(out: Seq<char>, kind: SegmentKind, text: Seq<char>) -> bool {
    match kind {
        SegmentKind::Plain => out == text,
        SegmentKind::ExactCase => is_painted(out, text, sgr_green()),
        SegmentKind::FoldedCase => is_painted(out, text, sgr_green()),
        SegmentKind::InsideMatch => is_painted(out, text, sgr_yellow()),
    }
}

/// `out` is made of the texts of the segments, in order, each shown as its
/// kind asks.
pub open spec fn is_rendering(out: Seq<char>, pieces: Seq<SegmentView>, bytes: Seq<u8>) -> bool
    decreases pieces.len(),
{
    if pieces.len() == 0 {
        out.len() == 0
    } else {
        exists|cut: int|
            #![trigger out.take(cut)]
            {
                &&& 0 <= cut <= out.len()
                &&& is_shown(
                    out.take(cut),
                    pieces[0].kind,
                    span_text(bytes, pieces[0].start, pieces[0].end),
                )
                &&& is_rendering(out.skip(cut), pieces.drop_first(), bytes)
            }
    }
}

/// A rendering stays one when a further segment is shown behind it.
pub proof fn lemma_rendering_push(
    out: Seq<char>,
    pieces: Seq<SegmentView>,
    bytes: Seq<u8>,
    shown: Seq<char>,
    piece: SegmentView,
)
    requires
        is_rendering(out, pieces, bytes),
        is_shown(shown, piece.kind, span_text(bytes, piece.start, piece.end)),
    ensures
        is_rendering(out + shown, pieces.push(piece), bytes),
    decreases pieces.len(),
{
    let longer = pieces.push(piece);
    let whole = out + shown;
    if pieces.len() == 0 {
        let cut = shown.len() as int;
        assert(whole.take(cut) =~= shown);
        assert(whole.skip(cut) =~= Seq::<char>::empty());
        assert(longer.drop_first() =~= Seq::<SegmentView>::empty());
        assert(is_rendering(whole.skip(cut), longer.drop_first(), bytes));
    } else {
        let cut = choose|cut: int|
            #![trigger out.take(cut)]
            {
                &&& 0 <= cut <= out.len()
                &&& is_shown(
                    out.take(cut),
                    pieces[0].kind,
                    span_text(bytes, pieces[0].start, pieces[0].end),
                )
                &&& is_rendering(out.skip(cut), pieces.drop_first(), bytes)
            };
        lemma_rendering_push(out.skip(cut), pieces.drop_first(), bytes, shown, piece);
        assert(whole.take(cut) =~= out.take(cut));
        assert(whole.skip(cut) =~= out.skip(cut) + shown);
        assert(longer.drop_first() =~= pieces.drop_first().push(piece));
    }
}

/// Plain segments that cover a span are rendered as the text of that span,
/// character for character.
pub proof fn lemma_plain_rendering(
    out: Seq<char>,
    pieces: Seq<SegmentView>,
    bytes: Seq<u8>,
    from: int,
    to: int,
)
    requires
        valid_utf8(bytes),
        is_char_boundary(bytes, to),
        tiles(pieces, bytes, from, to),
        forall|i: int| 0 <= i < pieces.len() ==> (#[trigger] pieces[i]).kind == SegmentKind::Plain,
        is_rendering(out, pieces, bytes),
    ensures
        out == span_text(bytes, from, to),
    decreases pieces.len(),
{
    if pieces.len() == 0 {
        assert(bytes.subrange(from, to) =~= Seq::<u8>::empty());
        assert(out =~= span_text(bytes, from, to));
    } else {
        let cut = choose|cut: int|
            #![trigger out.take(cut)]
            {
                &&& 0 <= cut <= out.len()
                &&& is_shown(
                    out.take(cut),
                    pieces[0].kind,
                    span_text(bytes, pieces[0].start, pieces[0].end),
                )
                &&& is_rendering(out.skip(cut), pieces.drop_first(), bytes)
            };
        let mid = pieces[0].end;
        let rest = pieces.drop_first();
        assert forall|i: int| 0 <= i < rest.len() implies (#[trigger] rest[i]).kind
            == SegmentKind::Plain by {
            assert(rest[i] == pieces[i + 1]);
        }
        lemma_plain_rendering(out.skip(cut), rest, bytes, mid, to);
        lemma_tiles_spans(rest, bytes, mid, to);
        lemma_span_text_concat(bytes, from, mid, to);
        assert(out =~= out.take(cut) + out.skip(cut));
    }
}

/// Calls `colored::Colorize::green` on the text and turns the result into a
/// `String`. Trusted: the string is the text itself, or the text between the
/// code for green and the reset code, unless the text holds the reset code.
#[verifier::external_body]
fn green(text: &str) -> (out: String)
    ensures
        is_painted(out@, text@, sgr_green()),
{
    colored::Colorize::green(text).to_string()
}

/// Calls `colored::Colorize::yellow` on the text and turns the result into a
/// `String`. Trusted: the string is the text itself, or the text between the
/// code for yellow and the reset code, unless the text holds the reset code.
#[verifier::external_body]
fn yellow(text: &str) -> (out: String)
    ensures
        is_painted(out@, text@, sgr_yellow()),
{
    colored::Colorize::yellow(text).to_string()
}

/// Shows `text` as a segment of the given kind is shown.
pub fn paint(kind: SegmentKind, text: &str) -> (out: String)
    ensures
        is_shown(out@, kind, text@),
{
    match kind {
        SegmentKind::Plain => text.to_owned(),
        SegmentKind::ExactCase => green(text),
        SegmentKind::FoldedCase => green(text),
        SegmentKind::InsideMatch => yellow(text),
    }
}

/// Every segment is a span of `bytes`.
pub open spec fn spans_of(pieces: Seq<SegmentView>, bytes: Seq<u8>) -> bool {
    forall|i: int|
        0 <= i < pieces.len() ==> is_span(
            bytes,
            (#[trigger] pieces[i]).start,
            pieces[i].end,
        )
}

/// Whether every segment is a span of `line`.
pub fn segments_fit(segments: &Vec<Segment>, line: &str) -> (fit: bool)
    ensures
        fit == spans_of(segment_views(segments@), encode_utf8(line@)),
{
    let mut i: usize = 0;
    while i < segments.len()
        invariant
            i <= segments.len(),
            forall|j: int|
                0 <= j < i ==> is_span(
                    encode_utf8(line@),
                    (#[trigger] segment_views(segments@)[j]).start,
                    segment_views(segments@)[j].end,
                ),
        decreases segments.len() - i,
    {
        if !is_span_of(line, segments[i].start, segments[i].end) {
            assert(segment_views(segments@)[i as int] == segments@[i as int]@);
            return false;
        }
        assert(segment_views(segments@)[i as int] == segments@[i as int]@);
        i += 1;
    }
    true
}

/// Puts the texts of the segments together, each shown as its kind asks.
pub fn render(segments: &Vec<Segment>, line: &str) -> (out: String)
    requires
        spans_of(segment_views(segments@), encode_utf8(line@)),
    ensures
        is_rendering(out@, segment_views(segments@), encode_utf8(line@)),
{
    let mut out = String::new();
    let ghost pieces = segment_views(segments@);
    let mut i: usize = 0;
    assert(pieces.take(0) =~= Seq::<SegmentView>::empty());
    while i < segments.len()
        invariant
            i <= segments.len(),
            pieces == segment_views(segments@),
            spans_of(pieces, encode_utf8(line@)),
            is_rendering(out@, pieces.take(i as int), encode_utf8(line@)),
        decreases segments.len() - i,
    {
        let segment = segments[i];
        assert(pieces[i as int] == segment@);
        let text = substring(line, segment.start, segment.end);
        let shown = paint(segment.kind, text);
        proof {
            lemma_rendering_push(
                out@,
                pieces.take(i as int),
                encode_utf8(line@),
                shown@,
                segment@,
            );
            assert(pieces.take(i + 1) =~= pieces.take(i as int).push(segment@));
        }
        out.append(shown.as_str());
        i += 1;
    }
    assert(pieces.take(i as int) =~= pieces);
    out
}

} // verus!
