//! Segments: the pieces into which a line is cut for output.
//!
//! A segment is a span of the line together with the way it is to be shown.
//! The segments made for a line follow one another without gap or overlap
//! from the line's first byte to its last, so that their texts, put together,
//! are the line.

use vstd::prelude::*;
use crate::text::is_span;

verus! {

/// How a segment is shown.
#[derive(Clone, Copy, Debug, PartialEq, Eq, Structural)]
pub enum SegmentKind {
    /// Text outside every match, shown as it is.
    Plain,
    /// A whole match whose text is the query as written. Emphasised.
    ExactCase,
    /// A character inside a match that differs from the query in case
    /// somewhere, where the character itself is as the query has it.
    /// Emphasised.
    FoldedCase,
    /// Text inside such a match around those characters. Marked as part of
    /// the match.
    InsideMatch,
}

/// A span of a line and the way it is shown.
#[derive(Clone, Copy, Debug, PartialEq, Eq, Structural)]
pub struct Segment {
    pub kind: SegmentKind,
    /// Byte offset in the line at which the segment begins.
    pub start: usize,
    /// Byte offset in the line behind the segment.
    pub end: usize,
}

/// A segment as a mathematical value.
pub ghost struct SegmentView {
    pub kind: SegmentKind,
    pub start: int,
    pub end: int,
}

impl View for Segment {
    type V = SegmentView;

    open spec fn view(&self) -> SegmentView {
        SegmentView { kind: self.kind, start: self.start as int, end: self.end as int }
    }
}

/// The views of a sequence of segments.
pub open spec fn segment_views(segments: Seq<Segment>) -> Seq<SegmentView> {
    segments.map_values(|segment: Segment| segment@)
}

/// The segment for `start..end`, or nothing where that range is empty.
pub open spec fn piece(kind: SegmentKind, start: int, end: int) -> Seq<SegmentView> {
    if start < end {
        seq![SegmentView { kind, start, end }]
    } else {
        Seq::empty()
    }
}

/// The segments cover `from..to` of `bytes` exactly: the first begins at
/// `from`, each begins where the one before it ends, the last ends at `to`,
/// and each is a span that is not empty.
pub open spec fn tiles(pieces: Seq<SegmentView>, bytes: Seq<u8>, from: int, to: int) -> bool
    decreases pieces.len(),
{
    if pieces.len() == 0 {
        from == to
    } else {
        &&& pieces[0].start == from
        &&& from < pieces[0].end
        &&& is_span(bytes, from, pieces[0].end)
        &&& tiles(pieces.drop_first(), bytes, pieces[0].end, to)
    }
}

/// The bytes of the segments, one after the other.
pub open spec fn content(pieces: Seq<SegmentView>, bytes: Seq<u8>) -> Seq<u8>
    decreases pieces.len(),
{
    if pieces.len() == 0 {
        Seq::empty()
    } else {
        bytes.subrange(pieces[0].start, pieces[0].end) + content(pieces.drop_first(), bytes)
    }
}

/// One piece covers its own span.
pub proof fn lemma_piece_tiles(kind: SegmentKind, bytes: Seq<u8>, from: int, to: int)
    requires
        is_span(bytes, from, to),
    ensures
        tiles(piece(kind, from, to), bytes, from, to),
{
    if from < to {
        let rest = piece(kind, from, to).drop_first();
        assert(rest =~= Seq::<SegmentView>::empty());
        assert(tiles(rest, bytes, to, to));
    }
}

/// Segments that cover `from..mid`, followed by segments that cover
/// `mid..to`, cover `from..to`.
pub proof fn lemma_tiles_concat(
    first: Seq<SegmentView>,
    second: Seq<SegmentView>,
    bytes: Seq<u8>,
    from: int,
    mid: int,
    to: int,
)
    requires
        tiles(first, bytes, from, mid),
        tiles(second, bytes, mid, to),
    ensures
        tiles(first + second, bytes, from, to),
    decreases first.len(),
{
    if first.len() == 0 {
        assert(first + second =~= second);
    } else {
        lemma_tiles_concat(first.drop_first(), second, bytes, first[0].end, mid, to);
        assert((first + second).drop_first() =~= first.drop_first() + second);
    }
}

/// Segments that cover a range hold, put together, the bytes of that range:
/// nothing is lost, doubled or moved.
pub proof fn lemma_tiles_content(pieces: Seq<SegmentView>, bytes: Seq<u8>, from: int, to: int)
    requires
        tiles(pieces, bytes, from, to),
        0 <= from <= bytes.len(),
    ensures
        from <= to <= bytes.len(),
        content(pieces, bytes) == bytes.subrange(from, to),
    decreases pieces.len(),
{
    if pieces.len() == 0 {
        assert(bytes.subrange(from, to) =~= Seq::<u8>::empty());
    } else {
        lemma_tiles_content(pieces.drop_first(), bytes, pieces[0].end, to);
        assert(bytes.subrange(from, pieces[0].end) + bytes.subrange(pieces[0].end, to)
            =~= bytes.subrange(from, to));
    }
}

/// Each of the segments that cover a range is a span inside that range.
pub proof fn lemma_tiles_spans(pieces: Seq<SegmentView>, bytes: Seq<u8>, from: int, to: int)
    requires
        tiles(pieces, bytes, from, to),
    ensures
        from <= to,
        forall|i: int|
            0 <= i < pieces.len() ==> {
                let piece = #[trigger] pieces[i];
                &&& from <= piece.start < piece.end <= to
                &&& is_span(bytes, piece.start, piece.end)
            },
    decreases pieces.len(),
{
    if pieces.len() > 0 {
        lemma_tiles_spans(pieces.drop_first(), bytes, pieces[0].end, to);
        assert forall|i: int| 0 <= i < pieces.len() implies {
            let piece = #[trigger] pieces[i];
            &&& from <= piece.start < piece.end <= to
            &&& is_span(bytes, piece.start, piece.end)
        } by {
            if i > 0 {
                assert(pieces[i] == pieces.drop_first()[i - 1]);
            }
        }
    }
}

/// Appends the segment for `start..end` to `out`, unless the range is empty.
pub fn push_piece(out: &mut Vec<Segment>, kind: SegmentKind, start: usize, end: usize)
    ensures
        segment_views(final(out)@) == segment_views(old(out)@) + piece(
            kind,
            start as int,
            end as int,
        ),
{
    if start < end {
        out.push(Segment { kind, start, end });
        assert(segment_views(out@) =~= segment_views(old(out)@) + piece(
            kind,
            start as int,
            end as int,
        ));
    } else {
        assert(segment_views(out@) =~= segment_views(old(out)@) + piece(
            kind,
            start as int,
            end as int,
        ));
    }
}

} // verus!
