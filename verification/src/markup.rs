//! Taking the colour codes out of painted text.
//!
//! Painting puts colour codes around pieces of a line. Taking them out again
//! gives the line back, as long as the line itself holds none of the codes:
//! a line that holds a colour code of its own would lose it too.

use vstd::prelude::*;
use vstd::utf8::*;
use crate::paint::{
    holds_at, holds_reset, is_rendering, is_shown, sgr_green, sgr_reset, sgr_yellow,
};
use crate::segment::{lemma_tiles_spans, tiles, SegmentKind, SegmentView};
use crate::text::{lemma_span_text_concat, span_text};

verus! {

/// `code` is the code for green, for yellow or for reset.
pub open spec fn is_code(code: Seq<char>) -> bool {
    code == sgr_green() || code == sgr_yellow() || code == sgr_reset()
}

/// One of the three codes stands in `text` at `at`.
pub open spec fn code_at(text: Seq<char>, at: int) -> bool {
    ||| holds_at(text, sgr_green(), at)
    ||| holds_at(text, sgr_yellow(), at)
    ||| holds_at(text, sgr_reset(), at)
}

/// The text holds none of the three codes.
pub open spec fn no_codes(text: Seq<char>) -> bool {
    forall|at: int| !#[trigger] code_at(text, at)
}

/// `out` without the codes for green, for yellow and for reset.
pub open spec fn strip_markup(out: Seq<char>) -> Seq<char>
    decreases out.len(),
{
    if out.len() == 0 {
        out
    } else if holds_at(out, sgr_green(), 0) {
        strip_markup(out.skip(sgr_green().len() as int))
    } else if holds_at(out, sgr_yellow(), 0) {
        strip_markup(out.skip(sgr_yellow().len() as int))
    } else if holds_at(out, sgr_reset(), 0) {
        strip_markup(out.skip(sgr_reset().len() as int))
    } else {
        seq![out[0]] + strip_markup(out.drop_first())
    }
}

/// A code begins with the escape character and holds no other.
pub proof fn lemma_code_shape(text: Seq<char>, code: Seq<char>, at: int)
    requires
        is_code(code),
        holds_at(text, code, at),
    ensures
        text[at] == '\u{1b}',
        forall|k: int| 0 < k < code.len() ==> #[trigger] text[at + k] != '\u{1b}',
{
    let part = text.subrange(at, at + code.len());
    assert(part[0] == text[at]);
    assert forall|k: int| 0 < k < code.len() implies #[trigger] text[at + k] != '\u{1b}' by {
        assert(part[k] == text[at + k]);
    }
}

/// A code that stands in a text stands in every text around it.
pub proof fn lemma_code_inside(
    before: Seq<char>,
    text: Seq<char>,
    behind: Seq<char>,
    at: int,
)
    requires
        code_at(text, at),
    ensures
        code_at(before + text + behind, before.len() + at),
{
    let whole = before + text + behind;
    let to = before.len() + at;
    if holds_at(text, sgr_green(), at) {
        assert(whole.subrange(to, to + sgr_green().len()) =~= text.subrange(
            at,
            at + sgr_green().len(),
        ));
    } else if holds_at(text, sgr_yellow(), at) {
        assert(whole.subrange(to, to + sgr_yellow().len()) =~= text.subrange(
            at,
            at + sgr_yellow().len(),
        ));
    } else {
        assert(whole.subrange(to, to + sgr_reset().len()) =~= text.subrange(
            at,
            at + sgr_reset().len(),
        ));
    }
}

/// Both parts of a text that holds no code hold none.
pub proof fn lemma_no_codes_parts(first: Seq<char>, second: Seq<char>)
    requires
        no_codes(first + second),
    ensures
        no_codes(first),
        no_codes(second),
{
    let none = Seq::<char>::empty();
    assert forall|at: int| !#[trigger] code_at(first, at) by {
        if code_at(first, at) {
            lemma_code_inside(none, first, second, at);
            assert(none + first + second =~= first + second);
            assert(code_at(first + second, at));
        }
    }
    assert forall|at: int| !#[trigger] code_at(second, at) by {
        if code_at(second, at) {
            lemma_code_inside(first, second, none, at);
            assert(first + second + none =~= first + second);
            assert(code_at(first + second, first.len() + at));
        }
    }
}

/// In a text without codes that is followed by an escape character, or by
/// nothing, no code begins.
pub proof fn lemma_no_code_before_escape(text: Seq<char>, rest: Seq<char>)
    requires
        no_codes(text),
        rest.len() == 0 || rest[0] == '\u{1b}',
    ensures
        forall|at: int| 0 <= at < text.len() ==> !#[trigger] code_at(text + rest, at),
{
    let whole = text + rest;
    assert forall|at: int| 0 <= at < text.len() implies !#[trigger] code_at(whole, at) by {
        if code_at(whole, at) {
            let code = if holds_at(whole, sgr_green(), at) {
                sgr_green()
            } else if holds_at(whole, sgr_yellow(), at) {
                sgr_yellow()
            } else {
                sgr_reset()
            };
            assert(holds_at(whole, code, at));
            if at + code.len() <= text.len() {
                assert(text.subrange(at, at + code.len()) =~= whole.subrange(
                    at,
                    at + code.len(),
                ));
                assert(holds_at(text, code, at));
                assert(code_at(text, at));
            } else {
                lemma_code_shape(whole, code, at);
                let k = text.len() - at;
                assert(whole[at + k] == rest[0]);
            }
        }
    }
}

/// Text in which no code begins passes through unchanged.
pub proof fn lemma_strip_text(text: Seq<char>, rest: Seq<char>)
    requires
        forall|at: int| 0 <= at < text.len() ==> !#[trigger] code_at(text + rest, at),
    ensures
        strip_markup(text + rest) == text + strip_markup(rest),
    decreases text.len(),
{
    let whole = text + rest;
    if text.len() == 0 {
        assert(whole =~= rest);
        assert(text + strip_markup(rest) =~= strip_markup(rest));
    } else {
        assert(!code_at(whole, 0));
        let tail = text.drop_first();
        assert(whole.drop_first() =~= tail + rest);
        assert forall|at: int| 0 <= at < tail.len() implies !#[trigger] code_at(
            tail + rest,
            at,
        ) by {
            if code_at(tail + rest, at) {
                lemma_code_inside(seq![text[0]], tail + rest, Seq::<char>::empty(), at);
                assert(seq![text[0]] + (tail + rest) + Seq::<char>::empty() =~= whole);
                assert(code_at(whole, at + 1));
            }
        }
        lemma_strip_text(tail, rest);
        assert(seq![whole[0]] + (tail + strip_markup(rest)) =~= text + strip_markup(rest));
    }
}

/// A colour code in front of a text is taken out.
pub proof fn lemma_strip_code(code: Seq<char>, rest: Seq<char>)
    requires
        is_code(code),
    ensures
        strip_markup(code + rest) == strip_markup(rest),
{
    let whole = code + rest;
    assert(whole.subrange(0, code.len() as int) =~= code);
    assert(whole.skip(code.len() as int) =~= rest);
    if code == sgr_yellow() {
        assert(!holds_at(whole, sgr_green(), 0)) by {
            if holds_at(whole, sgr_green(), 0) {
                assert(whole.subrange(0, sgr_green().len() as int)[3] == whole[3]);
            }
        }
    } else if code == sgr_reset() {
        assert(!holds_at(whole, sgr_green(), 0)) by {
            if holds_at(whole, sgr_green(), 0) {
                assert(whole.subrange(0, sgr_green().len() as int)[2] == whole[2]);
            }
        }
        assert(!holds_at(whole, sgr_yellow(), 0)) by {
            if holds_at(whole, sgr_yellow(), 0) {
                assert(whole.subrange(0, sgr_yellow().len() as int)[2] == whole[2]);
            }
        }
    }
}

/// No code begins in a text before a rendering, where none begins in that
/// text before the text that is rendered: the codes that painting puts in
/// make no code together with what stands before them.
pub proof fn lemma_no_code_into_rendering(
    before: Seq<char>,
    out: Seq<char>,
    pieces: Seq<SegmentView>,
    bytes: Seq<u8>,
    from: int,
    to: int,
)
    requires
        valid_utf8(bytes),
        is_char_boundary(bytes, to),
        tiles(pieces, bytes, from, to),
        is_rendering(out, pieces, bytes),
        no_codes(before + span_text(bytes, from, to)),
    ensures
        forall|at: int| 0 <= at < before.len() ==> !#[trigger] code_at(before + out, at),
    decreases pieces.len(),
{
    if pieces.len() == 0 {
        assert(bytes.subrange(from, to) =~= Seq::<u8>::empty());
        assert(before + out =~= before + span_text(bytes, from, to));
    } else {
        let cut = choose|cut: int|
            #![trigger out.take(cut)]
            {
                &&& 0 <= cut <= out.len()
                &&& is_shown(
                    out.take(cut),
                    pieces[0].kind,
                    span_text(bytes, pieces[0].start, pieces[0].end),
                )
                &&& is_rendering(out.skip(cut), pieces.drop_first(), bytes)
            };
        let mid = pieces[0].end;
        let rest = pieces.drop_first();
        let first = span_text(bytes, from, mid);
        let others = span_text(bytes, mid, to);
        lemma_tiles_spans(rest, bytes, mid, to);
        lemma_span_text_concat(bytes, from, mid, to);
        assert(out =~= out.take(cut) + out.skip(cut));
        assert(before + (first + others) =~= before + first + others);
        if out.take(cut) == first {
            lemma_no_code_into_rendering(before + first, out.skip(cut), rest, bytes, mid, to);
            assert(before + first + out.skip(cut) =~= before + out);
        } else if holds_reset(first) {
            let at = choose|at: int| holds_at(first, sgr_reset(), at);
            assert(code_at(first, at));
            lemma_code_inside(before, first, others, at);
            assert(code_at(before + span_text(bytes, from, to), before.len() + at));
        } else {
            assert(out.take(cut)[0] == '\u{1b}');
            assert(out[0] == out.take(cut)[0]);
            lemma_no_codes_parts(before, span_text(bytes, from, to));
            lemma_no_code_before_escape(before, out);
        }
    }
}

/// What is left of a rendering of segments that cover a span is the text of
/// that span, where that text holds none of the codes.
pub proof fn lemma_strip_rendering(
    out: Seq<char>,
    pieces: Seq<SegmentView>,
    bytes: Seq<u8>,
    from: int,
    to: int,
)
    requires
        valid_utf8(bytes),
        is_char_boundary(bytes, to),
        tiles(pieces, bytes, from, to),
        is_rendering(out, pieces, bytes),
        no_codes(span_text(bytes, from, to)),
    ensures
        strip_markup(out) == span_text(bytes, from, to),
    decreases pieces.len(),
{
    if pieces.len() == 0 {
        assert(bytes.subrange(from, to) =~= Seq::<u8>::empty());
        assert(out =~= span_text(bytes, from, to));
    } else {
        let cut = choose|cut: int|
            #![trigger out.take(cut)]
            {
                &&& 0 <= cut <= out.len()
                &&& is_shown(
                    out.take(cut),
                    pieces[0].kind,
                    span_text(bytes, pieces[0].start, pieces[0].end),
                )
                &&& is_rendering(out.skip(cut), pieces.drop_first(), bytes)
            };
        let mid = pieces[0].end;
        let rest = pieces.drop_first();
        let first = span_text(bytes, from, mid);
        let others = span_text(bytes, mid, to);
        let behind = out.skip(cut);
        lemma_tiles_spans(rest, bytes, mid, to);
        lemma_span_text_concat(bytes, from, mid, to);
        lemma_no_codes_parts(first, others);
        lemma_strip_rendering(behind, rest, bytes, mid, to);
        assert(out =~= out.take(cut) + behind);
        if out.take(cut) == first {
            lemma_no_code_into_rendering(first, behind, rest, bytes, mid, to);
            lemma_strip_text(first, behind);
        } else if holds_reset(first) {
            let at = choose|at: int| holds_at(first, sgr_reset(), at);
            assert(code_at(first, at));
        } else {
            let on = if pieces[0].kind == SegmentKind::InsideMatch {
                sgr_yellow()
            } else {
                sgr_green()
            };
            assert(out.take(cut) == on + first + sgr_reset());
            assert(out =~= on + (first + (sgr_reset() + behind)));
            lemma_strip_code(on, first + (sgr_reset() + behind));
            assert((sgr_reset() + behind)[0] == '\u{1b}');
            lemma_no_code_before_escape(first, sgr_reset() + behind);
            lemma_strip_text(first, sgr_reset() + behind);
            lemma_strip_code(sgr_reset(), behind);
        }
    }
}

} // verus!
