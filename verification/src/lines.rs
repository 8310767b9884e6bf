//! Cutting a text into lines.
//!
//! A line ends at a newline, which is not part of it. Text behind the last
//! newline is a line too, unless it is empty: a text that ends in a newline
//! has no empty line behind it, and the empty text has no lines.

use vstd::prelude::*;
use vstd::string::*;
use vstd::utf8::*;
use crate::text::{lemma_next_boundary, lemma_span_bytes, span_text, substring};

verus! {

/// The lines of `bytes` from `begin` on, where `begin..at` has been found
/// to hold no newline.
pub open spec fn lines_from(bytes: Seq<u8>, begin: int, at: int) -> Seq<Seq<char>>
    decreases bytes.len() - at,
{
    if at < 0 || at >= bytes.len() {
        if begin < bytes.len() {
            seq![span_text(bytes, begin, bytes.len() as int)]
        } else {
            Seq::empty()
        }
    } else if bytes[at] == 0x0a {
        seq![span_text(bytes, begin, at)] + lines_from(bytes, at + 1, at + 1)
    } else {
        lines_from(bytes, begin, at + 1)
    }
}

/// The lines of a text, in order.
pub open spec fn lines_of(contents: Seq<char>) -> Seq<Seq<char>> {
    lines_from(encode_utf8(contents), 0, 0)
}

/// The texts of a sequence of string slices.
pub open spec fn texts(lines: Seq<&str>) -> Seq<Seq<char>> {
    lines.map_values(|line: &str| line@)
}

/// The encodings of the lines put together, each followed by a newline.
pub open spec fn joined(lines: Seq<Seq<char>>) -> Seq<u8>
    decreases lines.len(),
{
    if lines.len() == 0 {
        Seq::empty()
    } else {
        encode_utf8(lines[0]) + seq![0x0au8] + joined(lines.drop_first())
    }
}

/// The bytes from `begin` on, with a newline behind them where there are
/// such bytes and the last of them is no newline.
pub open spec fn terminated(bytes: Seq<u8>, begin: int) -> Seq<u8> {
    let rest = bytes.subrange(begin, bytes.len() as int);
    if begin < bytes.len() && bytes.last() != 0x0a {
        rest + seq![0x0au8]
    } else {
        rest
    }
}

/// A text that holds the newline character has an encoding that holds the
/// newline byte.
pub proof fn lemma_newline_is_encoded(text: Seq<char>)
    requires
        text.contains('\n'),
    ensures
        encode_utf8(text).contains(0x0au8),
    decreases text.len(),
{
    let first = encode_scalar(text[0] as u32);
    let rest = encode_utf8(text.drop_first());
    if text[0] == '\n' {
        assert((0x0au32 & 0x7F) as u8 == 0x0au8) by (bit_vector);
        assert(first[0] == 0x0au8);
        assert(encode_utf8(text)[0] == 0x0au8);
    } else {
        let at = choose|at: int| 0 <= at < text.len() && text[at] == '\n';
        assert(text.drop_first()[at - 1] == '\n');
        lemma_newline_is_encoded(text.drop_first());
        let byte = choose|byte: int| 0 <= byte < rest.len() && rest[byte] == 0x0au8;
        assert(encode_utf8(text)[first.len() + byte] == 0x0au8);
    }
}

/// What `lines_from` returns, where `begin` is a character boundary and
/// `begin..at` holds no newline: no line holds a newline, and the lines put
/// together, each followed by a newline, are the bytes from `begin` on, with
/// a newline behind them where they do not end in one.
pub proof fn lemma_lines_from(bytes: Seq<u8>, begin: int, at: int)
    requires
        valid_utf8(bytes),
        0 <= begin <= at <= bytes.len(),
        is_char_boundary(bytes, begin),
        forall|i: int| begin <= i < at ==> bytes[i] != 0x0a,
    ensures
        forall|k: int|
            0 <= k < lines_from(bytes, begin, at).len() ==> {
                &&& !encode_utf8(#[trigger] lines_from(bytes, begin, at)[k]).contains(0x0au8)
                &&& !lines_from(bytes, begin, at)[k].contains('\n')
            },
        joined(lines_from(bytes, begin, at)) == terminated(bytes, begin),
    decreases bytes.len() - at,
{
    let len = bytes.len() as int;
    let lines = lines_from(bytes, begin, at);
    if at >= len {
        if begin < len {
            is_char_boundary_start_end_of_seq(bytes);
            lemma_span_bytes(bytes, begin, len);
            let line = span_text(bytes, begin, len);
            assert(lines.drop_first() =~= Seq::<Seq<char>>::empty());
            assert(joined(lines.drop_first()) =~= Seq::<u8>::empty());
            assert(bytes.last() == bytes[len - 1]);
            assert(joined(lines) =~= terminated(bytes, begin));
            if line.contains('\n') {
                lemma_newline_is_encoded(line);
            }
        } else {
            assert(joined(lines) =~= terminated(bytes, begin));
        }
    } else if bytes[at] == 0x0a {
        is_char_boundary_iff_not_is_continuation_byte(bytes, at);
        lemma_next_boundary(bytes, at);
        assert(bytes.subrange(at, len)[0] == bytes[at]);
        lemma_span_bytes(bytes, begin, at);
        lemma_lines_from(bytes, at + 1, at + 1);
        let line = span_text(bytes, begin, at);
        let rest = lines_from(bytes, at + 1, at + 1);
        assert(lines.drop_first() =~= rest);
        assert(bytes.subrange(begin, at) + seq![0x0au8] + bytes.subrange(at + 1, len)
            =~= bytes.subrange(begin, len));
        assert(joined(lines) =~= terminated(bytes, begin));
        if line.contains('\n') {
            lemma_newline_is_encoded(line);
        }
        assert forall|k: int| 0 <= k < lines.len() implies !encode_utf8(
            #[trigger] lines[k],
        ).contains(0x0au8) && !lines[k].contains('\n') by {
            if k > 0 {
                assert(lines[k] == rest[k - 1]);
            }
        }
    } else {
        lemma_lines_from(bytes, begin, at + 1);
    }
}

/// The lines of a text: no line holds a newline, and the lines put together,
/// each followed by a newline, are the text, with a newline behind it where
/// it does not end in one.
pub proof fn lemma_lines_of(contents: Seq<char>)
    ensures
        forall|k: int|
            0 <= k < lines_of(contents).len() ==> !(#[trigger] lines_of(contents)[k]).contains(
                '\n',
            ),
        joined(lines_of(contents)) == terminated(encode_utf8(contents), 0),
{
    let bytes = encode_utf8(contents);
    encode_utf8_valid_utf8(contents);
    is_char_boundary_start_end_of_seq(bytes);
    lemma_lines_from(bytes, 0, 0);
}

/// The empty text has no lines.
pub proof fn lemma_empty_text_has_no_lines(contents: Seq<char>)
    requires
        contents.len() == 0,
    ensures
        lines_of(contents).len() == 0,
{
    assert(encode_utf8(contents).len() == 0);
}

/// Cuts a text into its lines.
pub fn split_lines<'a>(contents: &'a str) -> (lines: Vec<&'a str>)
    ensures
        texts(lines@) == lines_of(contents@),
{
    let bytes = contents.as_bytes();
    let mut lines: Vec<&'a str> = Vec::new();
    let mut begin: usize = 0;
    let mut at: usize = 0;
    proof {
        encode_utf8_valid_utf8(contents@);
        is_char_boundary_start_end_of_seq(bytes@);
        assert(texts(lines@) + lines_from(bytes@, 0, 0) =~= lines_from(bytes@, 0, 0));
    }
    while at < bytes.len()
        invariant
            bytes@ == encode_utf8(contents@),
            valid_utf8(bytes@),
            begin <= at <= bytes.len(),
            is_char_boundary(bytes@, begin as int),
            texts(lines@) + lines_from(bytes@, begin as int, at as int) == lines_of(contents@),
        decreases bytes.len() - at,
    {
        if bytes[at] == 0x0a {
            let ghost before = texts(lines@);
            proof {
                is_char_boundary_iff_not_is_continuation_byte(bytes@, at as int);
                lemma_next_boundary(bytes@, at as int);
                assert(bytes@.subrange(at as int, bytes@.len() as int)[0] == bytes@[at as int]);
            }
            let line = substring(contents, begin, at);
            lines.push(line);
            assert(texts(lines@) =~= before.push(span_text(bytes@, begin as int, at as int)));
            assert(texts(lines@) + lines_from(bytes@, at + 1, at + 1) =~= before + lines_from(
                bytes@,
                begin as int,
                at as int,
            ));
            begin = at + 1;
        }
        at += 1;
    }
    if begin < bytes.len() {
        let ghost before = texts(lines@);
        proof {
            is_char_boundary_start_end_of_seq(bytes@);
        }
        let line = substring(contents, begin, bytes.len());
        lines.push(line);
        assert(texts(lines@) =~= before.push(
            span_text(bytes@, begin as int, bytes@.len() as int),
        ));
    } else {
        assert(texts(lines@) + Seq::<Seq<char>>::empty() =~= texts(lines@));
    }
    lines
}

} // verus!
