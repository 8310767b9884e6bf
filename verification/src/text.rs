//! Byte-level view of UTF-8 text: spans, slicing and substring search.
//!
//! Offsets throughout the crate are byte offsets into the UTF-8 encoding of a
//! string. A span is a pair of offsets that both fall on character
//! boundaries, so that the bytes between them are again a string.

use vstd::prelude::*;
use vstd::string::*;
use vstd::utf8::*;

verus! {

/// `start..end` is a range of `bytes` that begins and ends on a character
/// boundary.
pub open spec fn is_span(bytes: Seq<u8>, start: int, end: int) -> bool {
    &&& 0 <= start <= end <= bytes.len()
    &&& is_char_boundary(bytes, start)
    &&& is_char_boundary(bytes, end)
}

/// The characters encoded by `bytes[start..end]`.
pub open spec fn span_text(bytes: Seq<u8>, start: int, end: int) -> Seq<char> {
    decode_utf8(bytes.subrange(start, end))
}

/// `needle` stands in `hay` at offset `at`.
pub open spec fn occurs_at(hay: Seq<u8>, needle: Seq<u8>, at: int) -> bool {
    &&& 0 <= at
    &&& at + needle.len() <= hay.len()
    &&& hay.subrange(at, at + needle.len()) == needle
}

/// A character boundary that is not the end of the text is followed by a
/// complete character, and the offset behind that character is a boundary
/// again.
pub proof fn lemma_next_boundary(bytes: Seq<u8>, at: int)
    requires
        valid_utf8(bytes),
        is_char_boundary(bytes, at),
        0 <= at < bytes.len(),
    ensures
        valid_first_scalar(bytes.subrange(at, bytes.len() as int)),
        at + length_of_first_scalar(bytes.subrange(at, bytes.len() as int)) <= bytes.len(),
        is_char_boundary(
            bytes,
            at + length_of_first_scalar(bytes.subrange(at, bytes.len() as int)),
        ),
    decreases bytes.len(),
{
    let len = bytes.len() as int;
    let rest = pop_first_scalar(bytes);
    let first = length_of_first_scalar(bytes);
    if at == 0 {
        assert(bytes.subrange(0, len) =~= bytes);
        is_char_boundary_start_end_of_seq(rest);
        if first < len {
            assert(is_char_boundary(rest, 0));
        }
    } else {
        assert(is_char_boundary(rest, at - first));
        assert(at - first != 0 ==> 0 <= at - first <= rest.len());
        assert(rest.subrange(at - first, rest.len() as int) =~= bytes.subrange(at, len));
        lemma_next_boundary(rest, at - first);
    }
}

/// A boundary of the whole text that lies inside a prefix cut at a boundary
/// is a boundary of that prefix.
pub proof fn lemma_boundary_in_prefix(bytes: Seq<u8>, at: int, end: int)
    requires
        valid_utf8(bytes),
        is_span(bytes, at, end),
    ensures
        valid_utf8(bytes.subrange(0, end)),
        is_char_boundary(bytes.subrange(0, end), at),
{
    let prefix = bytes.subrange(0, end);
    valid_utf8_split(bytes, end);
    if at == end {
        is_char_boundary_start_end_of_seq(prefix);
    } else {
        is_char_boundary_iff_not_is_continuation_byte(bytes, at);
        is_char_boundary_iff_not_is_continuation_byte(prefix, at);
    }
}

/// A boundary of the whole text that lies behind a boundary at which a
/// suffix is cut off is a boundary of that suffix.
pub proof fn lemma_boundary_in_suffix(bytes: Seq<u8>, start: int, at: int)
    requires
        valid_utf8(bytes),
        is_span(bytes, start, at),
    ensures
        valid_utf8(bytes.subrange(start, bytes.len() as int)),
        is_char_boundary(bytes.subrange(start, bytes.len() as int), at - start),
{
    let suffix = bytes.subrange(start, bytes.len() as int);
    valid_utf8_split(bytes, start);
    if at == bytes.len() {
        is_char_boundary_start_end_of_seq(suffix);
    } else if at > start {
        is_char_boundary_iff_not_is_continuation_byte(bytes, at);
        is_char_boundary_iff_not_is_continuation_byte(suffix, at - start);
    }
}

/// The text of a span that is cut in two at a character boundary is the
/// text of the first part followed by the text of the second.
pub proof fn lemma_span_text_concat(bytes: Seq<u8>, from: int, mid: int, to: int)
    requires
        valid_utf8(bytes),
        is_span(bytes, from, mid),
        is_span(bytes, mid, to),
    ensures
        span_text(bytes, from, to) == span_text(bytes, from, mid) + span_text(bytes, mid, to),
{
    let prefix = bytes.subrange(0, to);
    lemma_boundary_in_prefix(bytes, from, to);
    lemma_boundary_in_prefix(bytes, mid, to);
    is_char_boundary_start_end_of_seq(prefix);
    let part = prefix.subrange(from, to);
    lemma_boundary_in_suffix(prefix, from, mid);
    assert(part =~= bytes.subrange(from, to));
    decode_utf8_split(part, mid - from);
    assert(part.subrange(0, mid - from) =~= bytes.subrange(from, mid));
    assert(part.subrange(mid - from, part.len() as int) =~= bytes.subrange(mid, to));
}

/// The text of a span is encoded by the bytes of the span.
pub proof fn lemma_span_bytes(bytes: Seq<u8>, start: int, end: int)
    requires
        valid_utf8(bytes),
        is_span(bytes, start, end),
    ensures
        valid_utf8(bytes.subrange(start, end)),
        encode_utf8(span_text(bytes, start, end)) == bytes.subrange(start, end),
{
    let prefix = bytes.subrange(0, end);
    lemma_boundary_in_prefix(bytes, start, end);
    valid_utf8_split(prefix, start);
    assert(prefix.subrange(start, prefix.len() as int) =~= bytes.subrange(start, end));
    decode_utf8_encode_utf8(bytes.subrange(start, end));
}

/// The part of `s` between two character boundaries.
pub fn substring<'a>(s: &'a str, start: usize, end: usize) -> (part: &'a str)
    requires
        is_span(s.spec_bytes(), start as int, end as int),
    ensures
        part.spec_bytes() == s.spec_bytes().subrange(start as int, end as int),
        part@ == span_text(s.spec_bytes(), start as int, end as int),
{
    proof {
        encode_utf8_valid_utf8(s@);
        lemma_boundary_in_prefix(s.spec_bytes(), start as int, end as int);
    }
    let (head, _) = s.split_at(end);
    let (_, part) = head.split_at(start);
    proof {
        assert(part.spec_bytes() =~= s.spec_bytes().subrange(start as int, end as int));
        encode_utf8_decode_utf8(part@);
    }
    part
}

/// Whether `start..end` is a span of `s`.
pub fn is_span_of(s: &str, start: usize, end: usize) -> (fits: bool)
    ensures
        fits == is_span(s.spec_bytes(), start as int, end as int),
{
    proof {
        encode_utf8_valid_utf8(s@);
    }
    start <= end && end <= s.as_bytes().len() && s.is_char_boundary(start) && s.is_char_boundary(
        end,
    )
}

/// Whether `needle` stands in `hay` at offset `at`.
pub fn matches_at(hay: &[u8], needle: &[u8], at: usize) -> (found: bool)
    ensures
        found == occurs_at(hay@, needle@, at as int),
{
    if at > hay.len() || needle.len() > hay.len() - at {
        return false;
    }
    let mut k: usize = 0;
    while k < needle.len()
        invariant
            k <= needle.len(),
            at + needle.len() <= hay.len(),
            forall|j: int| 0 <= j < k ==> hay@[at + j] == needle@[j],
        decreases needle.len() - k,
    {
        if hay[at + k] != needle[k] {
            assert(hay@.subrange(at as int, at + needle.len())[k as int] != needle@[k as int]);
            return false;
        }
        k += 1;
    }
    assert(hay@.subrange(at as int, at + needle.len()) =~= needle@);
    true
}

/// Whether the two byte strings are the same.
pub fn same_bytes(a: &[u8], b: &[u8]) -> (same: bool)
    ensures
        same == (a@ == b@),
{
    if a.len() != b.len() {
        return false;
    }
    let same = matches_at(a, b, 0);
    assert(a@.subrange(0, a.len() as int) =~= a@);
    same
}

/// The first offset in `from..=last` at which `needle` stands in `hay`, if
/// there is one. `last` is the greatest offset that is looked at.
pub open spec fn first_occurrence(hay: Seq<u8>, needle: Seq<u8>, from: int, last: int) -> Option<
    int,
>
    decreases last - from + 1,
{
    if from < 0 || from > last {
        None
    } else if occurs_at(hay, needle, from) {
        Some(from)
    } else {
        first_occurrence(hay, needle, from + 1, last)
    }
}

/// What `first_occurrence` returns is the least offset in the range at which
/// the needle stands, and it returns `None` only where there is none.
pub proof fn lemma_first_occurrence(hay: Seq<u8>, needle: Seq<u8>, from: int, last: int)
    requires
        0 <= from,
    ensures
        match first_occurrence(hay, needle, from, last) {
            Some(at) => {
                &&& from <= at <= last
                &&& occurs_at(hay, needle, at)
                &&& forall|i: int| from <= i < at ==> !occurs_at(hay, needle, i)
            },
            None => forall|i: int| from <= i <= last ==> !occurs_at(hay, needle, i),
        },
    decreases last - from + 1,
{
    if from <= last && !occurs_at(hay, needle, from) {
        lemma_first_occurrence(hay, needle, from + 1, last);
    }
}

/// Finds the first offset in `from..=last` at which `needle` stands in `hay`.
pub fn find_first(hay: &[u8], needle: &[u8], from: usize, last: usize) -> (found: Option<usize>)
    ensures
        match found {
            Some(at) => first_occurrence(hay@, needle@, from as int, last as int) == Some(
                at as int,
            ),
            None => first_occurrence(hay@, needle@, from as int, last as int) is None,
        },
{
    let mut at: usize = from;
    while at <= last
        invariant
            from <= at,
            first_occurrence(hay@, needle@, from as int, last as int) == first_occurrence(
                hay@,
                needle@,
                at as int,
                last as int,
            ),
        decreases last - at + 1,
    {
        if matches_at(hay, needle, at) {
            return Some(at);
        }
        if at == last {
            assert(first_occurrence(hay@, needle@, at + 1, last as int) is None);
            return None;
        }
        at += 1;
    }
    None
}

/// The offsets at which `needle` stands in `hay`, found from left to right
/// starting at `from`, where the search goes on behind each occurrence: the
/// occurrences do not overlap. An empty needle occurs nowhere.
pub open spec fn occurrences(hay: Seq<u8>, needle: Seq<u8>, from: int) -> Seq<int>
    decreases hay.len() - from,
{
    if needle.len() == 0 || from < 0 || from + needle.len() > hay.len() {
        Seq::empty()
    } else if occurs_at(hay, needle, from) {
        seq![from] + occurrences(hay, needle, from + needle.len())
    } else {
        occurrences(hay, needle, from + 1)
    }
}

/// Each offset that `occurrences` returns is one at which the needle stands.
pub proof fn lemma_occurrences_occur(hay: Seq<u8>, needle: Seq<u8>, from: int, k: int)
    requires
        0 <= from,
        0 <= k < occurrences(hay, needle, from).len(),
    ensures
        from <= occurrences(hay, needle, from)[k],
        occurs_at(hay, needle, occurrences(hay, needle, from)[k]),
    decreases hay.len() - from,
{
    if needle.len() == 0 || from + needle.len() > hay.len() {
    } else if occurs_at(hay, needle, from) {
        if k > 0 {
            lemma_occurrences_occur(hay, needle, from + needle.len(), k - 1);
        }
    } else {
        lemma_occurrences_occur(hay, needle, from + 1, k);
    }
}

/// The offsets that `occurrences` returns ascend, and no two of the
/// occurrences overlap: each begins at or behind the end of those before it.
pub proof fn lemma_occurrences_disjoint(
    hay: Seq<u8>,
    needle: Seq<u8>,
    from: int,
    j: int,
    k: int,
)
    requires
        0 <= from,
        0 <= j < k < occurrences(hay, needle, from).len(),
    ensures
        occurrences(hay, needle, from)[j] + needle.len() <= occurrences(hay, needle, from)[k],
    decreases hay.len() - from,
{
    if needle.len() == 0 || from + needle.len() > hay.len() {
    } else if occurs_at(hay, needle, from) {
        if j > 0 {
            lemma_occurrences_disjoint(hay, needle, from + needle.len(), j - 1, k - 1);
        } else {
            lemma_occurrences_occur(hay, needle, from + needle.len(), k - 1);
        }
    } else {
        lemma_occurrences_disjoint(hay, needle, from + 1, j, k);
    }
}

/// Every place at or behind `from` at which the needle stands begins inside
/// one of the occurrences that `occurrences` returns: none is passed over
/// but for overlapping one that was found.
pub proof fn lemma_occurrences_complete(hay: Seq<u8>, needle: Seq<u8>, from: int, at: int) -> (k:
    int)
    requires
        0 <= from <= at,
        needle.len() > 0,
        occurs_at(hay, needle, at),
    ensures
        0 <= k < occurrences(hay, needle, from).len(),
        occurrences(hay, needle, from)[k] <= at < occurrences(hay, needle, from)[k] + needle.len(),
    decreases hay.len() - from,
{
    if occurs_at(hay, needle, from) {
        if at < from + needle.len() {
            0
        } else {
            lemma_occurrences_complete(hay, needle, from + needle.len(), at) + 1
        }
    } else {
        lemma_occurrences_complete(hay, needle, from + 1, at)
    }
}

/// The offsets in a sequence of machine integers, as mathematical integers.
pub open spec fn offsets(v: Seq<usize>) -> Seq<int> {
    v.map_values(|at: usize| at as int)
}

/// Finds all occurrences of `needle` in `hay` that do not overlap, from left
/// to right.
pub fn find_all(hay: &[u8], needle: &[u8]) -> (found: Vec<usize>)
    ensures
        offsets(found@) == occurrences(hay@, needle@, 0),
{
    let mut found: Vec<usize> = Vec::new();
    if needle.len() == 0 || needle.len() > hay.len() {
        return found;
    }
    let last: usize = hay.len() - needle.len();
    let mut at: usize = 0;
    while at <= last
        invariant
            needle.len() > 0,
            last == hay.len() - needle.len(),
            offsets(found@) + occurrences(hay@, needle@, at as int) == occurrences(
                hay@,
                needle@,
                0,
            ),
        decreases hay.len() - at,
    {
        let ghost before = found@;
        if matches_at(hay, needle, at) {
            found.push(at);
            assert(offsets(found@) =~= offsets(before) + seq![at as int]);
            assert(offsets(found@) + occurrences(hay@, needle@, at + needle.len())
                =~= offsets(before) + occurrences(hay@, needle@, at as int));
            at += needle.len();
        } else {
            at += 1;
        }
    }
    assert(occurrences(hay@, needle@, at as int) =~= Seq::<int>::empty());
    assert(offsets(found@) + Seq::<int>::empty() =~= offsets(found@));
    found
}

} // verus!
