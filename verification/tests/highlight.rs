use minigrep::{assemble_segments, search_in_line, segments_fit, LineMatch, Segment, SegmentKind};

fn seg(kind: SegmentKind, start: usize, end: usize) -> Segment {
    Segment { kind, start, end }
}

fn text_of(segments: &Vec<Segment>, line: &str) -> String {
    let mut text = String::new();
    for segment in segments {
        text.push_str(&line[segment.start..segment.end]);
    }
    text
}

#[test]
fn exact_match_is_one_segment() {
    let record = LineMatch::new(15, 19, true, String::from("duct"));
    let segments = record.segments("safe, fast, productive.");
    assert_eq!(segments, vec![seg(SegmentKind::ExactCase, 15, 19)]);
}

#[test]
fn near_match_shows_the_letters_that_agree() {
    let record = LineMatch::new(0, 4, false, String::from("duct"));
    let segments = record.segments("Duct tape.");
    assert_eq!(
        segments,
        vec![
            seg(SegmentKind::InsideMatch, 0, 1),
            seg(SegmentKind::FoldedCase, 1, 2),
            seg(SegmentKind::FoldedCase, 2, 3),
            seg(SegmentKind::FoldedCase, 3, 4),
        ]
    );
}

#[test]
fn near_match_with_no_letter_in_common() {
    let record = LineMatch::new(2, 6, false, String::from("rust"));
    let segments = record.segments("a RUST b");
    assert_eq!(segments, vec![seg(SegmentKind::InsideMatch, 2, 6)]);
}

#[test]
fn near_match_marks_the_rest_behind_the_last_letter() {
    let record = LineMatch::new(0, 2, false, String::from("ab"));
    let segments = record.segments("aB");
    assert_eq!(
        segments,
        vec![seg(SegmentKind::FoldedCase, 0, 1), seg(SegmentKind::InsideMatch, 1, 2)]
    );
}

#[test]
fn repeated_letter_is_looked_for_behind_the_last_one_found() {
    let record = LineMatch::new(0, 3, false, String::from("aba"));
    let segments = record.segments("aBa");
    assert_eq!(
        segments,
        vec![
            seg(SegmentKind::FoldedCase, 0, 1),
            seg(SegmentKind::InsideMatch, 1, 2),
            seg(SegmentKind::FoldedCase, 2, 3),
        ]
    );
}

#[test]
fn letter_found_only_before_the_place_of_the_search_is_skipped() {
    let record = LineMatch::new(0, 2, false, String::from("aA"));
    let segments = record.segments("Aa");
    assert_eq!(
        segments,
        vec![seg(SegmentKind::InsideMatch, 0, 1), seg(SegmentKind::FoldedCase, 1, 2)]
    );
}

#[test]
fn near_match_is_not_searched_outside_its_span() {
    let record = LineMatch::new(2, 4, false, String::from("ab"));
    let segments = record.segments("abABab");
    assert_eq!(segments, vec![seg(SegmentKind::InsideMatch, 2, 4)]);
}

#[test]
fn letters_of_more_than_one_byte() {
    let line = "éA";
    let record = LineMatch::new(0, 3, false, String::from("éa"));
    let segments = record.segments(line);
    assert_eq!(
        segments,
        vec![seg(SegmentKind::FoldedCase, 0, 2), seg(SegmentKind::InsideMatch, 2, 3)]
    );
}

#[test]
fn empty_match_has_no_segments() {
    let record = LineMatch::new(2, 2, false, String::from("x"));
    assert!(record.segments("abcd").is_empty());
    let record = LineMatch::new(2, 2, true, String::from("x"));
    assert!(record.segments("abcd").is_empty());
}

#[test]
fn segments_of_a_match_hold_its_text() {
    let line = "Grep GREP grep gReP";
    for record in search_in_line("gRep", line) {
        let segments = record.segments(line);
        assert_eq!(text_of(&segments, line), &line[record.start..record.end]);
        assert_eq!(segments.first().unwrap().start, record.start);
        assert_eq!(segments.last().unwrap().end, record.end);
    }
}

#[test]
fn line_is_cut_around_its_matches() {
    let line = "Rust: rust";
    let segments = assemble_segments(&search_in_line("Rust", line), line);
    assert_eq!(
        segments,
        vec![
            seg(SegmentKind::ExactCase, 0, 4),
            seg(SegmentKind::Plain, 4, 6),
            seg(SegmentKind::InsideMatch, 6, 7),
            seg(SegmentKind::FoldedCase, 7, 8),
            seg(SegmentKind::FoldedCase, 8, 9),
            seg(SegmentKind::FoldedCase, 9, 10),
        ]
    );
}

#[test]
fn line_without_matches_is_one_plain_segment() {
    let segments = assemble_segments(&Vec::new(), "Pick three.");
    assert_eq!(segments, vec![seg(SegmentKind::Plain, 0, 11)]);
    assert!(assemble_segments(&Vec::new(), "").is_empty());
}

#[test]
fn segments_of_a_line_hold_the_line() {
    let lines = ["", "a", "banana bandana", "no match here", "cafÉ é CAFé", "Aa aA AA aa"];
    let queries = ["a", "an", "é", "aa", "zzz", "banana bandana", ""];
    for line in lines {
        for query in queries {
            let segments = assemble_segments(&search_in_line(query, line), line);
            assert_eq!(text_of(&segments, line), line);
            assert!(segments_fit(&segments, line));
            let mut at = 0;
            for segment in &segments {
                assert_eq!(segment.start, at);
                assert!(segment.start < segment.end);
                at = segment.end;
            }
            assert_eq!(at, line.len());
        }
    }
}

#[test]
fn matches_that_overlap_or_do_not_fit_are_passed_over() {
    let line = "abcdef";
    let matches = vec![
        LineMatch::new(2, 4, true, String::from("cd")),
        LineMatch::new(3, 5, true, String::from("de")),
        LineMatch::new(0, 1, true, String::from("a")),
        LineMatch::new(5, 9, true, String::from("f...")),
        LineMatch::new(5, 6, true, String::from("f")),
    ];
    let segments = assemble_segments(&matches, line);
    assert_eq!(
        segments,
        vec![
            seg(SegmentKind::Plain, 0, 2),
            seg(SegmentKind::ExactCase, 2, 4),
            seg(SegmentKind::Plain, 4, 5),
            seg(SegmentKind::ExactCase, 5, 6),
        ]
    );
    assert_eq!(text_of(&segments, line), line);
}

#[test]
fn segments_fit_tells_spans_from_other_offsets() {
    let line = "cafÉ";
    assert!(segments_fit(&vec![seg(SegmentKind::Plain, 0, 3), seg(SegmentKind::Plain, 3, 5)], line));
    assert!(!segments_fit(&vec![seg(SegmentKind::Plain, 0, 4)], line));
    assert!(!segments_fit(&vec![seg(SegmentKind::Plain, 0, 3), seg(SegmentKind::Plain, 3, 6)], line));
    assert!(segments_fit(&Vec::new(), line));
}
