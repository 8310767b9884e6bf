use minigrep::{
    get_highligted_results, highlighted_line, paint, render, search_in_line, HighlightStringIndex,
    Line, LineMatch, Segment, SegmentKind,
};

const GREEN: &str = "\x1b[32m";
const YELLOW: &str = "\x1b[33m";
const RESET: &str = "\x1b[0m";

fn strip_markup(text: &str) -> String {
    text.replace(GREEN, "").replace(YELLOW, "").replace(RESET, "")
}

fn line_of(query: &str, line: &str) -> Line {
    let mut found = Line::new(0);
    for record in search_in_line(query, line) {
        found.add_match(record);
    }
    found
}

#[test]
fn emphasised_text_is_green() {
    colored::control::set_override(true);
    assert_eq!(paint(SegmentKind::ExactCase, "Te"), format!("{GREEN}Te{RESET}"));
    assert_eq!(paint(SegmentKind::FoldedCase, "e"), format!("{GREEN}e{RESET}"));
}

#[test]
fn text_inside_a_match_is_yellow() {
    colored::control::set_override(true);
    assert_eq!(paint(SegmentKind::InsideMatch, "T"), format!("{YELLOW}T{RESET}"));
}

#[test]
fn plain_text_is_not_painted() {
    colored::control::set_override(true);
    assert_eq!(paint(SegmentKind::Plain, " amo Ariane"), " amo Ariane");
}

#[test]
fn exact_match_is_painted_whole() {
    colored::control::set_override(true);
    let record = LineMatch::new(0, 2, true, String::from("Te"));
    assert_eq!(record.get_value_to_highlight("Te amo Ariane"), format!("{GREEN}Te{RESET}"));
}

#[test]
fn near_match_is_painted_letter_by_letter() {
    colored::control::set_override(true);
    let record = LineMatch::new(0, 4, false, String::from("duct"));
    assert_eq!(
        record.get_value_to_highlight("Duct tape."),
        format!("{YELLOW}D{RESET}{GREEN}u{RESET}{GREEN}c{RESET}{GREEN}t{RESET}")
    );
}

#[test]
fn segments_are_rendered_in_order() {
    colored::control::set_override(true);
    let segments = vec![
        Segment { kind: SegmentKind::Plain, start: 0, end: 2 },
        Segment { kind: SegmentKind::ExactCase, start: 2, end: 4 },
        Segment { kind: SegmentKind::InsideMatch, start: 4, end: 5 },
        Segment { kind: SegmentKind::FoldedCase, start: 5, end: 6 },
    ];
    assert_eq!(
        render(&segments, "abcdef"),
        format!("ab{GREEN}cd{RESET}{YELLOW}e{RESET}{GREEN}f{RESET}")
    );
}

#[test]
fn highlighted_line_keeps_the_text_around_matches() {
    colored::control::set_override(true);
    let line = "safe, fast, productive.";
    assert_eq!(
        highlighted_line(&line_of("duct", line), line),
        format!("safe, fast, pro{GREEN}duct{RESET}ive.")
    );
    let line = "Rust: rust";
    assert_eq!(
        highlighted_line(&line_of("Rust", line), line),
        format!("{GREEN}Rust{RESET}: {YELLOW}r{RESET}{GREEN}u{RESET}{GREEN}s{RESET}{GREEN}t{RESET}")
    );
}

#[test]
fn highlighted_line_without_matches_is_the_line() {
    colored::control::set_override(true);
    assert_eq!(highlighted_line(&Line::new(3), "Pick three."), "Pick three.");
    assert_eq!(highlighted_line(&Line::new(0), ""), "");
    assert_eq!(highlighted_line(&line_of("zzz", "Pick three."), "Pick three."), "Pick three.");
}

#[test]
fn stripping_the_markup_gives_the_line_back() {
    colored::control::set_override(true);
    let lines = ["", "a", "banana bandana", "no match here", "cafÉ é CAFé", "Aa aA AA aa"];
    let queries = ["a", "an", "é", "aa", "zzz", "banana bandana", ""];
    for line in lines {
        for query in queries {
            let shown = highlighted_line(&line_of(query, line), line);
            assert_eq!(strip_markup(&shown), line);
        }
    }
}

#[test]
fn highligted_results() {
    colored::control::set_override(true);
    let contents = "Te amo Ariane";
    let results = vec![HighlightStringIndex::new(0, 2, true, 0)];
    let expected = vec![format!("{GREEN}Te{RESET} amo Ariane")];
    assert_eq!(expected, get_highligted_results(results, contents));
}

#[test]
fn index_that_is_not_exact_shows_its_line_unchanged() {
    colored::control::set_override(true);
    let contents = "first\nTe amo Ariane\nlast";
    let results = vec![
        HighlightStringIndex::new(3, 6, false, 1),
        HighlightStringIndex::new(0, 4, true, 2),
    ];
    let expected = vec![String::from("Te amo Ariane"), format!("{GREEN}last{RESET}")];
    assert_eq!(expected, get_highligted_results(results, contents));
}

#[test]
fn colour_is_switched_on_again_behind_a_reset_code_in_the_text() {
    colored::control::set_override(true);
    assert_eq!(
        paint(SegmentKind::ExactCase, "a\x1b[0mb"),
        format!("{GREEN}a{RESET}{GREEN}b{RESET}")
    );
}

#[test]
fn escape_character_that_begins_no_code_comes_back_too() {
    colored::control::set_override(true);
    for (query, line) in [("a", "a\x1b"), ("a", "\x1ba"), ("m", "\x1b[32M"), ("2m", "x\x1b[3 2M")] {
        let shown = highlighted_line(&line_of(query, line), line);
        assert!(shown.len() > line.len());
        assert_eq!(strip_markup(&shown), line);
        for record in search_in_line(query, line) {
            let painted = record.get_value_to_highlight(line);
            assert_eq!(strip_markup(&painted), &line[record.start..record.end]);
        }
    }
}

#[test]
fn results_for_indexes_are_their_lines_without_the_markup() {
    colored::control::set_override(true);
    let contents = "first\nTe amo \x1bAriane\nlast";
    let indexes = vec![
        HighlightStringIndex::new(0, 2, true, 1),
        HighlightStringIndex::new(3, 6, false, 1),
        HighlightStringIndex::new(0, 5, true, 0),
    ];
    let results = get_highligted_results(indexes, contents);
    assert_eq!(results.len(), 3);
    assert_eq!(results[0], format!("{GREEN}Te{RESET} amo \x1bAriane"));
    assert_eq!(strip_markup(&results[0]), "Te amo \x1bAriane");
    assert_eq!(strip_markup(&results[1]), "Te amo \x1bAriane");
    assert_eq!(strip_markup(&results[2]), "first");
}
