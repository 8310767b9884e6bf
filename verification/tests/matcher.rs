use minigrep::{search_in_line, LineMatch};

fn spans(matches: &Vec<LineMatch>) -> Vec<(usize, usize, bool)> {
    matches.iter().map(|m| (m.start, m.end, m.case_sensitive)).collect()
}

#[test]
fn exact_and_folded_occurrence() {
    let matches = search_in_line("Rust", "Rust: rust");
    assert_eq!(spans(&matches), vec![(0, 4, true), (6, 10, false)]);
    assert_eq!(matches[0].query, "Rust");
    assert_eq!(matches[1].query, "Rust");
}

#[test]
fn lowercase_query_finds_capitalised_text() {
    let matches = search_in_line("duct", "Duct tape.");
    assert_eq!(spans(&matches), vec![(0, 4, false)]);
}

#[test]
fn occurrence_inside_a_word() {
    let matches = search_in_line("duct", "safe, fast, productive.");
    assert_eq!(spans(&matches), vec![(15, 19, true)]);
}

#[test]
fn empty_query_has_no_matches() {
    assert!(search_in_line("", "Rust: rust").is_empty());
    assert!(search_in_line("", "").is_empty());
}

#[test]
fn empty_line_has_no_matches() {
    assert!(search_in_line("rust", "").is_empty());
}

#[test]
fn query_longer_than_line_has_no_matches() {
    assert!(search_in_line("TESTESTES", "Rust:").is_empty());
}

#[test]
fn no_occurrence() {
    assert!(search_in_line("xyz", "safe, fast, productive.").is_empty());
}

#[test]
fn occurrences_do_not_overlap() {
    assert_eq!(spans(&search_in_line("aa", "aaaa")), vec![(0, 2, true), (2, 4, true)]);
    assert_eq!(spans(&search_in_line("aa", "aaa")), vec![(0, 2, true)]);
    assert_eq!(spans(&search_in_line("aba", "ababa")), vec![(0, 3, true)]);
    assert_eq!(spans(&search_in_line("aba", "abaXABA")), vec![(0, 3, true), (4, 7, false)]);
}

#[test]
fn matches_are_sorted_and_disjoint() {
    let matches = search_in_line("a", "banana bandana");
    assert_eq!(matches.len(), 6);
    for pair in matches.windows(2) {
        assert!(pair[0].end <= pair[1].start);
    }
    for m in &matches {
        assert!(m.start < m.end);
    }
}

#[test]
fn every_match_folds_to_the_query() {
    let line = "Grep GREP grep gReP";
    let matches = search_in_line("gRep", line);
    assert_eq!(matches.len(), 4);
    for m in &matches {
        assert_eq!(line[m.start..m.end].to_lowercase(), "grep");
        assert_eq!(m.case_sensitive, &line[m.start..m.end] == "gRep");
    }
}

#[test]
fn offsets_are_byte_offsets() {
    let matches = search_in_line("é", "cafÉ é");
    assert_eq!(spans(&matches), vec![(3, 5, false), (6, 8, true)]);
}

#[test]
fn lowercasing_that_changes_length_drops_the_occurrence() {
    // The capital dotted I takes two bytes, and its lowercase form three:
    // the offset found in the lowercase line lies behind the end of the line.
    assert!(search_in_line("x", "\u{130}x").is_empty());
}

#[test]
fn new_keeps_the_fields() {
    let record = LineMatch::new(3, 7, true, String::from("word"));
    assert_eq!(record.start, 3);
    assert_eq!(record.end, 7);
    assert!(record.case_sensitive);
    assert_eq!(record.query, "word");
}

#[test]
fn fits_line_tells_spans_from_other_offsets() {
    let line = "cafÉ";
    assert!(LineMatch::new(0, 5, false, String::new()).fits_line(line));
    assert!(LineMatch::new(3, 5, false, String::new()).fits_line(line));
    assert!(LineMatch::new(2, 2, false, String::new()).fits_line(line));
    assert!(!LineMatch::new(3, 4, false, String::new()).fits_line(line));
    assert!(!LineMatch::new(4, 5, false, String::new()).fits_line(line));
    assert!(!LineMatch::new(0, 6, false, String::new()).fits_line(line));
    assert!(!LineMatch::new(3, 2, false, String::new()).fits_line(line));
}
