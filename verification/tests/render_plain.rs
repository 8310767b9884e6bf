use minigrep::{highlighted_line, paint, search_in_line, Line, LineMatch, SegmentKind};

#[test]
fn without_colours_text_is_shown_as_it_is() {
    colored::control::set_override(false);
    assert_eq!(paint(SegmentKind::ExactCase, "Te"), "Te");
    assert_eq!(paint(SegmentKind::FoldedCase, "e"), "e");
    assert_eq!(paint(SegmentKind::InsideMatch, "T"), "T");
    assert_eq!(paint(SegmentKind::Plain, "T"), "T");
}

#[test]
fn without_colours_a_match_is_its_text() {
    colored::control::set_override(false);
    let record = LineMatch::new(0, 4, false, String::from("duct"));
    assert_eq!(record.get_value_to_highlight("Duct tape."), "Duct");
}

#[test]
fn without_colours_a_line_is_shown_as_it_is() {
    colored::control::set_override(false);
    let line = "Rust: rust";
    let mut found = Line::new(0);
    for record in search_in_line("Rust", line) {
        found.add_match(record);
    }
    assert_eq!(highlighted_line(&found, line), line);
}

#[test]
fn without_colours_a_line_with_an_escape_character_is_shown_as_it_is() {
    colored::control::set_override(false);
    let line = "a\x1b[0mb A";
    let mut found = Line::new(0);
    for record in search_in_line("a", line) {
        found.add_match(record);
    }
    assert_eq!(found.matchs.len(), 2);
    assert_eq!(highlighted_line(&found, line), line);
}
