use minigrep::{
    get_highlighted_string_indexes, indexes_fit, search, search_case_sensitive,
    search_with_case_insensitive, split_lines, Config, HighlightStringIndex, Line, LineMatch,
    LineMatchCollection, SearchResult,
};

fn values(results: &Vec<SearchResult>) -> Vec<(String, usize)> {
    results.iter().map(|r| (r.value.clone(), r.line_index)).collect()
}

#[test]
fn search_finds_lines_with_matches() {
    let contents = "\nRust:\nsafe, fast, productive.\nPick three.\nDuct tape.";
    let entries = search("duct", contents);
    assert_eq!(entries.len(), 2);

    assert_eq!(entries[0].line_index, 2);
    assert_eq!(entries[0].line_content, "safe, fast, productive.");
    assert_eq!(entries[0].matchs.len(), 1);
    assert_eq!(entries[0].matchs[0].start, 15);
    assert_eq!(entries[0].matchs[0].end, 19);
    assert!(entries[0].matchs[0].case_sensitive);

    assert_eq!(entries[1].line_index, 4);
    assert_eq!(entries[1].line_content, "Duct tape.");
    assert_eq!(entries[1].matchs.len(), 1);
    assert_eq!(entries[1].matchs[0].start, 0);
    assert_eq!(entries[1].matchs[0].end, 4);
    assert!(!entries[1].matchs[0].case_sensitive);
}

#[test]
fn search_in_empty_text_finds_nothing() {
    assert!(search("duct", "").is_empty());
    assert!(search("", "").is_empty());
    assert!(search("\n", "").is_empty());
}

#[test]
fn search_with_empty_query_finds_nothing() {
    assert!(search("", "one\ntwo\n").is_empty());
}

#[test]
fn lines_shorter_than_the_query_are_counted() {
    let entries = search("productive", "ab\n\nshort\nmost productive.\nx\nProductive");
    assert_eq!(entries.len(), 2);
    assert_eq!(entries[0].line_index, 3);
    assert_eq!(entries[0].line_content, "most productive.");
    assert_eq!(entries[1].line_index, 5);
    assert_eq!(entries[1].line_content, "Productive");
}

#[test]
fn query_longer_than_every_line_finds_nothing() {
    assert!(search("a query that is longer", "a\nquery\nthat is\nlonger").is_empty());
}

#[test]
fn entries_are_in_the_order_of_the_text() {
    let entries = search("a", "a\nb\nA\n\nba\n");
    let indexes: Vec<usize> = entries.iter().map(|e| e.line_index).collect();
    assert_eq!(indexes, vec![0, 2, 4]);
}

#[test]
fn text_is_cut_at_newlines() {
    assert_eq!(split_lines("a\nb"), vec!["a", "b"]);
    assert_eq!(split_lines("a\nb\n"), vec!["a", "b"]);
    assert_eq!(split_lines("\na\n\nb"), vec!["", "a", "", "b"]);
    assert_eq!(split_lines("\n"), vec![""]);
    assert_eq!(split_lines("\n\n"), vec!["", ""]);
    assert_eq!(split_lines("no newline"), vec!["no newline"]);
    assert_eq!(split_lines("é\nÉ"), vec!["é", "É"]);
    assert!(split_lines("").is_empty());
}

#[test]
fn carriage_return_stays_in_the_line() {
    assert_eq!(split_lines("a\r\nb"), vec!["a\r", "b"]);
}

#[test]
fn one_result() {
    let query = "duct";
    let contents = "\nRust:\nsafe, fast, productive.\nPick three.\nDuct tape.";
    assert_eq!(
        values(&search_case_sensitive(query, contents)),
        vec![(String::from("safe, fast, productive."), 2)]
    );
}

#[test]
fn two_results() {
    let query = "t";
    let contents = "\nRust:\nsafe, fast, productive.\nPick hree.\nDuc ape.";
    assert_eq!(
        values(&search_case_sensitive(query, contents)),
        vec![(String::from("Rust:"), 1), (String::from("safe, fast, productive."), 2)]
    );
}

#[test]
fn case_sensitive() {
    let query = "rust";
    let contents = "\nRust:\nNot Rust";
    assert!(search_case_sensitive(query, contents).is_empty());
}

#[test]
fn case_insensitive() {
    let query = "rust";
    let contents = "\nRust:\nNot Rust";
    assert_eq!(
        values(&search_with_case_insensitive(query, contents)),
        vec![(String::from("Rust:"), 1), (String::from("Not Rust"), 2)]
    );
}

#[test]
fn empty_query_is_held_by_no_line() {
    assert!(search_with_case_insensitive("", "a\n\nb").is_empty());
    assert!(search_with_case_insensitive("", "a").is_empty());
    assert!(search_with_case_insensitive("", "").is_empty());
    assert!(search_case_sensitive("", "a\n\nb").is_empty());
    assert!(search_case_sensitive("", "a").is_empty());
    assert!(search_case_sensitive("", "").is_empty());
}

#[test]
fn searches_agree_on_the_lines_that_have_a_match() {
    let contents = "\nRust:\nsafe, fast, productive.\nPick three.\nDuct tape.";
    for query in ["duct", "RUST", "t", "", "zzz", "pick three."] {
        let lines: Vec<usize> =
            search_with_case_insensitive(query, contents).iter().map(|r| r.line_index).collect();
        let entries: Vec<usize> = search(query, contents).iter().map(|e| e.line_index).collect();
        assert_eq!(lines, entries);
    }
}

#[test]
fn results_indexes() {
    let query = "Rust";
    let contents = "\nRust: rust";
    let result = get_highlighted_string_indexes(query, contents, 0);
    assert_eq!(result.len(), 2);

    assert_eq!(result[0].start, 1);
    assert_eq!(result[0].end, 5);
    assert!(result[0].case_sensitive);
    assert_eq!(result[0].line_index, 0);

    assert_eq!(result[1].start, 7);
    assert_eq!(result[1].end, 11);
    assert!(!result[1].case_sensitive);
    assert_eq!(result[1].line_index, 0);
}

#[test]
fn indexes_carry_the_line_number_given() {
    let result = get_highlighted_string_indexes("a", "a A", 7);
    assert_eq!(result.len(), 2);
    assert_eq!(result[0].line_index, 7);
    assert_eq!(result[1].line_index, 7);
}

#[test]
fn empty_results() {
    let query = "TESTESTES";
    let contents = "\nRust:\nsafe, rust, productive.\nPick hree.\nDuc ape.";
    let result = get_highlighted_string_indexes(query, contents, 0);
    assert!(result.is_empty());
}

#[test]
fn indexes_fit_tells_lines_and_spans() {
    let contents = "first\ncafÉ";
    assert!(indexes_fit(&vec![HighlightStringIndex::new(0, 5, true, 0)], contents));
    assert!(indexes_fit(&vec![HighlightStringIndex::new(3, 5, true, 1)], contents));
    assert!(!indexes_fit(&vec![HighlightStringIndex::new(3, 4, true, 1)], contents));
    assert!(!indexes_fit(&vec![HighlightStringIndex::new(0, 6, true, 0)], contents));
    assert!(!indexes_fit(&vec![HighlightStringIndex::new(0, 1, true, 2)], contents));
    assert!(indexes_fit(&Vec::new(), contents));
}

#[test]
fn highlight_index_keeps_the_fields() {
    let index = HighlightStringIndex::new(1, 3, true, 4);
    assert_eq!(index.start, 1);
    assert_eq!(index.end, 3);
    assert!(index.case_sensitive);
    assert_eq!(index.line_index, 4);
}

#[test]
fn config_reads_query_and_file_name() {
    let args = vec![String::from("minigrep"), String::from("duct"), String::from("poem.txt")];
    let config = Config::new(&args).unwrap();
    assert_eq!(config.query, "duct");
    assert_eq!(config.filename, "poem.txt");
    assert!(!config.case_sensitive);
}

#[test]
fn config_takes_no_more_than_it_needs() {
    let args = vec![
        String::from("minigrep"),
        String::from("duct"),
        String::from("poem.txt"),
        String::from("more"),
    ];
    let config = Config::new(&args).unwrap();
    assert_eq!(config.query, "duct");
    assert_eq!(config.filename, "poem.txt");
}

#[test]
fn config_needs_three_arguments() {
    let args = vec![String::from("minigrep"), String::from("duct")];
    assert_eq!(Config::new(&args).err(), Some("not enough arguments"));
    assert_eq!(Config::new(&[]).err(), Some("not enough arguments"));
}

#[test]
fn line_collects_matches() {
    let mut line = Line::new(5);
    assert_eq!(line.line_index, 5);
    assert!(line.matchs.is_empty());
    line.add_match(LineMatch::new(0, 1, true, String::from("a")));
    line.add_match(LineMatch::new(2, 3, false, String::from("a")));
    assert_eq!(line.line_index, 5);
    assert_eq!(line.matchs.len(), 2);
    assert_eq!(line.matchs[0].start, 0);
    assert_eq!(line.matchs[1].start, 2);
}

#[test]
fn line_match_collection_collects_matches() {
    let mut entry = LineMatchCollection::new(2, "a a");
    assert_eq!(entry.line_index, 2);
    assert_eq!(entry.line_content, "a a");
    assert!(entry.matchs.is_empty());
    entry.add_match(LineMatch::new(0, 1, true, String::from("a")));
    entry.add_match(LineMatch::new(2, 3, true, String::from("a")));
    assert_eq!(entry.matchs.len(), 2);
    assert_eq!(entry.matchs[1].start, 2);
    assert_eq!(entry.line_content, "a a");
    assert_eq!(entry.line_index, 2);
}
