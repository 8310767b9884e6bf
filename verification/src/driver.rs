//! Searching a whole text.
//!
//! The text is cut into lines and each line is searched. Lines are numbered
//! from 0, and every line counts, with or without a match. What is returned
//! holds only the lines that have a match, in the order of the text.

use vstd::prelude::*;
use crate::lines::{lemma_empty_text_has_no_lines, lines_of, split_lines, texts};
use crate::matcher::{match_set, search_in_line, views, LineMatch, MatchView};

verus! {

/// A line that has matches: the matches, the line's text and its number.
pub struct LineMatchCollection<'a> {
    pub matchs: Vec<LineMatch>,
    pub line_content: &'a str,
    /// The number of the line in its text, counted from 0.
    pub line_index: usize,
}

/// A line with its matches as a mathematical value.
pub ghost struct EntryView {
    pub matches: Seq<MatchView>,
    pub line: Seq<char>,
    pub line_index: int,
}

impl<'a> View for LineMatchCollection<'a> {
    type V = EntryView;

    open spec fn view(&self) -> EntryView {
        EntryView {
            matches: views(self.matchs@),
            line: self.line_content@,
            line_index: self.line_index as int,
        }
    }
}

impl<'a> LineMatchCollection<'a> {
    /// A line with the given number and text, and no matches yet.
    pub fn new(line_index: usize, line_content: &'a str) -> (entry: LineMatchCollection<'a>)
        ensures
            entry.matchs@.len() == 0,
            entry.line_index == line_index,
            entry.line_content@ == line_content@,
    {
        LineMatchCollection { matchs: Vec::new(), line_index, line_content }
    }

    /// Adds a match behind those that the line has.
    pub fn add_match(&mut self, line_match: LineMatch)
        ensures
            final(self).matchs@ == old(self).matchs@.push(line_match),
            final(self).line_index == old(self).line_index,
            final(self).line_content@ == old(self).line_content@,
    {
        self.matchs.push(line_match);
    }
}

/// The views of a sequence of entries.
pub open spec fn entry_views(entries: Seq<LineMatchCollection<'_>>) -> Seq<EntryView> {
    entries.map_values(|entry: LineMatchCollection<'_>| entry@)
}

/// The entry of a line, if the query has a match in it.
pub open spec fn entry_of(query: Seq<char>, line: Seq<char>, index: int) -> Seq<EntryView> {
    if match_set(query, line).len() > 0 {
        seq![EntryView { matches: match_set(query, line), line, line_index: index }]
    } else {
        Seq::empty()
    }
}

/// The entries of the given lines, the first of which has the number
/// `index`.
pub open spec fn entries_from(query: Seq<char>, lines: Seq<Seq<char>>, index: int) -> Seq<
    EntryView,
>
    decreases lines.len(),
{
    if lines.len() == 0 {
        Seq::empty()
    } else {
        entry_of(query, lines[0], index) + entries_from(query, lines.drop_first(), index + 1)
    }
}

/// What a search for `query` in `contents` finds.
pub open spec fn found_in(query: Seq<char>, contents: Seq<char>) -> Seq<EntryView> {
    entries_from(query, lines_of(contents), 0)
}

/// Each entry stands for a line that has a match: it holds that line's
/// number, its text and its match set. The entries are in ascending order of
/// their line numbers.
pub proof fn lemma_entries_are_lines(query: Seq<char>, lines: Seq<Seq<char>>, index: int)
    ensures
        forall|k: int|
            0 <= k < entries_from(query, lines, index).len() ==> {
                let entry = #[trigger] entries_from(query, lines, index)[k];
                &&& index <= entry.line_index < index + lines.len()
                &&& entry.line == lines[entry.line_index - index]
                &&& entry.matches == match_set(query, entry.line)
                &&& entry.matches.len() > 0
            },
        forall|j: int, k: int|
            0 <= j < k < entries_from(query, lines, index).len() ==> (
            #[trigger] entries_from(query, lines, index)[j]).line_index < (
            #[trigger] entries_from(query, lines, index)[k]).line_index,
    decreases lines.len(),
{
    if lines.len() > 0 {
        let rest = lines.drop_first();
        lemma_entries_are_lines(query, rest, index + 1);
        let tail = entries_from(query, rest, index + 1);
        assert forall|k: int| 0 <= k < tail.len() implies (#[trigger] tail[k]).line
            == lines[tail[k].line_index - index] by {
            assert(rest[tail[k].line_index - (index + 1)] == lines[tail[k].line_index - index]);
        }
    }
}

/// Each line that has a match has an entry, under the line's own number:
/// lines without a match are left out and are counted all the same.
pub proof fn lemma_lines_have_entries(
    query: Seq<char>,
    lines: Seq<Seq<char>>,
    index: int,
    at: int,
)
    requires
        0 <= at < lines.len(),
        match_set(query, lines[at]).len() > 0,
    ensures
        exists|k: int|
            0 <= k < entries_from(query, lines, index).len() && (#[trigger] entries_from(
                query,
                lines,
                index,
            )[k]).line_index == index + at,
    decreases lines.len(),
{
    let rest = lines.drop_first();
    let head = entry_of(query, lines[0], index);
    let tail = entries_from(query, rest, index + 1);
    if at == 0 {
        assert(entries_from(query, lines, index)[0].line_index == index);
    } else {
        assert(rest[at - 1] == lines[at]);
        lemma_lines_have_entries(query, rest, index + 1, at - 1);
        let k = choose|k: int| 0 <= k < tail.len() && (#[trigger] tail[k]).line_index == index + at;
        assert(entries_from(query, lines, index)[head.len() + k] == tail[k]);
    }
}

/// A search for the empty query finds nothing, whatever the text.
pub proof fn lemma_empty_query_has_no_entries(
    query: Seq<char>,
    lines: Seq<Seq<char>>,
    index: int,
)
    requires
        query.len() == 0,
    ensures
        entries_from(query, lines, index).len() == 0,
    decreases lines.len(),
{
    if lines.len() > 0 {
        lemma_empty_query_has_no_entries(query, lines.drop_first(), index + 1);
    }
}

/// A search in the empty text finds nothing, whatever the query.
pub proof fn lemma_empty_text_has_no_entries(query: Seq<char>, contents: Seq<char>)
    requires
        contents.len() == 0,
    ensures
        found_in(query, contents).len() == 0,
{
    lemma_empty_text_has_no_lines(contents);
}

/// Searches every line of `contents` for `query`, without regard to case.
///
/// Returns one entry for each line that has a match, in the order of the
/// text, with the line's number, its text and its matches.
pub fn search<'a>(query: &str, contents: &'a str) -> (entries: Vec<LineMatchCollection<'a>>)
    ensures
        entry_views(entries@) == found_in(query@, contents@),
        contents@.len() == 0 ==> entries@.len() == 0,
        query@.len() == 0 ==> entries@.len() == 0,
{
    proof {
        if contents@.len() == 0 {
            lemma_empty_text_has_no_entries(query@, contents@);
        }
        if query@.len() == 0 {
            lemma_empty_query_has_no_entries(query@, lines_of(contents@), 0);
        }
    }
    let lines = split_lines(contents);
    let mut entries: Vec<LineMatchCollection<'a>> = Vec::new();
    let mut index: usize = 0;
    let ghost all = texts(lines@);
    assert(all.skip(0) =~= all);
    assert(entry_views(entries@) + entries_from(query@, all, 0) =~= entries_from(query@, all, 0));
    while index < lines.len()
        invariant
            index <= lines.len(),
            all == texts(lines@),
            entry_views(entries@) + entries_from(query@, all.skip(index as int), index as int)
                == entries_from(query@, all, 0),
        decreases lines.len() - index,
    {
        let ghost rest = all.skip(index as int);
        let ghost before = entry_views(entries@);
        let line: &'a str = lines[index];
        assert(rest[0] == line@);
        assert(rest.drop_first() =~= all.skip(index + 1));
        let matchs = search_in_line(query, line);
        if matchs.len() > 0 {
            let entry = LineMatchCollection { matchs, line_index: index, line_content: line };
            assert(seq![entry@] =~= entry_of(query@, line@, index as int));
            entries.push(entry);
            assert(entry_views(entries@) =~= before + entry_of(query@, line@, index as int));
        } else {
            assert(before + entry_of(query@, line@, index as int) =~= before);
        }
        assert(entry_views(entries@) + entries_from(query@, rest.drop_first(), index + 1)
            =~= before + entries_from(query@, rest, index as int));
        index += 1;
    }
    assert(all.skip(index as int) =~= Seq::<Seq<char>>::empty());
    assert(entry_views(entries@) + Seq::<EntryView>::empty() =~= entry_views(entries@));
    entries
}

} // verus!
