//! Line-oriented, case-insensitive text search with highlighted output.
//!
//! A line is searched for every occurrence of a query, compared after
//! lowercasing both. Each occurrence becomes a match record holding its byte
//! span in the line; the records of a line are then turned into an ordered
//! run of segments that covers the line exactly once, and the segments are
//! painted for a terminal.

pub mod assemble;
pub mod config;
pub mod driver;
pub mod filter;
pub mod fold;
pub mod highlight;
pub mod index;
pub mod lines;
pub mod markup;
pub mod matcher;
pub mod paint;
pub mod segment;
pub mod text;

pub use crate::assemble::{assemble_segments, highlighted_line, Line};
pub use crate::config::Config;
pub use crate::driver::{search, LineMatchCollection};
pub use crate::filter::{search_case_sensitive, search_with_case_insensitive, SearchResult};
pub use crate::index::{
    get_highlighted_string_indexes, get_highligted_results, indexes_fit, HighlightStringIndex,
};
pub use crate::lines::split_lines;
pub use crate::matcher::{search_in_line, LineMatch};
pub use crate::paint::{paint, render, segments_fit};
pub use crate::segment::{Segment, SegmentKind};
