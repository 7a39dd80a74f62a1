//! Structural analysis of dictionary dumps: reading page records out of a
//! MediaWiki export, splitting a page's wikitext into headings and content,
//! and classifying how the headings of a language section are nested.
pub mod classify;
pub mod event_reader;
pub mod line_scanner;
pub mod page;
pub mod pattern;
pub mod qwikt_reader;
pub mod regex_reader;
pub mod string_ops_reader;
pub mod text;
pub mod wikitext_splitter;

pub use page::{Page, ParseError};
pub use wikitext_splitter::Heading;

use vstd::prelude::*;

verus! {

/// Which dump reader to use, and how much of the dump to read.
#[derive(Debug, Clone, Copy)]
pub struct Opts {
    /// Stop after this many pages.
    pub limit: Option<u64>,
    /// Print the summary as lightweight XML.
    pub xml: bool,
    /// Print no progress updates.
    pub no_updates: bool,
    /// Keep one page in this many.
    pub sample_rate: Option<u64>,
    /// Use the line-oriented reader rather than the event-driven one.
    pub handrolled: bool,
}

} // verus!
