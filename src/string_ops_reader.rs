//! The line-oriented reader as the plain string-operations variant; it recognises the same tags in the same way.
use vstd::prelude::*;

use crate::line_scanner::{fresh, scan_end, scan_step, LineScanner, Phase, ScanView};
use crate::page::{page_result_view, Page, ParseError};

verus! {

/// A dump reader fed one line at a time (see [`LineScanner`]).
pub struct StringOpsReader {
    scanner: LineScanner,
}

impl View for StringOpsReader {
    type V = ScanView;

    closed spec fn view(&self) -> ScanView {
        self.scanner@
    }
}

impl StringOpsReader {
    pub fn new() -> (r: StringOpsReader)
        ensures
            r@ == fresh(Phase::PrePage),
    {
        StringOpsReader { scanner: LineScanner::new() }
    }

    /// Feeds the next line of the dump; returns the page it completes, if any.
    pub fn next_line(&mut self, line: &str) -> (r: Result<Option<Page>, ParseError>)
        ensures
            (final(self)@, page_result_view(r)) == scan_step(old(self)@, line@),
    {
        self.scanner.scan_line(line)
    }

    /// Reports the end of the input: no more pages the first time, a
    /// refusal after that.
    pub fn end_of_input(&mut self) -> (r: Result<Option<Page>, ParseError>)
        ensures
            (final(self)@, page_result_view(r)) == scan_end(old(self)@),
    {
        self.scanner.scan_end()
    }
}

} // verus!
