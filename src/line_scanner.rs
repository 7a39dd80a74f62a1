//! The line-oriented dump reader: a state machine fed one line of the dump
//! at a time that recognises the tags it needs as literal substrings, with
//! no general XML tokenizer.
use vstd::prelude::*;

use crate::page::{
    empty_page, i32_of, next_id_count, page_result_view, parse_i32, with_id, Page, PageView,
    ParseError,
};
use crate::text::{
    append_range, chars_of, contains, contains_chars, find_first, first_occurrence,
    lemma_first_occurrence, push_char,
};

verus! {

/// Where the scanner stands in the dump.
#[derive(Debug, Clone, Copy, PartialEq, Eq, Structural)]
pub enum Phase {
    /// Waiting for a `<page>` line.
    PrePage,
    /// Inside `<page>`, before both the title and the page id were seen.
    InPage,
    /// Inside `<page>`, title and page id seen.
    InPageAfterTitleAndId,
    /// Inside `<revision>`.
    InRevision,
    /// Inside the body of `<text>`.
    InRevisionText,
}

/// The line-oriented reader's state: the page under construction, how many
/// `<id>` elements it has had, and whether the end has been reported.
pub struct LineScanner {
    phase: Phase,
    page: Page,
    ids_seen: usize,
    title_seen: bool,
    finished: bool,
}

/// The mathematical value of a [`LineScanner`].
pub struct ScanView {
    pub phase: Phase,
    pub page: PageView,
    pub ids_seen: nat,
    pub title_seen: bool,
    pub finished: bool,
}

impl View for LineScanner {
    type V = ScanView;

    closed spec fn view(&self) -> ScanView {
        ScanView {
            phase: self.phase,
            page: self.page@,
            ids_seen: self.ids_seen as nat,
            title_seen: self.title_seen,
            finished: self.finished,
        }
    }
}

/// Bounds of the body of the first `open ... close` on `line`: `open` at
/// its first occurrence, `close` at its first occurrence after it.
pub open spec fn tag_body(line: Seq<char>, open: Seq<char>, close: Seq<char>) -> Option<(int, int)> {
    match first_occurrence(line, open, 0) {
        Some(a) => match first_occurrence(line, close, a + open.len()) {
            Some(b) => Some((a + open.len(), b)),
            None => None,
        },
        None => None,
    }
}

/// The integer in the first `open ... close` on `line`, if there is one.
pub open spec fn tag_number(line: Seq<char>, open: Seq<char>, close: Seq<char>) -> Option<
    Result<i32, ParseError>,
> {
    match tag_body(line, open, close) {
        Some((a, b)) => match i32_of(line.subrange(a, b)) {
            Some(v) => Some(Ok(v)),
            None => Some(Err(ParseError::BadNumber)),
        },
        None => None,
    }
}

/// A scanner at the start of a page, or between pages.
pub open spec fn fresh(phase: Phase) -> ScanView {
    ScanView { phase, page: empty_page(), ids_seen: 0, title_seen: false, finished: false }
}

/// A line inside `<page>`: the title, namespace and id it carries are taken.
pub open spec fn in_page_line(st: ScanView, line: Seq<char>) -> Result<ScanView, ParseError> {
    let ns = tag_number(line, "<ns>"@, "</ns>"@);
    let id = tag_number(line, "<id>"@, "</id>"@);
    match (ns, id) {
        (Some(Err(e)), _) => Err(e),
        (_, Some(Err(e))) => Err(e),
        _ => {
            let title = tag_body(line, "<title>"@, "</title>"@);
            let p1 = match title {
                Some((a, b)) => PageView { title: line.subrange(a, b), ..st.page },
                None => st.page,
            };
            let title_seen = st.title_seen || title is Some;
            let p2 = match ns {
                Some(Ok(v)) => PageView { ns: Some(v), ..p1 },
                _ => p1,
            };
            let p3 = match id {
                Some(Ok(v)) => with_id(p2, st.ids_seen, v),
                _ => p2,
            };
            let seen = if id is Some {
                next_id_count(st.ids_seen)
            } else {
                st.ids_seen
            };
            let phase = if title_seen && seen > 0 {
                Phase::InPageAfterTitleAndId
            } else {
                Phase::InPage
            };
            Ok(ScanView { phase, page: p3, ids_seen: seen, title_seen, finished: st.finished })
        },
    }
}

/// The line that opens `<text`: its body starts after the first `>`; a
/// self-closed tag has none, and a body closed on the same line is complete.
pub open spec fn open_text(st: ScanView, line: Seq<char>) -> ScanView {
    match first_occurrence(line, ">"@, 0) {
        None => ScanView { phase: Phase::InRevisionText, ..st },
        Some(g) => if g > 0 && line[g - 1] == '/' {
            st
        } else {
            match first_occurrence(line, "</text>"@, g + 1) {
                Some(b) => ScanView {
                    phase: Phase::InPageAfterTitleAndId,
                    page: PageView {
                        rev_text: st.page.rev_text + line.subrange(g + 1, b),
                        ..st.page
                    },
                    ..st
                },
                None => ScanView {
                    phase: Phase::InRevisionText,
                    page: PageView {
                        rev_text: st.page.rev_text + line.subrange(g + 1, line.len() as int)
                            + seq!['\n'],
                        ..st.page
                    },
                    ..st
                },
            }
        },
    }
}

/// A line inside `<revision>`, outside the text body.
pub open spec fn revision_line(st: ScanView, line: Seq<char>) -> Result<ScanView, ParseError> {
    if contains(line, "<text"@) {
        Ok(open_text(st, line))
    } else {
        match tag_number(line, "<id>"@, "</id>"@) {
            Some(Err(e)) => Err(e),
            Some(Ok(v)) => Ok(
                ScanView {
                    page: with_id(st.page, st.ids_seen, v),
                    ids_seen: next_id_count(st.ids_seen),
                    ..st
                },
            ),
            None => if contains(line, "</revision>"@) {
                Ok(ScanView { phase: Phase::InPageAfterTitleAndId, ..st })
            } else {
                Ok(st)
            },
        }
    }
}

/// A line of the text body: kept verbatim with its newline, up to `</text>`.
pub open spec fn text_line(st: ScanView, line: Seq<char>) -> ScanView {
    match first_occurrence(line, "</text>"@, 0) {
        Some(b) => ScanView {
            phase: Phase::InPageAfterTitleAndId,
            page: PageView { rev_text: st.page.rev_text + line.subrange(0, b), ..st.page },
            ..st
        },
        None => ScanView {
            page: PageView { rev_text: st.page.rev_text + line + seq!['\n'], ..st.page },
            ..st
        },
    }
}

/// What one line does: the next state, and the page completed by it if any.
pub open spec fn scan_step(st: ScanView, line: Seq<char>) -> (ScanView, Result<
    Option<PageView>,
    ParseError,
>) {
    if st.finished {
        (st, Err(ParseError::AfterEnd))
    } else {
        match st.phase {
            Phase::PrePage => if contains(line, "<page>"@) {
                (fresh(Phase::InPage), Ok(None))
            } else {
                (st, Ok(None))
            },
            Phase::InPage => match in_page_line(st, line) {
                Ok(s) => (s, Ok(None)),
                Err(e) => (st, Err(e)),
            },
            Phase::InPageAfterTitleAndId => if contains(line, "<revision>"@) {
                (ScanView { phase: Phase::InRevision, ..st }, Ok(None))
            } else if contains(line, "</page>"@) {
                (fresh(Phase::PrePage), Ok(Some(st.page)))
            } else {
                (st, Ok(None))
            },
            Phase::InRevision => match revision_line(st, line) {
                Ok(s) => (s, Ok(None)),
                Err(e) => (st, Err(e)),
            },
            Phase::InRevisionText => (text_line(st, line), Ok(None)),
        }
    }
}

/// What the end of the input does: the first time, no more pages; after
/// that, a refusal.
pub open spec fn scan_end(st: ScanView) -> (ScanView, Result<Option<PageView>, ParseError>) {
    if st.finished {
        (st, Err(ParseError::AfterEnd))
    } else {
        (ScanView { finished: true, ..st }, Ok(None))
    }
}

/// Once the end has been reported, every later line and every later end
/// is refused, and the state stays as it is.
pub proof fn scan_after_end_is_refused(st: ScanView, line: Seq<char>)
    requires
        scan_end(st).1 == Ok::<Option<PageView>, ParseError>(None),
    ensures
        scan_step(scan_end(st).0, line) == (scan_end(st).0, Err::<Option<PageView>, ParseError>(
            ParseError::AfterEnd,
        )),
        scan_end(scan_end(st).0) == (scan_end(st).0, Err::<Option<PageView>, ParseError>(
            ParseError::AfterEnd,
        )),
{
}

/// Bounds of the body of the first `open ... close` on `l`.
fn find_tag_body(l: &Vec<char>, open: &str, close: &str) -> (r: Option<(usize, usize)>)
    ensures
        match r {
            Some((a, b)) => tag_body(l@, open@, close@) == Some((a as int, b as int)) && a <= b
                <= l@.len(),
            None => tag_body(l@, open@, close@) is None,
        },
{
    let n = l.len();
    let o = chars_of(open);
    let c = chars_of(close);
    match find_first(l, &o, 0) {
        None => None,
        Some(a) => {
            proof {
                lemma_first_occurrence(l@, o@, 0);
            }
            let from = a + o.len();
            match find_first(l, &c, from) {
                None => None,
                Some(b) => {
                    proof {
                        lemma_first_occurrence(l@, c@, from as int);
                    }
                    Some((from, b))
                },
            }
        },
    }
}

/// The integer in the first `open ... close` on `l`, if there is one.
fn find_tag_number(l: &Vec<char>, open: &str, close: &str) -> (r: Option<Result<i32, ParseError>>)
    ensures
        r == tag_number(l@, open@, close@),
{
    match find_tag_body(l, open, close) {
        None => None,
        Some((a, b)) => match parse_i32(l, a, b) {
            Some(v) => Some(Ok(v)),
            None => Some(Err(ParseError::BadNumber)),
        },
    }
}

impl LineScanner {
    pub fn new() -> (r: LineScanner)
        ensures
            r@ == fresh(Phase::PrePage),
    {
        LineScanner {
            phase: Phase::PrePage,
            page: Page::new(),
            ids_seen: 0,
            title_seen: false,
            finished: false,
        }
    }

    fn start_page(&mut self, phase: Phase)
        ensures
            final(self)@ == fresh(phase),
    {
        self.phase = phase;
        self.page = Page::new();
        self.ids_seen = 0;
        self.title_seen = false;
        self.finished = false;
    }

    fn count_id(&mut self, v: i32)
        ensures
            final(self)@ == (ScanView {
                page: with_id(old(self)@.page, old(self)@.ids_seen, v),
                ids_seen: next_id_count(old(self)@.ids_seen),
                ..old(self)@
            }),
            final(self).ids_seen <= 3 || final(self).ids_seen == old(self).ids_seen,
    {
        self.page.set_positional_id(self.ids_seen, v);
        if self.ids_seen < 3 {
            self.ids_seen += 1;
        }
    }

    fn in_page(&mut self, l: &Vec<char>) -> (r: Result<(), ParseError>)
        requires
            !old(self)@.finished,
        ensures
            match in_page_line(old(self)@, l@) {
                Ok(s) => r is Ok && final(self)@ == s,
                Err(e) => r == Err::<(), ParseError>(e) && final(self)@ == old(self)@,
            },
    {
        let ns = find_tag_number(l, "<ns>", "</ns>");
        let id = find_tag_number(l, "<id>", "</id>");
        match ns {
            Some(Err(e)) => {
                return Err(e);
            },
            _ => {},
        }
        match id {
            Some(Err(e)) => {
                return Err(e);
            },
            _ => {},
        }
        match find_tag_body(l, "<title>", "</title>") {
            Some((a, b)) => {
                let mut t = String::new();
                append_range(&mut t, l, a, b);
                assert(t@ =~= l@.subrange(a as int, b as int));
                self.page.title = t;
                self.title_seen = true;
            },
            None => {},
        }
        match ns {
            Some(Ok(v)) => {
                self.page.ns = Some(v);
            },
            _ => {},
        }
        match id {
            Some(Ok(v)) => {
                self.count_id(v);
            },
            _ => {},
        }
        if self.title_seen && self.ids_seen > 0 {
            self.phase = Phase::InPageAfterTitleAndId;
        } else {
            self.phase = Phase::InPage;
        }
        Ok(())
    }

    fn open_text(&mut self, l: &Vec<char>)
        ensures
            final(self)@ == open_text(old(self)@, l@),
    {
        let n = l.len();
        let gt = chars_of(">");
        let close = chars_of("</text>");
        match find_first(l, &gt, 0) {
            None => {
                self.phase = Phase::InRevisionText;
            },
            Some(g) => {
                proof {
                    lemma_first_occurrence(l@, gt@, 0);
                    reveal_strlit(">");
                }
                assert(gt@.len() == 1);
                if g > 0 && l[g - 1] == '/' {
                } else {
                    match find_first(l, &close, g + 1) {
                        Some(b) => {
                            proof {
                                lemma_first_occurrence(l@, close@, g + 1);
                            }
                            append_range(&mut self.page.rev_text, l, g + 1, b);
                            self.phase = Phase::InPageAfterTitleAndId;
                        },
                        None => {
                            append_range(&mut self.page.rev_text, l, g + 1, l.len());
                            push_char(&mut self.page.rev_text, '\n');
                            assert(self.page.rev_text@ =~= old(self)@.page.rev_text + l@.subrange(
                                g + 1,
                                l@.len() as int,
                            ) + seq!['\n']);
                            self.phase = Phase::InRevisionText;
                        },
                    }
                }
            },
        }
    }

    fn revision(&mut self, l: &Vec<char>) -> (r: Result<(), ParseError>)
        ensures
            match revision_line(old(self)@, l@) {
                Ok(s) => r is Ok && final(self)@ == s,
                Err(e) => r == Err::<(), ParseError>(e) && final(self)@ == old(self)@,
            },
    {
        let text_open = chars_of("<text");
        if contains_chars(l, &text_open) {
            self.open_text(l);
            return Ok(());
        }
        match find_tag_number(l, "<id>", "</id>") {
            Some(Err(e)) => Err(e),
            Some(Ok(v)) => {
                self.count_id(v);
                Ok(())
            },
            None => {
                let rev_close = chars_of("</revision>");
                if contains_chars(l, &rev_close) {
                    self.phase = Phase::InPageAfterTitleAndId;
                }
                Ok(())
            },
        }
    }

    fn text(&mut self, l: &Vec<char>)
        ensures
            final(self)@ == text_line(old(self)@, l@),
    {
        let close = chars_of("</text>");
        match find_first(l, &close, 0) {
            Some(b) => {
                proof {
                    lemma_first_occurrence(l@, close@, 0);
                }
                append_range(&mut self.page.rev_text, l, 0, b);
                self.phase = Phase::InPageAfterTitleAndId;
            },
            None => {
                append_range(&mut self.page.rev_text, l, 0, l.len());
                assert(l@.subrange(0, l@.len() as int) =~= l@);
                push_char(&mut self.page.rev_text, '\n');
                assert(self.page.rev_text@ =~= old(self)@.page.rev_text + l@ + seq!['\n']);
            },
        }
    }

    /// Feeds the next line of the dump (without its line ending); returns
    /// the page that this line completes, if any.
    pub fn scan_line(&mut self, line: &str) -> (r: Result<Option<Page>, ParseError>)
        ensures
            (final(self)@, page_result_view(r)) == scan_step(old(self)@, line@),
    {
        if self.finished {
            return Err(ParseError::AfterEnd);
        }
        let l = chars_of(line);
        match self.phase {
            Phase::PrePage => {
                let tag = chars_of("<page>");
                if contains_chars(&l, &tag) {
                    self.start_page(Phase::InPage);
                }
                Ok(None)
            },
            Phase::InPage => match self.in_page(&l) {
                Ok(()) => Ok(None),
                Err(e) => Err(e),
            },
            Phase::InPageAfterTitleAndId => {
                let rev = chars_of("<revision>");
                let end = chars_of("</page>");
                if contains_chars(&l, &rev) {
                    self.phase = Phase::InRevision;
                    Ok(None)
                } else if contains_chars(&l, &end) {
                    let mut done = Page::new();
                    std::mem::swap(&mut done, &mut self.page);
                    self.start_page(Phase::PrePage);
                    Ok(Some(done))
                } else {
                    Ok(None)
                }
            },
            Phase::InRevision => match self.revision(&l) {
                Ok(()) => Ok(None),
                Err(e) => Err(e),
            },
            Phase::InRevisionText => {
                self.text(&l);
                Ok(None)
            },
        }
    }

    /// Reports the end of the input: the first time no more pages (a page
    /// left open is dropped), after that a refusal.
    pub fn scan_end(&mut self) -> (r: Result<Option<Page>, ParseError>)
        ensures
            (final(self)@, page_result_view(r)) == scan_end(old(self)@),
    {
        if self.finished {
            return Err(ParseError::AfterEnd);
        }
        self.finished = true;
        Ok(None)
    }

    /// Whether the end of the input has been reported.
    pub fn is_finished(&self) -> (r: bool)
        ensures
            r == self@.finished,
    {
        self.finished
    }
}

} // verus!
