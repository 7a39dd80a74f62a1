//! The event-driven dump reader: a state machine fed the start, end, empty
//! and text events of a pull-style XML tokenizer.
use vstd::prelude::*;
use vstd::utf8::{decode_utf8, valid_utf8};

use crate::page::{
    empty_page, i32_of, next_id_count, page_result_view, parse_i32, utf8_string, with_id, Page,
    PageView,
    ParseError,
};
use crate::text::{append_range, chars_of};

verus! {

/// The elements of the export format that the reader acts on.
#[derive(Debug, Clone, Copy, PartialEq, Eq, Structural)]
pub enum Element {
    Namespace,
    Page,
    Title,
    Ns,
    Id,
    Text,
    Other,
}

pub open spec fn element_spec(name: Seq<u8>) -> Element {
    if name == seq![110u8, 97, 109, 101, 115, 112, 97, 99, 101] {
        Element::Namespace
    } else if name == seq![112u8, 97, 103, 101] {
        Element::Page
    } else if name == seq![116u8, 105, 116, 108, 101] {
        Element::Title
    } else if name == seq![110u8, 115] {
        Element::Ns
    } else if name == seq![105u8, 100] {
        Element::Id
    } else if name == seq![116u8, 101, 120, 116] {
        Element::Text
    } else {
        Element::Other
    }
}

fn bytes_equal(a: &[u8], b: &Vec<u8>) -> (r: bool)
    ensures
        r == (a@ == b@),
{
    if a.len() != b.len() {
        return false;
    }
    let mut i: usize = 0;
    while i < a.len()
        invariant
            a@.len() == b@.len(),
            i <= a@.len(),
            forall|j: int| 0 <= j < i ==> a@[j] == b@[j],
        decreases a@.len() - i,
    {
        if a[i] != b[i] {
            return false;
        }
        i += 1;
    }
    assert(a@ =~= b@);
    true
}

/// The element that a tag name (`b"page"`) denotes.
pub fn element_of(name: &[u8]) -> (r: Element)
    ensures
        r == element_spec(name@),
{
    let namespace: Vec<u8> = vec![110u8, 97, 109, 101, 115, 112, 97, 99, 101];
    let page: Vec<u8> = vec![112u8, 97, 103, 101];
    let title: Vec<u8> = vec![116u8, 105, 116, 108, 101];
    let ns: Vec<u8> = vec![110u8, 115];
    let id: Vec<u8> = vec![105u8, 100];
    let text: Vec<u8> = vec![116u8, 101, 120, 116];
    assert(namespace@ =~= seq![110u8, 97, 109, 101, 115, 112, 97, 99, 101]);
    assert(page@ =~= seq![112u8, 97, 103, 101]);
    assert(title@ =~= seq![116u8, 105, 116, 108, 101]);
    assert(ns@ =~= seq![110u8, 115]);
    assert(id@ =~= seq![105u8, 100]);
    assert(text@ =~= seq![116u8, 101, 120, 116]);
    if bytes_equal(name, &namespace) {
        Element::Namespace
    } else if bytes_equal(name, &page) {
        Element::Page
    } else if bytes_equal(name, &title) {
        Element::Title
    } else if bytes_equal(name, &ns) {
        Element::Ns
    } else if bytes_equal(name, &id) {
        Element::Id
    } else if bytes_equal(name, &text) {
        Element::Text
    } else {
        Element::Other
    }
}

/// One event of the tokenizer.
pub enum XmlEvent {
    Start(Element),
    End(Element),
    Empty(Element),
    /// Character data, as raw bytes.
    Text(Vec<u8>),
    /// An entity or character reference, by its name (`amp` for `&amp;`).
    Reference(Vec<u8>),
    /// The end of the document, or a tokenizer error, which ends it too.
    Finish,
}

pub enum XmlEventView {
    Start(Element),
    End(Element),
    Empty(Element),
    Text(Seq<u8>),
    Reference(Seq<u8>),
    Finish,
}

impl View for XmlEvent {
    type V = XmlEventView;

    open spec fn view(&self) -> XmlEventView {
        match self {
            XmlEvent::Start(e) => XmlEventView::Start(*e),
            XmlEvent::End(e) => XmlEventView::End(*e),
            XmlEvent::Empty(e) => XmlEventView::Empty(*e),
            XmlEvent::Text(b) => XmlEventView::Text(b@),
            XmlEvent::Reference(b) => XmlEventView::Reference(b@),
            XmlEvent::Finish => XmlEventView::Finish,
        }
    }
}

/// The event-driven reader's state: the text of the leaf element open now,
/// the page under construction, how many `<id>` elements it has had, and
/// whether the end has been reported.
pub struct State {
    last_text_content: Option<String>,
    page: Page,
    ids_seen: usize,
    finished: bool,
}

/// The mathematical value of a [`State`].
pub struct StateView {
    pub last: Option<Seq<char>>,
    pub page: PageView,
    pub ids_seen: nat,
    pub finished: bool,
}

impl View for State {
    type V = StateView;

    closed spec fn view(&self) -> StateView {
        StateView {
            last: match self.last_text_content {
                Some(s) => Some(s@),
                None => None,
            },
            page: self.page@,
            ids_seen: self.ids_seen as nat,
            finished: self.finished,
        }
    }
}

/// The accumulated text, empty when there is none.
pub open spec fn text_or_empty(last: Option<Seq<char>>) -> Seq<char> {
    match last {
        Some(t) => t,
        None => Seq::empty(),
    }
}

/// `more` added to the accumulated text.
pub open spec fn accumulate(last: Option<Seq<char>>, more: Seq<char>) -> Option<Seq<char>> {
    Some(text_or_empty(last) + more)
}

/// What one event does: the next state, and the page completed by it if any.
pub open spec fn event_step(st: StateView, ev: XmlEventView) -> (StateView, Result<
    Option<PageView>,
    ParseError,
>) {
    if st.finished {
        (st, Err(ParseError::AfterEnd))
    } else {
        match ev {
            XmlEventView::Start(e) => match e {
                Element::Page => (StateView { page: empty_page(), ids_seen: 0, ..st }, Ok(None)),
                Element::Ns => (
                    StateView { last: None, page: PageView { ns: None, ..st.page }, ..st },
                    Ok(None),
                ),
                Element::Other => (st, Ok(None)),
                _ => (StateView { last: None, ..st }, Ok(None)),
            },
            XmlEventView::Empty(e) => if e == Element::Namespace {
                (StateView { last: None, ..st }, Ok(None))
            } else {
                (st, Ok(None))
            },
            XmlEventView::End(e) => {
                let t = text_or_empty(st.last);
                match e {
                    Element::Title => (
                        StateView { last: None, page: PageView { title: t, ..st.page }, ..st },
                        Ok(None),
                    ),
                    Element::Ns => match i32_of(t) {
                        Some(v) => (
                            StateView { last: None, page: PageView { ns: Some(v), ..st.page }, ..st },
                            Ok(None),
                        ),
                        None => (st, Err(ParseError::BadNumber)),
                    },
                    Element::Id => match i32_of(t) {
                        Some(v) => (
                            StateView {
                                last: None,
                                page: with_id(st.page, st.ids_seen, v),
                                ids_seen: next_id_count(st.ids_seen),
                                ..st
                            },
                            Ok(None),
                        ),
                        None => (st, Err(ParseError::BadNumber)),
                    },
                    Element::Text => (
                        StateView { last: None, page: PageView { rev_text: t, ..st.page }, ..st },
                        Ok(None),
                    ),
                    Element::Page => (
                        StateView { page: empty_page(), ids_seen: 0, ..st },
                        Ok(Some(st.page)),
                    ),
                    _ => (st, Ok(None)),
                }
            },
            XmlEventView::Text(b) => if valid_utf8(b) {
                (StateView { last: accumulate(st.last, decode_utf8(b)), ..st }, Ok(None))
            } else {
                (st, Err(ParseError::Encoding))
            },
            XmlEventView::Reference(b) => if valid_utf8(b) {
                (
                    StateView {
                        last: accumulate(st.last, seq!['&'] + decode_utf8(b) + seq![';']),
                        ..st
                    },
                    Ok(None),
                )
            } else {
                (st, Err(ParseError::Encoding))
            },
            XmlEventView::Finish => (StateView { finished: true, ..st }, Ok(None)),
        }
    }
}

/// Once the end has been reported, every later event is refused and the
/// state stays as it is.
pub proof fn events_after_end_are_refused(st: StateView, ev: XmlEventView)
    requires
        event_step(st, XmlEventView::Finish).1 == Ok::<Option<PageView>, ParseError>(None),
    ensures
        event_step(event_step(st, XmlEventView::Finish).0, ev) == (
            event_step(st, XmlEventView::Finish).0,
            Err::<Option<PageView>, ParseError>(ParseError::AfterEnd),
        ),
{
}

impl State {
    pub fn new() -> (r: State)
        ensures
            r@ == (StateView { last: None, page: empty_page(), ids_seen: 0, finished: false }),
    {
        State { last_text_content: None, page: Page::new(), ids_seen: 0, finished: false }
    }

    /// Takes the accumulated text out, leaving none.
    fn take_text(&mut self) -> (r: String)
        ensures
            r@ == text_or_empty(old(self)@.last),
            final(self)@ == (StateView { last: None, ..old(self)@ }),
    {
        let mut t: Option<String> = None;
        std::mem::swap(&mut t, &mut self.last_text_content);
        match t {
            Some(s) => s,
            None => String::new(),
        }
    }

    /// Adds `more` to the accumulated text.
    fn add_text(&mut self, more: &Vec<char>)
        ensures
            final(self)@ == (StateView { last: accumulate(old(self)@.last, more@), ..old(self)@ }),
    {
        let mut t: Option<String> = None;
        std::mem::swap(&mut t, &mut self.last_text_content);
        let mut s = match t {
            Some(s) => s,
            None => String::new(),
        };
        append_range(&mut s, more, 0, more.len());
        assert(more@.subrange(0, more@.len() as int) =~= more@);
        self.last_text_content = Some(s);
    }

    /// Feeds the next event of the tokenizer; returns the page that this
    /// event completes, if any.
    pub fn on_event(&mut self, ev: XmlEvent) -> (r: Result<Option<Page>, ParseError>)
        ensures
            (final(self)@, page_result_view(r)) == event_step(old(self)@, ev@),
    {
        if self.finished {
            return Err(ParseError::AfterEnd);
        }
        match ev {
            XmlEvent::Start(e) => {
                match e {
                    Element::Page => {
                        self.page = Page::new();
                        self.ids_seen = 0;
                    },
                    Element::Ns => {
                        self.last_text_content = None;
                        self.page.ns = None;
                    },
                    Element::Other => {},
                    _ => {
                        self.last_text_content = None;
                    },
                }
                Ok(None)
            },
            XmlEvent::Empty(e) => {
                if e == Element::Namespace {
                    self.last_text_content = None;
                }
                Ok(None)
            },
            XmlEvent::End(e) => match e {
                Element::Title => {
                    self.page.title = self.take_text();
                    Ok(None)
                },
                Element::Ns | Element::Id => {
                    let ghost before = self@;
                    let t = match &self.last_text_content {
                        Some(s) => chars_of(s.as_str()),
                        None => Vec::new(),
                    };
                    assert(t@ == text_or_empty(before.last));
                    assert(t@.subrange(0, t@.len() as int) =~= t@);
                    match parse_i32(&t, 0, t.len()) {
                        None => Err(ParseError::BadNumber),
                        Some(v) => {
                            self.last_text_content = None;
                            if e == Element::Ns {
                                self.page.ns = Some(v);
                            } else {
                                self.page.set_positional_id(self.ids_seen, v);
                                if self.ids_seen < 3 {
                                    self.ids_seen += 1;
                                }
                            }
                            Ok(None)
                        },
                    }
                },
                Element::Text => {
                    self.page.rev_text = self.take_text();
                    Ok(None)
                },
                Element::Page => {
                    let mut done = Page::new();
                    std::mem::swap(&mut done, &mut self.page);
                    self.ids_seen = 0;
                    Ok(Some(done))
                },
                _ => Ok(None),
            },
            XmlEvent::Text(b) => match utf8_string(b) {
                Some(s) => {
                    let c = chars_of(s.as_str());
                    self.add_text(&c);
                    Ok(None)
                },
                None => Err(ParseError::Encoding),
            },
            XmlEvent::Reference(b) => match utf8_string(b) {
                Some(s) => {
                    let mut c: Vec<char> = Vec::new();
                    c.push('&');
                    let name = chars_of(s.as_str());
                    let mut i: usize = 0;
                    while i < name.len()
                        invariant
                            i <= name@.len(),
                            c@ == seq!['&'] + name@.subrange(0, i as int),
                        decreases name@.len() - i,
                    {
                        c.push(name[i]);
                        i += 1;
                        assert(c@ =~= seq!['&'] + name@.subrange(0, i as int));
                    }
                    c.push(';');
                    assert(c@ =~= seq!['&'] + name@ + seq![';']);
                    self.add_text(&c);
                    Ok(None)
                },
                None => Err(ParseError::Encoding),
            },
            XmlEvent::Finish => {
                self.finished = true;
                Ok(None)
            },
        }
    }
}

} // verus!
