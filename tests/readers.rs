use quick_xml::events::Event;
use quick_xml::reader::Reader;
use wikters::event_reader::{element_of, Element, State, XmlEvent};
use wikters::qwikt_reader::QwiktReader;
use wikters::regex_reader::RegexReader;
use wikters::string_ops_reader::StringOpsReader;
use wikters::{Page, ParseError};

const HEADER: &str = "<mediawiki xmlns=\"http://www.mediawiki.org/xml/export-0.11/\" xmlns:xsi=\"http://www.w3.org/2001/XMLSchema-instance\" xsi:schemaLocation=\"http://www.mediawiki.org/xml/export-0.11/ http://www.mediawiki.org/xml/export-0.11.xsd\" version=\"0.11\" xml:lang=\"en\">
  <siteinfo>
    <sitename>Wiktionary</sitename>
    <dbname>enwiktionary</dbname>
    <base>https://en.wiktionary.org/wiki/Wiktionary:Main_Page</base>
    <generator>MediaWiki 1.44.0-wmf.1</generator>
    <case>case-sensitive</case>
    <namespaces>
      <namespace key=\"-2\" case=\"case-sensitive\">Media</namespace>
      <namespace key=\"0\" case=\"case-sensitive\" />
    </namespaces>
  </siteinfo>
";

const PAGE: &str = "  <page>
    <title>dictionary</title>
    <ns>0</ns>
    <id>42</id>
    <revision>
      <id>1001</id>
      <parentid>1000</parentid>
      <timestamp>2024-01-01T00:00:00Z</timestamp>
      <contributor>
        <username>Someone</username>
        <id>7</id>
      </contributor>
      <comment>edit</comment>
      <origin>1001</origin>
      <model>wikitext</model>
      <format>text/x-wiki</format>
      <text bytes=\"28\" sha1=\"abc\" xml:space=\"preserve\">==English==
===Etymology===
</text>
      <sha1>abc</sha1>
    </revision>
  </page>
";

const REDIRECT_PAGE: &str = "  <page>
    <title>Dictionary</title>
    <ns>0</ns>
    <id>43</id>
    <redirect title=\"dictionary\" />
    <revision>
      <id>1002</id>
      <timestamp>2024-01-02T00:00:00Z</timestamp>
      <contributor deleted=\"deleted\" />
      <minor />
      <comment deleted=\"deleted\" />
      <origin>1002</origin>
      <model>wikitext</model>
      <format>text/x-wiki</format>
      <text bytes=\"0\" sha1=\"def\" />
      <sha1>def</sha1>
    </revision>
  </page>
";

fn dump(pages: &[&str]) -> String {
    let mut d = HEADER.to_string();
    for p in pages {
        d.push_str(p);
    }
    d.push_str("</mediawiki>\n");
    d
}

fn strict_pages(d: &str, chunk: usize) -> (Vec<Page>, Result<Option<Page>, ParseError>) {
    let mut r = QwiktReader::new();
    let bytes = d.as_bytes();
    let mut fed = 0;
    let mut pages = Vec::new();
    loop {
        match r.next_page() {
            Ok(Some(p)) => pages.push(p),
            Ok(None) => break,
            Err(ParseError::NeedInput) => {
                let end = (fed + chunk).min(bytes.len());
                r.feed(&bytes[fed..end]);
                fed = end;
                if fed == bytes.len() {
                    r.close();
                }
            }
            Err(e) => return (pages, Err(e)),
        }
    }
    let after = r.next_page();
    (pages, after)
}

fn line_pages(d: &str) -> (Vec<Page>, Result<Option<Page>, ParseError>) {
    let mut r = RegexReader::new();
    let mut pages = Vec::new();
    for line in d.lines() {
        if let Some(p) = r.next_line(line).unwrap() {
            pages.push(p);
        }
    }
    assert!(r.end_of_input().unwrap().is_none());
    let after = r.end_of_input();
    (pages, after)
}

fn event_pages(d: &str) -> (Vec<Page>, Result<Option<Page>, ParseError>) {
    let mut reader = Reader::from_reader(d.as_bytes());
    let mut buf = Vec::new();
    let mut state = State::new();
    let mut pages = Vec::new();
    loop {
        let ev = match reader.read_event_into(&mut buf) {
            Ok(Event::Start(e)) => XmlEvent::Start(element_of(e.name().as_ref().as_bytes())),
            Ok(Event::End(e)) => XmlEvent::End(element_of(e.name().as_ref().as_bytes())),
            Ok(Event::Empty(e)) => XmlEvent::Empty(element_of(e.name().as_ref().as_bytes())),
            Ok(Event::Text(t)) => XmlEvent::Text(t.as_bytes().to_vec()),
            Ok(Event::GeneralRef(r)) => XmlEvent::Reference(r.as_bytes().to_vec()),
            Ok(Event::Eof) | Err(_) => XmlEvent::Finish,
            Ok(_) => {
                buf.clear();
                continue;
            }
        };
        let last = matches!(ev, XmlEvent::Finish);
        if let Some(p) = state.on_event(ev).unwrap() {
            pages.push(p);
        }
        buf.clear();
        if last {
            break;
        }
    }
    let after = state.on_event(XmlEvent::Finish);
    (pages, after)
}

#[test]
fn three_readers_agree_on_one_page() {
    let d = dump(&[PAGE]);
    let (strict, _) = strict_pages(&d, 64);
    let (lines, _) = line_pages(&d);
    let (events, _) = event_pages(&d);
    for pages in [&strict, &lines, &events] {
        assert_eq!(pages.len(), 1);
        let p = &pages[0];
        assert_eq!(p.title, "dictionary");
        assert_eq!(p.ns, Some(0));
        assert_eq!(p.id, Some(42));
        assert_eq!(p.rev_text, "==English==\n===Etymology===\n");
        assert_eq!(p.rev_contrib_id, Some(7));
    }
    assert_eq!(strict[0].rev_id, Some(1001));
    assert_eq!(lines[0].rev_id, Some(1001));
    assert_eq!(events[0].rev_id, Some(1001));
}

#[test]
fn end_of_pages_is_reported_once() {
    let d = dump(&[PAGE]);
    assert_eq!(strict_pages(&d, 1000).1.unwrap_err(), ParseError::AfterEnd);
    assert_eq!(line_pages(&d).1.unwrap_err(), ParseError::AfterEnd);
    assert_eq!(event_pages(&d).1.unwrap_err(), ParseError::AfterEnd);
    let mut s = StringOpsReader::new();
    assert!(s.end_of_input().unwrap().is_none());
    assert_eq!(s.next_line("  <page>").unwrap_err(), ParseError::AfterEnd);
}

#[test]
fn strict_reader_optional_elements() {
    let d = dump(&[PAGE, REDIRECT_PAGE]);
    for chunk in [1, 7, 100000] {
        let (pages, after) = strict_pages(&d, chunk);
        assert_eq!(after.unwrap_err(), ParseError::AfterEnd);
        assert_eq!(pages.len(), 2);
        assert_eq!(pages[1].title, "Dictionary");
        assert_eq!(pages[1].id, Some(43));
        assert_eq!(pages[1].rev_contrib_id, None);
        assert_eq!(pages[1].rev_text, "");
    }
}

#[test]
fn strict_reader_reports_first_deviation() {
    let d = dump(&[PAGE]).replace("<ns>0</ns>\n    <id>", "<ns>0</ns>\n    <Id>");
    let (pages, err) = strict_pages(&d, 1 << 20);
    assert!(pages.is_empty());
    match err {
        Err(ParseError::Mismatch { expected, found, line, .. }) => {
            assert_eq!(expected, b'i');
            assert_eq!(found, b'I');
            assert_eq!(line, 16);
        }
        other => panic!("unexpected result {:?}", other),
    }
}

#[test]
fn strict_reader_truncated_input() {
    let d = dump(&[PAGE]);
    let cut = &d[..d.len() - 200];
    let mut r = QwiktReader::new();
    r.feed(cut.as_bytes());
    assert_eq!(r.next_page().unwrap_err(), ParseError::NeedInput);
    r.close();
    assert!(matches!(r.next_page(), Err(ParseError::UnexpectedEof { .. })));
}

#[test]
fn strict_reader_bad_number() {
    let d = dump(&[PAGE]).replace("<id>42</id>", "<id>4x2</id>");
    assert_eq!(strict_pages(&d, 1 << 20).1.unwrap_err(), ParseError::BadNumber);
}

#[test]
fn line_reader_numbers_and_single_line_text() {
    let mut r = StringOpsReader::new();
    for line in ["  <page>", "    <title>a</title>", "    <ns>0</ns>"] {
        assert!(r.next_line(line).unwrap().is_none());
    }
    assert_eq!(r.next_line("    <id>99999999999</id>").unwrap_err(), ParseError::BadNumber);
    assert!(r.next_line("    <id>-5</id>").unwrap().is_none());
    for line in ["    <revision>", "      <text bytes=\"3\" xml:space=\"preserve\">abc</text>", "    </revision>"] {
        assert!(r.next_line(line).unwrap().is_none());
    }
    let p = r.next_line("  </page>").unwrap().unwrap();
    assert_eq!(p.id, Some(-5));
    assert_eq!(p.title, "a");
    assert_eq!(p.rev_text, "abc");
}

#[test]
fn event_reader_errors_and_references() {
    let mut s = State::new();
    assert!(s.on_event(XmlEvent::Start(Element::Page)).unwrap().is_none());
    assert!(s.on_event(XmlEvent::Start(Element::Text)).unwrap().is_none());
    assert!(s.on_event(XmlEvent::Text(b"a ".to_vec())).unwrap().is_none());
    assert!(s.on_event(XmlEvent::Reference(b"amp".to_vec())).unwrap().is_none());
    assert!(s.on_event(XmlEvent::Text(b" b".to_vec())).unwrap().is_none());
    assert!(s.on_event(XmlEvent::End(Element::Text)).unwrap().is_none());
    assert_eq!(s.on_event(XmlEvent::Text(vec![0xff, 0xfe])).unwrap_err(), ParseError::Encoding);
    assert!(s.on_event(XmlEvent::Start(Element::Id)).unwrap().is_none());
    assert!(s.on_event(XmlEvent::Text(b"x".to_vec())).unwrap().is_none());
    assert_eq!(s.on_event(XmlEvent::End(Element::Id)).unwrap_err(), ParseError::BadNumber);
    let p = s.on_event(XmlEvent::End(Element::Page)).unwrap().unwrap();
    assert_eq!(p.rev_text, "a &amp; b");
    assert_eq!(element_of(b"page"), Element::Page);
    assert_eq!(element_of(b"siteinfo"), Element::Other);
}

#[test]
fn text_closed_at_end_of_its_last_line() {
    let page = PAGE.replace("===Etymology===\n</text>", "===Etymology===\nlast line</text>");
    let d = dump(&[&page]);
    let (strict, _) = strict_pages(&d, 1 << 20);
    let (lines, _) = line_pages(&d);
    let (events, _) = event_pages(&d);
    for pages in [&strict, &lines, &events] {
        assert_eq!(pages.len(), 1);
        assert_eq!(pages[0].rev_text, "==English==\n===Etymology===\nlast line");
    }
}
