use wikters::wikitext_splitter::{
    content_for_heading, find_language_section, l3_headings_in_section, parse_heading,
    split_by_headings, Heading,
};

#[test]
fn test_split_basic() {
    let wikitext = "Prolog\n==English==\nSome text\n===Etymology===\nEtym text";
    let (headings, content) = split_by_headings(wikitext);

    assert_eq!(headings.len(), 2);
    assert_eq!(headings[0].level, 2);
    assert_eq!(headings[0].text, "English");
    assert_eq!(headings[1].level, 3);
    assert_eq!(headings[1].text, "Etymology");

    assert_eq!(content.len(), 3);
    assert!(content[0].contains("Prolog"));
    assert!(content[1].contains("Some text"));
    assert!(content[2].contains("Etym text"));
}

#[test]
fn test_find_language_section() {
    let headings = vec![
        Heading { level: 2, text: "English".to_string() },
        Heading { level: 3, text: "Etymology".to_string() },
        Heading { level: 2, text: "French".to_string() },
        Heading { level: 3, text: "Ã‰tymologie".to_string() },
    ];

    let (start, end) = find_language_section(&headings, "English").unwrap();
    assert_eq!(start, 0);
    assert_eq!(end, 2);

    let (start, end) = find_language_section(&headings, "French").unwrap();
    assert_eq!(start, 2);
    assert_eq!(end, 4);
}

#[test]
fn test_l3_headings() {
    let headings = vec![
        Heading { level: 2, text: "English".to_string() },
        Heading { level: 3, text: "Etymology".to_string() },
        Heading { level: 4, text: "Noun".to_string() },
        Heading { level: 3, text: "Pronunciation".to_string() },
    ];

    let l3s = l3_headings_in_section(&headings, 0, 4);
    assert_eq!(l3s.len(), 2);
    assert_eq!(l3s[0], 1);
    assert_eq!(l3s[1], 3);
}

#[test]
fn heading_line_rules() {
    let h = parse_heading("=== Foo ===").unwrap();
    assert_eq!(h.level, 3);
    assert_eq!(h.text, "Foo");
    let h = parse_heading("==Bar==").unwrap();
    assert_eq!(h.level, 2);
    assert_eq!(h.text, "Bar");
    assert!(parse_heading("=Baz=").is_none());
    assert!(parse_heading("===Unbalanced==").is_none());
    assert!(parse_heading("====").is_none());
    assert!(parse_heading("==   ==").is_none());
    assert!(parse_heading("plain text").is_none());
    let h = parse_heading("  ==== Noun 2 ====  ").unwrap();
    assert_eq!(h.level, 4);
    assert_eq!(h.text, "Noun 2");
}

#[test]
fn heading_lines_inside_text() {
    let (headings, content) = split_by_headings("=== Foo ===\n=Baz=\n===Unbalanced==\n==Bar==");
    assert_eq!(headings.len(), 2);
    assert_eq!(headings[0], Heading { level: 3, text: "Foo".to_string() });
    assert_eq!(headings[1], Heading { level: 2, text: "Bar".to_string() });
    assert_eq!(content, vec!["".to_string(), "=Baz=\n===Unbalanced==".to_string(), "".to_string()]);
}

#[test]
fn chunk_count_is_one_more_than_headings() {
    for text in ["", "\n", "no headings at all", "==A==", "==A==\n==B==\n", "x\r\n==A==\r\ny\r\n"] {
        let (headings, content) = split_by_headings(text);
        assert_eq!(content.len(), headings.len() + 1);
    }
    let (headings, content) = split_by_headings("");
    assert!(headings.is_empty());
    assert_eq!(content, vec!["".to_string()]);
}

#[test]
fn content_keeps_lines_verbatim() {
    let (headings, content) = split_by_headings("intro\n\n  indented\n==English==\r\nline one\r\nline two\n");
    assert_eq!(headings.len(), 1);
    assert_eq!(content[0], "intro\n\n  indented");
    assert_eq!(content[1], "line one\nline two");
}

#[test]
fn content_under_heading() {
    let (_, content) = split_by_headings("Prolog\n==English==\nSome text");
    assert_eq!(content_for_heading(&content, 0), "Some text");
    assert_eq!(content_for_heading(&content, 1), "");
    assert_eq!(content_for_heading(&content, usize::MAX), "");
}

#[test]
fn language_section_absent_or_last() {
    let headings = vec![
        Heading { level: 2, text: "Old English".to_string() },
        Heading { level: 3, text: "Noun".to_string() },
        Heading { level: 4, text: "Declension".to_string() },
    ];
    assert_eq!(find_language_section(&headings, "English"), Some((0, 3)));
    assert_eq!(find_language_section(&headings, "Noun"), None);
    assert_eq!(find_language_section(&headings, "german"), None);
    assert_eq!(find_language_section(&[], "English"), None);
}

#[test]
fn language_sections_of_two_languages() {
    let headings = vec![
        Heading { level: 2, text: "English".to_string() },
        Heading { level: 3, text: "Etymology".to_string() },
        Heading { level: 2, text: "French".to_string() },
        Heading { level: 3, text: "Étymologie".to_string() },
    ];
    assert_eq!(find_language_section(&headings, "English"), Some((0, 2)));
    assert_eq!(find_language_section(&headings, "French"), Some((2, 4)));
    assert_eq!(find_language_section(&headings, "english"), None);
}
