use wikters::classify::HeadingKind;
use wikters::pattern::{
    has_nested_child, language_pattern, section_pattern, structural_pattern, SectionHeading,
    StructuralPattern, UnmatchedShape,
};
use wikters::wikitext_splitter::split_by_headings;

fn h(level: usize, kind: HeadingKind) -> SectionHeading {
    SectionHeading { level, kind }
}

#[test]
fn etymology_with_nested_part_of_speech() {
    let sec = [h(2, HeadingKind::Other), h(3, HeadingKind::Etymology), h(4, HeadingKind::PartOfSpeech)];
    assert_eq!(structural_pattern(&sec), StructuralPattern::EtymologyWithNestedPartOfSpeech);
    let p = language_pattern("==English==\n===Etymology 1===\n====Noun====\n", "English");
    assert_eq!(p, Some(StructuralPattern::EtymologyWithNestedPartOfSpeech));
}

#[test]
fn pronunciation_then_flat_etymology() {
    let sec = [h(2, HeadingKind::Other), h(3, HeadingKind::Pronunciation), h(3, HeadingKind::Etymology)];
    assert_eq!(structural_pattern(&sec), StructuralPattern::PronunciationThenFlatEtymology);
    let p = language_pattern("==English==\n===Pronunciation===\n===Etymology===\n", "English");
    assert_eq!(p, Some(StructuralPattern::PronunciationThenFlatEtymology));
}

#[test]
fn part_of_speech_only() {
    let sec = [h(3, HeadingKind::PartOfSpeech)];
    assert_eq!(structural_pattern(&sec), StructuralPattern::PartOfSpeechOnly);
    let p = language_pattern("==English==\n===Noun===\n", "English");
    assert_eq!(p, Some(StructuralPattern::PartOfSpeechOnly));
}

#[test]
fn both_orders_and_nesting() {
    let e = HeadingKind::Etymology;
    let p = HeadingKind::Pronunciation;
    let n = HeadingKind::PartOfSpeech;
    let o = HeadingKind::Other;
    assert_eq!(
        structural_pattern(&[h(3, e), h(4, p), h(3, p)]),
        StructuralPattern::EtymologyThenNestedPronunciation
    );
    assert_eq!(
        structural_pattern(&[h(3, e), h(4, n), h(3, p)]),
        StructuralPattern::EtymologyThenFlatPronunciation
    );
    assert_eq!(
        structural_pattern(&[h(3, p), h(4, e), h(3, e)]),
        StructuralPattern::PronunciationThenNestedEtymology
    );
    assert_eq!(structural_pattern(&[h(3, e), h(3, n)]), StructuralPattern::EtymologyOnly);
    assert_eq!(
        structural_pattern(&[h(3, p), h(4, e), h(5, n)]),
        StructuralPattern::PronunciationWithNestedEtymology
    );
    assert_eq!(structural_pattern(&[h(3, p), h(3, n)]), StructuralPattern::PronunciationOnly);
    assert_eq!(
        structural_pattern(&[h(2, o), h(4, e)]),
        StructuralPattern::Other(UnmatchedShape::NoLevel3)
    );
    assert_eq!(
        structural_pattern(&[h(3, o), h(4, n)]),
        StructuralPattern::Other(UnmatchedShape::NoEtymologyPronunciationOrPartOfSpeech)
    );
    assert_eq!(structural_pattern(&[]), StructuralPattern::Other(UnmatchedShape::NoLevel3));
}

#[test]
fn nested_child_means_one_level_deeper() {
    let e = HeadingKind::Etymology;
    let p = HeadingKind::Pronunciation;
    let o = HeadingKind::Other;
    assert!(!has_nested_child(&[h(3, e), h(4, o), h(5, p)], 0, p));
    assert!(has_nested_child(&[h(3, e), h(5, o), h(4, p)], 0, p));
    assert!(!has_nested_child(&[h(3, e), h(3, o), h(4, p)], 0, p));
    assert!(!has_nested_child(&[h(3, e), h(2, o), h(4, p)], 0, p));
}

#[test]
fn unmatched_shape_keys() {
    assert_eq!(UnmatchedShape::NoLevel3.key(), "no_l3");
    assert_eq!(
        UnmatchedShape::NoEtymologyPronunciationOrPartOfSpeech.key(),
        "no_etymology_pronunciation_pos"
    );
}

#[test]
fn pattern_of_a_language_section() {
    let text = "==English==\n===Etymology===\n===Noun===\n==French==\n===Pronunciation===\n====Etymology 1====\n";
    assert_eq!(language_pattern(text, "English"), Some(StructuralPattern::EtymologyOnly));
    assert_eq!(
        language_pattern(text, "French"),
        Some(StructuralPattern::PronunciationWithNestedEtymology)
    );
    assert_eq!(language_pattern(text, "German"), None);
    let (headings, _) = split_by_headings(text);
    assert_eq!(section_pattern(&headings, 0, 3), StructuralPattern::EtymologyOnly);
    assert_eq!(section_pattern(&headings, 0, 0), StructuralPattern::Other(UnmatchedShape::NoLevel3));
}
