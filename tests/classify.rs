use wikters::classify::{classify, classify_folded, normalize_section_type, Category, HeadingKind};

#[test]
fn classify_priority_and_suffixes() {
    assert_eq!(classify("Etymology 1"), Category::Etymology);
    assert_eq!(classify("ETYMOLOGY"), Category::Etymology);
    assert_eq!(classify("Pronunciation 2"), Category::Pronunciation);
    assert_eq!(classify("Etymology and pronunciation"), Category::Etymology);
    assert_eq!(classify("Noun"), Category::PartOfSpeech("noun".to_string()));
    assert_eq!(classify("Proper noun"), Category::PartOfSpeech("noun".to_string()));
    assert_eq!(classify("Pronoun"), Category::PartOfSpeech("pronoun".to_string()));
    assert_eq!(classify("Adverb"), Category::PartOfSpeech("adverb".to_string()));
    assert_eq!(classify("Particle"), Category::PartOfSpeech("particle".to_string()));
    assert_eq!(classify("Usage notes"), Category::Other("Usage notes".to_string()));
    assert_eq!(classify("How to pronounce"), Category::Other("How to pronounce".to_string()));
}

#[test]
fn classify_is_the_same_twice() {
    for text in ["Etymology 3", "Verb", "Translations", "Pronunciation", ""] {
        assert_eq!(classify(text), classify(text));
    }
}

#[test]
fn classify_from_folded_text() {
    assert_eq!(classify_folded("verb", "VERB"), Category::PartOfSpeech("verb".to_string()));
    assert_eq!(classify_folded("VERB", "VERB"), Category::Other("VERB".to_string()));
    assert_eq!(classify_folded("see pronunciation", "x"), Category::Pronunciation);
}

#[test]
fn category_kinds() {
    assert_eq!(classify("Etymology").kind(), HeadingKind::Etymology);
    assert_eq!(classify("Pronunciation").kind(), HeadingKind::Pronunciation);
    assert_eq!(classify("Numeral").kind(), HeadingKind::PartOfSpeech);
    assert_eq!(classify("Anagrams").kind(), HeadingKind::Other);
}

#[test]
fn normalize_strips_numbers_and_spaces() {
    assert_eq!(normalize_section_type("Etymology 1"), "Etymology");
    assert_eq!(normalize_section_type("  Proper   noun 2 "), "Proper noun");
    assert_eq!(normalize_section_type("Pronunciation-2"), "Pronunciation");
    assert_eq!(normalize_section_type("123"), "");
    assert_eq!(normalize_section_type("Étymologie"), "Étymologie");
}
