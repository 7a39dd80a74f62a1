//! Decides how the etymology, pronunciation and part-of-speech headings of
//! one language section are ordered and nested.
use vstd::prelude::*;

use crate::classify::{classify, heading_category, kind_of, HeadingKind};
use crate::wikitext_splitter::{find_language_section, headings_of, opens_language, split_by_headings, Heading};

verus! {

/// One heading of a language section, as the pattern engine sees it.
#[derive(Debug, Clone, Copy, PartialEq, Eq, Structural)]
pub struct SectionHeading {
    pub level: usize,
    pub kind: HeadingKind,
}

/// Why a section matched none of the named shapes.
#[derive(Debug, Clone, Copy, PartialEq, Eq, Structural)]
pub enum UnmatchedShape {
    /// The section has no level-3 heading.
    NoLevel3,
    /// No level-3 heading is an etymology, a pronunciation or a part of speech.
    NoEtymologyPronunciationOrPartOfSpeech,
}

impl UnmatchedShape {
    /// The descriptive key of the shape (`"no_l3"`).
    pub fn key(&self) -> (r: String)
        ensures
            r@ == match self {
                UnmatchedShape::NoLevel3 => "no_l3"@,
                UnmatchedShape::NoEtymologyPronunciationOrPartOfSpeech => "no_etymology_pronunciation_pos"@,
            },
    {
        match self {
            UnmatchedShape::NoLevel3 => "no_l3".to_owned(),
            UnmatchedShape::NoEtymologyPronunciationOrPartOfSpeech => "no_etymology_pronunciation_pos".to_owned(),
        }
    }
}

/// The structural pattern of a language section.
#[derive(Debug, Clone, Copy, PartialEq, Eq, Structural)]
pub enum StructuralPattern {
    EtymologyThenNestedPronunciation,
    EtymologyThenFlatPronunciation,
    PronunciationThenNestedEtymology,
    PronunciationThenFlatEtymology,
    EtymologyWithNestedPartOfSpeech,
    EtymologyOnly,
    PronunciationWithNestedEtymology,
    PronunciationOnly,
    PartOfSpeechOnly,
    Other(UnmatchedShape),
}

pub open spec fn is_l3_of(sec: Seq<SectionHeading>, k: HeadingKind, i: int) -> bool {
    0 <= i < sec.len() && sec[i].level == 3 && sec[i].kind == k
}

/// Index of the first level-3 heading of kind `k` at or after `i`, or
/// `sec.len()` when there is none.
pub open spec fn first_l3_from(sec: Seq<SectionHeading>, k: HeadingKind, i: int) -> int
    decreases sec.len() - i,
{
    if i < 0 || i >= sec.len() {
        sec.len() as int
    } else if is_l3_of(sec, k, i) {
        i
    } else {
        first_l3_from(sec, k, i + 1)
    }
}

pub open spec fn first_l3(sec: Seq<SectionHeading>, k: HeadingKind) -> int {
    first_l3_from(sec, k, 0)
}

/// Heading `p` has a child of kind `k`: a heading exactly one level deeper
/// than `p`, before the first later heading at `p`'s level or above it.
pub open spec fn nested_child(sec: Seq<SectionHeading>, p: int, k: HeadingKind) -> bool {
    exists|j: int|
        #![trigger sec[j]]
        p < j < sec.len() && sec[j].level == sec[p].level + 1 && sec[j].kind == k && forall|m: int|
            p < m <= j ==> #[trigger] sec[m].level > sec[p].level
}

/// The pattern of a section: with no level-3 heading, `Other(NoLevel3)`;
/// with level-3 etymology and pronunciation, which comes first and whether
/// the first has the other as a child; with only one of them, whether it
/// has a part-of-speech child (etymology) or an etymology child
/// (pronunciation); else whether a level-3 part of speech is there.
pub open spec fn pattern_of(sec: Seq<SectionHeading>) -> StructuralPattern {
    let n = sec.len() as int;
    let e = first_l3(sec, HeadingKind::Etymology);
    let p = first_l3(sec, HeadingKind::Pronunciation);
    if !(exists|i: int| 0 <= i < n && #[trigger] sec[i].level == 3) {
        StructuralPattern::Other(UnmatchedShape::NoLevel3)
    } else if e < n && p < n {
        if e < p {
            if nested_child(sec, e, HeadingKind::Pronunciation) {
                StructuralPattern::EtymologyThenNestedPronunciation
            } else {
                StructuralPattern::EtymologyThenFlatPronunciation
            }
        } else if nested_child(sec, p, HeadingKind::Etymology) {
            StructuralPattern::PronunciationThenNestedEtymology
        } else {
            StructuralPattern::PronunciationThenFlatEtymology
        }
    } else if e < n {
        if nested_child(sec, e, HeadingKind::PartOfSpeech) {
            StructuralPattern::EtymologyWithNestedPartOfSpeech
        } else {
            StructuralPattern::EtymologyOnly
        }
    } else if p < n {
        if nested_child(sec, p, HeadingKind::Etymology) {
            StructuralPattern::PronunciationWithNestedEtymology
        } else {
            StructuralPattern::PronunciationOnly
        }
    } else if first_l3(sec, HeadingKind::PartOfSpeech) < n {
        StructuralPattern::PartOfSpeechOnly
    } else {
        StructuralPattern::Other(UnmatchedShape::NoEtymologyPronunciationOrPartOfSpeech)
    }
}

/// Index of the first level-3 heading of kind `k`, or `section.len()`.
fn first_level3(section: &[SectionHeading], k: HeadingKind) -> (r: usize)
    ensures
        r == first_l3(section@, k),
{
    let mut i: usize = 0;
    while i < section.len()
        invariant
            i <= section@.len(),
            first_l3(section@, k) == first_l3_from(section@, k, i as int),
        decreases section@.len() - i,
    {
        if section[i].level == 3 && section[i].kind == k {
            return i;
        }
        i += 1;
    }
    i
}

/// Whether heading `p` of `section` has a child of kind `k`, one level
/// deeper, within its span; deeper headings are passed over.
pub fn has_nested_child(section: &[SectionHeading], p: usize, k: HeadingKind) -> (r: bool)
    requires
        p < section@.len(),
    ensures
        r == nested_child(section@, p as int, k),
{
    let ghost sec = section@;
    let level = section[p].level;
    let mut j = p + 1;
    while j < section.len() && section[j].level > level
        invariant
            p < j <= sec.len(),
            sec == section@,
            level == sec[p as int].level,
            forall|m: int| p < m < j ==> #[trigger] sec[m].level > level,
            forall|m: int|
                p < m < j ==> !(#[trigger] sec[m].level == level + 1 && sec[m].kind == k),
        decreases sec.len() - j,
    {
        if section[j].level - 1 == level && section[j].kind == k {
            assert(sec[j as int].level == level + 1);
            return true;
        }
        j += 1;
    }
    assert forall|m: int|
        p < m < sec.len() && sec[m].level == sec[p as int].level + 1 && sec[m].kind == k
            implies !(forall|q: int| p < q <= m ==> #[trigger] sec[q].level > sec[p as int].level) by {
        if m >= j {
            assert(sec[j as int].level <= level);
        }
    }
    false
}

/// The structural pattern of a language section given as its classified,
/// leveled headings.
pub fn structural_pattern(section: &[SectionHeading]) -> (r: StructuralPattern)
    ensures
        r == pattern_of(section@),
{
    let ghost sec = section@;
    let n = section.len();
    let mut any_l3 = false;
    let mut i: usize = 0;
    while i < n && !any_l3
        invariant
            i <= n == sec.len(),
            sec == section@,
            any_l3 ==> i < n && sec[i as int].level == 3,
            forall|j: int| 0 <= j < i ==> #[trigger] sec[j].level != 3,
        decreases n - i + if any_l3 {
            0int
        } else {
            1int
        },
    {
        if section[i].level == 3 {
            any_l3 = true;
        } else {
            i += 1;
        }
    }
    if !any_l3 {
        return StructuralPattern::Other(UnmatchedShape::NoLevel3);
    }
    let e = first_level3(section, HeadingKind::Etymology);
    let p = first_level3(section, HeadingKind::Pronunciation);
    proof {
        lemma_first_l3_bound(sec, HeadingKind::Etymology, 0);
        lemma_first_l3_bound(sec, HeadingKind::Pronunciation, 0);
    }
    if e < n && p < n {
        if e < p {
            if has_nested_child(section, e, HeadingKind::Pronunciation) {
                StructuralPattern::EtymologyThenNestedPronunciation
            } else {
                StructuralPattern::EtymologyThenFlatPronunciation
            }
        } else if has_nested_child(section, p, HeadingKind::Etymology) {
            StructuralPattern::PronunciationThenNestedEtymology
        } else {
            StructuralPattern::PronunciationThenFlatEtymology
        }
    } else if e < n {
        if has_nested_child(section, e, HeadingKind::PartOfSpeech) {
            StructuralPattern::EtymologyWithNestedPartOfSpeech
        } else {
            StructuralPattern::EtymologyOnly
        }
    } else if p < n {
        if has_nested_child(section, p, HeadingKind::Etymology) {
            StructuralPattern::PronunciationWithNestedEtymology
        } else {
            StructuralPattern::PronunciationOnly
        }
    } else if first_level3(section, HeadingKind::PartOfSpeech) < n {
        StructuralPattern::PartOfSpeechOnly
    } else {
        StructuralPattern::Other(UnmatchedShape::NoEtymologyPronunciationOrPartOfSpeech)
    }
}

proof fn lemma_first_l3_bound(sec: Seq<SectionHeading>, k: HeadingKind, i: int)
    requires
        0 <= i <= sec.len(),
    ensures
        i <= first_l3_from(sec, k, i) <= sec.len(),
    decreases sec.len() - i,
{
    if i < sec.len() && !is_l3_of(sec, k, i) {
        lemma_first_l3_bound(sec, k, i + 1);
    }
}

/// The headings `hs[start..end]`, each with its level and the kind of its
/// category.
pub open spec fn classified_span(hs: Seq<(nat, Seq<char>)>, start: int, end: int) -> Seq<
    SectionHeading,
> {
    Seq::new(
        (end - start) as nat,
        |i: int|
            SectionHeading {
                level: hs[start + i].0 as usize,
                kind: kind_of(heading_category(hs[start + i].1)),
            },
    )
}

/// The structural pattern of the section `headings[start..end]`, each
/// heading classified from its text.
pub fn section_pattern(headings: &[Heading], start: usize, end: usize) -> (r: StructuralPattern)
    requires
        start <= end <= headings@.len(),
    ensures
        r == pattern_of(
            classified_span(headings@.map_values(|h: Heading| h@), start as int, end as int),
        ),
{
    let ghost hs = headings@.map_values(|h: Heading| h@);
    let mut section: Vec<SectionHeading> = Vec::new();
    let mut i = start;
    while i < end
        invariant
            start <= i <= end <= headings@.len(),
            hs == headings@.map_values(|h: Heading| h@),
            section@ == classified_span(hs, start as int, i as int),
        decreases end - i,
    {
        let c = classify(headings[i].text.as_str());
        section.push(SectionHeading { level: headings[i].level, kind: c.kind() });
        i += 1;
        assert(section@ =~= classified_span(hs, start as int, i as int));
    }
    structural_pattern(section.as_slice())
}

/// `start..end` is the section of `language` among the headings `hs`: the
/// first level-2 heading naming it, up to the next level-2 heading.
pub open spec fn language_span(hs: Seq<(nat, Seq<char>)>, language: Seq<char>, start: int, end: int) -> bool {
    &&& 0 <= start < end <= hs.len()
    &&& opens_language(hs[start], language)
    &&& forall|i: int| 0 <= i < start ==> !opens_language(#[trigger] hs[i], language)
    &&& forall|i: int| start < i < end ==> #[trigger] hs[i].0 != 2
    &&& end == hs.len() || hs[end].0 == 2
}

/// The structural pattern of the section of `language` in a page's
/// wikitext, or `None` when no level-2 heading names the language.
pub fn language_pattern(wikitext: &str, language: &str) -> (r: Option<StructuralPattern>)
    ensures
        match r {
            None => forall|i: int|
                0 <= i < headings_of(wikitext@).len() ==> !opens_language(
                    #[trigger] headings_of(wikitext@)[i],
                    language@,
                ),
            Some(p) => exists|start: int, end: int|
                language_span(headings_of(wikitext@), language@, start, end) && p == pattern_of(
                    #[trigger] classified_span(headings_of(wikitext@), start, end),
                ),
        },
{
    let (headings, _content) = split_by_headings(wikitext);
    let ghost hs = headings@.map_values(|h: Heading| h@);
    assert(forall|i: int| 0 <= i < headings@.len() ==> hs[i] == #[trigger] headings@[i]@);
    match find_language_section(headings.as_slice(), language) {
        None => None,
        Some((start, end)) => {
            let p = section_pattern(headings.as_slice(), start, end);
            assert(language_span(hs, language@, start as int, end as int));
            Some(p)
        },
    }
}

} // verus!
