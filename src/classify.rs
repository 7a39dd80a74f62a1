//! Maps a heading's text to what the heading is about: an etymology, a
//! pronunciation, a part of speech, or something else.
use vstd::prelude::*;

use crate::text::{chars_of, contains, contains_chars, matches_at, occurs_at, string_of, trim, trim_range};

verus! {

/// What `str::to_lowercase` gives for a string with characters `s`.
pub uninterp spec fn lower_of(s: Seq<char>) -> Seq<char>;

/// Relies on str::to_lowercase: the lowercase mapping of each character,
/// a function of the characters alone.
#[verifier::external_body]
fn lowercase(s: &str) -> (r: String)
    ensures
        r@ == lower_of(s@),
{
    s.to_lowercase()
}

/// What a heading is about.
#[derive(Debug, Clone, PartialEq, Eq)]
pub enum Category {
    Etymology,
    Pronunciation,
    /// A part of speech, with the vocabulary term that matched (`"noun"`).
    PartOfSpeech(String),
    /// Anything else, with the heading's text as written.
    Other(String),
}

/// The mathematical value of a [`Category`].
pub enum CategoryView {
    Etymology,
    Pronunciation,
    PartOfSpeech(Seq<char>),
    Other(Seq<char>),
}

impl View for Category {
    type V = CategoryView;

    open spec fn view(&self) -> CategoryView {
        match self {
            Category::Etymology => CategoryView::Etymology,
            Category::Pronunciation => CategoryView::Pronunciation,
            Category::PartOfSpeech(t) => CategoryView::PartOfSpeech(t@),
            Category::Other(t) => CategoryView::Other(t@),
        }
    }
}

/// The category without its text.
#[derive(Debug, Clone, Copy, PartialEq, Eq, Structural)]
pub enum HeadingKind {
    Etymology,
    Pronunciation,
    PartOfSpeech,
    Other,
}

pub open spec fn kind_of(c: CategoryView) -> HeadingKind {
    match c {
        CategoryView::Etymology => HeadingKind::Etymology,
        CategoryView::Pronunciation => HeadingKind::Pronunciation,
        CategoryView::PartOfSpeech(_) => HeadingKind::PartOfSpeech,
        CategoryView::Other(_) => HeadingKind::Other,
    }
}

impl Category {
    pub fn kind(&self) -> (r: HeadingKind)
        ensures
            r == kind_of(self@),
    {
        match self {
            Category::Etymology => HeadingKind::Etymology,
            Category::Pronunciation => HeadingKind::Pronunciation,
            Category::PartOfSpeech(_) => HeadingKind::PartOfSpeech,
            Category::Other(_) => HeadingKind::Other,
        }
    }
}

pub open spec fn etymology_word() -> Seq<char> {
    seq!['e', 't', 'y', 'm', 'o', 'l', 'o', 'g', 'y']
}

pub open spec fn pronunciation_word() -> Seq<char> {
    seq!['p', 'r', 'o', 'n', 'u', 'n', 'c', 'i', 'a', 't', 'i', 'o', 'n']
}

/// Number of terms in the part-of-speech vocabulary.
pub const POS_TERM_COUNT: usize = 12;

/// The part-of-speech vocabulary, in priority order.
pub open spec fn pos_term(k: int) -> Seq<char> {
    if k == 0 {
        seq!['n', 'o', 'u', 'n']
    } else if k == 1 {
        seq!['v', 'e', 'r', 'b']
    } else if k == 2 {
        seq!['a', 'd', 'j', 'e', 'c', 't', 'i', 'v', 'e']
    } else if k == 3 {
        seq!['a', 'd', 'v', 'e', 'r', 'b']
    } else if k == 4 {
        seq!['p', 'r', 'e', 'p', 'o', 's', 'i', 't', 'i', 'o', 'n']
    } else if k == 5 {
        seq!['c', 'o', 'n', 'j', 'u', 'n', 'c', 't', 'i', 'o', 'n']
    } else if k == 6 {
        seq!['i', 'n', 't', 'e', 'r', 'j', 'e', 'c', 't', 'i', 'o', 'n']
    } else if k == 7 {
        seq!['d', 'e', 't', 'e', 'r', 'm', 'i', 'n', 'e', 'r']
    } else if k == 8 {
        seq!['p', 'r', 'o', 'n', 'o', 'u', 'n']
    } else if k == 9 {
        seq!['a', 'r', 't', 'i', 'c', 'l', 'e']
    } else if k == 10 {
        seq!['n', 'u', 'm', 'e', 'r', 'a', 'l']
    } else {
        seq!['p', 'a', 'r', 't', 'i', 'c', 'l', 'e']
    }
}

fn pos_term_chars(k: usize) -> (r: Vec<char>)
    requires
        k < POS_TERM_COUNT,
    ensures
        r@ == pos_term(k as int),
{
    let r = if k == 0 {
        vec!['n', 'o', 'u', 'n']
    } else if k == 1 {
        vec!['v', 'e', 'r', 'b']
    } else if k == 2 {
        vec!['a', 'd', 'j', 'e', 'c', 't', 'i', 'v', 'e']
    } else if k == 3 {
        vec!['a', 'd', 'v', 'e', 'r', 'b']
    } else if k == 4 {
        vec!['p', 'r', 'e', 'p', 'o', 's', 'i', 't', 'i', 'o', 'n']
    } else if k == 5 {
        vec!['c', 'o', 'n', 'j', 'u', 'n', 'c', 't', 'i', 'o', 'n']
    } else if k == 6 {
        vec!['i', 'n', 't', 'e', 'r', 'j', 'e', 'c', 't', 'i', 'o', 'n']
    } else if k == 7 {
        vec!['d', 'e', 't', 'e', 'r', 'm', 'i', 'n', 'e', 'r']
    } else if k == 8 {
        vec!['p', 'r', 'o', 'n', 'o', 'u', 'n']
    } else if k == 9 {
        vec!['a', 'r', 't', 'i', 'c', 'l', 'e']
    } else if k == 10 {
        vec!['n', 'u', 'm', 'e', 'r', 'a', 'l']
    } else {
        vec!['p', 'a', 'r', 't', 'i', 'c', 'l', 'e']
    };
    assert(r@ =~= pos_term(k as int));
    r
}

pub open spec fn is_word_char(c: char) -> bool {
    'a' <= c && c <= 'z'
}

/// `w` occurs in `l` at `i` as a whole word: no lowercase ASCII letter
/// touches it on either side.
pub open spec fn word_at(l: Seq<char>, w: Seq<char>, i: int) -> bool {
    &&& occurs_at(l, w, i)
    &&& (i == 0 || !is_word_char(l[i - 1]))
    &&& (i + w.len() == l.len() || !is_word_char(l[i + w.len()]))
}

pub open spec fn has_word(l: Seq<char>, w: Seq<char>) -> bool {
    exists|i: int| word_at(l, w, i)
}

/// Index of the first vocabulary term from `k` on that `l` holds as a word.
pub open spec fn pos_match_from(l: Seq<char>, k: int) -> Option<int>
    decreases POS_TERM_COUNT - k,
{
    if k < 0 || k >= POS_TERM_COUNT {
        None
    } else if has_word(l, pos_term(k)) {
        Some(k)
    } else {
        pos_match_from(l, k + 1)
    }
}

/// The category of a heading with text `text` and lowercase form `lower`:
/// "etymology" anywhere makes an etymology; else "pronunciation" anywhere a
/// pronunciation; else the first vocabulary term standing as a word in it a
/// part of speech; else other.
pub open spec fn category_of(lower: Seq<char>, text: Seq<char>) -> CategoryView {
    if contains(lower, etymology_word()) {
        CategoryView::Etymology
    } else if contains(lower, pronunciation_word()) {
        CategoryView::Pronunciation
    } else {
        match pos_match_from(lower, 0) {
            Some(k) => CategoryView::PartOfSpeech(pos_term(k)),
            None => CategoryView::Other(text),
        }
    }
}

/// The category of a heading whose text is `text`.
pub open spec fn heading_category(text: Seq<char>) -> CategoryView {
    category_of(lower_of(text), text)
}

fn is_word_at(l: &Vec<char>, w: &Vec<char>, i: usize) -> (r: bool)
    ensures
        r == word_at(l@, w@, i as int),
{
    if !matches_at(l, w, i) {
        return false;
    }
    let n = l.len();
    let before = i == 0 || !('a' <= l[i - 1] && l[i - 1] <= 'z');
    let end = i + w.len();
    let after = end == l.len() || !('a' <= l[end] && l[end] <= 'z');
    before && after
}

/// Whether `w` stands in `l` as a whole word.
fn holds_word(l: &Vec<char>, w: &Vec<char>) -> (r: bool)
    ensures
        r == has_word(l@, w@),
{
    let mut i: usize = 0;
    while i < l.len()
        invariant
            forall|j: int| 0 <= j < i ==> !word_at(l@, w@, j),
        decreases l@.len() - i,
    {
        if is_word_at(l, w, i) {
            return true;
        }
        i += 1;
    }
    if is_word_at(l, w, i) {
        return true;
    }
    assert forall|j: int| !word_at(l@, w@, j) by {
        if j > l@.len() || j < 0 {
            assert(!occurs_at(l@, w@, j));
        }
    }
    false
}

/// Classifies a heading from its text and the lowercase form of it.
pub fn classify_folded(lower: &str, text: &str) -> (r: Category)
    ensures
        r@ == category_of(lower@, text@),
{
    let l = chars_of(lower);
    let ety = vec!['e', 't', 'y', 'm', 'o', 'l', 'o', 'g', 'y'];
    assert(ety@ =~= etymology_word());
    if contains_chars(&l, &ety) {
        return Category::Etymology;
    }
    let pron = vec!['p', 'r', 'o', 'n', 'u', 'n', 'c', 'i', 'a', 't', 'i', 'o', 'n'];
    assert(pron@ =~= pronunciation_word());
    if contains_chars(&l, &pron) {
        return Category::Pronunciation;
    }
    let mut k: usize = 0;
    while k < POS_TERM_COUNT
        invariant
            k <= POS_TERM_COUNT,
            l@ == lower@,
            !contains(lower@, etymology_word()),
            !contains(lower@, pronunciation_word()),
            pos_match_from(l@, 0) == pos_match_from(l@, k as int),
        decreases POS_TERM_COUNT - k,
    {
        let term = pos_term_chars(k);
        if holds_word(&l, &term) {
            let t = string_of(&term, 0, term.len());
            assert(term@.subrange(0, term@.len() as int) =~= term@);
            assert(pos_match_from(l@, k as int) == Some(k as int));
            return Category::PartOfSpeech(t);
        }
        k += 1;
    }
    Category::Other(text.to_owned())
}

/// Classifies a heading from its text (`"Etymology 1"` is an etymology,
/// `"Pronoun"` the part of speech `"pronoun"`).
pub fn classify(text: &str) -> (r: Category)
    ensures
        r@ == heading_category(text@),
{
    let lower = lowercase(text);
    classify_folded(lower.as_str(), text)
}

/// Classifying is a function of the heading text: the same text classified
/// twice gets the same category.
pub proof fn classify_is_deterministic(a: Seq<char>, b: Seq<char>)
    requires
        a == b,
    ensures
        heading_category(a) == heading_category(b),
{
}

/// Whether `char::is_alphabetic` holds of `c`.
pub uninterp spec fn alphabetic(c: char) -> bool;

/// Relies on char::is_alphabetic: the Unicode `Alphabetic` property of
/// the character, a function of the character alone.
#[verifier::external_body]
fn is_alphabetic(c: char) -> (r: bool)
    ensures
        r == alphabetic(c),
{
    c.is_alphabetic()
}

/// The letters of `s` with single spaces where `s` had spaces, before
/// trimming: other characters dropped, a space kept only after a
/// character that is not a space.
pub open spec fn letters_and_spaces(s: Seq<char>) -> Seq<char>
    decreases s.len(),
{
    if s.len() == 0 {
        Seq::empty()
    } else {
        let prev = letters_and_spaces(s.drop_last());
        let c = s.last();
        if alphabetic(c) {
            prev.push(c)
        } else if c == ' ' && !(prev.len() > 0 && prev.last() == ' ') {
            prev.push(c)
        } else {
            prev
        }
    }
}

/// A heading text for grouping: only its letters and single interior
/// spaces (`"Etymology 1"` becomes `"Etymology"`).
pub fn normalize_section_type(text: &str) -> (r: String)
    ensures
        r@ == trim(letters_and_spaces(text@)),
{
    let t = chars_of(text);
    let mut kept: Vec<char> = Vec::new();
    let mut i: usize = 0;
    while i < t.len()
        invariant
            i <= t@.len(),
            kept@ == letters_and_spaces(t@.subrange(0, i as int)),
        decreases t@.len() - i,
    {
        let c = t[i];
        let ghost prev = kept@;
        assert(t@.subrange(0, i + 1).drop_last() =~= t@.subrange(0, i as int));
        if is_alphabetic(c) {
            kept.push(c);
        } else if c == ' ' && !(kept.len() > 0 && kept[kept.len() - 1] == ' ') {
            kept.push(c);
        }
        i += 1;
    }
    assert(t@.subrange(0, i as int) =~= t@);
    let (a, b) = trim_range(&kept, 0, kept.len());
    assert(kept@.subrange(0, kept@.len() as int) =~= kept@);
    string_of(&kept, a, b)
}

} // verus!
