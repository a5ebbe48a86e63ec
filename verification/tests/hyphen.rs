use hyphenation::{Language, Load, Standard};
use strop::hyphen::{route, DictHyphenator, HyphenLanguage};
use unicode_normalization::UnicodeNormalization;
use unicode_segmentation::UnicodeSegmentation;

/// The bytes of a dictionary file as the app finds it under
/// `assets/hyphenation/`: the `hyphenation` crate's standard dictionary for
/// the language, serialised.
fn dictionary_file(lang: Language) -> Vec<u8> {
    bincode::serialize(&Standard::from_embedded(lang).unwrap()).unwrap()
}

/// A router with both dictionary files present.
fn hyphenator() -> DictHyphenator {
    DictHyphenator::new(
        Some(dictionary_file(Language::EnglishUS)),
        Some(dictionary_file(Language::Russian)),
    )
}

fn assert_boundaries(word: &str, bs: &[usize]) {
    let graphemes: Vec<usize> = word.grapheme_indices(true).map(|(i, _)| i).collect();
    for &b in bs {
        assert!(word.is_char_boundary(b), "{b} not a char boundary of {word:?}");
        assert!(graphemes.contains(&b), "{b} not a grapheme boundary of {word:?}");
    }
}

#[test]
fn capitalized_words_hyphenate_with_realigned_offsets() {
    let mut h = hyphenator();
    let b = h.breaks("Anfractuous");
    assert!(!b.is_empty(), "the en-US dictionary must load from assets/");
    assert_boundaries("Anfractuous", &b);
    assert_eq!(b, h.breaks("anfractuous"));
}

#[test]
fn nfc_yo_routes_to_russian() {
    let mut h = hyphenator();
    assert_boundaries("Ёлка", &h.breaks("Ёлка"));
    let b = h.breaks("Ёлочка");
    assert!(!b.is_empty(), "the ru dictionary must load and know ё");
    assert_boundaries("Ёлочка", &b);
    let b = h.breaks("переносами");
    assert!(!b.is_empty());
    assert_boundaries("переносами", &b);
}

#[test]
fn soft_hyphens_override_the_dictionary() {
    let mut h = hyphenator();
    let w = "hy\u{ad}phenation";
    assert_eq!(h.breaks(w), vec![2], "the shy position is the only break");
    assert_ne!(h.breaks("hyphenation"), vec![2], "the dictionary disagrees");
}

#[test]
fn nfd_words_skip_hyphenation() {
    let mut h = hyphenator();
    let nfd: String = "Ёлочка".nfd().collect();
    assert_ne!(nfd, "Ёлочка", "the fixture must actually decompose");
    assert!(h.breaks(&nfd).is_empty(), "NFD form differs from raw -> skipped");
}

#[test]
fn routing_by_the_first_alphabetic_script() {
    let mut h = hyphenator();
    assert!(!h.breaks("hyphenation").is_empty());
    assert!(!h.breaks("типографика").is_empty());
    assert!(h.breaks("ελληνικά").is_empty(), "Greek routes to no dictionary");
    assert!(h.breaks("12345").is_empty());
    assert!(h.breaks("——").is_empty());
}

#[test]
fn apostrophe_words_stay_safe() {
    let mut h = hyphenator();
    assert_boundaries("don't", &h.breaks("don't"));
    let b = h.breaks("mademoiselle's");
    assert_boundaries("mademoiselle's", &b);
}

#[test]
fn route_follows_the_first_letter_past_digits_and_marks() {
    assert_eq!(route("42nd"), Some(HyphenLanguage::EnglishUS));
    assert_eq!(route("«Ёлка»"), Some(HyphenLanguage::Russian));
    assert_eq!(route("Été"), Some(HyphenLanguage::EnglishUS));
    assert_eq!(route("ελληνικά"), None);
    assert_eq!(route(""), None);
}

#[test]
fn a_missing_or_foreign_dictionary_file_gives_no_breaks() {
    // No Russian file: Cyrillic words get no breaks, English still does.
    let mut h = DictHyphenator::new(Some(dictionary_file(Language::EnglishUS)), None);
    assert!(h.breaks("переносами").is_empty());
    assert!(!h.breaks("hyphenation").is_empty());
    // Another language's dictionary file does not load as this one.
    let mut h = DictHyphenator::new(Some(dictionary_file(Language::Russian)), Some(dictionary_file(Language::EnglishUS)));
    assert!(h.breaks("hyphenation").is_empty());
    assert!(h.breaks("переносами").is_empty());
    let mut h = DictHyphenator::new(None, None);
    assert!(h.breaks("hyphenation").is_empty());
}

#[test]
fn soft_hyphen_at_the_edge_is_not_a_break() {
    let mut h = hyphenator();
    // A soft hyphen as the very first char sits at offset 0: not strictly
    // inside the word, so the only offered break is refused.
    assert_eq!(h.breaks("\u{ad}word"), Vec::<usize>::new());
    assert_eq!(h.breaks("a\u{ad}b\u{ad}c"), vec![1, 4]);
}
