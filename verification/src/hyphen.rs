//! Hyphenation: per-word language routing, the NFC skip, and the checks
//! that every break the dictionary offers is a character and grapheme
//! boundary of the word. The TeX patterns themselves are the `hyphenation`
//! crate's, deserialised from dictionary files that the app reads at run
//! time and hands over as bytes: they are never compiled in (the Russian
//! patterns' licence keeps them an independent work on disk), and a missing
//! or unreadable file leaves its script without hyphenation.

use vstd::prelude::*;
use vstd::utf8::is_char_boundary;
use vstd::string::StringSliceAdditionalSpecFns;
use hyphenation::{Hyphenator, Language, Load, Standard};
use crate::chars::chars_of;
use crate::segment::{char_is_alphabetic, grapheme_offsets, grapheme_starts, is_alphabetic};

verus! {

#[verifier::external_type_specification]
#[verifier::external_body]
pub struct ExStandard(Standard);

/// The two languages Strop hyphenates.
#[derive(Clone, Copy, Debug, PartialEq, Eq)]
pub enum HyphenLanguage {
    EnglishUS,
    Russian,
}

/// Whether a string is in Unicode Normalization Form C.
pub uninterp spec fn is_nfc(s: Seq<char>) -> bool;

/// `unicode_normalization::is_nfc`. Claimed: the result is `is_nfc(s)`.
#[verifier::external_body]
fn string_is_nfc(s: &str) -> (b: bool)
    ensures
        b == is_nfc(s@),
{
    unicode_normalization::is_nfc(s)
}

/// A dictionary loaded for a language from the bytes of its file.
pub struct LangDictionary {
    lang: HyphenLanguage,
    source: Ghost<Seq<u8>>,
    minima: (usize, usize),
    dict: Standard,
}

impl LangDictionary {
    /// The language it was loaded for.
    pub closed spec fn language(&self) -> HyphenLanguage {
        self.lang
    }

    /// The bytes it was loaded from.
    pub closed spec fn source(&self) -> Seq<u8> {
        self.source@
    }

    /// The dictionary's minima: how many characters at the start and at the
    /// end of a word never break.
    pub closed spec fn minima_spec(&self) -> (usize, usize) {
        self.minima
    }

    /// The dictionary's minima.
    pub fn minima(&self) -> (r: (usize, usize))
        ensures
            r == self.minima_spec(),
    {
        self.minima
    }
}

/// The bytes are a dictionary file the `hyphenation` crate can work with:
/// deserialising them as a `Standard` dictionary of `lang` returns (with
/// the dictionary or an error), and, when it yields a dictionary, its
/// pattern automaton and tallies are whole, so that hyphenating any word
/// with it returns whenever its minima `(l, r)` have `r >= 1` and `l + r`
/// fits a `usize`. The crate's own standard dictionaries are such files;
/// arbitrary bytes need not be (a length prefix past `isize::MAX` makes the
/// deserialiser's buffer resize panic, and a damaged automaton can index
/// out of bounds while a word is looked up).
pub uninterp spec fn intact_dictionary(lang: HyphenLanguage, bytes: Seq<u8>) -> bool;

/// The minima of the dictionary `Load::from_reader` deserialises from
/// `bytes` as one of `lang`, or `None` when the bytes do not deserialise as
/// a dictionary of `lang`.
pub uninterp spec fn dictionary_minima(lang: HyphenLanguage, bytes: Seq<u8>) -> Option<(usize, usize)>;

/// `Load::from_reader` for `Standard`, reading the bytes of a dictionary
/// file: the dictionary, or `None` when the bytes do not deserialise as a
/// dictionary of `lang`. Only intact dictionary files are admitted (on
/// others the crate may panic). Claimed: whether it loads, and the minima
/// of what loads, are named by `dictionary_minima` of the language and the
/// bytes; what loads is held with its language and bytes; nothing is
/// claimed of its patterns.
#[verifier::external_body]
fn load_dictionary(lang: HyphenLanguage, bytes: &[u8]) -> (d: Option<LangDictionary>)
    requires
        intact_dictionary(lang, bytes@),
    ensures
        d is Some <==> dictionary_minima(lang, bytes@) is Some,
        d matches Some(x) ==> x.language() == lang && x.source() == bytes@ && intact_dictionary(
            x.language(),
            x.source(),
        ) && dictionary_minima(lang, bytes@) == Some(x.minima_spec()),
{
    let language = match lang {
        HyphenLanguage::EnglishUS => Language::EnglishUS,
        HyphenLanguage::Russian => Language::Russian,
    };
    let mut reader: &[u8] = bytes;
    match Standard::from_reader(language, &mut reader) {
        Ok(dict) => Some(LangDictionary { lang, source: Ghost(bytes@), minima: dict.minima, dict }),
        Err(_) => None,
    }
}

/// Minima a dictionary can hyphenate with: at least one character kept at
/// the end, and the two together counted without overflow.
pub open spec fn usable_minima(m: (usize, usize)) -> bool {
    m.1 >= 1 && m.0 + m.1 <= usize::MAX
}

/// The breaks `Hyphenator::hyphenate` finds in `word` with the dictionary
/// of `lang` loaded from `bytes`: byte offsets into the word.
pub uninterp spec fn pattern_breaks(lang: HyphenLanguage, bytes: Seq<u8>, word: Seq<char>) -> Seq<
    usize,
>;

/// Byte offsets of the soft hyphens (U+00AD, encoded C2 AD) in UTF-8 text.
pub open spec fn soft_hyphen_offsets(b: Seq<u8>) -> Seq<usize>
    decreases b.len(),
{
    if b.len() < 2 {
        seq![]
    } else {
        let r = soft_hyphen_offsets(b.drop_last());
        if b[b.len() - 2] == 0xC2 && b.last() == 0xAD {
            r.push((b.len() - 2) as usize)
        } else {
            r
        }
    }
}

/// `Hyphenator::hyphenate` on a `Standard` dictionary: the word's breaks,
/// named `pattern_breaks` of the dictionary's language and bytes and the
/// word.
/// Claimed besides, as the crate documents and its source shows: when the
/// word holds soft hyphens, their byte offsets are the only breaks. Only an
/// intact dictionary with usable minima is admitted (otherwise the crate's
/// `boundaries` may panic on a short word).
#[verifier::external_body]
fn dictionary_breaks(dict: &LangDictionary, word: &str) -> (r: Vec<usize>)
    requires
        intact_dictionary(dict.language(), dict.source()),
        usable_minima(dict.minima_spec()),
    ensures
        r@ == pattern_breaks(dict.language(), dict.source(), word@),
        soft_hyphen_offsets(word.spec_bytes()).len() > 0 ==> r@ == soft_hyphen_offsets(
            word.spec_bytes(),
        ),
{
    dict.dict.hyphenate(word).breaks
}

/// The dictionary a character's script routes to: Basic Latin and Latin-1
/// letters to en-US, Cyrillic to Russian, anything else to none.
pub open spec fn route_char(c: char) -> Option<HyphenLanguage> {
    if ('a' <= c && c <= 'z') || ('A' <= c && c <= 'Z') || ('\u{c0}' <= c && c <= '\u{ff}') {
        Some(HyphenLanguage::EnglishUS)
    } else if ('\u{400}' <= c && c <= '\u{4ff}') || ('\u{500}' <= c && c <= '\u{52f}') {
        Some(HyphenLanguage::Russian)
    } else {
        None
    }
}

/// Index of the first alphabetic character of `s`, or `s.len()`.
pub open spec fn first_alphabetic(s: Seq<char>) -> int
    decreases s.len(),
{
    if s.len() == 0 {
        0
    } else if is_alphabetic(s[0]) {
        0
    } else {
        1 + first_alphabetic(s.drop_first())
    }
}

/// The language a word routes to: that of its first alphabetic character.
pub open spec fn route_spec(s: Seq<char>) -> Option<HyphenLanguage> {
    let i = first_alphabetic(s);
    if i < s.len() {
        route_char(s[i])
    } else {
        None
    }
}

proof fn lemma_first_alphabetic(s: Seq<char>, i: int)
    requires
        0 <= i <= s.len(),
        forall|j: int| 0 <= j < i ==> !is_alphabetic(#[trigger] s[j]),
        i == s.len() || is_alphabetic(s[i]),
    ensures
        first_alphabetic(s) == i,
    decreases i,
{
    if i > 0 {
        lemma_first_alphabetic(s.drop_first(), i - 1);
    }
}

fn route_char_exec(c: char) -> (r: Option<HyphenLanguage>)
    ensures
        r == route_char(c),
{
    if ('a' <= c && c <= 'z') || ('A' <= c && c <= 'Z') || ('\u{c0}' <= c && c <= '\u{ff}') {
        Some(HyphenLanguage::EnglishUS)
    } else if ('\u{400}' <= c && c <= '\u{4ff}') || ('\u{500}' <= c && c <= '\u{52f}') {
        Some(HyphenLanguage::Russian)
    } else {
        None
    }
}

/// Per-word routing without language tags: the script of the first
/// alphabetic character decides. A word is atomic; its halves never route
/// to different dictionaries.
pub fn route(word: &str) -> (r: Option<HyphenLanguage>)
    ensures
        r == route_spec(word@),
{
    let v = chars_of(word);
    let mut i: usize = 0;
    while i < v.len() && !char_is_alphabetic(v[i])
        invariant
            v@ == word@,
            i <= v@.len(),
            forall|j: int| 0 <= j < i ==> !is_alphabetic(#[trigger] v@[j]),
        decreases v@.len() - i,
    {
        i += 1;
    }
    proof {
        lemma_first_alphabetic(v@, i as int);
    }
    if i < v.len() {
        route_char_exec(v[i])
    } else {
        None
    }
}

/// A break the engine may use: strictly inside the word, on a character
/// boundary, and on a grapheme boundary.
pub open spec fn break_ok(word: Seq<u8>, graphemes: Seq<usize>, b: usize) -> bool {
    &&& 0 < b < word.len()
    &&& is_char_boundary(word, b as int)
    &&& graphemes.contains(b)
}

/// The breaks of `raw` that are usable, in their order.
pub open spec fn keep_breaks(raw: Seq<usize>, word: Seq<u8>, graphemes: Seq<usize>) -> Seq<usize>
    decreases raw.len(),
{
    if raw.len() == 0 {
        seq![]
    } else {
        let r = keep_breaks(raw.drop_last(), word, graphemes);
        if break_ok(word, graphemes, raw.last()) {
            r.push(raw.last())
        } else {
            r
        }
    }
}

pub proof fn lemma_keep_breaks_ok(raw: Seq<usize>, word: Seq<u8>, graphemes: Seq<usize>, i: int)
    requires
        0 <= i < keep_breaks(raw, word, graphemes).len(),
    ensures
        break_ok(word, graphemes, keep_breaks(raw, word, graphemes)[i]),
    decreases raw.len(),
{
    if raw.len() > 0 {
        let r = keep_breaks(raw.drop_last(), word, graphemes);
        if i < r.len() {
            lemma_keep_breaks_ok(raw.drop_last(), word, graphemes, i);
        }
    }
}

fn contains_usize(v: &Vec<usize>, x: usize) -> (b: bool)
    ensures
        b == v@.contains(x),
{
    let mut i: usize = 0;
    while i < v.len()
        invariant
            i <= v@.len(),
            forall|j: int| 0 <= j < i ==> v@[j] != x,
        decreases v@.len() - i,
    {
        if v[i] == x {
            return true;
        }
        i += 1;
    }
    false
}

/// The usable breaks among `raw`: those strictly inside `word` that fall on
/// both a character boundary and one of the grapheme starts `graphemes`.
pub fn filter_breaks(word: &str, raw: &Vec<usize>, graphemes: &Vec<usize>) -> (r: Vec<usize>)
    ensures
        r@ == keep_breaks(raw@, word.spec_bytes(), graphemes@),
{
    let mut r: Vec<usize> = Vec::new();
    let mut i: usize = 0;
    while i < raw.len()
        invariant
            i <= raw@.len(),
            r@ == keep_breaks(raw@.take(i as int), word.spec_bytes(), graphemes@),
        decreases raw@.len() - i,
    {
        let b = raw[i];
        proof {
            assert(raw@.take(i + 1).drop_last() =~= raw@.take(i as int));
            assert(raw@.take(i + 1).last() == b);
        }
        let inside = 0 < b && b < word.as_bytes().len();
        let ok = inside && word.is_char_boundary(b) && contains_usize(graphemes, b);
        proof {
            assert(inside == (0 < b < word.spec_bytes().len()));
            assert(ok == break_ok(word.spec_bytes(), graphemes@, b));
        }
        if ok {
            r.push(b);
        }
        i += 1;
    }
    assert(raw@.take(raw@.len() as int) =~= raw@);
    r
}

/// What the dictionary's breaks become for a routed word: none when the
/// word is not already NFC, else the usable ones.
pub open spec fn checked_breaks(word: &str, raw: Seq<usize>) -> Seq<usize> {
    if !is_nfc(word@) {
        seq![]
    } else {
        keep_breaks(raw, word.spec_bytes(), grapheme_starts(word@))
    }
}

proof fn lemma_checked_ok(word: &str, raw: Seq<usize>, i: int)
    requires
        0 <= i < checked_breaks(word, raw).len(),
    ensures
        break_ok(word.spec_bytes(), grapheme_starts(word@), checked_breaks(word, raw)[i]),
{
    lemma_keep_breaks_ok(raw, word.spec_bytes(), grapheme_starts(word@), i);
}

/// The breaks `dict` gives `word`, checked: a word that is not already NFC
/// is skipped whole (offsets into a normalised copy would not map back onto
/// the word), and every offset kept is a character and grapheme boundary.
fn hyphenate_checked(dict: &LangDictionary, word: &str) -> (r: Vec<usize>)
    requires
        intact_dictionary(dict.language(), dict.source()),
        usable_minima(dict.minima_spec()),
    ensures
        r@ == checked_breaks(word, pattern_breaks(dict.language(), dict.source(), word@)),
        soft_hyphen_offsets(word.spec_bytes()).len() > 0 ==> r@ == checked_breaks(
            word,
            soft_hyphen_offsets(word.spec_bytes()),
        ),
{
    if !string_is_nfc(word) {
        return Vec::new();
    }
    let raw = dictionary_breaks(dict, word);
    let graphemes = grapheme_offsets(word);
    filter_breaks(word, &raw, &graphemes)
}

/// The breaks of a word whose dictionary is `lang`'s, loaded from `bytes`:
/// the checked pattern breaks, which are the author's soft hyphens when it
/// holds any.
pub open spec fn word_breaks(lang: HyphenLanguage, bytes: Seq<u8>, word: &str) -> Seq<usize> {
    checked_breaks(word, pattern_breaks(lang, bytes, word@))
}

/// Every break of a word lies strictly inside it, on a character and a
/// grapheme boundary; and a word with soft hyphens breaks at them alone.
pub proof fn law_breaks_are_safe(lang: HyphenLanguage, bytes: Seq<u8>, word: &str)
    ensures
        forall|i: int|
            0 <= i < word_breaks(lang, bytes, word).len() ==> break_ok(
                word.spec_bytes(),
                grapheme_starts(word@),
                #[trigger] word_breaks(lang, bytes, word)[i],
            ),
{
    assert forall|i: int| 0 <= i < word_breaks(lang, bytes, word).len() implies break_ok(
        word.spec_bytes(),
        grapheme_starts(word@),
        #[trigger] word_breaks(lang, bytes, word)[i],
    ) by {
        lemma_checked_ok(word, pattern_breaks(lang, bytes, word@), i);
    }
}

/// The engine-facing router: holds the two dictionaries, loaded once from
/// the bytes of their files.
pub struct DictHyphenator {
    en: Option<LangDictionary>,
    ru: Option<LangDictionary>,
}

/// The dictionary file `bytes` answers for `lang`: it loads as one of
/// `lang`, with minima it can hyphenate with.
pub open spec fn answers(lang: HyphenLanguage, bytes: Seq<u8>) -> bool {
    match dictionary_minima(lang, bytes) {
        Some(m) => usable_minima(m),
        None => false,
    }
}

/// The dictionary of `lang` from the bytes of its file, when it loads with
/// usable minima; a dictionary whose minima would make a short word fail
/// is refused, as a file that does not load is.
fn load_usable(lang: HyphenLanguage, bytes: &[u8]) -> (d: Option<LangDictionary>)
    requires
        intact_dictionary(lang, bytes@),
    ensures
        d is Some <==> answers(lang, bytes@),
        d matches Some(x) ==> x.language() == lang && x.source() == bytes@ && intact_dictionary(
            x.language(),
            x.source(),
        ) && usable_minima(x.minima_spec()),
{
    match load_dictionary(lang, bytes) {
        None => None,
        Some(d) => {
            let (l, r) = d.minima();
            if r >= 1 && l <= usize::MAX - r {
                Some(d)
            } else {
                None
            }
        },
    }
}

impl DictHyphenator {
    #[verifier::type_invariant]
    spec fn inv(self) -> bool {
        &&& (self.en matches Some(d) ==> d.language() == HyphenLanguage::EnglishUS
            && intact_dictionary(d.language(), d.source()) && usable_minima(d.minima_spec()))
        &&& (self.ru matches Some(d) ==> d.language() == HyphenLanguage::Russian
            && intact_dictionary(d.language(), d.source()) && usable_minima(d.minima_spec()))
    }

    /// Whether the dictionary for `lang` loaded.
    pub closed spec fn has(&self, lang: HyphenLanguage) -> bool {
        match lang {
            HyphenLanguage::EnglishUS => self.en is Some,
            HyphenLanguage::Russian => self.ru is Some,
        }
    }

    /// The bytes the dictionary for `lang` was loaded from.
    pub closed spec fn source(&self, lang: HyphenLanguage) -> Seq<u8> {
        match lang {
            HyphenLanguage::EnglishUS => match self.en {
                Some(d) => d.source(),
                None => Seq::empty(),
            },
            HyphenLanguage::Russian => match self.ru {
                Some(d) => d.source(),
                None => Seq::empty(),
            },
        }
    }

    /// Load the two dictionaries from the bytes of their files; `None` for a
    /// file that is missing or could not be read. A script whose file is
    /// missing, or whose bytes do not load as a dictionary of its language
    /// with usable minima, gets no breaks. The files given must be intact
    /// dictionary files (the app ships the `hyphenation` crate's standard
    /// dictionaries); on others the crate itself may panic.
    pub fn new(en: Option<Vec<u8>>, ru: Option<Vec<u8>>) -> (h: Self)
        requires
            en matches Some(b) ==> intact_dictionary(HyphenLanguage::EnglishUS, b@),
            ru matches Some(b) ==> intact_dictionary(HyphenLanguage::Russian, b@),
        ensures
            h.has(HyphenLanguage::EnglishUS) == (en matches Some(b) && answers(
                HyphenLanguage::EnglishUS,
                b@,
            )),
            h.has(HyphenLanguage::Russian) == (ru matches Some(b) && answers(
                HyphenLanguage::Russian,
                b@,
            )),
            en matches Some(b) ==> (h.has(HyphenLanguage::EnglishUS) ==> h.source(HyphenLanguage::EnglishUS) == b@),
            ru matches Some(b) ==> (h.has(HyphenLanguage::Russian) ==> h.source(HyphenLanguage::Russian) == b@),
    {
        let en = match en {
            Some(b) => load_usable(HyphenLanguage::EnglishUS, b.as_slice()),
            None => None,
        };
        let ru = match ru {
            Some(b) => load_usable(HyphenLanguage::Russian, b.as_slice()),
            None => None,
        };
        DictHyphenator { en, ru }
    }

    /// Byte offsets into `word` where a hyphen may break; empty when no
    /// dictionary answers. The word routes by its first alphabetic
    /// character; a word whose dictionary file was missing, did not load,
    /// or loaded with minima it cannot hyphenate with gets none; a word that is not already NFC is skipped; an author's
    /// soft hyphens override the patterns and become the only breaks; every
    /// offset returned is strictly inside the word, on a character and a
    /// grapheme boundary.
    pub fn breaks(&mut self, word: &str) -> (r: Vec<usize>)
        ensures
            r@ == (match route_spec(word@) {
                None => Seq::<usize>::empty(),
                Some(lang) => if old(self).has(lang) {
                    word_breaks(lang, old(self).source(lang), word)
                } else {
                    Seq::<usize>::empty()
                },
            }),
            soft_hyphen_offsets(word.spec_bytes()).len() > 0 ==> r@ == (match route_spec(word@) {
                Some(lang) => if old(self).has(lang) {
                    checked_breaks(word, soft_hyphen_offsets(word.spec_bytes()))
                } else {
                    Seq::<usize>::empty()
                },
                None => Seq::<usize>::empty(),
            }),
            final(self).has(HyphenLanguage::EnglishUS) == old(self).has(HyphenLanguage::EnglishUS),
            final(self).has(HyphenLanguage::Russian) == old(self).has(HyphenLanguage::Russian),
            final(self).source(HyphenLanguage::EnglishUS) == old(self).source(
                HyphenLanguage::EnglishUS,
            ),
            final(self).source(HyphenLanguage::Russian) == old(self).source(
                HyphenLanguage::Russian,
            ),
    {
        proof {
            use_type_invariant(&*self);
        }
        let dict = match route(word) {
            None => return Vec::new(),
            Some(HyphenLanguage::EnglishUS) => &self.en,
            Some(HyphenLanguage::Russian) => &self.ru,
        };
        match dict {
            None => Vec::new(),
            Some(d) => hyphenate_checked(d, word),
        }
    }
}

} // verus!
