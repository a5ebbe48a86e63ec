//! Unicode text segmentation and character properties, as the
//! `unicode-segmentation` crate and `std` compute them. Each function here
//! makes one outside call; what the call returns is named, and only the
//! facts that the crate's documentation gives are stated beside the name.

use vstd::prelude::*;
use unicode_segmentation::UnicodeSegmentation;

verus! {

/// The byte offsets at which the extended grapheme clusters of a string
/// start (UAX #29), in order.
pub uninterp spec fn grapheme_starts(s: Seq<char>) -> Seq<usize>;

/// The UAX #29 word-bound segments of a string, each as (byte offset of its
/// start, byte length), in order.
pub uninterp spec fn word_segments(s: Seq<char>) -> Seq<(usize, usize)>;

/// `char::is_alphanumeric`: the Unicode `Alphabetic` property or the general
/// category `N`.
pub uninterp spec fn is_alphanumeric(c: char) -> bool;

/// `char::is_alphabetic`: the Unicode `Alphabetic` property.
pub uninterp spec fn is_alphabetic(c: char) -> bool;

/// Byte length of the UTF-8 encoding of `s`.
pub open spec fn byte_len(s: Seq<char>) -> int {
    vstd::utf8::encode_utf8(s).len() as int
}

/// Grapheme clusters cover the string in order: the first starts at byte 0
/// (when there is any), each starts after the one before, and all start
/// inside the string, at a character boundary.
pub open spec fn grapheme_facts(s: Seq<char>, g: Seq<usize>) -> bool {
    &&& (g.len() == 0 <==> s.len() == 0)
    &&& (g.len() > 0 ==> g[0] == 0)
    &&& forall|i: int, j: int| 0 <= i < j < g.len() ==> g[i] < g[j]
    &&& forall|i: int| 0 <= i < g.len() ==> g[i] < byte_len(s)
    &&& forall|i: int|
        0 <= i < g.len() ==> vstd::utf8::is_char_boundary(vstd::utf8::encode_utf8(s), #[trigger] g[i] as int)
}

/// Word-bound segments partition the string: they are non-empty, the first
/// starts at byte 0 (when there is any), each starts where the one before
/// ends, the last ends at the string's end, and each starts at a character
/// boundary.
pub open spec fn segment_facts(s: Seq<char>, w: Seq<(usize, usize)>) -> bool {
    &&& (w.len() == 0 <==> s.len() == 0)
    &&& (w.len() > 0 ==> w[0].0 == 0)
    &&& forall|i: int| 0 <= i < w.len() ==> w[i].1 > 0 && w[i].0 + w[i].1 <= byte_len(s)
    &&& forall|i: int| 0 <= i < w.len() - 1 ==> w[i].0 + w[i].1 == w[i + 1].0
    &&& (w.len() > 0 ==> w.last().0 + w.last().1 == byte_len(s))
    &&& forall|i: int|
        0 <= i < w.len() ==> vstd::utf8::is_char_boundary(vstd::utf8::encode_utf8(s), #[trigger] w[i].0 as int)
}

/// `UnicodeSegmentation::grapheme_indices(s, true)`: the offsets only.
/// Claimed: the offsets are `grapheme_starts(s)`, and they cover `s` as the
/// crate documents ("the grapheme clusters of self and their byte offsets").
#[verifier::external_body]
pub(crate) fn grapheme_offsets(s: &str) -> (r: Vec<usize>)
    ensures
        r@ == grapheme_starts(s@),
        grapheme_facts(s@, r@),
{
    s.grapheme_indices(true).map(|(i, _)| i).collect()
}

/// `UnicodeSegmentation::split_word_bound_indices(s)`: each segment as its
/// offset and byte length. Claimed: the segments are `word_segments(s)`, and
/// they partition `s` as the crate documents ("substrings of self, split on
/// UAX#29 word boundaries, and their offsets").
#[verifier::external_body]
pub(crate) fn word_bound_segments(s: &str) -> (r: Vec<(usize, usize)>)
    ensures
        r@ == word_segments(s@),
        segment_facts(s@, r@),
{
    s.split_word_bound_indices().map(|(i, w)| (i, w.len())).collect()
}

/// `char::is_alphanumeric`. Claimed: the result is `is_alphanumeric(c)`.
#[verifier::external_body]
pub(crate) fn char_is_alphanumeric(c: char) -> (b: bool)
    ensures
        b == is_alphanumeric(c),
{
    c.is_alphanumeric()
}

/// `char::is_alphabetic`. Claimed: the result is `is_alphabetic(c)`.
#[verifier::external_body]
pub(crate) fn char_is_alphabetic(c: char) -> (b: bool)
    ensures
        b == is_alphabetic(c),
{
    c.is_alphabetic()
}

} // verus!
