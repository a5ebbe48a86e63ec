//! Caret motion over document text. Offsets are UTF-8 byte offsets into the
//! document; a paragraph is a run of text between `\n` bytes.

use vstd::prelude::*;
use vstd::string::{StringSliceAdditionalSpecFns, StrSliceExecFns};
use vstd::utf8::*;
use crate::segment::{grapheme_offsets, grapheme_starts, word_bound_segments, word_segments, char_is_alphanumeric, is_alphanumeric};

verus! {

/// The newline byte.
pub open spec fn is_nl(b: u8) -> bool {
    b == 10
}

/// Start of the paragraph holding byte offset `off`: just past the last
/// `\n` before it, or 0.
pub open spec fn line_start(b: Seq<u8>, off: int) -> int
    decreases off,
{
    if off <= 0 {
        0
    } else if is_nl(b[off - 1]) {
        off
    } else {
        line_start(b, off - 1)
    }
}

/// End of the paragraph holding byte offset `off`: the first `\n` at or
/// after it, or the end of the text.
pub open spec fn line_end(b: Seq<u8>, off: int) -> int
    decreases b.len() - off,
{
    if off >= b.len() {
        b.len() as int
    } else if is_nl(b[off]) {
        off
    } else {
        line_end(b, off + 1)
    }
}

/// The characters that the bytes `a..c` of `b` encode.
pub open spec fn chars_between(b: Seq<u8>, a: int, c: int) -> Seq<char> {
    decode_utf8(b.subrange(a, c))
}

pub proof fn lemma_line_start_bounds(b: Seq<u8>, off: int)
    requires
        0 <= off <= b.len(),
    ensures
        0 <= line_start(b, off) <= off,
        line_start(b, off) > 0 ==> is_nl(b[line_start(b, off) - 1]),
        forall|j: int| line_start(b, off) <= j < off ==> !is_nl(#[trigger] b[j]),
    decreases off,
{
    if off > 0 && !is_nl(b[off - 1]) {
        lemma_line_start_bounds(b, off - 1);
    }
}

pub proof fn lemma_line_end_bounds(b: Seq<u8>, off: int)
    requires
        0 <= off <= b.len(),
    ensures
        off <= line_end(b, off) <= b.len(),
        line_end(b, off) < b.len() ==> is_nl(b[line_end(b, off)]),
        forall|j: int| off <= j < line_end(b, off) ==> !is_nl(#[trigger] b[j]),
    decreases b.len() - off,
{
    if off < b.len() && !is_nl(b[off]) {
        lemma_line_end_bounds(b, off + 1);
    }
}

/// In valid UTF-8, the byte after an ASCII byte starts a character.
proof fn lemma_after_ascii_is_boundary(b: Seq<u8>, i: int)
    requires
        valid_utf8(b),
        0 <= i < b.len(),
        b[i] < 0x80,
    ensures
        is_char_boundary(b, i + 1),
    decreases b.len(),
{
    broadcast use vstd::utf8::group_utf8_lib;

    let l = length_of_first_scalar(b);
    let rest = pop_first_scalar(b);
    reveal_with_fuel(is_char_boundary, 2);
    if i < l {
        // an ASCII byte can only be a whole one-byte scalar
        assert(is_char_boundary(b, i));
        if i > 0 {
            assert(is_continuation_byte(b[i]));
            assert(false);
        }
        assert(l == 1);
        assert(rest =~= b.subrange(1, b.len() as int));
        assert(is_char_boundary(rest, 0));
    } else {
        assert(rest =~= b.subrange(l, b.len() as int));
        assert(rest[i - l] == b[i]);
        lemma_after_ascii_is_boundary(rest, i - l);
    }
}

/// A paragraph's start and end are character boundaries.
pub proof fn lemma_bounds_are_boundaries(b: Seq<u8>, off: int)
    requires
        valid_utf8(b),
        0 <= off <= b.len(),
    ensures
        is_char_boundary(b, line_start(b, off)),
        is_char_boundary(b, line_end(b, off)),
{
    broadcast use vstd::utf8::group_utf8_lib;

    lemma_line_start_bounds(b, off);
    lemma_line_end_bounds(b, off);
    let s = line_start(b, off);
    let e = line_end(b, off);
    if s > 0 {
        lemma_after_ascii_is_boundary(b, s - 1);
    }
    if e < b.len() {
        assert(!is_continuation_byte(b[e]));
    }
}

/// Every `str` is valid UTF-8.
proof fn lemma_text_valid(text: &str)
    ensures
        valid_utf8(text.spec_bytes()),
{
    broadcast use vstd::utf8::group_utf8_lib;

}

/// The text between two character boundaries.
fn slice_between(text: &str, a: usize, c: usize) -> (s: &str)
    requires
        a <= c <= text.spec_bytes().len(),
        is_char_boundary(text.spec_bytes(), a as int),
        is_char_boundary(text.spec_bytes(), c as int),
    ensures
        s.spec_bytes() == text.spec_bytes().subrange(a as int, c as int),
        s@ == chars_between(text.spec_bytes(), a as int, c as int),
{
    broadcast use vstd::utf8::group_utf8_lib;

    let ghost b = text.spec_bytes();
    let (_, rest) = text.split_at(a);
    proof {
        let r = b.subrange(a as int, b.len() as int);
        assert(rest.spec_bytes() =~= r);
        if c < b.len() {
            assert(r[c - a] == b[c as int]);
            assert(!is_continuation_byte(b[c as int]));
        }
        assert(is_char_boundary(r, (c - a) as int));
    }
    let (mid, _) = rest.split_at(c - a);
    proof {
        assert(mid.spec_bytes() =~= b.subrange(a as int, c as int));
        assert(decode_utf8(encode_utf8(mid@)) == mid@);
    }
    mid
}

/// A boundary of the bytes `a..c` of `b` at `j` is one of `b` at `a + j`.
proof fn lemma_sub_boundary(b: Seq<u8>, a: int, c: int, j: int)
    requires
        valid_utf8(b),
        0 <= a <= c <= b.len(),
        is_char_boundary(b, a),
        is_char_boundary(b, c),
        0 <= j <= c - a,
        is_char_boundary(b.subrange(a, c), j),
    ensures
        is_char_boundary(b, a + j),
{
    broadcast use vstd::utf8::group_utf8_lib;

    let r = b.subrange(a, b.len() as int);
    assert(valid_utf8(r));
    let r2 = r.subrange(0, c - a);
    assert(r2 =~= b.subrange(a, c));
    if c < b.len() {
        assert(r[c - a] == b[c]);
        assert(is_char_boundary(b, c) <==> !is_continuation_byte(b[c]));
        assert(is_char_boundary(r, c - a) <==> !is_continuation_byte(r[c - a]));
    } else {
        assert(r.len() == c - a);
    }
    assert(valid_utf8(r2));
    if j < c - a {
        assert(r2[j] == b[a + j]);
        assert(is_char_boundary(r2, j) <==> !is_continuation_byte(r2[j]));
        assert(is_char_boundary(b, a + j) <==> !is_continuation_byte(b[a + j]));
    }
}

/// The paragraph that holds byte offset `offset`: its start, and its end
/// (the `\n` that closes it, or the end of the text).
pub fn paragraph_bounds(text: &str, offset: usize) -> (r: (usize, usize))
    requires
        offset <= text.spec_bytes().len(),
    ensures
        r.0 == line_start(text.spec_bytes(), offset as int),
        r.1 == line_end(text.spec_bytes(), offset as int),
{
    let bytes = text.as_bytes();
    let ghost b = text.spec_bytes();
    let mut s: usize = offset;
    while s > 0 && bytes[s - 1] != 10
        invariant
            bytes@ == b,
            s <= offset <= b.len(),
            line_start(b, s as int) == line_start(b, offset as int),
        decreases s,
    {
        s -= 1;
    }
    let mut e: usize = offset;
    while e < bytes.len() && bytes[e] != 10
        invariant
            bytes@ == b,
            offset <= e <= b.len(),
            line_end(b, e as int) == line_end(b, offset as int),
        decreases b.len() - e,
    {
        e += 1;
    }
    (s, e)
}

/// The grapheme boundary before `off`; over a paragraph start, the `\n`
/// before it.
pub open spec fn prev_boundary_spec(b: Seq<u8>, off: int) -> int {
    let s = line_start(b, off);
    if off == 0 {
        0
    } else if off == s {
        off - 1
    } else {
        let g = grapheme_starts(chars_between(b, s, off));
        if g.len() > 0 {
            s + g.last()
        } else {
            s
        }
    }
}

/// The grapheme boundary after `off`; over a paragraph end, the start of
/// the next paragraph.
pub open spec fn next_boundary_spec(b: Seq<u8>, off: int) -> int {
    let e = line_end(b, off);
    if off >= b.len() {
        b.len() as int
    } else if off == e {
        off + 1
    } else {
        let g = grapheme_starts(chars_between(b, off, e));
        if g.len() > 1 {
            off + g[1]
        } else {
            e
        }
    }
}

/// One grapheme to the left (one byte over a paragraph break).
pub fn previous_boundary(text: &str, offset: usize) -> (r: usize)
    requires
        offset <= text.spec_bytes().len(),
        is_char_boundary(text.spec_bytes(), offset as int),
    ensures
        r == prev_boundary_spec(text.spec_bytes(), offset as int),
        r <= offset,
        offset > 0 ==> r < offset,
        is_char_boundary(text.spec_bytes(), r as int),
        offset > 0 && is_nl(text.spec_bytes()[offset - 1]) ==> r == offset - 1,
        offset > 0 && !is_nl(text.spec_bytes()[offset - 1]) ==> {
            let b = text.spec_bytes();
            let s = line_start(b, offset as int);
            let g = grapheme_starts(chars_between(b, s, offset as int));
            &&& s <= r
            &&& forall|k: int| 0 <= k < g.len() ==> s + #[trigger] g[k] <= r
            &&& r == s || exists|k: int| 0 <= k < g.len() && r == s + #[trigger] g[k]
        },
{
    let ghost b = text.spec_bytes();
    proof {
        lemma_text_valid(text);
    }
    if offset == 0 {
        return 0;
    }
    let (s, _) = paragraph_bounds(text, offset);
    proof {
        lemma_line_start_bounds(b, offset as int);
        lemma_bounds_are_boundaries(b, offset as int);
    }
    if offset == s {
        proof {
            lemma_nl_is_boundary(b, offset - 1);
        }
        return offset - 1;
    }
    let line = slice_between(text, s, offset);
    let g = grapheme_offsets(line);
    if g.len() > 0 {
        proof {
            let k = g@.len() - 1;
            assert(line.spec_bytes() == encode_utf8(line@));
            assert(is_char_boundary(encode_utf8(line@), g@[k] as int));
            lemma_sub_boundary(b, s as int, offset as int, g@[k] as int);
            assert forall|j: int| 0 <= j < g@.len() implies s + #[trigger] g@[j] <= s + g@[k] by {
                if j < k {
                    assert(g@[j] < g@[k]);
                }
            }
        }
        s + g[g.len() - 1]
    } else {
        s
    }
}

/// Stepping left from the start of a paragraph crosses only the `\n` that
/// ends the paragraph above: the caret lands one byte back, at the end of
/// that paragraph, not at its start.
pub proof fn law_previous_boundary_over_break(b: Seq<u8>, off: int)
    requires
        0 < off <= b.len(),
        is_nl(b[off - 1]),
    ensures
        prev_boundary_spec(b, off) == off - 1,
        line_end(b, prev_boundary_spec(b, off)) == prev_boundary_spec(b, off),
{
}

/// One grapheme to the right (one byte over a paragraph break).
pub fn next_boundary(text: &str, offset: usize) -> (r: usize)
    requires
        offset < text.spec_bytes().len() ==> is_char_boundary(text.spec_bytes(), offset as int),
    ensures
        r == next_boundary_spec(text.spec_bytes(), offset as int),
        offset <= text.spec_bytes().len() ==> offset <= r,
        r <= text.spec_bytes().len(),
        offset < text.spec_bytes().len() ==> offset < r,
        is_char_boundary(text.spec_bytes(), r as int),
        offset < text.spec_bytes().len() && is_nl(text.spec_bytes()[offset as int]) ==> r == offset + 1,
        offset < text.spec_bytes().len() && !is_nl(text.spec_bytes()[offset as int]) ==> {
            let b = text.spec_bytes();
            let e = line_end(b, offset as int);
            let g = grapheme_starts(chars_between(b, offset as int, e));
            &&& r <= e
            &&& forall|k: int| 0 <= k < g.len() ==> #[trigger] g[k] == 0 || offset + g[k] >= r
            &&& r == e || exists|k: int| 0 <= k < g.len() && r == offset + #[trigger] g[k]
        },
{
    let ghost b = text.spec_bytes();
    proof {
        lemma_text_valid(text);
    }
    let len = text.as_bytes().len();
    if offset >= len {
        proof {
            broadcast use vstd::utf8::group_utf8_lib;
        }
        return len;
    }
    let (_, e) = paragraph_bounds(text, offset);
    proof {
        lemma_line_end_bounds(b, offset as int);
        lemma_bounds_are_boundaries(b, offset as int);
    }
    if offset == e {
        proof {
            lemma_after_ascii_is_boundary(b, offset as int);
        }
        return offset + 1;
    }
    let line = slice_between(text, offset, e);
    let g = grapheme_offsets(line);
    if g.len() > 1 {
        proof {
            assert(line.spec_bytes() == encode_utf8(line@));
            assert(is_char_boundary(encode_utf8(line@), g@[1] as int));
            assert(g@[0] < g@[1]);
            lemma_sub_boundary(b, offset as int, e as int, g@[1] as int);
            assert forall|k: int| 0 <= k < g@.len() implies #[trigger] g@[k] == 0 || offset + g@[k] >= offset + g@[1] by {
                if k > 1 {
                    assert(g@[1] < g@[k]);
                }
            }
        }
        offset + g[1]
    } else {
        e
    }
}

/// Stepping right from the end of a paragraph crosses only its `\n`: the
/// caret lands one byte on, at the start of the next paragraph.
pub proof fn law_next_boundary_over_break(b: Seq<u8>, off: int)
    requires
        0 <= off < b.len(),
        is_nl(b[off]),
    ensures
        next_boundary_spec(b, off) == off + 1,
        line_start(b, next_boundary_spec(b, off)) == next_boundary_spec(b, off),
{
}

/// The character that starts at byte `a` of `b` (reading up to `c`).
pub open spec fn char_at(b: Seq<u8>, a: int, c: int) -> char {
    chars_between(b, a, c)[0]
}

/// Among the word segments `segs` of the paragraph text that starts at
/// byte `s` and ends at `c`, the offset of the last whose first character is
/// alphanumeric.
pub open spec fn rfind_alnum(b: Seq<u8>, s: int, c: int, segs: Seq<(usize, usize)>) -> Option<
    usize,
>
    decreases segs.len(),
{
    if segs.len() == 0 {
        None
    } else if is_alphanumeric(char_at(b, s + segs.last().0, c)) {
        Some(segs.last().0)
    } else {
        rfind_alnum(b, s, c, segs.drop_last())
    }
}

/// Among the word segments `segs` of the paragraph text that starts at
/// byte `s` and ends at `c`, the first whose first character is
/// alphanumeric.
pub open spec fn find_alnum(b: Seq<u8>, s: int, c: int, segs: Seq<(usize, usize)>) -> Option<
    (usize, usize),
>
    decreases segs.len(),
{
    if segs.len() == 0 {
        None
    } else if is_alphanumeric(char_at(b, s + segs[0].0, c)) {
        Some(segs[0])
    } else {
        find_alnum(b, s, c, segs.drop_first())
    }
}

/// Word motion to the left: the start of the last word (a word-bound
/// segment that begins with an alphanumeric character) before `off` in its
/// paragraph, or the paragraph start; from a paragraph start, the search
/// continues from the end of the paragraph before.
pub open spec fn prev_word_spec(b: Seq<u8>, off: int) -> int
    decreases off,
{
    if off <= 0 {
        0
    } else {
        let s = line_start(b, off);
        if s == off {
            prev_word_spec(b, off - 1)
        } else {
            match rfind_alnum(b, s, off, word_segments(chars_between(b, s, off))) {
                Some(ix) => s + ix,
                None => s,
            }
        }
    }
}

/// Word motion to the right: the end of the first word from `off` in its
/// paragraph, or the paragraph end; from a paragraph end, the search
/// continues from the start of the paragraph after.
pub open spec fn next_word_spec(b: Seq<u8>, off: int) -> int
    decreases b.len() - off,
{
    if off >= b.len() {
        b.len() as int
    } else {
        let e = line_end(b, off);
        if off == e {
            next_word_spec(b, off + 1)
        } else {
            match find_alnum(b, off, e, word_segments(chars_between(b, off, e))) {
                Some(w) => if off + w.0 + w.1 < b.len() {
                    off + w.0 + w.1
                } else {
                    b.len() as int
                },
                None => e,
            }
        }
    }
}

/// The first character of the text from byte `a` to byte `c`.
fn first_char_between(text: &str, a: usize, c: usize) -> (ch: char)
    requires
        a < c <= text.spec_bytes().len(),
        is_char_boundary(text.spec_bytes(), a as int),
        is_char_boundary(text.spec_bytes(), c as int),
    ensures
        ch == char_at(text.spec_bytes(), a as int, c as int),
{
    broadcast use vstd::utf8::group_utf8_lib;

    let piece = slice_between(text, a, c);
    proof {
        if piece@.len() == 0 {
            assert(encode_utf8(piece@) =~= Seq::<u8>::empty());
            assert(piece.spec_bytes().len() == c - a);
            assert(false);
        }
    }
    piece.get_char(0)
}

/// Byte after a paragraph break: a character boundary (the break is ASCII).
proof fn lemma_nl_is_boundary(b: Seq<u8>, i: int)
    requires
        valid_utf8(b),
        0 <= i < b.len(),
        is_nl(b[i]),
    ensures
        is_char_boundary(b, i),
{
    broadcast use vstd::utf8::group_utf8_lib;

    assert(is_char_boundary(b, i) <==> !is_continuation_byte(b[i]));
}

/// Word motion to the left, iterating (never recursing) over runs of empty
/// paragraphs, so a long blank run cannot exhaust the stack.
pub fn previous_word_boundary(text: &str, offset: usize) -> (r: usize)
    requires
        offset <= text.spec_bytes().len(),
        is_char_boundary(text.spec_bytes(), offset as int),
    ensures
        r == prev_word_spec(text.spec_bytes(), offset as int),
        r <= offset,
        offset > 0 ==> r < offset,
        is_char_boundary(text.spec_bytes(), r as int),
{
    let ghost b = text.spec_bytes();
    proof {
        lemma_text_valid(text);
    }
    let mut off = offset;
    loop
        invariant
            b == text.spec_bytes(),
            valid_utf8(b),
            off <= b.len(),
            is_char_boundary(b, off as int),
            off <= offset,
            prev_word_spec(b, off as int) == prev_word_spec(b, offset as int),
        decreases off,
    {
        if off == 0 {
            proof {
                broadcast use vstd::utf8::group_utf8_lib;
            }
            return 0;
        }
        let (s, _) = paragraph_bounds(text, off);
        proof {
            lemma_line_start_bounds(b, off as int);
            lemma_bounds_are_boundaries(b, off as int);
        }
        if off == s {
            proof {
                lemma_nl_is_boundary(b, off - 1);
            }
            off -= 1;
            continue;
        }
        return match last_word_start(text, s, off) {
            Some(ix) => s + ix,
            None => s,
        };
    }
}

/// The facts `word_bound_segments` gives, restated for this module.
pub open spec fn segment_facts_of(s: Seq<char>, w: Seq<(usize, usize)>) -> bool {
    crate::segment::segment_facts(s, w)
}

/// The offset, within the paragraph text `s..off`, of its last word start.
fn last_word_start(text: &str, s: usize, off: usize) -> (r: Option<usize>)
    requires
        s < off <= text.spec_bytes().len(),
        is_char_boundary(text.spec_bytes(), s as int),
        is_char_boundary(text.spec_bytes(), off as int),
    ensures
        r == rfind_alnum(
            text.spec_bytes(),
            s as int,
            off as int,
            word_segments(chars_between(text.spec_bytes(), s as int, off as int)),
        ),
        r matches Some(ix) ==> ix < off - s && is_char_boundary(text.spec_bytes(), s + ix),
{
    let ghost b = text.spec_bytes();
    proof {
        lemma_text_valid(text);
    }
    let line = slice_between(text, s, off);
    let segs = word_bound_segments(line);
    let ghost all = segs@;
    let mut i: usize = segs.len();
    assert(all.take(all.len() as int) =~= all);
    while i > 0
        invariant
            b == text.spec_bytes(),
            valid_utf8(b),
            all == segs@,
            all == word_segments(line@),
            line.spec_bytes() == b.subrange(s as int, off as int),
            line@ == chars_between(b, s as int, off as int),
            s < off <= b.len(),
            is_char_boundary(b, s as int),
            is_char_boundary(b, off as int),
            segment_facts_of(line@, all),
            i <= all.len(),
            rfind_alnum(b, s as int, off as int, all.take(i as int)) == rfind_alnum(
                b,
                s as int,
                off as int,
                all,
            ),
        decreases i,
    {
        let (ix, _) = segs[i - 1];
        proof {
            assert(all.take(i as int).last() == all[i - 1]);
            assert(all.take(i as int).drop_last() =~= all.take(i - 1));
            lemma_segment_start(b, s as int, off as int, line@, all, i - 1);
        }
        let c = first_char_between(text, s + ix, off);
        if char_is_alphanumeric(c) {
            return Some(ix);
        }
        i -= 1;
    }
    None
}

/// A word segment of the paragraph text `s..c` starts inside it, on a
/// character boundary of the whole text.
proof fn lemma_segment_start(
    b: Seq<u8>,
    s: int,
    c: int,
    line: Seq<char>,
    w: Seq<(usize, usize)>,
    k: int,
)
    requires
        valid_utf8(b),
        0 <= s < c <= b.len(),
        is_char_boundary(b, s),
        is_char_boundary(b, c),
        encode_utf8(line) == b.subrange(s, c),
        segment_facts_of(line, w),
        0 <= k < w.len(),
    ensures
        w[k].0 < c - s,
        w[k].0 + w[k].1 <= c - s,
        is_char_boundary(b, s + w[k].0),
{
    assert(crate::segment::byte_len(line) == c - s);
    assert(w[k].1 > 0);
    lemma_sub_boundary(b, s, c, w[k].0 as int);
}

/// The first word segment, within the paragraph text `off..e`.
fn first_word(text: &str, off: usize, e: usize) -> (r: Option<(usize, usize)>)
    requires
        off < e <= text.spec_bytes().len(),
        is_char_boundary(text.spec_bytes(), off as int),
        is_char_boundary(text.spec_bytes(), e as int),
    ensures
        r == find_alnum(
            text.spec_bytes(),
            off as int,
            e as int,
            word_segments(chars_between(text.spec_bytes(), off as int, e as int)),
        ),
        r matches Some(w) ==> 0 < w.0 + w.1 <= e - off && is_char_boundary(
            text.spec_bytes(),
            off + w.0 + w.1,
        ),
{
    let ghost b = text.spec_bytes();
    proof {
        lemma_text_valid(text);
    }
    let line = slice_between(text, off, e);
    let segs = word_bound_segments(line);
    let ghost all = segs@;
    let mut i: usize = 0;
    assert(all.skip(0) =~= all);
    while i < segs.len()
        invariant
            b == text.spec_bytes(),
            valid_utf8(b),
            all == segs@,
            all == word_segments(line@),
            line.spec_bytes() == b.subrange(off as int, e as int),
            line@ == chars_between(b, off as int, e as int),
            off < e <= b.len(),
            is_char_boundary(b, off as int),
            is_char_boundary(b, e as int),
            segment_facts_of(line@, all),
            i <= all.len(),
            find_alnum(b, off as int, e as int, all.skip(i as int)) == find_alnum(
                b,
                off as int,
                e as int,
                all,
            ),
        decreases all.len() - i,
    {
        let (ix, len) = segs[i];
        proof {
            assert(all.skip(i as int)[0] == all[i as int]);
            assert(all.skip(i as int).drop_first() =~= all.skip(i + 1));
            lemma_segment_start(b, off as int, e as int, line@, all, i as int);
        }
        let c = first_char_between(text, off + ix, e);
        if char_is_alphanumeric(c) {
            proof {
                if i + 1 < all.len() {
                    lemma_segment_start(b, off as int, e as int, line@, all, i + 1);
                } else {
                    assert(all.last() == all[i as int]);
                }
            }
            return Some((ix, len));
        }
        i += 1;
    }
    None
}

/// Word motion to the right, iterating over runs of empty paragraphs.
pub fn next_word_boundary(text: &str, offset: usize) -> (r: usize)
    requires
        offset < text.spec_bytes().len() ==> is_char_boundary(text.spec_bytes(), offset as int),
    ensures
        r == next_word_spec(text.spec_bytes(), offset as int),
        r <= text.spec_bytes().len(),
        offset <= text.spec_bytes().len() ==> offset <= r,
        offset < text.spec_bytes().len() ==> offset < r,
        is_char_boundary(text.spec_bytes(), r as int),
{
    let ghost b = text.spec_bytes();
    proof {
        lemma_text_valid(text);
    }
    let len = text.as_bytes().len();
    let mut off = offset;
    loop
        invariant
            b == text.spec_bytes(),
            len == b.len(),
            valid_utf8(b),
            off < b.len() ==> is_char_boundary(b, off as int),
            offset <= off,
            next_word_spec(b, off as int) == next_word_spec(b, offset as int),
        decreases b.len() - off,
    {
        if off >= len {
            proof {
                broadcast use vstd::utf8::group_utf8_lib;
            }
            return len;
        }
        let (_, e) = paragraph_bounds(text, off);
        proof {
            lemma_line_end_bounds(b, off as int);
            lemma_bounds_are_boundaries(b, off as int);
        }
        if off == e {
            proof {
                lemma_after_ascii_is_boundary(b, off as int);
            }
            off += 1;
            continue;
        }
        return match first_word(text, off, e) {
            Some((ix, l)) => {
                let end = off + ix + l;
                if end < len {
                    end
                } else {
                    len
                }
            },
            None => e,
        };
    }
}

/// Start of the paragraph before (or holding) `off` when moving up: the
/// current paragraph's start, or the previous one's when already there.
pub open spec fn prev_paragraph_spec(b: Seq<u8>, off: int) -> int {
    let s = line_start(b, off);
    if off > s {
        s
    } else if s > 0 {
        line_start(b, s - 1)
    } else {
        0
    }
}

/// End of the current paragraph, or of the next one when already at an end.
pub open spec fn next_paragraph_spec(b: Seq<u8>, off: int) -> int {
    let e = line_end(b, off);
    if off < e {
        e
    } else if e < b.len() {
        line_end(b, e + 1)
    } else {
        b.len() as int
    }
}

/// Paragraph motion up: to the start of the current paragraph, or of the
/// previous one when already at a start.
pub fn previous_paragraph_boundary(text: &str, offset: usize) -> (r: usize)
    requires
        offset <= text.spec_bytes().len(),
    ensures
        r == prev_paragraph_spec(text.spec_bytes(), offset as int),
        r <= offset,
        offset > 0 ==> r < offset,
{
    let (s, _) = paragraph_bounds(text, offset);
    proof {
        lemma_line_start_bounds(text.spec_bytes(), offset as int);
        if s > 0 {
            lemma_line_start_bounds(text.spec_bytes(), s - 1);
        }
    }
    if offset > s {
        s
    } else if s > 0 {
        paragraph_bounds(text, s - 1).0
    } else {
        0
    }
}

/// Paragraph motion down: to the end of the current paragraph, or of the
/// next one when already at an end.
pub fn next_paragraph_boundary(text: &str, offset: usize) -> (r: usize)
    requires
        offset <= text.spec_bytes().len(),
    ensures
        r == next_paragraph_spec(text.spec_bytes(), offset as int),
        offset <= r <= text.spec_bytes().len(),
        offset < text.spec_bytes().len() ==> offset < r,
{
    let (_, e) = paragraph_bounds(text, offset);
    proof {
        lemma_line_end_bounds(text.spec_bytes(), offset as int);
        if e < text.spec_bytes().len() {
            lemma_line_end_bounds(text.spec_bytes(), e + 1);
        }
    }
    let len = text.as_bytes().len();
    if offset < e {
        e
    } else if e < len {
        paragraph_bounds(text, e + 1).1
    } else {
        len
    }
}

/// The word segment of the paragraph text `s..e` that holds local offset
/// `local`, as an offset and a length.
pub open spec fn seg_holding(segs: Seq<(usize, usize)>, local: int) -> Option<(usize, usize)>
    decreases segs.len(),
{
    if segs.len() == 0 {
        None
    } else if segs[0].0 <= local < segs[0].0 + segs[0].1 {
        Some(segs[0])
    } else {
        seg_holding(segs.drop_first(), local)
    }
}

/// The word-bound segment holding `off` (for double-click selection): the
/// segment of its paragraph that contains it (the last one when `off` is at
/// the paragraph's end); an empty paragraph gives itself.
pub open spec fn word_range_spec(b: Seq<u8>, off: int) -> (int, int) {
    let s = line_start(b, off);
    let e = line_end(b, off);
    if s == e {
        (s, e)
    } else {
        let local = if off - s < e - s - 1 {
            off - s
        } else {
            e - s - 1
        };
        match seg_holding(word_segments(chars_between(b, s, e)), local) {
            Some(w) => (s + w.0, s + w.0 + w.1),
            None => (s, e),
        }
    }
}

/// Word-bound segment containing `offset`, for double-click selection.
pub fn word_range_at(text: &str, offset: usize) -> (r: (usize, usize))
    requires
        offset <= text.spec_bytes().len(),
    ensures
        r.0 == word_range_spec(text.spec_bytes(), offset as int).0,
        r.1 == word_range_spec(text.spec_bytes(), offset as int).1,
        r.0 <= offset <= r.1 <= text.spec_bytes().len(),
{
    let ghost b = text.spec_bytes();
    proof {
        lemma_text_valid(text);
        lemma_line_start_bounds(b, offset as int);
        lemma_line_end_bounds(b, offset as int);
        lemma_bounds_are_boundaries(b, offset as int);
    }
    let (s, e) = paragraph_bounds(text, offset);
    if s == e {
        return (s, e);
    }
    let local = if offset - s < e - s - 1 {
        offset - s
    } else {
        e - s - 1
    };
    let line = slice_between(text, s, e);
    let segs = word_bound_segments(line);
    let ghost all = segs@;
    let mut i: usize = 0;
    assert(all.skip(0) =~= all);
    while i < segs.len()
        invariant
            all == segs@,
            all == word_segments(line@),
            line@ == chars_between(b, s as int, e as int),
            line.spec_bytes() == b.subrange(s as int, e as int),
            s < e <= b.len(),
            segment_facts_of(line@, all),
            i <= all.len(),
            seg_holding(all.skip(i as int), local as int) == seg_holding(all, local as int),
            b == text.spec_bytes(),
            s == line_start(b, offset as int),
            e == line_end(b, offset as int),
            s <= offset <= e,
            local == (if offset - s < e - s - 1 {
                offset - s
            } else {
                e - s - 1
            }),
        decreases all.len() - i,
    {
        let (ix, l) = segs[i];
        proof {
            assert(all.skip(i as int)[0] == all[i as int]);
            assert(all.skip(i as int).drop_first() =~= all.skip(i + 1));
            assert(crate::segment::byte_len(line@) == e - s);
            assert(ix + l <= e - s);
        }
        if ix <= local && local < ix + l {
            return (s + ix, s + ix + l);
        }
        i += 1;
    }
    (s, e)
}

/// How a drag extends the selection: by character, word, or paragraph.
#[derive(Clone, Copy, Debug, PartialEq, Eq, Structural)]
pub enum SelectGranularity {
    Char,
    Word,
    Paragraph,
}

/// The selection unit at `offset` for the drag's granularity.
pub fn unit_at(text: &str, offset: usize, g: SelectGranularity) -> (r: (usize, usize))
    requires
        offset <= text.spec_bytes().len(),
    ensures
        r == (match g {
            SelectGranularity::Char => (offset, offset),
            SelectGranularity::Word => (
                word_range_spec(text.spec_bytes(), offset as int).0 as usize,
                word_range_spec(text.spec_bytes(), offset as int).1 as usize,
            ),
            SelectGranularity::Paragraph => (
                line_start(text.spec_bytes(), offset as int) as usize,
                line_end(text.spec_bytes(), offset as int) as usize,
            ),
        }),
        r.0 <= offset <= r.1,
{
    match g {
        SelectGranularity::Char => (offset, offset),
        SelectGranularity::Word => word_range_at(text, offset),
        SelectGranularity::Paragraph => {
            proof {
                lemma_line_start_bounds(text.spec_bytes(), offset as int);
                lemma_line_end_bounds(text.spec_bytes(), offset as int);
            }
            paragraph_bounds(text, offset)
        },
    }
}

/// A drag by unit: the selection becomes the union of the unit the drag
/// started on and the unit under the pointer, reversed when the pointer's
/// unit starts before the origin's.
/// Returns the new selection's start and end, and whether it is reversed.
pub fn extend_selection(origin: (usize, usize), unit: (usize, usize)) -> (r: (usize, usize, bool))
    ensures
        r.0 == (if origin.0 < unit.0 { origin.0 } else { unit.0 }),
        r.1 == (if origin.1 > unit.1 { origin.1 } else { unit.1 }),
        r.2 == (unit.0 < origin.0),
        r.0 <= origin.0 && r.0 <= unit.0,
        origin.1 <= r.1 && unit.1 <= r.1,
{
    let start = if origin.0 < unit.0 { origin.0 } else { unit.0 };
    let end = if origin.1 > unit.1 { origin.1 } else { unit.1 };
    (start, end, unit.0 < origin.0)
}

} // verus!
