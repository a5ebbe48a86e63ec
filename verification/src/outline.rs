//! The document as lines: the outline of its headings, a line's preview for
//! find results, and the `#` shortcut that turns a paragraph into a heading.
//! A line is the text between two `\n`, which belongs to neither.

use vstd::prelude::*;
use crate::chars::{chars_of, string_from_chars};
use crate::find::{char_offset, char_offsets, utf8_width};
use vstd::utf8::{encode_scalar, encode_utf8};
use vstd::string::StringSliceAdditionalSpecFns;
use crate::footnotes::BlockKind;
use crate::stem::{is_ws, trim_ws, trim_end_vec, trim_start_vec, TrimClass};

verus! {

/// The character index at which each line of `s` starts: 0, and one past
/// every `\n`.
pub open spec fn line_starts(s: Seq<char>) -> Seq<int>
    decreases s.len(),
{
    if s.len() == 0 {
        seq![0]
    } else {
        let p = line_starts(s.drop_last());
        if s.last() == '\n' {
            p.push(s.len() as int)
        } else {
            p
        }
    }
}

/// Where line `k` of `s` ends: just before the next line's `\n`, or at the
/// end of the text.
pub open spec fn line_end_char(s: Seq<char>, k: int) -> int {
    if k + 1 < line_starts(s).len() {
        line_starts(s)[k + 1] - 1
    } else {
        s.len() as int
    }
}

/// The characters of line `k` of `s`.
pub open spec fn line_text(s: Seq<char>, k: int) -> Seq<char> {
    s.subrange(line_starts(s)[k], line_end_char(s, k))
}

/// Line starts are in order and inside the text, and each but the first
/// follows a `\n`.
pub open spec fn starts_ok(s: Seq<char>, st: Seq<int>) -> bool {
    &&& st.len() >= 1
    &&& st[0] == 0
    &&& forall|k: int| 0 <= k < st.len() ==> 0 <= #[trigger] st[k] <= s.len()
    &&& forall|k: int| 0 < k < st.len() ==> #[trigger] st[k] >= 1 && s[st[k] - 1] == '\n'
    &&& forall|k: int, j: int| 0 <= k < j < st.len() ==> #[trigger] st[k] < #[trigger] st[j]
}

proof fn lemma_starts_ok(s: Seq<char>)
    ensures
        starts_ok(s, line_starts(s)),
    decreases s.len(),
{
    if s.len() > 0 {
        lemma_starts_ok(s.drop_last());
        let p = line_starts(s.drop_last());
        assert forall|k: int| 0 < k < p.len() implies #[trigger] p[k] >= 1 && s[p[k] - 1] == '\n' by {
            assert(s.drop_last()[p[k] - 1] == s[p[k] - 1]);
        }
    }
}

/// The character index at which each line of the text starts.
fn line_start_chars(cs: &Vec<char>) -> (r: Vec<usize>)
    ensures
        r@.map_values(|x: usize| x as int) == line_starts(cs@),
{
    let mut r: Vec<usize> = Vec::new();
    r.push(0);
    let mut i: usize = 0;
    proof {
        assert(cs@.take(0) =~= Seq::<char>::empty());
        assert(r@.map_values(|x: usize| x as int) =~= seq![0int]);
    }
    while i < cs.len()
        invariant
            0 <= i <= cs@.len(),
            r@.map_values(|x: usize| x as int) == line_starts(cs@.take(i as int)),
        decreases cs@.len() - i,
    {
        proof {
            assert(cs@.take(i + 1).drop_last() =~= cs@.take(i as int));
        }
        if cs[i] == '\n' {
            let ghost before = r@;
            r.push(i + 1);
            proof {
                assert(r@.map_values(|x: usize| x as int) =~= before.map_values(|x: usize| x as int).push(
                    i + 1,
                ));
            }
        }
        i += 1;
    }
    proof {
        assert(cs@.take(cs@.len() as int) =~= cs@);
    }
    r
}

/// The first `n` characters of `s` (all of them when it is shorter).
pub open spec fn first_chars(s: Seq<char>, n: int) -> Seq<char> {
    if s.len() <= n {
        s
    } else {
        s.take(n)
    }
}

/// The characters `a..b` of `v`, at most `n` of them.
fn first_chars_of(v: &Vec<char>, a: usize, b: usize, n: usize) -> (r: Vec<char>)
    requires
        a <= b <= v@.len(),
    ensures
        r@ == first_chars(v@.subrange(a as int, b as int), n as int),
{
    let mut r: Vec<char> = Vec::new();
    let mut i: usize = a;
    while i < b && i - a < n
        invariant
            a <= i <= b,
            b <= v@.len(),
            i - a <= n,
            r@ == v@.subrange(a as int, i as int),
        decreases b - i,
    {
        r.push(v[i]);
        i += 1;
        assert(r@ =~= v@.subrange(a as int, i as int));
    }
    proof {
        let line = v@.subrange(a as int, b as int);
        if line.len() <= n {
            assert(r@ =~= line);
        } else {
            assert(r@ =~= line.take(n as int));
        }
    }
    r
}

/// The outline entries among lines `0..n`: each line whose block is a
/// heading, as its index, its level, its first 120 characters trimmed, and
/// the byte offset of its start.
pub open spec fn outline_upto(s: Seq<char>, kinds: Seq<BlockKind>, n: int) -> Seq<(usize, u8, Seq<char>, usize)>
    decreases n,
{
    if n <= 0 {
        Seq::empty()
    } else {
        let rest = outline_upto(s, kinds, n - 1);
        let ix = n - 1;
        if ix < kinds.len() && kinds[ix] is Heading {
            rest.push(
                (
                    ix as usize,
                    kinds[ix]->Heading_0,
                    trim_ws(first_chars(line_text(s, ix), 120)),
                    char_offset(s, line_starts(s)[ix]) as usize,
                ),
            )
        } else {
            rest
        }
    }
}

/// The outline of the text's headings.
pub open spec fn outline_spec(s: Seq<char>, kinds: Seq<BlockKind>) -> Seq<(usize, u8, Seq<char>, usize)> {
    outline_upto(s, kinds, line_starts(s).len() as int)
}

/// The views of outline entries.
pub open spec fn outline_view(v: Seq<(usize, u8, String, usize)>) -> Seq<(usize, u8, Seq<char>, usize)> {
    v.map_values(|e: (usize, u8, String, usize)| (e.0, e.1, e.2@, e.3))
}

/// The first `n` characters of line `k`, trimmed of whitespace.
fn trimmed_head(cs: &Vec<char>, starts: &Vec<usize>, k: usize, n: usize) -> (r: Vec<char>)
    requires
        starts@.map_values(|x: usize| x as int) == line_starts(cs@),
        k < starts@.len(),
    ensures
        r@ == trim_ws(first_chars(line_text(cs@, k as int), n as int)),
{
    proof {
        lemma_starts_ok(cs@);
        assert(starts@[k as int] as int == line_starts(cs@)[k as int]);
        if k + 1 < starts@.len() {
            assert(starts@[k + 1] as int == line_starts(cs@)[k + 1]);
        }
    }
    let a = starts[k];
    let b = if k < starts.len() - 1 {
        starts[k + 1] - 1
    } else {
        cs.len()
    };
    let head = first_chars_of(cs, a, b, n);
    trim_end_vec(&trim_start_vec(&head, &TrimClass::Whitespace), &TrimClass::Whitespace)
}

/// The outline: for each line whose block kind is a heading, its line
/// index, level, first 120 characters trimmed, and the byte offset at which
/// it starts.
pub fn outline_items(text: &str, kinds: &[BlockKind]) -> (r: Vec<(usize, u8, String, usize)>)
    ensures
        outline_view(r@) == outline_spec(text@, kinds@),
        forall|i: int|
            0 <= i < r@.len() ==> {
                let e = #[trigger] r@[i];
                &&& e.3 as int == encode_utf8(text@.take(line_starts(text@)[e.0 as int])).len()
                &&& e.3 > 0 ==> text.spec_bytes()[e.3 - 1] == 10
            },
{
    let cs = chars_of(text);
    let starts = line_start_chars(&cs);
    let offsets = char_offsets(text);
    proof {
        lemma_starts_ok(cs@);
    }
    let mut items: Vec<(usize, u8, String, usize)> = Vec::new();
    let mut ix: usize = 0;
    while ix < starts.len()
        invariant
            cs@ == text@,
            starts@.map_values(|x: usize| x as int) == line_starts(text@),
            starts_ok(text@, line_starts(text@)),
            offsets@.len() == text@.len() + 1,
            forall|k: int| 0 <= k <= text@.len() ==> #[trigger] offsets@[k] == char_offset(text@, k),
            0 <= ix <= starts@.len(),
            outline_view(items@) == outline_upto(text@, kinds@, ix as int),
        decreases starts@.len() - ix,
    {
        if ix < kinds.len() {
            match &kinds[ix] {
                BlockKind::Heading(level) => {
                    let t = trimmed_head(&cs, &starts, ix, 120);
                    let title = string_from_chars(&t);
                    proof {
                        assert(starts@[ix as int] as int == line_starts(text@)[ix as int]);
                    }
                    let byte = offsets[starts[ix]];
                    let ghost old_items = items@;
                    items.push((ix, *level, title, byte));
                    proof {
                        assert(outline_view(items@) =~= outline_view(old_items).push(
                            (ix, *level, t@, byte),
                        ));
                    }
                },
                _ => {},
            }
        }
        ix += 1;
    }
    proof {
        lemma_char_offset_is_prefix_bytes(text@, text@.len() as int);
        assert(text@.take(text@.len() as int) =~= text@);
        assert(offsets@[text@.len() as int] == char_offset(text@, text@.len() as int));
        law_outline_offsets_are_line_bytes(text@, kinds@);
        assert forall|i: int| 0 <= i < items@.len() implies {
            let e = #[trigger] items@[i];
            &&& e.3 as int == encode_utf8(text@.take(line_starts(text@)[e.0 as int])).len()
            &&& e.3 > 0 ==> text.spec_bytes()[e.3 - 1] == 10
        } by {
            assert(outline_view(items@)[i] == outline_spec(text@, kinds@)[i]);
        }
    }
    items
}

/// A find row's preview of line `k`: its first 160 characters, trimmed,
/// then cut to 80 characters with an ellipsis when longer; nothing for a
/// line past the end.
pub open spec fn snippet_spec(s: Seq<char>, k: int) -> Seq<char> {
    if k >= line_starts(s).len() {
        Seq::empty()
    } else {
        let t = trim_ws(first_chars(line_text(s, k), 160));
        if t.len() > 80 {
            t.take(80).push('\u{2026}')
        } else {
            t
        }
    }
}

/// A trimmed, length-capped preview of line `line` of the text.
pub fn line_snippet(text: &str, line: usize) -> (r: String)
    ensures
        r@ == snippet_spec(text@, line as int),
{
    let cs = chars_of(text);
    let starts = line_start_chars(&cs);
    if line >= starts.len() {
        return String::new();
    }
    let t = trimmed_head(&cs, &starts, line, 160);
    let mut out: Vec<char> = Vec::new();
    let mut i: usize = 0;
    while i < t.len() && i < 80
        invariant
            0 <= i <= t@.len(),
            i <= 80,
            out@ == t@.take(i as int),
        decreases t@.len() - i,
    {
        out.push(t[i]);
        i += 1;
        assert(out@ =~= t@.take(i as int));
    }
    if t.len() > 80 {
        out.push('\u{2026}');
    } else {
        assert(out@ =~= t@);
    }
    string_from_chars(&out)
}

/// The heading level the `#` shortcut gives a paragraph whose text before
/// the typed space is `head`: one to three `#` and the space.
pub open spec fn heading_level_spec(head: Seq<char>) -> Option<u8> {
    if head.len() >= 2 && head.len() <= 4 && head.last() == ' ' && (forall|i: int|
        0 <= i < head.len() - 1 ==> #[trigger] head[i] == '#') {
        Some((head.len() - 1) as u8)
    } else {
        None
    }
}

/// Typing a space after `#`, `##` or `###` at a paragraph's start makes it a
/// heading of that level; `head` is the paragraph's text up to and
/// including the typed space.
pub fn heading_shortcut(head: &str) -> (r: Option<u8>)
    ensures
        r == heading_level_spec(head@),
{
    let cs = chars_of(head);
    let n = cs.len();
    if n < 2 || n > 4 || cs[n - 1] != ' ' {
        return None;
    }
    let mut i: usize = 0;
    while i < n - 1
        invariant
            2 <= n <= 4,
            n == cs@.len(),
            cs@ == head@,
            0 <= i <= n - 1,
            forall|k: int| 0 <= k < i ==> #[trigger] cs@[k] == '#',
        decreases n - 1 - i,
    {
        if cs[i] != '#' {
            return None;
        }
        i += 1;
    }
    Some((n - 1) as u8)
}

/// The encoding of two strings one after the other is the two encodings
/// one after the other.
proof fn lemma_encode_concat(a: Seq<char>, b: Seq<char>)
    ensures
        encode_utf8(a + b) == encode_utf8(a) + encode_utf8(b),
    decreases a.len(),
{
    if a.len() == 0 {
        assert(a + b =~= b);
        assert(encode_utf8(a) + encode_utf8(b) =~= encode_utf8(b));
    } else {
        lemma_encode_concat(a.drop_first(), b);
        assert((a + b).drop_first() =~= a.drop_first() + b);
        assert((a + b)[0] == a[0]);
        assert(encode_utf8(a + b) =~= encode_scalar(a[0] as u32) + (encode_utf8(a.drop_first()) + encode_utf8(b)));
    }
}

/// A single character encodes as its scalar, in `utf8_width` bytes.
proof fn lemma_encode_one(c: char)
    ensures
        encode_utf8(seq![c]) == encode_scalar(c as u32),
        encode_scalar(c as u32).len() == utf8_width(c),
{
    vstd::utf8::char_is_scalar(c);
    let t = seq![c];
    assert(t.drop_first() =~= Seq::<char>::empty());
    assert(encode_utf8(Seq::<char>::empty()) =~= Seq::<u8>::empty());
    assert(encode_utf8(t) =~= encode_scalar(c as u32));
}

/// The byte offset of character `i` is the UTF-8 length of the characters
/// before it.
proof fn lemma_char_offset_is_prefix_bytes(s: Seq<char>, i: int)
    requires
        0 <= i <= s.len(),
    ensures
        char_offset(s, i) == encode_utf8(s.take(i)).len(),
    decreases i,
{
    if i == 0 {
        assert(s.take(0) =~= Seq::<char>::empty());
    } else {
        lemma_char_offset_is_prefix_bytes(s, i - 1);
        crate::find::lemma_char_offset_step(s, i - 1);
        assert(s.take(i) =~= s.take(i - 1) + seq![s[i - 1]]);
        lemma_encode_concat(s.take(i - 1), seq![s[i - 1]]);
        lemma_encode_one(s[i - 1]);
    }
}

/// A text has at most one more line than it has characters.
proof fn lemma_line_starts_len(s: Seq<char>)
    ensures
        line_starts(s).len() <= s.len() + 1,
    decreases s.len(),
{
    if s.len() > 0 {
        lemma_line_starts_len(s.drop_last());
    }
}

/// Every character takes at least one byte.
proof fn lemma_char_offset_at_least(s: Seq<char>, i: int)
    requires
        0 <= i <= s.len(),
    ensures
        char_offset(s, i) >= i,
    decreases i,
{
    if i > 0 {
        lemma_char_offset_at_least(s, i - 1);
        crate::find::lemma_char_offset_step(s, i - 1);
    }
}

/// When character `st - 1` is a `\n`, the last byte of the encoding of the
/// first `st` characters is that newline.
proof fn lemma_newline_byte(s: Seq<char>, st: int)
    requires
        0 < st <= s.len(),
        s[st - 1] == '\n',
    ensures
        encode_utf8(s.take(st)).len() >= 1,
        encode_utf8(s)[encode_utf8(s.take(st)).len() - 1] == 10,
{
    let pre = s.take(st - 1);
    let nl = seq![s[st - 1]];
    assert(s.take(st) =~= pre + nl);
    assert(s =~= (pre + nl) + s.skip(st));
    lemma_encode_concat(pre, nl);
    lemma_encode_concat(pre + nl, s.skip(st));
    lemma_encode_one(s[st - 1]);
    assert(('\n' as u32) == 10u32);
    assert((10u32 & 0x7F) == 10u32) by (bit_vector);
    assert(encode_scalar(10u32) =~= seq![10u8]);
    let k = encode_utf8(pre).len();
    assert(encode_utf8(s.take(st)) =~= encode_utf8(pre) + seq![10u8]);
    assert(encode_utf8(s) =~= encode_utf8(s.take(st)) + encode_utf8(s.skip(st)));
    assert(encode_utf8(s)[k as int] == encode_utf8(s.take(st))[k as int]);
}

/// Jumping to a heading lands on its line. Each outline entry's last field
/// is the UTF-8 byte length of the text before the heading's line, so it is
/// 0 for the first line and otherwise the byte just before it is the `\n`
/// that ends the line above.
pub proof fn law_outline_offsets_are_line_bytes(s: Seq<char>, kinds: Seq<BlockKind>)
    requires
        encode_utf8(s).len() <= usize::MAX,
    ensures
        forall|i: int|
            0 <= i < outline_spec(s, kinds).len() ==> {
                let e = #[trigger] outline_spec(s, kinds)[i];
                &&& e.0 < line_starts(s).len()
                &&& e.3 as int == encode_utf8(s.take(line_starts(s)[e.0 as int])).len()
                &&& e.3 > 0 ==> encode_utf8(s)[e.3 - 1] == 10
            },
{
    lemma_starts_ok(s);
    lemma_outline_upto_offsets(s, kinds, line_starts(s).len() as int);
}

proof fn lemma_outline_upto_offsets(s: Seq<char>, kinds: Seq<BlockKind>, n: int)
    requires
        encode_utf8(s).len() <= usize::MAX,
        starts_ok(s, line_starts(s)),
        n <= line_starts(s).len(),
    ensures
        forall|i: int|
            0 <= i < outline_upto(s, kinds, n).len() ==> {
                let e = #[trigger] outline_upto(s, kinds, n)[i];
                &&& e.0 < line_starts(s).len()
                &&& e.3 as int == encode_utf8(s.take(line_starts(s)[e.0 as int])).len()
                &&& e.3 > 0 ==> encode_utf8(s)[e.3 - 1] == 10
            },
    decreases n,
{
    if n > 0 {
        lemma_outline_upto_offsets(s, kinds, n - 1);
        let ix = n - 1;
        if ix < kinds.len() && kinds[ix] is Heading {
            let st = line_starts(s)[ix];
            assert(0 <= st <= s.len());
            lemma_char_offset_is_prefix_bytes(s, st);
            lemma_char_offset_is_prefix_bytes(s, s.len() as int);
            crate::find::lemma_char_offset_mono(s, st, s.len() as int);
            assert(s.take(s.len() as int) =~= s);
            let b = char_offset(s, st);
            assert(b as usize as int == b);
            lemma_line_starts_len(s);
            lemma_char_offset_at_least(s, s.len() as int);
            assert(ix as usize as int == ix);
            if b > 0 {
                assert(st > 0);
                assert(ix > 0) by {
                    if ix == 0 {
                        assert(st == 0);
                    }
                }
                lemma_newline_byte(s, st);
            }
            let rest = outline_upto(s, kinds, n - 1);
            let full = outline_upto(s, kinds, n);
            assert forall|i: int| 0 <= i < full.len() implies {
                let e = #[trigger] full[i];
                &&& e.0 < line_starts(s).len()
                &&& e.3 as int == encode_utf8(s.take(line_starts(s)[e.0 as int])).len()
                &&& e.3 > 0 ==> encode_utf8(s)[e.3 - 1] == 10
            } by {
                if i < rest.len() {
                    assert(full[i] == rest[i]);
                }
            }
        }
    }
}

/// The outline lists the heading lines and nothing else, top to bottom:
/// each entry names a line that exists and whose block is a heading, with
/// that heading's level; entries go down the text; and every heading line
/// has its entry.
pub proof fn law_outline_lists_headings(s: Seq<char>, kinds: Seq<BlockKind>)
    requires
        s.len() < usize::MAX,
    ensures
        forall|i: int|
            0 <= i < outline_spec(s, kinds).len() ==> {
                let e = #[trigger] outline_spec(s, kinds)[i];
                &&& e.0 < line_starts(s).len()
                &&& e.0 < kinds.len()
                &&& kinds[e.0 as int] matches BlockKind::Heading(level) && e.1 == level
            },
        forall|i: int, j: int|
            0 <= i < j < outline_spec(s, kinds).len() ==> (#[trigger] outline_spec(s, kinds)[i]).0
                < (#[trigger] outline_spec(s, kinds)[j]).0,
        forall|k: int|
            0 <= k < line_starts(s).len() && 0 <= k < kinds.len() && (#[trigger] kinds[k]) is Heading ==> exists|i: int|
                0 <= i < outline_spec(s, kinds).len() && outline_spec(s, kinds)[i].0 == k,
{
    lemma_line_starts_len(s);
    lemma_outline_upto_lists(s, kinds, line_starts(s).len() as int);
}

proof fn lemma_outline_upto_lists(s: Seq<char>, kinds: Seq<BlockKind>, n: int)
    requires
        0 <= n <= usize::MAX,
    ensures
        forall|i: int|
            0 <= i < outline_upto(s, kinds, n).len() ==> {
                let e = #[trigger] outline_upto(s, kinds, n)[i];
                &&& e.0 < n
                &&& e.0 < kinds.len()
                &&& kinds[e.0 as int] matches BlockKind::Heading(level) && e.1 == level
            },
        forall|i: int, j: int|
            0 <= i < j < outline_upto(s, kinds, n).len() ==> (#[trigger] outline_upto(s, kinds, n)[i]).0
                < (#[trigger] outline_upto(s, kinds, n)[j]).0,
        forall|k: int|
            0 <= k < n && 0 <= k < kinds.len() && (#[trigger] kinds[k]) is Heading ==> exists|i: int|
                0 <= i < outline_upto(s, kinds, n).len() && outline_upto(s, kinds, n)[i].0 == k,
    decreases n,
{
    if n > 0 {
        lemma_outline_upto_lists(s, kinds, n - 1);
        let rest = outline_upto(s, kinds, n - 1);
        let full = outline_upto(s, kinds, n);
        let ix = n - 1;
        if ix < kinds.len() && kinds[ix] is Heading {
            assert(full.len() == rest.len() + 1);
            assert(full[rest.len() as int].0 == ix);
            assert forall|i: int| 0 <= i < full.len() implies {
                let e = #[trigger] full[i];
                &&& e.0 < n
                &&& e.0 < kinds.len()
                &&& kinds[e.0 as int] matches BlockKind::Heading(level) && e.1 == level
            } by {
                if i < rest.len() {
                    assert(full[i] == rest[i]);
                }
            }
            assert forall|i: int, j: int| 0 <= i < j < full.len() implies (#[trigger] full[i]).0
                < (#[trigger] full[j]).0 by {
                assert(full[i] == rest[i]);
                if j < rest.len() {
                    assert(full[j] == rest[j]);
                }
            }
            assert forall|k: int| 0 <= k < n && 0 <= k < kinds.len() && (#[trigger] kinds[k]) is Heading implies exists|i: int|
                0 <= i < full.len() && full[i].0 == k by {
                if k < ix {
                    let i = choose|i: int| 0 <= i < rest.len() && rest[i].0 == k;
                    assert(full[i] == rest[i]);
                } else {
                    assert(full[rest.len() as int].0 == k);
                }
            }
        }
    }
}

/// Each outline entry's title is its heading line's first 120 characters
/// with the whitespace at both ends cut off, and nothing more: a piece of
/// that head, only whitespace before and after it, its own ends not
/// whitespace.
pub proof fn law_outline_titles(s: Seq<char>, kinds: Seq<BlockKind>)
    requires
        s.len() < usize::MAX,
    ensures
        forall|i: int|
            0 <= i < outline_spec(s, kinds).len() ==> {
                let e = #[trigger] outline_spec(s, kinds)[i];
                let h = first_chars(line_text(s, e.0 as int), 120);
                &&& e.2.len() <= 120
                &&& e.2.len() > 0 ==> !is_ws(e.2[0]) && !is_ws(e.2.last())
                &&& exists|a: int, b: int|
                    0 <= a <= b <= h.len() && e.2 == h.subrange(a, b) && (forall|j: int|
                        0 <= j < a ==> is_ws(#[trigger] h[j])) && (forall|j: int| b <= j < h.len() ==> is_ws(#[trigger] h[j]))
            },
{
    lemma_line_starts_len(s);
    lemma_outline_upto_titles(s, kinds, line_starts(s).len() as int);
}

proof fn lemma_outline_upto_titles(s: Seq<char>, kinds: Seq<BlockKind>, n: int)
    requires
        n <= usize::MAX,
    ensures
        forall|i: int|
            0 <= i < outline_upto(s, kinds, n).len() ==> {
                let e = #[trigger] outline_upto(s, kinds, n)[i];
                let h = first_chars(line_text(s, e.0 as int), 120);
                &&& e.2.len() <= 120
                &&& e.2.len() > 0 ==> !is_ws(e.2[0]) && !is_ws(e.2.last())
                &&& exists|a: int, b: int|
                    0 <= a <= b <= h.len() && e.2 == h.subrange(a, b) && (forall|j: int|
                        0 <= j < a ==> is_ws(#[trigger] h[j])) && (forall|j: int| b <= j < h.len() ==> is_ws(#[trigger] h[j]))
            },
    decreases n,
{
    if n > 0 {
        lemma_outline_upto_titles(s, kinds, n - 1);
        let ix = n - 1;
        if ix < kinds.len() && kinds[ix] is Heading {
            let rest = outline_upto(s, kinds, n - 1);
            let full = outline_upto(s, kinds, n);
            let h = first_chars(line_text(s, ix), 120);
            crate::stem::lemma_trim_ws_shape(h);
            assert(h.len() <= 120);
            assert forall|i: int| 0 <= i < full.len() implies {
                let e = #[trigger] full[i];
                let h = first_chars(line_text(s, e.0 as int), 120);
                &&& e.2.len() <= 120
                &&& e.2.len() > 0 ==> !is_ws(e.2[0]) && !is_ws(e.2.last())
                &&& exists|a: int, b: int|
                    0 <= a <= b <= h.len() && e.2 == h.subrange(a, b) && (forall|j: int|
                        0 <= j < a ==> is_ws(#[trigger] h[j])) && (forall|j: int| b <= j < h.len() ==> is_ws(#[trigger] h[j]))
            } by {
                if i < rest.len() {
                    assert(full[i] == rest[i]);
                } else {
                    assert(full[i].0 as int == ix);
                }
            }
        } else {
            assert(outline_upto(s, kinds, n) == outline_upto(s, kinds, n - 1));
        }
    }
}

} // verus!
