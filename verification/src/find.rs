//! Find in document: case-folded, non-overlapping matches, left to right,
//! at most a fixed number of them, reported as byte ranges of the text.

use vstd::prelude::*;
use vstd::string::StringSliceAdditionalSpecFns;
use vstd::utf8::{encode_scalar, encode_utf8};
use crate::chars::{chars_of, string_from_chars};

verus! {

/// The most matches a search reports.
pub const MAX_MATCHES: usize = 500;

/// The first character of `c`'s lowercase mapping (`char::to_lowercase`),
/// or `c` itself when the mapping is empty.
pub uninterp spec fn fold_char(c: char) -> char;

/// `char::to_lowercase`, first character; the contract names the result.
#[verifier::external_body]
fn fold(c: char) -> (r: char)
    ensures
        r == fold_char(c),
{
    c.to_lowercase().next().unwrap_or(c)
}

/// Bytes in the UTF-8 encoding of `c`.
pub open spec fn utf8_width(c: char) -> nat {
    if (c as u32) < 0x80 {
        1
    } else if (c as u32) < 0x800 {
        2
    } else if (c as u32) < 0x10000 {
        3
    } else {
        4
    }
}

/// Byte offset of character `i` of `s`.
pub open spec fn char_offset(s: Seq<char>, i: int) -> int
    decreases i,
{
    if i <= 0 || s.len() == 0 {
        0
    } else {
        utf8_width(s[0]) + char_offset(s.drop_first(), i - 1)
    }
}

/// The non-overlapping matches of `n` in `h` from character `i` on, as
/// character ranges, after `found` matches so far: scanning left to right,
/// a match resumes the scan at its end, and the scan stops at the cap.
pub open spec fn match_scan(h: Seq<char>, n: Seq<char>, i: int, found: nat) -> Seq<(int, int)>
    decreases h.len() - i,
{
    if n.len() == 0 || i < 0 || i + n.len() > h.len() {
        Seq::empty()
    } else if h.subrange(i, i + n.len()) == n {
        seq![(i, i + n.len())] + if found + 1 >= MAX_MATCHES {
            Seq::empty()
        } else {
            match_scan(h, n, i + n.len(), found + 1)
        }
    } else {
        match_scan(h, n, i + 1, found)
    }
}

/// Character ranges of `s` as byte ranges.
pub open spec fn byte_ranges(s: Seq<char>, r: Seq<(int, int)>) -> Seq<(usize, usize)> {
    r.map_values(|p: (int, int)| (char_offset(s, p.0) as usize, char_offset(s, p.1) as usize))
}

/// Every character folded.
pub open spec fn folded(s: Seq<char>) -> Seq<char> {
    s.map_values(|c: char| fold_char(c))
}

pub(crate) proof fn lemma_char_offset_step(s: Seq<char>, i: int)
    requires
        0 <= i < s.len(),
    ensures
        char_offset(s, i + 1) == char_offset(s, i) + utf8_width(s[i]),
    decreases i,
{
    if i > 0 {
        lemma_char_offset_step(s.drop_first(), i - 1);
        assert(s.drop_first()[i - 1] == s[i]);
    } else {
        assert(char_offset(s.drop_first(), 0) == 0);
        assert(char_offset(s, 0) == 0);
    }
}

proof fn lemma_char_offset_total(s: Seq<char>)
    ensures
        char_offset(s, s.len() as int) == encode_utf8(s).len(),
    decreases s.len(),
{
    if s.len() > 0 {
        lemma_char_offset_total(s.drop_first());
        vstd::utf8::char_is_scalar(s[0]);
        assert(encode_scalar(s[0] as u32).len() == utf8_width(s[0]));
    }
}

pub(crate) proof fn lemma_char_offset_mono(s: Seq<char>, i: int, j: int)
    requires
        0 <= i <= j <= s.len(),
    ensures
        char_offset(s, i) <= char_offset(s, j),
    decreases j - i,
{
    if i < j {
        lemma_char_offset_mono(s, i, j - 1);
        lemma_char_offset_step(s, j - 1);
    }
}

/// The byte offset of every character of `text`, and of its end.
pub(crate) fn char_offsets(text: &str) -> (r: Vec<usize>)
    ensures
        r@.len() == text@.len() + 1,
        forall|i: int| 0 <= i <= text@.len() ==> #[trigger] r@[i] == char_offset(text@, i),
{
    let cs = chars_of(text);
    let bytes = text.as_bytes();
    proof {
        lemma_char_offset_total(text@);
        assert(bytes@.len() == bytes.len());
    }
    let mut r: Vec<usize> = Vec::new();
    let mut off: usize = 0;
    let mut i: usize = 0;
    r.push(0);
    while i < cs.len()
        invariant
            cs@ == text@,
            bytes@.len() == char_offset(text@, text@.len() as int),
            bytes@.len() <= usize::MAX,
            0 <= i <= cs@.len(),
            r@.len() == i + 1,
            off == char_offset(text@, i as int),
            forall|k: int| 0 <= k <= i ==> #[trigger] r@[k] == char_offset(text@, k),
        decreases cs@.len() - i,
    {
        proof {
            lemma_char_offset_step(text@, i as int);
            lemma_char_offset_mono(text@, i + 1, text@.len() as int);
        }
        let c = cs[i] as u32;
        let w: usize = if c < 0x80 {
            1
        } else if c < 0x800 {
            2
        } else if c < 0x10000 {
            3
        } else {
            4
        };
        off = off + w;
        r.push(off);
        i += 1;
    }
    r
}

/// Does `n` occur in `h` at character `i`?
fn matches_at(h: &Vec<char>, n: &Vec<char>, i: usize) -> (b: bool)
    requires
        i + n@.len() <= h@.len(),
    ensures
        b == (h@.subrange(i as int, i + n@.len()) == n@),
{
    assert(h@.len() == h.len());
    let mut j: usize = 0;
    while j < n.len()
        invariant
            i + n@.len() <= h@.len(),
            h@.len() <= usize::MAX,
            0 <= j <= n@.len(),
            forall|q: int| 0 <= q < j ==> h@[i + q] == n@[q],
        decreases n@.len() - j,
    {
        if h[i + j] != n[j] {
            proof {
                assert(h@.subrange(i as int, i + n@.len())[j as int] != n@[j as int]);
            }
            return false;
        }
        j += 1;
    }
    assert(h@.subrange(i as int, i + n@.len()) =~= n@);
    true
}

/// The matches of the folded `needle` in the folded text `hay`, whose
/// characters stand one for one for those of `text`, as byte ranges of
/// `text`.
pub fn find_matches_folded(text: &str, hay: &Vec<char>, needle: &Vec<char>) -> (r: Vec<(usize, usize)>)
    requires
        hay@.len() == text@.len(),
    ensures
        r@ == byte_ranges(text@, match_scan(hay@, needle@, 0, 0)),
{
    let mut out: Vec<(usize, usize)> = Vec::new();
    if needle.len() == 0 || needle.len() > hay.len() {
        return out;
    }
    let offsets = char_offsets(text);
    let ghost total = match_scan(hay@, needle@, 0, 0);
    let mut i: usize = 0;
    while i <= hay.len() - needle.len()
        invariant
            hay@.len() == text@.len(),
            offsets@.len() == text@.len() + 1,
            forall|k: int| 0 <= k <= text@.len() ==> #[trigger] offsets@[k] == char_offset(text@, k),
            1 <= needle@.len() <= hay@.len(),
            total == match_scan(hay@, needle@, 0, 0),
            out@.len() < MAX_MATCHES,
            out@ + byte_ranges(text@, match_scan(hay@, needle@, i as int, out@.len() as nat))
                == byte_ranges(text@, total),
        decreases hay@.len() - i,
    {
        let ghost before = out@;
        let ghost rest = match_scan(hay@, needle@, i as int, out@.len() as nat);
        if matches_at(hay, needle, i) {
            let end = i + needle.len();
            out.push((offsets[i], offsets[end]));
            proof {
                let tail = if before.len() + 1 >= MAX_MATCHES {
                    Seq::<(int, int)>::empty()
                } else {
                    match_scan(hay@, needle@, end as int, (before.len() + 1) as nat)
                };
                assert(rest == seq![(i as int, end as int)] + tail);
                assert(byte_ranges(text@, rest) =~= seq![(offsets[i as int], offsets[end as int])]
                    + byte_ranges(text@, tail));
                assert(out@ + byte_ranges(text@, tail) =~= before + byte_ranges(text@, rest));
            }
            if out.len() >= MAX_MATCHES {
                proof {
                    assert(out@ =~= out@ + byte_ranges(text@, Seq::<(int, int)>::empty()));
                }
                return out;
            }
            i = end;
        } else {
            i += 1;
        }
    }
    proof {
        assert(match_scan(hay@, needle@, i as int, out@.len() as nat) =~= Seq::<(int, int)>::empty());
        assert(out@ + byte_ranges(text@, Seq::<(int, int)>::empty()) =~= out@);
    }
    out
}

/// Case-insensitive find: every non-overlapping match of `query` in `text`,
/// left to right, characters compared by their lowercase fold, at most
/// `MAX_MATCHES` of them, as byte ranges of `text`.
pub fn find_matches(text: &str, query: &str) -> (r: Vec<(usize, usize)>)
    ensures
        r@ == byte_ranges(text@, match_scan(folded(text@), folded(query@), 0, 0)),
{
    let tc = chars_of(text);
    let qc = chars_of(query);
    let hay = folded_chars(&tc);
    let needle = folded_chars(&qc);
    find_matches_folded(text, &hay, &needle)
}

/// Every character of `cs` folded.
fn folded_chars(cs: &Vec<char>) -> (r: Vec<char>)
    ensures
        r@ == folded(cs@),
{
    let mut r: Vec<char> = Vec::new();
    let mut i: usize = 0;
    while i < cs.len()
        invariant
            0 <= i <= cs@.len(),
            r@ == folded(cs@).take(i as int),
        decreases cs@.len() - i,
    {
        r.push(fold(cs[i]));
        i += 1;
        proof {
            assert(r@ =~= folded(cs@).take(i as int));
        }
    }
    proof {
        assert(r@ =~= folded(cs@));
    }
    r
}

/// `t` from character `from` on, with each of the character ranges `r`
/// (in order) replaced by `rep`.
pub open spec fn splice(t: Seq<char>, r: Seq<(int, int)>, rep: Seq<char>, from: int) -> Seq<char>
    decreases r.len(),
{
    if r.len() == 0 {
        t.subrange(from, t.len() as int)
    } else {
        t.subrange(from, r[0].0) + rep + splice(t, r.drop_first(), rep, r[0].1)
    }
}

/// A scan from `i` finds its first match at or after `i`, a whole needle
/// long and inside the haystack.
proof fn lemma_scan_first(h: Seq<char>, n: Seq<char>, i: int, found: nat)
    requires
        0 <= i,
    ensures
        match_scan(h, n, i, found).len() > 0 ==> {
            let m = match_scan(h, n, i, found)[0];
            i <= m.0 && m.1 == m.0 + n.len() && m.1 <= h.len()
        },
    decreases h.len() - i,
{
    if n.len() == 0 || i + n.len() > h.len() {
    } else if h.subrange(i, i + n.len()) == n {
    } else {
        lemma_scan_first(h, n, i + 1, found);
    }
}

proof fn lemma_splice_step(t: Seq<char>, r: Seq<(int, int)>, rep: Seq<char>, i: int)
    requires
        0 <= i < t.len(),
        r.len() > 0 ==> i + 1 <= r[0].0 <= t.len(),
    ensures
        splice(t, r, rep, i) == seq![t[i]] + splice(t, r, rep, i + 1),
{
    if r.len() == 0 {
        assert(t.subrange(i, t.len() as int) =~= seq![t[i]] + t.subrange(i + 1, t.len() as int));
    } else {
        let rest = splice(t, r.drop_first(), rep, r[0].1);
        assert(t.subrange(i, r[0].0) =~= seq![t[i]] + t.subrange(i + 1, r[0].0));
        assert(t.subrange(i, r[0].0) + rep + rest =~= seq![t[i]] + (t.subrange(i + 1, r[0].0) + rep
            + rest));
    }
}

/// Find and replace all: `text` with each match of `query` (as
/// `find_matches` finds them, the cap included) replaced by `replacement`,
/// and how many were replaced.
pub fn replace_all(text: &str, query: &str, replacement: &str) -> (r: (String, usize))
    ensures
        r.0@ == splice(
            text@,
            match_scan(folded(text@), folded(query@), 0, 0),
            replacement@,
            0,
        ),
        r.1 == match_scan(folded(text@), folded(query@), 0, 0).len(),
{
    let tc = chars_of(text);
    let hay = folded_chars(&tc);
    let qc = chars_of(query);
    let needle = folded_chars(&qc);
    let rep = chars_of(replacement);
    let ghost t = text@;
    let ghost total = match_scan(hay@, needle@, 0, 0);
    let ghost goal = splice(t, total, rep@, 0);
    if needle.len() == 0 {
        proof {
            assert(t.subrange(0, t.len() as int) =~= t);
        }
        return (string_from_chars(&tc), 0);
    }
    let mut out: Vec<char> = Vec::new();
    let mut count: usize = 0;
    let mut done = false;
    let mut i: usize = 0;
    while i < tc.len() && !done
        invariant
            tc@ == t,
            hay@.len() == t.len(),
            needle@.len() >= 1,
            rep@ == replacement@,
            total == match_scan(hay@, needle@, 0, 0),
            goal == splice(t, total, rep@, 0),
            0 <= i <= t.len(),
            count <= MAX_MATCHES,
            !done ==> count < MAX_MATCHES,
            !done ==> total.len() == count + match_scan(hay@, needle@, i as int, count as nat).len(),
            !done ==> out@ + splice(t, match_scan(hay@, needle@, i as int, count as nat), rep@, i as int)
                == goal,
            done ==> total.len() == count,
            done ==> out@ + t.subrange(i as int, t.len() as int) == goal,
        decreases t.len() - i,
    {
        let ghost scan = match_scan(hay@, needle@, i as int, count as nat);
        proof {
            lemma_scan_first(hay@, needle@, i as int, count as nat);
        }
        if needle.len() <= hay.len() - i && matches_at(&hay, &needle, i) {
            let ghost before = out@;
            let ghost next = i + needle.len();
            let ghost rest = scan.drop_first();
            assert(t.subrange(i as int, i as int) =~= Seq::<char>::empty());
            let mut k: usize = 0;
            while k < rep.len()
                invariant
                    0 <= k <= rep@.len(),
                    out@ == before + rep@.take(k as int),
                decreases rep@.len() - k,
            {
                out.push(rep[k]);
                k += 1;
                proof {
                    assert(out@ =~= before + rep@.take(k as int));
                }
            }
            proof {
                assert(rep@.take(rep@.len() as int) =~= rep@);
                assert(before + (t.subrange(i as int, i as int) + rep@ + splice(t, rest, rep@, next))
                    =~= out@ + splice(t, rest, rep@, next));
            }
            count += 1;
            i += needle.len();
            if count >= MAX_MATCHES {
                done = true;
                proof {
                    assert(rest =~= Seq::<(int, int)>::empty());
                }
            } else {
                proof {
                    assert(rest =~= match_scan(hay@, needle@, i as int, count as nat));
                }
            }
        } else {
            proof {
                if i + needle@.len() > hay@.len() {
                    assert(match_scan(hay@, needle@, i + 1, count as nat) =~= Seq::<(int, int)>::empty());
                } else {
                    lemma_scan_first(hay@, needle@, i + 1, count as nat);
                }
                lemma_splice_step(t, scan, rep@, i as int);
                assert(out@ + (seq![t[i as int]] + splice(t, scan, rep@, i + 1)) =~= out@.push(
                    t[i as int],
                ) + splice(t, scan, rep@, i + 1));
            }
            out.push(tc[i]);
            i += 1;
        }
    }
    let ghost before = out@;
    let start = i;
    while i < tc.len()
        invariant
            tc@ == t,
            start <= i <= t.len(),
            out@ == before + t.subrange(start as int, i as int),
        decreases t.len() - i,
    {
        out.push(tc[i]);
        i += 1;
        proof {
            assert(out@ =~= before + t.subrange(start as int, i as int));
        }
    }
    proof {
        if !done {
            assert(match_scan(hay@, needle@, start as int, count as nat) =~= Seq::<(int, int)>::empty());
        }
        assert(out@ =~= goal);
        assert(hay@ =~= folded(text@));
        assert(needle@ =~= folded(query@));
    }
    (string_from_chars(&out), count)
}

} // verus!
