//! Turning a typed document title into a portable file stem.

use vstd::prelude::*;
use crate::chars::{chars_of, string_from_chars};
use crate::format::{decimal, push_decimal};

verus! {

/// `char::is_whitespace`: the Unicode `White_Space` property.
pub open spec fn is_ws(c: char) -> bool {
    ||| c == ' '
    ||| ('\u{9}' <= c && c <= '\u{d}')
    ||| c == '\u{85}'
    ||| c == '\u{a0}'
    ||| c == '\u{1680}'
    ||| ('\u{2000}' <= c && c <= '\u{200a}')
    ||| c == '\u{2028}'
    ||| c == '\u{2029}'
    ||| c == '\u{202f}'
    ||| c == '\u{205f}'
    ||| c == '\u{3000}'
}

/// `char::is_control`: the general category `Cc`.
pub open spec fn is_ctrl(c: char) -> bool {
    c <= '\u{1f}' || ('\u{7f}' <= c && c <= '\u{9f}')
}

/// Characters that no portable file name may hold.
pub open spec fn is_forbidden(c: char) -> bool {
    c == '/' || c == '\\' || c == ':' || c == '*' || c == '?' || c == '"' || c == '<'
        || c == '>' || c == '|'
}

/// The character classes trimmed off a title's ends.
pub enum TrimClass {
    Whitespace,
    Dot,
    DotOrSpace,
}

pub open spec fn in_class(c: char, k: TrimClass) -> bool {
    match k {
        TrimClass::Whitespace => is_ws(c),
        TrimClass::Dot => c == '.',
        TrimClass::DotOrSpace => c == '.' || c == ' ',
    }
}

/// `s` with every leading character of class `k` removed.
pub open spec fn trim_start_spec(s: Seq<char>, k: TrimClass) -> Seq<char>
    decreases s.len(),
{
    if s.len() > 0 && in_class(s[0], k) {
        trim_start_spec(s.drop_first(), k)
    } else {
        s
    }
}

/// `s` with every trailing character of class `k` removed.
pub open spec fn trim_end_spec(s: Seq<char>, k: TrimClass) -> Seq<char>
    decreases s.len(),
{
    if s.len() > 0 && in_class(s.last(), k) {
        trim_end_spec(s.drop_last(), k)
    } else {
        s
    }
}

/// `str::trim`: whitespace removed from both ends.
pub open spec fn trim_ws(s: Seq<char>) -> Seq<char> {
    trim_end_spec(trim_start_spec(s, TrimClass::Whitespace), TrimClass::Whitespace)
}

/// Control characters and path separators become spaces.
pub open spec fn sanitize_char(c: char) -> char {
    if is_ctrl(c) || is_forbidden(c) {
        ' '
    } else {
        c
    }
}

/// The cleaned title before the reserved-name check.
pub open spec fn cleaned_spec(title: Seq<char>) -> Seq<char> {
    trim_end_spec(
        trim_start_spec(
            trim_ws(trim_ws(title).map_values(|c: char| sanitize_char(c))),
            TrimClass::Dot,
        ),
        TrimClass::DotOrSpace,
    )
}

/// ASCII upper-casing of one character.
pub open spec fn ascii_upper(c: char) -> char {
    if 'a' <= c && c <= 'z' {
        ((c as u32) - 32) as char
    } else {
        c
    }
}

/// Index of the first `.` in `s`, or `s.len()` when there is none.
pub open spec fn first_dot(s: Seq<char>) -> int
    decreases s.len(),
{
    if s.len() == 0 {
        0
    } else if s[0] == '.' {
        0
    } else {
        1 + first_dot(s.drop_first())
    }
}

/// The part of the stem before its first dot, ASCII upper-cased: the name
/// that Windows compares against its reserved device names.
pub open spec fn device_spec(s: Seq<char>) -> Seq<char> {
    s.take(first_dot(s)).map_values(|c: char| ascii_upper(c))
}

/// `COM1`..`COM9`, `LPT1`..`LPT9` and their like: a three-letter prefix and one
/// digit from 1 to 9.
pub open spec fn numbered(d: Seq<char>, a: char, b: char, c: char) -> bool {
    d.len() == 4 && d[0] == a && d[1] == b && d[2] == c && '1' <= d[3] && d[3] <= '9'
}

/// Windows device names, which no file may be called.
pub open spec fn reserved_device(d: Seq<char>) -> bool {
    ||| d == seq!['C', 'O', 'N']
    ||| d == seq!['P', 'R', 'N']
    ||| d == seq!['A', 'U', 'X']
    ||| d == seq!['N', 'U', 'L']
    ||| numbered(d, 'C', 'O', 'M')
    ||| numbered(d, 'L', 'P', 'T')
}

/// The stem a title becomes, or `None` when nothing usable is left.
pub open spec fn stem_spec(title: Seq<char>) -> Option<Seq<char>> {
    let cleaned = cleaned_spec(title);
    if cleaned.len() == 0 {
        None
    } else if reserved_device(device_spec(cleaned)) {
        Some(cleaned.push('_'))
    } else {
        Some(cleaned)
    }
}

pub(crate) fn is_ws_exec(c: char) -> (b: bool)
    ensures
        b == is_ws(c),
{
    c == ' ' || ('\u{9}' <= c && c <= '\u{d}') || c == '\u{85}' || c == '\u{a0}' || c
        == '\u{1680}' || ('\u{2000}' <= c && c <= '\u{200a}') || c == '\u{2028}' || c
        == '\u{2029}' || c == '\u{202f}' || c == '\u{205f}' || c == '\u{3000}'
}

pub(crate) fn in_class_exec(c: char, k: &TrimClass) -> (b: bool)
    ensures
        b == in_class(c, *k),
{
    match k {
        TrimClass::Whitespace => is_ws_exec(c),
        TrimClass::Dot => c == '.',
        TrimClass::DotOrSpace => c == '.' || c == ' ',
    }
}

pub(crate) proof fn lemma_trim_start_skip(s: Seq<char>, i: int, k: TrimClass)
    requires
        0 <= i <= s.len(),
        forall|j: int| 0 <= j < i ==> in_class(#[trigger] s[j], k),
    ensures
        trim_start_spec(s, k) == trim_start_spec(s.skip(i), k),
    decreases i,
{
    if i > 0 {
        assert(s.skip(1) =~= s.drop_first());
        lemma_trim_start_skip(s.drop_first(), i - 1, k);
        assert(s.drop_first().skip(i - 1) =~= s.skip(i));
    } else {
        assert(s.skip(0) =~= s);
    }
}

pub(crate) proof fn lemma_trim_end_take(s: Seq<char>, n: int, k: TrimClass)
    requires
        0 <= n <= s.len(),
        forall|j: int| n <= j < s.len() ==> in_class(#[trigger] s[j], k),
    ensures
        trim_end_spec(s, k) == trim_end_spec(s.take(n), k),
    decreases s.len() - n,
{
    if n < s.len() {
        assert(s.drop_last() =~= s.take(s.len() - 1));
        lemma_trim_end_take(s.drop_last(), n, k);
        assert(s.drop_last().take(n) =~= s.take(n));
    } else {
        assert(s.take(n) =~= s);
    }
}

pub(crate) fn trim_start_vec(v: &Vec<char>, k: &TrimClass) -> (r: Vec<char>)
    ensures
        r@ == trim_start_spec(v@, *k),
{
    let mut i: usize = 0;
    while i < v.len() && in_class_exec(v[i], k)
        invariant
            i <= v.len(),
            forall|j: int| 0 <= j < i ==> in_class(#[trigger] v@[j], *k),
        decreases v.len() - i,
    {
        i += 1;
    }
    proof {
        lemma_trim_start_skip(v@, i as int, *k);
    }
    let mut r: Vec<char> = Vec::new();
    let mut j: usize = i;
    while j < v.len()
        invariant
            i <= j <= v.len(),
            r@ == v@.subrange(i as int, j as int),
        decreases v.len() - j,
    {
        r.push(v[j]);
        j += 1;
        assert(r@ =~= v@.subrange(i as int, j as int));
    }
    assert(r@ =~= v@.skip(i as int));
    r
}

pub(crate) fn trim_end_vec(v: &Vec<char>, k: &TrimClass) -> (r: Vec<char>)
    ensures
        r@ == trim_end_spec(v@, *k),
{
    let mut n: usize = v.len();
    while n > 0 && in_class_exec(v[n - 1], k)
        invariant
            n <= v.len(),
            forall|j: int| n <= j < v.len() ==> in_class(#[trigger] v@[j], *k),
        decreases n,
    {
        n -= 1;
    }
    proof {
        lemma_trim_end_take(v@, n as int, *k);
    }
    let mut r: Vec<char> = Vec::new();
    let mut j: usize = 0;
    while j < n
        invariant
            j <= n <= v.len(),
            r@ == v@.take(j as int),
        decreases n - j,
    {
        r.push(v[j]);
        j += 1;
        assert(r@ =~= v@.take(j as int));
    }
    r
}

fn is_ctrl_exec(c: char) -> (b: bool)
    ensures
        b == is_ctrl(c),
{
    c <= '\u{1f}' || ('\u{7f}' <= c && c <= '\u{9f}')
}

fn sanitize_char_exec(c: char) -> (r: char)
    ensures
        r == sanitize_char(c),
{
    if is_ctrl_exec(c) || c == '/' || c == '\\' || c == ':' || c == '*' || c == '?' || c == '"'
        || c == '<' || c == '>' || c == '|' {
        ' '
    } else {
        c
    }
}

fn ascii_upper_exec(c: char) -> (r: char)
    ensures
        r == ascii_upper(c),
{
    if 'a' <= c && c <= 'z' {
        let b: u8 = (c as u8) - 32;
        b as char
    } else {
        c
    }
}

proof fn lemma_first_dot(s: Seq<char>, i: int)
    requires
        0 <= i <= s.len(),
        forall|j: int| 0 <= j < i ==> #[trigger] s[j] != '.',
        i == s.len() || s[i] == '.',
    ensures
        first_dot(s) == i,
    decreases i,
{
    if i > 0 {
        lemma_first_dot(s.drop_first(), i - 1);
    }
}

/// The upper-cased part of `v` before its first dot.
fn device_of(v: &Vec<char>) -> (d: Vec<char>)
    ensures
        d@ == device_spec(v@),
{
    let mut d: Vec<char> = Vec::new();
    let mut i: usize = 0;
    while i < v.len() && v[i] != '.'
        invariant
            i <= v.len(),
            forall|j: int| 0 <= j < i ==> #[trigger] v@[j] != '.',
            d@ == v@.take(i as int).map_values(|c: char| ascii_upper(c)),
        decreases v.len() - i,
    {
        let u = ascii_upper_exec(v[i]);
        d.push(u);
        i += 1;
        assert(d@ =~= v@.take(i as int).map_values(|c: char| ascii_upper(c)));
    }
    proof {
        lemma_first_dot(v@, i as int);
    }
    d
}

fn is_reserved(d: &Vec<char>) -> (b: bool)
    ensures
        b == reserved_device(d@),
{
    let n = d.len();
    let three = n == 3;
    let con = three && d[0] == 'C' && d[1] == 'O' && d[2] == 'N';
    let prn = three && d[0] == 'P' && d[1] == 'R' && d[2] == 'N';
    let aux = three && d[0] == 'A' && d[1] == 'U' && d[2] == 'X';
    let nul = three && d[0] == 'N' && d[1] == 'U' && d[2] == 'L';
    let four_digit = n == 4 && '1' <= d[3] && d[3] <= '9';
    let com = four_digit && d[0] == 'C' && d[1] == 'O' && d[2] == 'M';
    let lpt = four_digit && d[0] == 'L' && d[1] == 'P' && d[2] == 'T';
    proof {
        if three {
            assert(con <==> d@ =~= seq!['C', 'O', 'N']);
            assert(prn <==> d@ =~= seq!['P', 'R', 'N']);
            assert(aux <==> d@ =~= seq!['A', 'U', 'X']);
            assert(nul <==> d@ =~= seq!['N', 'U', 'L']);
        } else {
            assert(d@.len() != 3);
            assert(d@ != seq!['C', 'O', 'N']);
            assert(d@ != seq!['P', 'R', 'N']);
            assert(d@ != seq!['A', 'U', 'X']);
            assert(d@ != seq!['N', 'U', 'L']);
        }
    }
    con || prn || aux || nul || com || lpt
}

/// Sanitize a typed title into a portable file stem. Legal punctuation such
/// as hyphens and interior dots is kept; separators and control characters
/// become spaces; leading dots and trailing dots or spaces go; a Windows
/// device name gains a trailing `_`. `None` when nothing is left.
pub fn stem_from_title(title: &str) -> (r: Option<String>)
    ensures
        match stem_spec(title@) {
            None => r is None,
            Some(s) => r is Some && r->0@ == s,
        },
{
    let raw = chars_of(title);
    let t1 = trim_end_vec(&trim_start_vec(&raw, &TrimClass::Whitespace), &TrimClass::Whitespace);
    let mut mapped: Vec<char> = Vec::new();
    let mut i: usize = 0;
    while i < t1.len()
        invariant
            i <= t1.len(),
            mapped@ == t1@.take(i as int).map_values(|c: char| sanitize_char(c)),
        decreases t1.len() - i,
    {
        let c = sanitize_char_exec(t1[i]);
        mapped.push(c);
        i += 1;
        assert(mapped@ =~= t1@.take(i as int).map_values(|c: char| sanitize_char(c)));
    }
    assert(t1@.take(t1.len() as int) =~= t1@);
    let t2 = trim_end_vec(&trim_start_vec(&mapped, &TrimClass::Whitespace), &TrimClass::Whitespace);
    let t3 = trim_start_vec(&t2, &TrimClass::Dot);
    let mut cleaned = trim_end_vec(&t3, &TrimClass::DotOrSpace);
    if cleaned.len() == 0 {
        return None;
    }
    let device = device_of(&cleaned);
    if is_reserved(&device) {
        cleaned.push('_');
    }
    Some(string_from_chars(&cleaned))
}

proof fn lemma_trim_start_suffix(s: Seq<char>, k: TrimClass)
    ensures
        trim_start_spec(s, k).len() <= s.len(),
        trim_start_spec(s, k) == s.skip(s.len() - trim_start_spec(s, k).len()),
        trim_start_spec(s, k).len() > 0 ==> !in_class(trim_start_spec(s, k)[0], k),
    decreases s.len(),
{
    if s.len() > 0 && in_class(s[0], k) {
        lemma_trim_start_suffix(s.drop_first(), k);
        let t = trim_start_spec(s, k);
        assert(s.drop_first().skip(s.drop_first().len() - t.len()) =~= s.skip(s.len() - t.len()));
    } else {
        assert(s.skip(0) =~= s);
    }
}

proof fn lemma_trim_end_prefix(s: Seq<char>, k: TrimClass)
    ensures
        trim_end_spec(s, k).len() <= s.len(),
        trim_end_spec(s, k) == s.take(trim_end_spec(s, k).len() as int),
        trim_end_spec(s, k).len() > 0 ==> !in_class(trim_end_spec(s, k).last(), k),
    decreases s.len(),
{
    if s.len() > 0 && in_class(s.last(), k) {
        lemma_trim_end_prefix(s.drop_last(), k);
        let t = trim_end_spec(s, k);
        assert(s.drop_last().take(t.len() as int) =~= s.take(t.len() as int));
    } else {
        assert(s.take(s.len() as int) =~= s);
    }
}

proof fn lemma_trim_start_removed(s: Seq<char>, k: TrimClass)
    ensures
        forall|i: int| 0 <= i < s.len() - trim_start_spec(s, k).len() ==> in_class(#[trigger] s[i], k),
    decreases s.len(),
{
    if s.len() > 0 && in_class(s[0], k) {
        lemma_trim_start_removed(s.drop_first(), k);
        assert forall|i: int| 0 <= i < s.len() - trim_start_spec(s, k).len() implies in_class(#[trigger] s[i], k) by {
            if i > 0 {
                assert(s[i] == s.drop_first()[i - 1]);
            }
        }
    }
}

proof fn lemma_trim_end_removed(s: Seq<char>, k: TrimClass)
    ensures
        forall|i: int| trim_end_spec(s, k).len() <= i < s.len() ==> in_class(#[trigger] s[i], k),
    decreases s.len(),
{
    if s.len() > 0 && in_class(s.last(), k) {
        lemma_trim_end_removed(s.drop_last(), k);
        lemma_trim_end_prefix(s.drop_last(), k);
        assert forall|i: int| trim_end_spec(s, k).len() <= i < s.len() implies in_class(#[trigger] s[i], k) by {
            if i < s.len() - 1 {
                assert(s[i] == s.drop_last()[i]);
            }
        }
    }
}

/// What trimming whitespace leaves: a piece of `s`, all that was cut on
/// either side of it whitespace, and its own ends not whitespace.
pub(crate) proof fn lemma_trim_ws_shape(s: Seq<char>)
    ensures
        exists|a: int, b: int|
            0 <= a <= b <= s.len() && trim_ws(s) == s.subrange(a, b) && (forall|i: int|
                0 <= i < a ==> is_ws(#[trigger] s[i])) && (forall|i: int| b <= i < s.len() ==> is_ws(#[trigger] s[i])),
        trim_ws(s).len() > 0 ==> !is_ws(trim_ws(s)[0]) && !is_ws(trim_ws(s).last()),
{
    let w = TrimClass::Whitespace;
    let u = trim_start_spec(s, w);
    let t = trim_end_spec(u, w);
    lemma_trim_start_suffix(s, w);
    lemma_trim_start_removed(s, w);
    lemma_trim_end_prefix(u, w);
    lemma_trim_end_removed(u, w);
    let a = s.len() - u.len();
    let b = a + t.len();
    assert(t =~= s.subrange(a, b));
    assert forall|i: int| 0 <= i < a implies is_ws(#[trigger] s[i]) by {
        assert(in_class(s[i], w));
    }
    assert forall|i: int| b <= i < s.len() implies is_ws(#[trigger] s[i]) by {
        assert(s[i] == u[i - a]);
        assert(in_class(u[i - a], w));
    }
    if t.len() > 0 {
        assert(t[0] == u[0]);
    }
}

/// No character of `s` is a control character or a path separator.
pub open spec fn portable_chars(s: Seq<char>) -> bool {
    forall|i: int| 0 <= i < s.len() ==> !is_ctrl(#[trigger] s[i]) && !is_forbidden(s[i])
}

/// A stem is a portable file name: it is not empty, holds no control
/// characters or path separators, does not start with a dot (no hidden
/// files), and does not end in a dot or a space, except for the `_` that
/// marks a device name.
pub proof fn law_stem_is_portable(title: Seq<char>)
    ensures
        stem_spec(title) matches Some(s) ==> {
            &&& s.len() > 0
            &&& portable_chars(s)
            &&& s[0] != '.'
            &&& s.last() != '.'
            &&& s.last() != ' '
        },
{
    let t1 = trim_ws(title);
    let mapped = t1.map_values(|c: char| sanitize_char(c));
    let t2 = trim_ws(mapped);
    let t3 = trim_start_spec(t2, TrimClass::Dot);
    let cleaned = trim_end_spec(t3, TrimClass::DotOrSpace);
    assert(cleaned == cleaned_spec(title));
    assert(portable_chars(mapped));
    let a = trim_start_spec(mapped, TrimClass::Whitespace);
    lemma_trim_start_suffix(mapped, TrimClass::Whitespace);
    lemma_trim_end_prefix(a, TrimClass::Whitespace);
    lemma_trim_start_suffix(t2, TrimClass::Dot);
    lemma_trim_end_prefix(t3, TrimClass::DotOrSpace);
    assert(portable_chars(a)) by {
        assert forall|i: int| 0 <= i < a.len() implies !is_ctrl(#[trigger] a[i]) && !is_forbidden(a[i]) by {
            assert(a[i] == mapped[i + (mapped.len() - a.len())]);
        }
    }
    assert(portable_chars(t3)) by {
        assert forall|i: int| 0 <= i < t3.len() implies !is_ctrl(#[trigger] t3[i]) && !is_forbidden(t3[i]) by {
            assert(t2[i] == a[i]);
            assert(t3[i] == t2[i + (t2.len() - t3.len())]);
            assert(t2[i + (t2.len() - t3.len())] == a[i + (t2.len() - t3.len())]);
        }
    }
    assert(portable_chars(cleaned)) by {
        assert forall|i: int| 0 <= i < cleaned.len() implies !is_ctrl(#[trigger] cleaned[i]) && !is_forbidden(cleaned[i]) by {
            assert(cleaned[i] == t3[i]);
        }
    }
    if cleaned.len() > 0 {
        assert(cleaned[0] == t3[0]);
        if reserved_device(device_spec(cleaned)) {
            let s = cleaned.push('_');
            assert(portable_chars(s)) by {
                assert forall|i: int| 0 <= i < s.len() implies !is_ctrl(#[trigger] s[i]) && !is_forbidden(s[i]) by {
                    if i < cleaned.len() {
                        assert(s[i] == cleaned[i]);
                    }
                }
            }
        }
    }
}

/// The file name of the `n`th candidate for a new document called `base`:
/// `base.strop` first, then `base 2.strop`, `base 3.strop`, and so on.
pub open spec fn numbered_name_spec(base: Seq<char>, n: nat) -> Seq<char> {
    if n <= 1 {
        base + ".strop"@
    } else {
        base + seq![' '] + decimal(n) + ".strop"@
    }
}

/// The `n`th candidate file name for a new document called `base`
/// ("Untitled", "Scratch", "Welcome to Strop"): the first free one is used.
pub fn numbered_file_name(base: &str, n: usize) -> (r: String)
    ensures
        r@ == numbered_name_spec(base@, n as nat),
{
    if n <= 1 {
        return String::from_str(base).concat(".strop");
    }
    let mut v = chars_of(base);
    v.push(' ');
    push_decimal(n as u64, &mut v);
    let r = string_from_chars(&v).concat(".strop");
    assert(r@ =~= numbered_name_spec(base@, n as nat));
    r
}

/// Renaming the document to a typed title: the new file name and the new
/// window title, or `None` when the title sanitizes to nothing (the rename
/// is then dropped).
pub fn rename_target(title: &str) -> (r: Option<(String, String)>)
    ensures
        match stem_spec(title@) {
            None => r is None,
            Some(s) => match r {
                Some(names) => names.0@ == s + ".strop"@ && names.1@ == s + " — Strop"@,
                None => false,
            },
        },
{
    match stem_from_title(title) {
        None => None,
        Some(stem) => {
            let file = stem.clone().concat(".strop");
            let window = stem.concat(" — Strop");
            Some((file, window))
        },
    }
}

/// The first free candidate for a new document: `taken[k]` says whether
/// the `(k + 1)`th candidate name (`numbered_file_name(base, k + 1)`)
/// already exists. The number of the first one that does not, or the one
/// after the last flag when all do.
pub fn first_free(taken: &[bool]) -> (n: usize)
    requires
        taken.len() < usize::MAX,
    ensures
        1 <= n <= taken.len() + 1,
        forall|k: int| 0 <= k < n - 1 ==> taken@[k],
        n <= taken.len() ==> !taken@[n - 1],
{
    let mut k: usize = 0;
    while k < taken.len() && taken[k]
        invariant
            k <= taken@.len(),
            forall|j: int| 0 <= j < k ==> taken@[j],
        decreases taken@.len() - k,
    {
        k += 1;
    }
    k + 1
}

/// The stem is never more than one character longer than the trimmed
/// title: sanitising only replaces or drops characters, and only a device
/// name gains its `_`.
pub proof fn law_stem_length_bound(title: Seq<char>)
    ensures
        stem_spec(title) matches Some(s) ==> s.len() <= trim_ws(title).len() + 1,
{
    let t1 = trim_ws(title);
    let mapped = t1.map_values(|c: char| sanitize_char(c));
    let a = trim_start_spec(mapped, TrimClass::Whitespace);
    lemma_trim_start_suffix(mapped, TrimClass::Whitespace);
    lemma_trim_end_prefix(a, TrimClass::Whitespace);
    let t2 = trim_ws(mapped);
    lemma_trim_start_suffix(t2, TrimClass::Dot);
    let t3 = trim_start_spec(t2, TrimClass::Dot);
    lemma_trim_end_prefix(t3, TrimClass::DotOrSpace);
    assert(cleaned_spec(title) == trim_end_spec(t3, TrimClass::DotOrSpace));
}

} // verus!
