//! Painted footnote numbers: the Nth distinct reference in text order paints
//! as N, whatever id it is stored under; definitions whose reference is gone
//! take the following numbers in block order.

use vstd::prelude::*;
use vstd::string::StrSliceExecFns;
use crate::table::KeyedTable;
use crate::chars::{chars_of, string_from_chars};
use crate::format::{decimal, push_decimal};

verus! {

/// The kind of a document block.
#[derive(Debug)]
pub enum BlockKind {
    Paragraph,
    Heading(u8),
    Blockquote,
    CodeBlock { info: String },
    ListItem { ordered: bool, depth: u8 },
    Divider,
    Image { src: String, alt: String, caption: String },
    FootnoteDef { id: String },
}

/// Lexicographic order on character sequences (`str`'s order: for UTF-8,
/// byte order and code point order agree).
pub open spec fn seq_le(a: Seq<char>, b: Seq<char>) -> bool
    decreases a.len(),
{
    if a.len() == 0 {
        true
    } else if b.len() == 0 {
        false
    } else if a[0] != b[0] {
        a[0] < b[0]
    } else {
        seq_le(a.drop_first(), b.drop_first())
    }
}

/// A reference `(byte position, id)` sorts at or before `b`: by position,
/// then by id.
pub open spec fn ref_le(a: (usize, Seq<char>), b: (usize, Seq<char>)) -> bool {
    a.0 < b.0 || (a.0 == b.0 && seq_le(a.1, b.1))
}

/// `x` inserted into `s` after every entry that sorts at or before it.
pub open spec fn insert_sorted(s: Seq<(usize, Seq<char>)>, x: (usize, Seq<char>)) -> Seq<
    (usize, Seq<char>),
>
    decreases s.len(),
{
    if s.len() == 0 {
        seq![x]
    } else if ref_le(s.last(), x) {
        s.push(x)
    } else {
        insert_sorted(s.drop_last(), x).push(s.last())
    }
}

/// The references in text order.
pub open spec fn sorted_refs(s: Seq<(usize, Seq<char>)>) -> Seq<(usize, Seq<char>)>
    decreases s.len(),
{
    if s.len() == 0 {
        s
    } else {
        insert_sorted(sorted_refs(s.drop_last()), s.last())
    }
}

/// The ids of a list of references.
pub open spec fn ids_of(s: Seq<(usize, Seq<char>)>) -> Seq<Seq<char>> {
    s.map_values(|r: (usize, Seq<char>)| r.1)
}

/// The ids of the footnote definitions among the blocks, in block order.
pub open spec fn def_ids(kinds: Seq<BlockKind>) -> Seq<Seq<char>>
    decreases kinds.len(),
{
    if kinds.len() == 0 {
        Seq::empty()
    } else {
        let rest = def_ids(kinds.drop_last());
        match kinds.last() {
            BlockKind::FootnoteDef { id } => rest.push(id@),
            _ => rest,
        }
    }
}

/// Each id once, where it first occurs.
pub open spec fn first_seen(s: Seq<Seq<char>>) -> Seq<Seq<char>>
    decreases s.len(),
{
    if s.len() == 0 {
        s
    } else {
        let f = first_seen(s.drop_last());
        if f.contains(s.last()) {
            f
        } else {
            f.push(s.last())
        }
    }
}

/// The `i`th id of `f` numbered `i + 1`.
pub open spec fn number_map(f: Seq<Seq<char>>) -> Map<Seq<char>, usize>
    decreases f.len(),
{
    if f.len() == 0 {
        Map::empty()
    } else {
        number_map(f.drop_last()).insert(f.last(), f.len() as usize)
    }
}

/// The painted number of each footnote id: references first, in text order,
/// then orphaned definitions in block order.
pub open spec fn footnote_spec(refs: Seq<(usize, Seq<char>)>, kinds: Seq<BlockKind>) -> Map<
    Seq<char>,
    usize,
> {
    number_map(first_seen(ids_of(sorted_refs(refs)) + def_ids(kinds)))
}

/// The views of the references.
pub open spec fn ref_views(refs: Seq<(usize, &str)>) -> Seq<(usize, Seq<char>)> {
    refs.map_values(|r: (usize, &str)| (r.0, r.1@))
}

/// `a` sorts at or before `b` as text.
fn str_le(a: &str, b: &str) -> (r: bool)
    ensures
        r == seq_le(a@, b@),
{
    let n = a.unicode_len();
    let m = b.unicode_len();
    let mut i: usize = 0;
    proof {
        assert(a@.skip(0) =~= a@);
        assert(b@.skip(0) =~= b@);
    }
    while i < n && i < m
        invariant
            n == a@.len(),
            m == b@.len(),
            0 <= i <= n,
            i <= m,
            forall|k: int| 0 <= k < i ==> a@[k] == b@[k],
            seq_le(a@, b@) == seq_le(a@.skip(i as int), b@.skip(i as int)),
        decreases n - i,
    {
        let x = a.get_char(i);
        let y = b.get_char(i);
        if x != y {
            return x < y;
        }
        proof {
            assert(a@.skip(i as int).drop_first() =~= a@.skip(i + 1));
            assert(b@.skip(i as int).drop_first() =~= b@.skip(i + 1));
        }
        i += 1;
    }
    i == n
}

fn ref_le_exec(a: (usize, &str), b: (usize, &str)) -> (r: bool)
    ensures
        r == ref_le((a.0, a.1@), (b.0, b.1@)),
{
    a.0 < b.0 || (a.0 == b.0 && str_le(a.1, b.1))
}

proof fn lemma_insert_sorted_at(s: Seq<(usize, Seq<char>)>, x: (usize, Seq<char>), p: int)
    requires
        0 <= p <= s.len(),
        p == 0 || ref_le(s[p - 1], x),
        forall|k: int| p <= k < s.len() ==> !ref_le(#[trigger] s[k], x),
    ensures
        insert_sorted(s, x) == s.take(p) + seq![x] + s.skip(p),
    decreases s.len(),
{
    if s.len() == 0 {
        assert(s.take(p) + seq![x] + s.skip(p) =~= seq![x]);
    } else if ref_le(s.last(), x) {
        assert(p == s.len());
        assert(s.take(p) + seq![x] + s.skip(p) =~= s.push(x));
    } else {
        assert(p < s.len());
        lemma_insert_sorted_at(s.drop_last(), x, p);
        assert(s.drop_last().take(p) + seq![x] + s.drop_last().skip(p) + seq![s.last()]
            =~= s.take(p) + seq![x] + s.skip(p));
    }
}

/// Inserts `x` into `v` the way `insert_sorted` does.
fn insert_ref<'a>(v: &mut Vec<(usize, &'a str)>, x: (usize, &'a str))
    ensures
        ref_views(final(v)@) == insert_sorted(ref_views(old(v)@), (x.0, x.1@)),
{
    let ghost xv = (x.0, x.1@);
    let mut p: usize = v.len();
    while p > 0 && !ref_le_exec(v[p - 1], x)
        invariant
            0 <= p <= v@.len(),
            v@ == old(v)@,
            xv == (x.0, x.1@),
            forall|k: int| p <= k < v@.len() ==> !ref_le(#[trigger] ref_views(v@)[k], xv),
        decreases p,
    {
        proof {
            assert(ref_views(v@)[p - 1] == (v@[p - 1].0, v@[p - 1].1@));
        }
        p -= 1;
    }
    proof {
        lemma_insert_sorted_at(ref_views(v@), xv, p as int);
    }
    v.insert(p, x);
    proof {
        assert(ref_views(v@) =~= ref_views(old(v)@).take(p as int) + seq![xv] + ref_views(
            old(v)@,
        ).skip(p as int));
    }
}

proof fn lemma_number_map_dom(f: Seq<Seq<char>>, k: Seq<char>)
    ensures
        number_map(f).dom().contains(k) <==> f.contains(k),
    decreases f.len(),
{
    if f.len() > 0 {
        lemma_number_map_dom(f.drop_last(), k);
        if f.drop_last().contains(k) {
            let i = choose|i: int| 0 <= i < f.drop_last().len() && f.drop_last()[i] == k;
            assert(f[i] == k);
        }
        if f.contains(k) && k != f.last() {
            let i = choose|i: int| 0 <= i < f.len() && f[i] == k;
            assert(i < f.len() - 1);
            assert(f.drop_last()[i] == k);
        }
    }
}

/// Numbers each id of `ids` where it is first seen, continuing the table.
fn number_ids(table: &mut KeyedTable<usize>, count: &mut usize, ids: &Vec<&str>, Ghost(
    before,
): Ghost<Seq<Seq<char>>>)
    requires
        old(table)@ == number_map(first_seen(before)),
        *old(count) == first_seen(before).len(),
        before.len() + ids@.len() <= usize::MAX,
    ensures
        final(table)@ == number_map(
            first_seen(before + ids@.map_values(|s: &str| s@)),
        ),
        *final(count) == first_seen(before + ids@.map_values(|s: &str| s@)).len(),
{
    let ghost idv = ids@.map_values(|s: &str| s@);
    let mut i: usize = 0;
    proof {
        assert(before + idv.take(0) =~= before);
    }
    while i < ids.len()
        invariant
            idv == ids@.map_values(|s: &str| s@),
            before.len() + ids@.len() <= usize::MAX,
            0 <= i <= ids@.len(),
            table@ == number_map(first_seen(before + idv.take(i as int))),
            *count == first_seen(before + idv.take(i as int)).len(),
        decreases ids.len() - i,
    {
        let id = ids[i];
        let ghost pre = before + idv.take(i as int);
        proof {
            assert(before + idv.take(i + 1) =~= pre.push(id@));
            assert(pre.push(id@).drop_last() =~= pre);
            lemma_number_map_dom(first_seen(pre), id@);
            lemma_first_seen_len(pre);
        }
        match table.get(id) {
            Some(_) => {
                proof {
                    assert(first_seen(pre.push(id@)) == first_seen(pre));
                }
            },
            None => {
                *count = *count + 1;
                table.insert(id, *count);
                proof {
                    assert(first_seen(pre.push(id@)) == first_seen(pre).push(id@));
                    assert(first_seen(pre).push(id@).drop_last() =~= first_seen(pre));
                }
            },
        }
        i += 1;
    }
    proof {
        assert(idv.take(ids@.len() as int) =~= idv);
    }
}

proof fn lemma_first_seen_len(s: Seq<Seq<char>>)
    ensures
        first_seen(s).len() <= s.len(),
    decreases s.len(),
{
    if s.len() > 0 {
        lemma_first_seen_len(s.drop_last());
    }
}

/// The painted number of each footnote id: the Nth distinct reference in
/// text order (position, then id) is numbered N; definitions whose
/// reference is gone take the following numbers in block order.
pub fn footnote_numbers(refs: &[(usize, &str)], kinds: &[BlockKind]) -> (r: KeyedTable<usize>)
    requires
        refs@.len() + kinds@.len() <= usize::MAX,
    ensures
        r@ == footnote_spec(ref_views(refs@), kinds@),
{
    let mut ordered: Vec<(usize, &str)> = Vec::new();
    let mut i: usize = 0;
    while i < refs.len()
        invariant
            0 <= i <= refs@.len(),
            ref_views(ordered@) == sorted_refs(ref_views(refs@.take(i as int))),
            ordered@.len() == i,
        decreases refs.len() - i,
    {
        proof {
            assert(refs@.take(i + 1).drop_last() =~= refs@.take(i as int));
            assert(ref_views(refs@.take(i + 1)).drop_last() =~= ref_views(refs@.take(i as int)));
            lemma_insert_sorted_len(ref_views(ordered@), (refs@[i as int].0, refs@[i as int].1@));
        }
        insert_ref(&mut ordered, refs[i]);
        i += 1;
    }
    proof {
        assert(refs@.take(refs@.len() as int) =~= refs@);
    }
    let mut ids: Vec<&str> = Vec::new();
    let mut j: usize = 0;
    while j < ordered.len()
        invariant
            0 <= j <= ordered@.len(),
            ids@.len() == j,
            forall|q: int| 0 <= q < j ==> #[trigger] ids@[q] == ordered@[q].1,
        decreases ordered.len() - j,
    {
        ids.push(ordered[j].1);
        j += 1;
    }
    proof {
        assert(ids@.map_values(|s: &str| s@) =~= ids_of(ref_views(ordered@)));
    }
    let mut k: usize = 0;
    while k < kinds.len()
        invariant
            0 <= k <= kinds@.len(),
            ordered@.len() == refs@.len(),
            ids@.len() == ordered@.len() + def_ids(kinds@.take(k as int)).len(),
            ids_of(ref_views(ordered@)).len() == ordered@.len(),
            ids@.map_values(|s: &str| s@) == ids_of(ref_views(ordered@)) + def_ids(
                kinds@.take(k as int),
            ),
            def_ids(kinds@.take(k as int)).len() <= k,
        decreases kinds.len() - k,
    {
        proof {
            assert(kinds@.take(k + 1).drop_last() =~= kinds@.take(k as int));
        }
        let ghost old_ids = ids@;
        match &kinds[k] {
            BlockKind::FootnoteDef { id } => {
                let sid = id.as_str();
                ids.push(sid);
                proof {
                    assert(old_ids.push(sid).map_values(|s: &str| s@) =~= old_ids.map_values(
                        |s: &str| s@,
                    ).push(sid@));
                }
            },
            _ => {},
        }
        k += 1;
        proof {
            assert(ids@.map_values(|s: &str| s@) =~= ids_of(ref_views(ordered@)) + def_ids(
                kinds@.take(k as int),
            ));
        }
    }
    proof {
        assert(kinds@.take(kinds@.len() as int) =~= kinds@);
        assert(ids_of(ref_views(ordered@)).take(ordered@.len() as int) =~= ids_of(
            ref_views(ordered@),
        ));
        assert(Seq::<Seq<char>>::empty() + ids@.map_values(|s: &str| s@) =~= ids@.map_values(
            |s: &str| s@,
        ));
    }
    let mut table: KeyedTable<usize> = KeyedTable::new();
    let mut count: usize = 0;
    number_ids(&mut table, &mut count, &ids, Ghost(Seq::empty()));
    table
}

proof fn lemma_insert_sorted_len(s: Seq<(usize, Seq<char>)>, x: (usize, Seq<char>))
    ensures
        insert_sorted(s, x).len() == s.len() + 1,
    decreases s.len(),
{
    if s.len() > 0 && !ref_le(s.last(), x) {
        lemma_insert_sorted_len(s.drop_last(), x);
    }
}

/// The value of a string of decimal digits.
pub open spec fn digits_value(d: Seq<char>) -> nat
    decreases d.len(),
{
    if d.len() == 0 {
        0
    } else {
        digits_value(d.drop_last()) * 10 + ((d.last() as u32) - 48) as nat
    }
}

/// `d` is one or more ASCII digits.
pub open spec fn all_digits(d: Seq<char>) -> bool {
    d.len() > 0 && forall|i: int| 0 <= i < d.len() ==> '0' <= #[trigger] d[i] && d[i] <= '9'
}

/// What `str::parse::<u64>` gives: an optional `+`, then one or more
/// digits whose value fits a `u64`.
pub open spec fn parse_u64_spec(s: Seq<char>) -> Option<u64> {
    let d = if s.len() > 0 && s[0] == '+' {
        s.drop_first()
    } else {
        s
    };
    if all_digits(d) && digits_value(d) <= u64::MAX {
        Some(digits_value(d) as u64)
    } else {
        None
    }
}

/// Parses a footnote id as `str::parse::<u64>` does.
pub fn parse_u64(s: &str) -> (r: Option<u64>)
    ensures
        r == parse_u64_spec(s@),
{
    let cs = chars_of(s);
    let mut i: usize = 0;
    if cs.len() > 0 && cs[0] == '+' {
        i = 1;
    }
    let ghost d = cs@.skip(i as int);
    proof {
        if i == 1 {
            assert(d =~= s@.drop_first());
        } else {
            assert(d =~= s@);
        }
    }
    if i >= cs.len() {
        return None;
    }
    let start = i;
    let mut v: u64 = 0;
    while i < cs.len()
        invariant
            start <= i <= cs@.len(),
            start < cs@.len(),
            cs@ == s@,
            d == cs@.skip(start as int),
            d == (if s@.len() > 0 && s@[0] == '+' {
                s@.drop_first()
            } else {
                s@
            }),
            forall|k: int| start <= k < i ==> '0' <= #[trigger] cs@[k] && cs@[k] <= '9',
            v == digits_value(cs@.subrange(start as int, i as int)),
        decreases cs@.len() - i,
    {
        let c = cs[i];
        if c < '0' || c > '9' {
            proof {
                assert(d[i - start] == c);
            }
            return None;
        }
        let digit = (c as u32 - 48) as u64;
        proof {
            assert(cs@.subrange(start as int, i + 1).drop_last() =~= cs@.subrange(start as int, i as int));
        }
        assert(digit <= 9);
        if v > (u64::MAX - digit) / 10 {
            proof {
                assert(v * 10 + digit > u64::MAX) by (nonlinear_arith)
                    requires v > (u64::MAX - digit) / 10, digit <= 9;
                assert(digits_value(cs@.subrange(start as int, i + 1)) == v * 10 + digit);
                if all_digits(d) {
                    assert forall|k: int| start <= k < cs@.len() implies '0' <= #[trigger] cs@[k] && cs@[k] <= '9' by {
                        assert(d[k - start] == cs@[k]);
                    }
                    lemma_digits_grow(cs@, start as int, i + 1, cs@.len() as int);
                    assert(cs@.subrange(start as int, cs@.len() as int) =~= d);
                }
            }
            return None;
        }
        assert(v * 10 + digit <= u64::MAX) by (nonlinear_arith)
            requires v <= (u64::MAX - digit) / 10, digit <= 9;
        v = v * 10 + digit;
        i += 1;
    }
    proof {
        assert(cs@.subrange(start as int, cs@.len() as int) =~= d);
    }
    Some(v)
}

/// Extending a digit string never lowers its value.
proof fn lemma_digits_grow(s: Seq<char>, a: int, i: int, j: int)
    requires
        0 <= a <= i <= j <= s.len(),
        forall|k: int| a <= k < j ==> '0' <= #[trigger] s[k] && s[k] <= '9',
    ensures
        digits_value(s.subrange(a, i)) <= digits_value(s.subrange(a, j)),
    decreases j - i,
{
    if i < j {
        lemma_digits_grow(s, a, i, j - 1);
        assert(s.subrange(a, j).drop_last() =~= s.subrange(a, j - 1));
    }
}

/// The parsed numeric ids, in order: definitions' then references'.
pub open spec fn numeric_ids(ids: Seq<Seq<char>>) -> Seq<u64>
    decreases ids.len(),
{
    if ids.len() == 0 {
        Seq::empty()
    } else {
        let rest = numeric_ids(ids.drop_last());
        match parse_u64_spec(ids.last()) {
            Some(v) => rest.push(v),
            None => rest,
        }
    }
}

/// The largest value, or 0 for none.
pub open spec fn max_or_zero(v: Seq<u64>) -> nat
    decreases v.len(),
{
    if v.len() == 0 {
        0
    } else if v.last() as nat > max_or_zero(v.drop_last()) {
        v.last() as nat
    } else {
        max_or_zero(v.drop_last())
    }
}

/// A fresh footnote label, never reused: one past the largest numeric id
/// among the definitions and references.
pub open spec fn fresh_id_spec(ids: Seq<Seq<char>>) -> nat {
    max_or_zero(numeric_ids(ids)) + 1
}

/// A fresh footnote label, one past the largest numeric id in use among the
/// definitions (`kinds`) and the references (`refs`); ids that are not
/// numbers are ignored.
pub fn next_footnote_id(kinds: &[BlockKind], refs: &[&str]) -> (r: String)
    requires
        fresh_id_spec(def_ids(kinds@) + refs@.map_values(|s: &str| s@)) <= u64::MAX,
    ensures
        r@ == decimal(fresh_id_spec(def_ids(kinds@) + refs@.map_values(|s: &str| s@))),
{
    let mut ids: Vec<&str> = Vec::new();
    let mut k: usize = 0;
    while k < kinds.len()
        invariant
            0 <= k <= kinds@.len(),
            ids@.map_values(|s: &str| s@) == def_ids(kinds@.take(k as int)),
        decreases kinds@.len() - k,
    {
        proof {
            assert(kinds@.take(k + 1).drop_last() =~= kinds@.take(k as int));
        }
        let ghost old_ids = ids@;
        match &kinds[k] {
            BlockKind::FootnoteDef { id } => {
                let sid = id.as_str();
                ids.push(sid);
                proof {
                    assert(old_ids.push(sid).map_values(|s: &str| s@) =~= old_ids.map_values(
                        |s: &str| s@,
                    ).push(sid@));
                }
            },
            _ => {},
        }
        k += 1;
    }
    proof {
        assert(kinds@.take(kinds@.len() as int) =~= kinds@);
    }
    let ghost defs = ids@.map_values(|s: &str| s@);
    let mut j: usize = 0;
    while j < refs.len()
        invariant
            0 <= j <= refs@.len(),
            defs == def_ids(kinds@),
            ids@.map_values(|s: &str| s@) == defs + refs@.take(j as int).map_values(|s: &str| s@),
        decreases refs@.len() - j,
    {
        let ghost old_ids = ids@;
        let r = refs[j];
        ids.push(r);
        proof {
            assert(old_ids.push(r).map_values(|s: &str| s@) =~= old_ids.map_values(|s: &str| s@).push(r@));
            assert(refs@.take(j + 1).map_values(|s: &str| s@) =~= refs@.take(j as int).map_values(
                |s: &str| s@,
            ).push(r@));
        }
        j += 1;
        proof {
            assert(ids@.map_values(|s: &str| s@) =~= defs + refs@.take(j as int).map_values(
                |s: &str| s@,
            ));
        }
    }
    proof {
        assert(refs@.take(refs@.len() as int) =~= refs@);
    }
    let ghost all = ids@.map_values(|s: &str| s@);
    let mut best: u64 = 0;
    let mut i: usize = 0;
    while i < ids.len()
        invariant
            0 <= i <= ids@.len(),
            all == ids@.map_values(|s: &str| s@),
            best == max_or_zero(numeric_ids(all.take(i as int))),
        decreases ids@.len() - i,
    {
        proof {
            assert(all.take(i + 1).drop_last() =~= all.take(i as int));
            assert(all.take(i + 1).last() == ids@[i as int]@);
        }
        match parse_u64(ids[i]) {
            Some(v) => {
                proof {
                    let rest = numeric_ids(all.take(i as int));
                    assert(numeric_ids(all.take(i + 1)) == rest.push(v));
                    assert(rest.push(v).drop_last() =~= rest);
                }
                if v > best {
                    best = v;
                }
            },
            None => {},
        }
        i += 1;
    }
    proof {
        assert(all.take(all.len() as int) =~= all);
    }
    let mut out: Vec<char> = Vec::new();
    push_decimal(best + 1, &mut out);
    assert(out@ =~= decimal(fresh_id_spec(all)));
    string_from_chars(&out)
}

/// A footnote definition as the page-bottom zone shows it: at most 110
/// characters, with an ellipsis when cut.
pub open spec fn excerpt_spec(full: Seq<char>) -> Seq<char> {
    if full.len() > 110 {
        full.take(110).push('\u{2026}')
    } else {
        full
    }
}

/// The zone's excerpt of a definition, and the byte length of the part of
/// the definition it shows.
pub fn zone_excerpt(full: &str) -> (r: (String, usize))
    ensures
        r.0@ == excerpt_spec(full@),
        r.1 == vstd::utf8::encode_utf8(first_n(full@, 110)).len(),
{
    let cs = chars_of(full);
    if cs.len() > 110 {
        let mut cut: Vec<char> = Vec::new();
        let mut i: usize = 0;
        while i < 110
            invariant
                0 <= i <= 110,
                cs@.len() > 110,
                cut@ == cs@.take(i as int),
            decreases 110 - i,
        {
            cut.push(cs[i]);
            i += 1;
            assert(cut@ =~= cs@.take(i as int));
        }
        let shown = string_from_chars(&cut);
        let len = shown.as_str().as_bytes().len();
        cut.push('\u{2026}');
        (string_from_chars(&cut), len)
    } else {
        (String::from_str(full), full.as_bytes().len())
    }
}

/// The first `n` characters of `s`, or all of them.
pub open spec fn first_n(s: Seq<char>, n: int) -> Seq<char> {
    if s.len() > n {
        s.take(n)
    } else {
        s
    }
}

proof fn lemma_seq_le_total(a: Seq<char>, b: Seq<char>)
    ensures
        seq_le(a, b) || seq_le(b, a),
    decreases a.len(),
{
    if a.len() > 0 && b.len() > 0 && a[0] == b[0] {
        lemma_seq_le_total(a.drop_first(), b.drop_first());
    }
}

proof fn lemma_seq_le_trans(a: Seq<char>, b: Seq<char>, c: Seq<char>)
    requires
        seq_le(a, b),
        seq_le(b, c),
    ensures
        seq_le(a, c),
    decreases a.len(),
{
    if a.len() > 0 && b.len() > 0 && c.len() > 0 && a[0] == b[0] && b[0] == c[0] {
        lemma_seq_le_trans(a.drop_first(), b.drop_first(), c.drop_first());
    }
}

proof fn lemma_ref_le_total(a: (usize, Seq<char>), b: (usize, Seq<char>))
    ensures
        ref_le(a, b) || ref_le(b, a),
{
    lemma_seq_le_total(a.1, b.1);
}

proof fn lemma_ref_le_trans(a: (usize, Seq<char>), b: (usize, Seq<char>), c: (usize, Seq<char>))
    requires
        ref_le(a, b),
        ref_le(b, c),
    ensures
        ref_le(a, c),
{
    if a.0 == b.0 && b.0 == c.0 {
        lemma_seq_le_trans(a.1, b.1, c.1);
    }
}

/// The references are in text order.
pub open spec fn refs_sorted(s: Seq<(usize, Seq<char>)>) -> bool {
    forall|k: int, l: int| 0 <= k < l < s.len() ==> ref_le(#[trigger] s[k], #[trigger] s[l])
}

proof fn lemma_insert_sorted_props(s: Seq<(usize, Seq<char>)>, x: (usize, Seq<char>))
    requires
        refs_sorted(s),
    ensures
        refs_sorted(insert_sorted(s, x)),
        forall|e: (usize, Seq<char>)| #[trigger] insert_sorted(s, x).contains(e) <==> (s.contains(e) || e == x),
    decreases s.len(),
{
    if s.len() == 0 {
        assert(insert_sorted(s, x) =~= seq![x]);
        assert forall|e: (usize, Seq<char>)| #[trigger] insert_sorted(s, x).contains(e) <==> (s.contains(e) || e == x) by {
            if seq![x].contains(e) {
                let k = choose|k: int| 0 <= k < 1 && seq![x][k] == e;
            }
            if e == x {
                assert(seq![x][0] == e);
            }
        }
    } else if ref_le(s.last(), x) {
        let t = s.push(x);
        assert forall|k: int, l: int| 0 <= k < l < t.len() implies ref_le(#[trigger] t[k], #[trigger] t[l]) by {
            if l == t.len() - 1 {
                if k < s.len() - 1 {
                    lemma_ref_le_trans(s[k], s.last(), x);
                }
            }
        }
        assert forall|e: (usize, Seq<char>)| #[trigger] t.contains(e) <==> (s.contains(e) || e == x) by {
            if t.contains(e) {
                let k = choose|k: int| 0 <= k < t.len() && t[k] == e;
                if k < s.len() {
                    assert(s[k] == e);
                }
            }
            if s.contains(e) {
                let k = choose|k: int| 0 <= k < s.len() && s[k] == e;
                assert(t[k] == e);
            }
            if e == x {
                assert(t[s.len() as int] == e);
            }
        }
    } else {
        let d = s.drop_last();
        assert(refs_sorted(d)) by {
            assert forall|k: int, l: int| 0 <= k < l < d.len() implies ref_le(#[trigger] d[k], #[trigger] d[l]) by {
                assert(d[k] == s[k] && d[l] == s[l]);
            }
        }
        lemma_insert_sorted_props(d, x);
        let inner = insert_sorted(d, x);
        let t = inner.push(s.last());
        lemma_ref_le_total(s.last(), x);
        assert forall|e: (usize, Seq<char>)| #[trigger] t.contains(e) <==> (s.contains(e) || e == x) by {
            if t.contains(e) {
                let k = choose|k: int| 0 <= k < t.len() && t[k] == e;
                if k < inner.len() {
                    assert(inner[k] == e);
                    assert(inner.contains(e));
                    if d.contains(e) {
                        let m = choose|m: int| 0 <= m < d.len() && d[m] == e;
                        assert(s[m] == e);
                    }
                } else {
                    assert(s[s.len() - 1] == e);
                }
            }
            if s.contains(e) {
                let k = choose|k: int| 0 <= k < s.len() && s[k] == e;
                if k < s.len() - 1 {
                    assert(d[k] == e);
                    assert(d.contains(e));
                    assert(inner.contains(e));
                    let m = choose|m: int| 0 <= m < inner.len() && inner[m] == e;
                    assert(t[m] == e);
                } else {
                    assert(t[t.len() - 1] == e);
                }
            }
            if e == x {
                assert(inner.contains(e));
                let m = choose|m: int| 0 <= m < inner.len() && inner[m] == e;
                assert(t[m] == e);
            }
        }
        assert forall|k: int, l: int| 0 <= k < l < t.len() implies ref_le(#[trigger] t[k], #[trigger] t[l]) by {
            if l == t.len() - 1 {
                assert(inner.contains(t[k]));
                if d.contains(t[k]) {
                    let m = choose|m: int| 0 <= m < d.len() && d[m] == t[k];
                    assert(s[m] == t[k]);
                }
            } else {
                assert(t[k] == inner[k] && t[l] == inner[l]);
            }
        }
    }
}

proof fn lemma_sorted_refs_props(r: Seq<(usize, Seq<char>)>)
    ensures
        refs_sorted(sorted_refs(r)),
        forall|e: (usize, Seq<char>)| #[trigger] sorted_refs(r).contains(e) <==> r.contains(e),
    decreases r.len(),
{
    if r.len() > 0 {
        lemma_sorted_refs_props(r.drop_last());
        lemma_insert_sorted_props(sorted_refs(r.drop_last()), r.last());
        assert forall|e: (usize, Seq<char>)| #[trigger] sorted_refs(r).contains(e) <==> r.contains(e) by {
            if r.drop_last().contains(e) {
                let k = choose|k: int| 0 <= k < r.drop_last().len() && r.drop_last()[k] == e;
                assert(r[k] == e);
            }
            if r.contains(e) {
                let k = choose|k: int| 0 <= k < r.len() && r[k] == e;
                if k < r.len() - 1 {
                    assert(r.drop_last()[k] == e);
                }
            }
        }
    } else {
        assert forall|k: int, l: int| 0 <= k < l < sorted_refs(r).len() implies ref_le(#[trigger] sorted_refs(r)[k], #[trigger] sorted_refs(r)[l]) by {}
    }
}

/// `x` occurs in `t` at some place before every occurrence of `y`.
pub open spec fn occurs_before(t: Seq<Seq<char>>, x: Seq<char>, y: Seq<char>) -> bool {
    exists|p: int| 0 <= p < t.len() && t[p] == x && forall|q: int| 0 <= q < t.len() && #[trigger] t[q] == y ==> p < q
}

proof fn lemma_first_seen_members(t: Seq<Seq<char>>)
    ensures
        forall|z: Seq<char>| #[trigger] first_seen(t).contains(z) <==> t.contains(z),
        forall|k: int, l: int| 0 <= k < l < first_seen(t).len() ==> #[trigger] first_seen(t)[k] != #[trigger] first_seen(t)[l],
        first_seen(t).len() <= t.len(),
    decreases t.len(),
{
    if t.len() > 0 {
        let d = t.drop_last();
        lemma_first_seen_members(d);
        let f = first_seen(d);
        assert forall|z: Seq<char>| #[trigger] first_seen(t).contains(z) <==> t.contains(z) by {
            if d.contains(z) {
                let k = choose|k: int| 0 <= k < d.len() && d[k] == z;
                assert(t[k] == z);
            }
            if t.contains(z) {
                let k = choose|k: int| 0 <= k < t.len() && t[k] == z;
                if k < t.len() - 1 {
                    assert(d[k] == z);
                }
            }
            if !f.contains(t.last()) {
                let g = f.push(t.last());
                if g.contains(z) {
                    let k = choose|k: int| 0 <= k < g.len() && g[k] == z;
                    if k < f.len() {
                        assert(f[k] == z);
                    }
                }
                if f.contains(z) {
                    let k = choose|k: int| 0 <= k < f.len() && f[k] == z;
                    assert(g[k] == z);
                }
                if z == t.last() {
                    assert(g[f.len() as int] == z);
                }
            }
        }
        if !f.contains(t.last()) {
            let g = f.push(t.last());
            assert forall|k: int, l: int| 0 <= k < l < g.len() implies #[trigger] g[k] != #[trigger] g[l] by {
                if l == f.len() {
                    assert(f[k] == g[k]);
                }
            }
        }
    }
}

proof fn lemma_first_seen_order(t: Seq<Seq<char>>, x: Seq<char>, y: Seq<char>)
    requires
        x != y,
        t.contains(y),
        occurs_before(t, x, y),
    ensures
        exists|kx: int, ky: int|
            0 <= kx < ky < first_seen(t).len() && #[trigger] first_seen(t)[kx] == x && #[trigger] first_seen(t)[ky] == y,
    decreases t.len(),
{
    let d = t.drop_last();
    let f = first_seen(d);
    let p = choose|p: int| 0 <= p < t.len() && t[p] == x && forall|q: int| 0 <= q < t.len() && #[trigger] t[q] == y ==> p < q;
    lemma_first_seen_members(d);
    if d.contains(y) {
        let q = choose|q: int| 0 <= q < d.len() && d[q] == y;
        assert(t[q] == y);
        assert(p < q);
        assert(occurs_before(d, x, y)) by {
            assert(d[p] == x);
            assert forall|q2: int| 0 <= q2 < d.len() && #[trigger] d[q2] == y implies p < q2 by {
                assert(t[q2] == y);
            }
        }
        lemma_first_seen_order(d, x, y);
        let (kx, ky) = choose|kx: int, ky: int|
            0 <= kx < ky < f.len() && #[trigger] f[kx] == x && #[trigger] f[ky] == y;
        if f.contains(t.last()) {
            assert(first_seen(t) == f);
        } else {
            assert(first_seen(t) == f.push(t.last()));
        }
        assert(first_seen(t)[kx] == x && first_seen(t)[ky] == y);
    } else {
        assert(t[t.len() - 1] == y) by {
            let q = choose|q: int| 0 <= q < t.len() && t[q] == y;
            if q < t.len() - 1 {
                assert(d[q] == y);
            }
        }
        assert(p < t.len() - 1);
        assert(d[p] == x);
        assert(d.contains(x));
        assert(f.contains(x));
        assert(!f.contains(y));
        let kx = choose|kx: int| 0 <= kx < f.len() && f[kx] == x;
        let g = f.push(y);
        assert(first_seen(t) == g);
        assert(g[kx] == x && g[f.len() as int] == y);
    }
}

proof fn lemma_number_map_at(f: Seq<Seq<char>>, k: int)
    requires
        0 <= k < f.len(),
        forall|a: int, b: int| 0 <= a < b < f.len() ==> #[trigger] f[a] != #[trigger] f[b],
    ensures
        number_map(f).dom().contains(f[k]),
        number_map(f)[f[k]] == (k + 1) as usize,
    decreases f.len(),
{
    let d = f.drop_last();
    if k < f.len() - 1 {
        assert forall|a: int, b: int| 0 <= a < b < d.len() implies #[trigger] d[a] != #[trigger] d[b] by {
            assert(d[a] == f[a] && d[b] == f[b]);
        }
        lemma_number_map_at(d, k);
        assert(d[k] == f[k]);
        assert(f[k] != f.last());
    }
}

/// The painted numbers follow text order: when some reference to `x` comes
/// before every reference to `y` (by position, then by id), `x` paints with
/// a smaller number than `y`.
pub proof fn law_numbers_follow_text_order(
    refs: Seq<(usize, Seq<char>)>,
    kinds: Seq<BlockKind>,
    x: Seq<char>,
    y: Seq<char>,
)
    requires
        x != y,
        refs.len() + kinds.len() <= usize::MAX,
        exists|j: int| 0 <= j < refs.len() && (#[trigger] refs[j]).1 == y,
        exists|i: int|
            0 <= i < refs.len() && refs[i].1 == x && forall|j: int|
                0 <= j < refs.len() && (#[trigger] refs[j]).1 == y ==> !ref_le(refs[j], refs[i]),
    ensures
        footnote_spec(refs, kinds).dom().contains(x),
        footnote_spec(refs, kinds).dom().contains(y),
        footnote_spec(refs, kinds)[x] < footnote_spec(refs, kinds)[y],
{
    let srt = sorted_refs(refs);
    lemma_sorted_refs_props(refs);
    let ids = ids_of(srt);
    let t = ids + def_ids(kinds);
    let i = choose|i: int|
        0 <= i < refs.len() && refs[i].1 == x && forall|j: int|
            0 <= j < refs.len() && (#[trigger] refs[j]).1 == y ==> !ref_le(refs[j], refs[i]);
    let ex = refs[i];
    assert(refs.contains(ex));
    assert(srt.contains(ex));
    let p = choose|p: int| 0 <= p < srt.len() && srt[p] == ex;
    let j0 = choose|j: int| 0 <= j < refs.len() && (#[trigger] refs[j]).1 == y;
    assert(refs.contains(refs[j0]));
    assert(srt.contains(refs[j0]));
    let q0 = choose|q: int| 0 <= q < srt.len() && srt[q] == refs[j0];
    assert(t[q0] == y);
    assert(t.contains(y));
    assert(occurs_before(t, x, y)) by {
        assert(t[p] == x);
        assert forall|q: int| 0 <= q < t.len() && #[trigger] t[q] == y implies p < q by {
            if q < srt.len() {
                assert(srt.contains(srt[q]));
                assert(refs.contains(srt[q]));
                let j = choose|j: int| 0 <= j < refs.len() && refs[j] == srt[q];
                assert(refs[j].1 == y);
                assert(!ref_le(refs[j], refs[i]));
                if q <= p {
                    if q < p {
                        assert(ref_le(srt[q], srt[p]));
                    }
                }
            }
        }
    }
    lemma_first_seen_order(t, x, y);
    lemma_first_seen_members(t);
    let f = first_seen(t);
    let (kx, ky) = choose|kx: int, ky: int| 0 <= kx < ky < f.len() && #[trigger] f[kx] == x && #[trigger] f[ky] == y;
    lemma_def_ids_len(kinds);
    lemma_sorted_refs_len(refs);
    assert(t.len() == refs.len() + def_ids(kinds).len());
    lemma_number_map_at(f, kx);
    lemma_number_map_at(f, ky);
    assert(f.len() <= t.len());
    assert(ky + 1 <= usize::MAX);
    assert(footnote_spec(refs, kinds) == number_map(f));
    assert(((kx + 1) as usize) < ((ky + 1) as usize));
}

/// Definitions whose reference is gone keep a painted identity: they are
/// numbered after every referenced footnote.
pub proof fn law_orphans_follow_references(
    refs: Seq<(usize, Seq<char>)>,
    kinds: Seq<BlockKind>,
    x: Seq<char>,
    y: Seq<char>,
)
    requires
        refs.len() + kinds.len() <= usize::MAX,
        exists|i: int| 0 <= i < refs.len() && (#[trigger] refs[i]).1 == x,
        def_ids(kinds).contains(y),
        forall|j: int| 0 <= j < refs.len() ==> (#[trigger] refs[j]).1 != y,
    ensures
        footnote_spec(refs, kinds).dom().contains(x),
        footnote_spec(refs, kinds).dom().contains(y),
        footnote_spec(refs, kinds)[x] < footnote_spec(refs, kinds)[y],
{
    let srt = sorted_refs(refs);
    lemma_sorted_refs_props(refs);
    let ids = ids_of(srt);
    let defs = def_ids(kinds);
    let t = ids + defs;
    let i = choose|i: int| 0 <= i < refs.len() && (#[trigger] refs[i]).1 == x;
    assert(refs.contains(refs[i]));
    assert(srt.contains(refs[i]));
    let p = choose|p: int| 0 <= p < srt.len() && srt[p] == refs[i];
    assert(t[p] == x);
    assert(x != y);
    let dq = choose|q: int| 0 <= q < defs.len() && defs[q] == y;
    assert(t[ids.len() + dq] == y);
    assert(t.contains(y));
    assert(occurs_before(t, x, y)) by {
        assert forall|q: int| 0 <= q < t.len() && #[trigger] t[q] == y implies p < q by {
            if q < srt.len() {
                assert(srt.contains(srt[q]));
                assert(refs.contains(srt[q]));
                let j = choose|j: int| 0 <= j < refs.len() && refs[j] == srt[q];
                assert(refs[j].1 == y);
            }
        }
    }
    lemma_first_seen_order(t, x, y);
    lemma_first_seen_members(t);
    let f = first_seen(t);
    let (kx, ky) = choose|kx: int, ky: int| 0 <= kx < ky < f.len() && #[trigger] f[kx] == x && #[trigger] f[ky] == y;
    lemma_def_ids_len(kinds);
    lemma_sorted_refs_len(refs);
    assert(t.len() == refs.len() + defs.len());
    lemma_number_map_at(f, kx);
    lemma_number_map_at(f, ky);
    assert(f.len() <= t.len());
    assert(footnote_spec(refs, kinds) == number_map(f));
    assert(((kx + 1) as usize) < ((ky + 1) as usize));
}

proof fn lemma_def_ids_len(kinds: Seq<BlockKind>)
    ensures
        def_ids(kinds).len() <= kinds.len(),
    decreases kinds.len(),
{
    if kinds.len() > 0 {
        lemma_def_ids_len(kinds.drop_last());
    }
}

proof fn lemma_sorted_refs_len(refs: Seq<(usize, Seq<char>)>)
    ensures
        sorted_refs(refs).len() == refs.len(),
    decreases refs.len(),
{
    if refs.len() > 0 {
        lemma_sorted_refs_len(refs.drop_last());
        lemma_insert_sorted_len(sorted_refs(refs.drop_last()), refs.last());
    }
}

} // verus!
