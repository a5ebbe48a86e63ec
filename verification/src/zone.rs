//! The footnote zone at the bottom of the page: which of the footnotes
//! referenced on screen get a row of their own.
//!
//! The zone lists the footnotes whose references are in view, each number
//! once, except those whose definition is itself on screen; in reading
//! order. Up to three rows show as they are. With more, the three whose
//! references sit nearest the middle of the viewport keep their rows, in
//! reading order, and the rest collapse into a single "+N more" row.

use vstd::prelude::*;

verus! {

/// How many footnotes the zone shows before it collapses the rest.
pub const ZONE_ROWS: usize = 3;

/// Row `i` is nearer the viewport's middle than row `j`: a smaller distance,
/// or the same distance and earlier in reading order.
pub open spec fn nearer(d: Seq<u64>, i: int, j: int) -> bool {
    d[i] < d[j] || (d[i] == d[j] && i < j)
}

pub open spec fn min_rows(n: int) -> int {
    if n < ZONE_ROWS as int { n } else { ZONE_ROWS as int }
}

fn contains_index(v: &Vec<usize>, x: usize) -> (r: bool)
    ensures
        r == v@.contains(x),
{
    let mut i: usize = 0;
    while i < v.len()
        invariant
            i <= v.len(),
            forall|k: int| 0 <= k < i ==> v@[k] != x,
        decreases v.len() - i,
    {
        if v[i] == x {
            return true;
        }
        i += 1;
    }
    false
}

/// The nearest row not yet picked.
fn nearest_unpicked(d: &Vec<u64>, picks: &Vec<usize>) -> (r: Option<usize>)
    ensures
        match r {
            Some(b) => {
                &&& b < d.len()
                &&& !picks@.contains(b)
                &&& forall|k: usize|
                    k < d.len() && !#[trigger] picks@.contains(k) && k != b ==> nearer(
                        d@,
                        b as int,
                        k as int,
                    )
            },
            None => forall|k: usize| k < d.len() ==> #[trigger] picks@.contains(k),
        },
{
    let n = d.len();
    let mut best: Option<usize> = None;
    let mut j: usize = 0;
    while j < n
        invariant
            n == d.len(),
            j <= n,
            match best {
                Some(b) => {
                    &&& b < j
                    &&& !picks@.contains(b)
                    &&& forall|k: usize|
                        k < j && !#[trigger] picks@.contains(k) && k != b ==> nearer(
                            d@,
                            b as int,
                            k as int,
                        )
                },
                None => forall|k: usize| k < j ==> #[trigger] picks@.contains(k),
            },
        decreases n - j,
    {
        if !contains_index(picks, j) {
            match best {
                None => {
                    best = Some(j);
                },
                Some(b) => {
                    if d[j] < d[b] {
                        best = Some(j);
                    }
                },
            }
        }
        j += 1;
    }
    best
}

/// The picked rows, at most three, put in ascending order.
fn ascending(p: &Vec<usize>) -> (r: Vec<usize>)
    requires
        p.len() <= 3,
        forall|a: int, b: int| 0 <= a < b < p.len() ==> p@[a] != p@[b],
    ensures
        r.len() == p.len(),
        forall|a: int, b: int| 0 <= a < b < r.len() ==> r@[a] < r@[b],
        forall|x: usize| r@.contains(x) <==> p@.contains(x),
{
    let m = p.len();
    if m == 0 {
        Vec::new()
    } else if m == 1 {
        vec![p[0]]
    } else if m == 2 {
        let r = if p[0] < p[1] { vec![p[0], p[1]] } else { vec![p[1], p[0]] };
        assert(forall|x: usize| p@.contains(x) ==> x == p@[0] || x == p@[1]);
        r
    } else {
        let (a, b, c) = (p[0], p[1], p[2]);
        let r = if a < b {
            if b < c {
                vec![a, b, c]
            } else if a < c {
                vec![a, c, b]
            } else {
                vec![c, a, b]
            }
        } else {
            if a < c {
                vec![b, a, c]
            } else if b < c {
                vec![b, c, a]
            } else {
                vec![c, b, a]
            }
        };
        assert(forall|x: usize| p@.contains(x) ==> x == p@[0] || x == p@[1] || x == p@[2]);
        assert(forall|x: usize| r@.contains(x) ==> x == r@[0] || x == r@[1] || x == r@[2]);
        r
    }
}

/// The stacking policy of the footnote zone. `distances[i]` is how far the
/// `i`-th footnote's reference (in reading order) sits from the middle of
/// the viewport. Returns the rows that keep a place, in reading order, and
/// how many collapse into the "+N more" row.
pub fn zone_stack(distances: &Vec<u64>) -> (r: (Vec<usize>, usize))
    ensures
        r.0.len() == min_rows(distances.len() as int),
        forall|a: int, b: int| 0 <= a < b < r.0.len() ==> r.0@[a] < r.0@[b],
        forall|a: int| 0 <= a < r.0.len() ==> r.0@[a] < distances.len(),
        forall|a: int, j: int|
            0 <= a < r.0.len() && 0 <= j < distances.len() && !r.0@.contains(j as usize)
                ==> nearer(distances@, r.0@[a] as int, j),
        r.1 == distances.len() - r.0.len(),
        distances.len() <= ZONE_ROWS ==> forall|a: int| 0 <= a < r.0.len() ==> r.0@[a] == a,
{
    let n = distances.len();
    let mut picks: Vec<usize> = Vec::new();
    while picks.len() < ZONE_ROWS && picks.len() < n
        invariant
            n == distances.len(),
            picks.len() <= ZONE_ROWS,
            picks.len() <= n,
            forall|a: int| 0 <= a < picks.len() ==> picks@[a] < n,
            forall|a: int, b: int| 0 <= a < b < picks.len() ==> picks@[a] != picks@[b],
            forall|a: int, j: int|
                0 <= a < picks.len() && 0 <= j < n && !picks@.subrange(0, a + 1).contains(
                    j as usize,
                ) ==> nearer(distances@, picks@[a] as int, j),
        ensures
            picks.len() == min_rows(n as int),
        decreases ZONE_ROWS - picks.len(),
    {
        match nearest_unpicked(distances, &picks) {
            Some(b) => {
                let ghost old_picks = picks@;
                picks.push(b);
                proof {
                    assert forall|a: int, j: int|
                        0 <= a < picks.len() && 0 <= j < n && !picks@.subrange(0, a + 1).contains(
                            j as usize,
                        ) implies nearer(distances@, picks@[a] as int, j) by {
                        if a < old_picks.len() {
                            assert(picks@.subrange(0, a + 1) =~= old_picks.subrange(0, a + 1));
                        } else {
                            assert(picks@.subrange(0, a + 1) =~= picks@);
                            assert(picks@ =~= old_picks.push(b));
                            if old_picks.contains(j as usize) {
                                let w = choose|w: int|
                                    0 <= w < old_picks.len() && old_picks[w] == j as usize;
                                assert(picks@[w] == j as usize);
                            }
                            assert(!old_picks.contains(j as usize));
                        }
                    }
                }
            },
            None => {
                proof {
                    assert(picks@.contains(0usize));
                    if n >= 2 {
                        assert(picks@.contains(1usize));
                    }
                    if n >= 3 {
                        assert(picks@.contains(2usize));
                    }
                    let w0 = choose|w: int| 0 <= w < picks.len() && picks@[w] == 0usize;
                    if n >= 2 {
                        let w1 = choose|w: int| 0 <= w < picks.len() && picks@[w] == 1usize;
                        assert(w0 != w1);
                    }
                    if n >= 3 {
                        let w1 = choose|w: int| 0 <= w < picks.len() && picks@[w] == 1usize;
                        let w2 = choose|w: int| 0 <= w < picks.len() && picks@[w] == 2usize;
                        assert(w0 != w1 && w1 != w2 && w0 != w2);
                    }
                    assert(false);
                }
                break;
            },
        }
    }
    let kept = ascending(&picks);
    proof {
        assert forall|a: int, j: int|
            0 <= a < kept.len() && 0 <= j < n && !kept@.contains(j as usize) implies nearer(
            distances@,
            kept@[a] as int,
            j,
        ) by {
            assert(picks@.contains(kept@[a]));
            let w = choose|w: int| 0 <= w < picks.len() && picks@[w] == kept@[a];
            assert(!picks@.contains(j as usize));
            if picks@.subrange(0, w + 1).contains(j as usize) {
                let sub = picks@.subrange(0, w + 1);
                let v = choose|v: int| 0 <= v < sub.len() && #[trigger] sub[v] == j as usize;
                assert(picks@[v] == j as usize);
            }
        }
        assert forall|a: int| 0 <= a < kept.len() implies kept@[a] < n by {
            assert(picks@.contains(kept@[a]));
        }
    }
    proof {
        if n <= ZONE_ROWS && n >= 1 {
            let last = n - 1;
            assert(kept@[last as int] < n);
            if n >= 2 {
                assert(kept@[0] < kept@[1]);
            }
            if n >= 3 {
                assert(kept@[1] < kept@[2]);
            }
        }
    }
    let collapsed = n - kept.len();
    (kept, collapsed)
}

/// A footnote reference on the page, as the zone sees it.
#[derive(Clone, Copy, Debug)]
pub struct ZoneRef {
    /// The reference's characters `start..end` in the document.
    pub chars: (usize, usize),
    /// Its byte offset in the document, which orders the rows.
    pub byte: usize,
    /// Its painted number, if it has one.
    pub number: Option<usize>,
    /// The bytes of its definition block, if there is one.
    pub def: Option<(usize, usize)>,
}

/// The reference overlaps the characters in view.
pub open spec fn ref_in_view(r: ZoneRef, chars_view: (usize, usize)) -> bool {
    !(r.chars.0 >= chars_view.1 || r.chars.1 <= chars_view.0)
}

/// The definition block overlaps the bytes in view.
pub open spec fn def_in_view(def: (usize, usize), bytes_view: (usize, usize)) -> bool {
    def.0 < bytes_view.1 && def.1 > bytes_view.0
}

/// One of the rows kept so far already shows number `n`.
pub open spec fn number_shown(refs: Seq<ZoneRef>, kept: Seq<usize>, n: usize) -> bool {
    exists|j: int| 0 <= j < kept.len() && refs[kept[j] as int].number == Some(n)
}

/// The rows the first `k` references give, in the order they are stored.
pub open spec fn zone_rows_upto(refs: Seq<ZoneRef>, chars_view: (usize, usize), bytes_view: (usize, usize), k: int) -> Seq<
    usize,
>
    decreases k,
{
    if k <= 0 {
        Seq::empty()
    } else {
        let kept = zone_rows_upto(refs, chars_view, bytes_view, k - 1);
        let r = refs[k - 1];
        if ref_in_view(r, chars_view) && r.number is Some && !number_shown(refs, kept, r.number->0)
            && r.def is Some && !def_in_view(r.def->0, bytes_view) {
            kept.push((k - 1) as usize)
        } else {
            kept
        }
    }
}

/// `x` inserted after every row whose reference comes at or before its own.
pub open spec fn insert_by_byte(refs: Seq<ZoneRef>, s: Seq<usize>, x: usize) -> Seq<usize>
    decreases s.len(),
{
    if s.len() == 0 {
        seq![x]
    } else if refs[s.last() as int].byte <= refs[x as int].byte {
        s.push(x)
    } else {
        insert_by_byte(refs, s.drop_last(), x).push(s.last())
    }
}

/// The rows in reading order; rows at the same byte keep their order.
pub open spec fn by_byte(refs: Seq<ZoneRef>, s: Seq<usize>) -> Seq<usize>
    decreases s.len(),
{
    if s.len() == 0 {
        s
    } else {
        insert_by_byte(refs, by_byte(refs, s.drop_last()), s.last())
    }
}

proof fn lemma_insert_by_byte_at(refs: Seq<ZoneRef>, s: Seq<usize>, x: usize, p: int)
    requires
        0 <= p <= s.len(),
        p == 0 || refs[s[p - 1] as int].byte <= refs[x as int].byte,
        forall|k: int| p <= k < s.len() ==> refs[(#[trigger] s[k]) as int].byte > refs[x as int].byte,
    ensures
        insert_by_byte(refs, s, x) == s.take(p) + seq![x] + s.skip(p),
    decreases s.len(),
{
    if s.len() == 0 {
        assert(s.take(p) + seq![x] + s.skip(p) =~= seq![x]);
    } else if refs[s.last() as int].byte <= refs[x as int].byte {
        assert(p == s.len());
        assert(s.take(p) + seq![x] + s.skip(p) =~= s.push(x));
    } else {
        lemma_insert_by_byte_at(refs, s.drop_last(), x, p);
        assert(s.drop_last().take(p) + seq![x] + s.drop_last().skip(p) + seq![s.last()] =~= s.take(p)
            + seq![x] + s.skip(p));
    }
}

fn number_already_shown(refs: &[ZoneRef], kept: &Vec<usize>, n: usize) -> (b: bool)
    requires
        forall|j: int| 0 <= j < kept.len() ==> (#[trigger] kept@[j]) < refs.len(),
    ensures
        b == number_shown(refs@, kept@, n),
{
    let mut j: usize = 0;
    while j < kept.len()
        invariant
            0 <= j <= kept@.len(),
            forall|q: int| 0 <= q < kept.len() ==> (#[trigger] kept@[q]) < refs.len(),
            forall|q: int| 0 <= q < j ==> refs@[kept@[q] as int].number != Some(n),
        decreases kept.len() - j,
    {
        match refs[kept[j]].number {
            Some(m) => {
                if m == n {
                    return true;
                }
            },
            None => {},
        }
        j += 1;
    }
    false
}

/// The footnotes the zone lists: each reference in view whose number is not
/// yet listed and whose definition is off screen, as indices into `refs`,
/// in reading order.
pub fn zone_candidates(refs: &[ZoneRef], chars_view: (usize, usize), bytes_view: (usize, usize)) -> (r:
    Vec<usize>)
    ensures
        r@ == by_byte(refs@, zone_rows_upto(refs@, chars_view, bytes_view, refs@.len() as int)),
{
    let mut kept: Vec<usize> = Vec::new();
    let mut i: usize = 0;
    while i < refs.len()
        invariant
            0 <= i <= refs@.len(),
            kept@ == zone_rows_upto(refs@, chars_view, bytes_view, i as int),
            forall|j: int| 0 <= j < kept.len() ==> (#[trigger] kept@[j]) < i,
        decreases refs.len() - i,
    {
        let r = refs[i];
        let visible = !(r.chars.0 >= chars_view.1 || r.chars.1 <= chars_view.0);
        if visible {
            match r.number {
                Some(n) => {
                    if !number_already_shown(refs, &kept, n) {
                        match r.def {
                            Some(d) => {
                                if !(d.0 < bytes_view.1 && d.1 > bytes_view.0) {
                                    kept.push(i);
                                }
                            },
                            None => {},
                        }
                    }
                },
                None => {},
            }
        }
        i += 1;
    }
    let mut out: Vec<usize> = Vec::new();
    let mut k: usize = 0;
    while k < kept.len()
        invariant
            0 <= k <= kept@.len(),
            forall|j: int| 0 <= j < kept.len() ==> (#[trigger] kept@[j]) < refs.len(),
            forall|j: int| 0 <= j < out.len() ==> (#[trigger] out@[j]) < refs.len(),
            out@ == by_byte(refs@, kept@.take(k as int)),
        decreases kept.len() - k,
    {
        let x = kept[k];
        let mut p: usize = out.len();
        while p > 0 && refs[out[p - 1]].byte > refs[x].byte
            invariant
                0 <= p <= out@.len(),
                x < refs.len(),
                forall|j: int| 0 <= j < out.len() ==> (#[trigger] out@[j]) < refs.len(),
                forall|q: int| p <= q < out@.len() ==> refs@[(#[trigger] out@[q]) as int].byte
                    > refs@[x as int].byte,
            decreases p,
        {
            p -= 1;
        }
        proof {
            lemma_insert_by_byte_at(refs@, out@, x, p as int);
            assert(kept@.take(k + 1).drop_last() =~= kept@.take(k as int));
        }
        let ghost before = out@;
        out.insert(p, x);
        k += 1;
        proof {
            assert(out@ =~= before.take(p as int) + seq![x] + before.skip(p as int));
        }
    }
    proof {
        assert(kept@.take(kept@.len() as int) =~= kept@);
    }
    out
}

} // verus!
