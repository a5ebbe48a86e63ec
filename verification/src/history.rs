//! The rewind list: checkpoints in time order, runs of automatic ones folded
//! into one row between their named neighbours, and a day header wherever
//! the date changes.

use vstd::prelude::*;
use std::collections::HashSet;
use crate::chars::string_from_chars;
use crate::format::{date_label, decimal, format_day, push_decimal};

verus! {

broadcast use vstd::std_specs::hash::group_hash_axioms;

/// One rewind-list entry.
pub struct HistoryEntry {
    /// The checkpoint's name.
    pub name: String,
    /// When it was taken, in Unix seconds.
    pub created_unix: i64,
    /// Named by the writer, as opposed to taken automatically.
    pub manual: bool,
    /// Words inserted and deleted against the previous checkpoint.
    pub delta: (usize, usize),
}

/// Start of the run of automatic checkpoints that reaches `ix` from the
/// left: every entry in `[start, ix)` is automatic, and the one before
/// `start`, if any, is named.
pub open spec fn group_start_spec(s: Seq<HistoryEntry>, ix: int) -> int
    decreases ix,
{
    if ix <= 0 {
        0
    } else if s[ix - 1].manual {
        ix
    } else {
        group_start_spec(s, ix - 1)
    }
}

/// First index of the run of consecutive automatic checkpoints holding `ix`.
pub fn auto_group_start(entries: &[HistoryEntry], ix: usize) -> (r: usize)
    requires
        ix <= entries@.len(),
    ensures
        r == group_start_spec(entries@, ix as int),
        r <= ix,
        forall|k: int| r <= k < ix ==> !(#[trigger] entries@[k]).manual,
        r == 0 || entries@[r - 1].manual,
{
    let mut start = ix;
    while start > 0 && !entries[start - 1].manual
        invariant
            start <= ix <= entries@.len(),
            group_start_spec(entries@, start as int) == group_start_spec(entries@, ix as int),
            forall|k: int| start <= k < ix ==> !(#[trigger] entries@[k]).manual,
        decreases start,
    {
        start -= 1;
    }
    start
}

/// End of the automatic run starting at `ix`: the first named entry at or
/// after it, or the end of the list.
pub open spec fn run_end_spec(s: Seq<HistoryEntry>, ix: int) -> int
    decreases s.len() - ix,
{
    if ix >= s.len() {
        s.len() as int
    } else if s[ix].manual {
        ix
    } else {
        run_end_spec(s, ix + 1)
    }
}

pub proof fn lemma_run_end(s: Seq<HistoryEntry>, ix: int)
    requires
        0 <= ix <= s.len(),
    ensures
        ix <= run_end_spec(s, ix) <= s.len(),
        ix < s.len() && !s[ix].manual ==> run_end_spec(s, ix) > ix,
        forall|k: int| ix <= k < run_end_spec(s, ix) ==> !(#[trigger] s[k]).manual,
        run_end_spec(s, ix) < s.len() ==> s[run_end_spec(s, ix)].manual,
    decreases s.len() - ix,
{
    if ix < s.len() && !s[ix].manual {
        lemma_run_end(s, ix + 1);
    }
}

fn run_end(entries: &[HistoryEntry], ix: usize) -> (r: usize)
    requires
        ix <= entries@.len(),
    ensures
        r == run_end_spec(entries@, ix as int),
{
    let mut e = ix;
    while e < entries.len() && !entries[e].manual
        invariant
            ix <= e <= entries@.len(),
            run_end_spec(entries@, e as int) == run_end_spec(entries@, ix as int),
        decreases entries@.len() - e,
    {
        e += 1;
    }
    e
}

/// One row of the rewind list.
#[derive(Clone, Copy, Debug, PartialEq, Eq, Structural)]
pub enum HistoryRow {
    /// The date of entry `ix` starts a new day.
    DayHeader { ix: usize },
    /// Entry `ix`, indented when it sits inside an unfolded run.
    Entry { ix: usize, indent: bool },
    /// A run of `count` automatic checkpoints starting at `start`, unfolded
    /// or not, and whether it holds the selected entry.
    Group { start: usize, count: usize, open: bool, holds_selection: bool },
}

/// The indented entry rows `[a, b)` of an unfolded run.
pub open spec fn entry_rows(a: int, b: int) -> Seq<HistoryRow>
    decreases b - a,
{
    if a >= b {
        Seq::empty()
    } else {
        seq![HistoryRow::Entry { ix: a as usize, indent: true }] + entry_rows(a + 1, b)
    }
}

/// A day header for entry `ix` when its date differs from `last_day`.
pub open spec fn header_if(s: Seq<HistoryEntry>, ix: int, last_day: Seq<char>) -> Seq<HistoryRow> {
    if date_label(s[ix].created_unix as int) != last_day {
        seq![HistoryRow::DayHeader { ix: ix as usize }]
    } else {
        Seq::empty()
    }
}

/// The rows from entry `ix` on, the last painted day being `last_day`. A
/// named entry is a row of its own; a run of automatic ones is one group
/// row, followed by its entries when unfolded, or nothing at all when only
/// named checkpoints are shown.
pub open spec fn rows_from(
    s: Seq<HistoryEntry>,
    selected: int,
    named_only: bool,
    expanded: Set<usize>,
    ix: int,
    last_day: Seq<char>,
) -> Seq<HistoryRow>
    decreases s.len() - ix,
{
    if ix < 0 || ix >= s.len() {
        Seq::empty()
    } else if s[ix].manual {
        header_if(s, ix, last_day) + seq![HistoryRow::Entry { ix: ix as usize, indent: false }]
            + rows_from(s, selected, named_only, expanded, ix + 1, date_label(s[ix].created_unix as int))
    } else {
        let end = run_end_spec(s, ix);
        proof {
            lemma_run_end(s, ix);
        }
        if named_only {
            rows_from(s, selected, named_only, expanded, end, last_day)
        } else {
            let open = expanded.contains(ix as usize);
            header_if(s, ix, last_day) + seq![
                HistoryRow::Group {
                    start: ix as usize,
                    count: (end - ix) as usize,
                    open: open,
                    holds_selection: ix <= selected < end,
                },
            ] + (if open {
                entry_rows(ix, end)
            } else {
                Seq::empty()
            }) + rows_from(s, selected, named_only, expanded, end, date_label(s[ix].created_unix as int))
        }
    }
}

/// Appends the rows for a day change at entry `ix`, updating `last_day`.
fn push_header(
    entries: &[HistoryEntry],
    ix: usize,
    last_day: &mut String,
    rows: &mut Vec<HistoryRow>,
)
    requires
        ix < entries@.len(),
    ensures
        final(rows)@ == old(rows)@ + header_if(entries@, ix as int, old(last_day)@),
        final(last_day)@ == date_label(entries@[ix as int].created_unix as int),
{
    let day = format_day(entries[ix].created_unix);
    if day != *last_day {
        rows.push(HistoryRow::DayHeader { ix });
        *last_day = day;
    } else {
        assert(rows@ =~= old(rows)@ + header_if(entries@, ix as int, old(last_day)@));
    }
}

/// Appends the rows of the automatic run `[ix, end)`: its day header if the
/// day changed, its group row, and its entries when unfolded.
fn push_run(
    entries: &[HistoryEntry],
    selected: usize,
    expanded: &HashSet<usize>,
    ix: usize,
    end: usize,
    last_day: &mut String,
    rows: &mut Vec<HistoryRow>,
)
    requires
        ix < end <= entries@.len(),
    ensures
        final(rows)@ == old(rows)@ + header_if(entries@, ix as int, old(last_day)@) + seq![
            HistoryRow::Group {
                start: ix,
                count: (end - ix) as usize,
                open: expanded@.contains(ix),
                holds_selection: ix <= selected < end,
            },
        ] + (if expanded@.contains(ix) {
            entry_rows(ix as int, end as int)
        } else {
            Seq::empty()
        }),
        final(last_day)@ == date_label(entries@[ix as int].created_unix as int),
{
    push_header(entries, ix, last_day, rows);
    let open = expanded.contains(&ix);
    rows.push(
        HistoryRow::Group {
            start: ix,
            count: end - ix,
            open,
            holds_selection: ix <= selected && selected < end,
        },
    );
    let ghost mid = rows@;
    if open {
        let mut k = ix;
        while k < end
            invariant
                ix <= k <= end,
                rows@ == mid + entry_rows(ix as int, k as int),
            decreases end - k,
        {
            rows.push(HistoryRow::Entry { ix: k, indent: true });
            proof {
                lemma_entry_rows_snoc(ix as int, k as int);
            }
            k += 1;
        }
    } else {
        assert(rows@ =~= mid + Seq::<HistoryRow>::empty());
    }
    proof {
        if !open {
            assert(entry_rows(ix as int, ix as int) =~= Seq::<HistoryRow>::empty());
        }
    }
}

/// The rows of the rewind list, top to bottom.
#[verifier::rlimit(50)]
pub fn history_rows(
    entries: &[HistoryEntry],
    selected: usize,
    named_only: bool,
    expanded: &HashSet<usize>,
) -> (rows: Vec<HistoryRow>)
    ensures
        rows@ == rows_from(entries@, selected as int, named_only, expanded@, 0, Seq::empty()),
        headers_where_days_change(entries@, rows@, Seq::empty()),
        rows_faithful(entries@, selected as int, named_only, expanded@, rows@, 0),
{
    let ghost total = rows_from(entries@, selected as int, named_only, expanded@, 0, Seq::empty());
    let mut rows: Vec<HistoryRow> = Vec::new();
    let mut last_day = String::new();
    let mut ix: usize = 0;
    while ix < entries.len()
        invariant
            0 <= ix <= entries@.len(),
            total == rows_from(entries@, selected as int, named_only, expanded@, 0, Seq::empty()),
            rows@ + rows_from(entries@, selected as int, named_only, expanded@, ix as int, last_day@)
                == total,
        decreases entries@.len() - ix,
    {
        let ghost before = rows@;
        let ghost day_before = last_day@;
        if entries[ix].manual {
            push_header(entries, ix, &mut last_day, &mut rows);
            rows.push(HistoryRow::Entry { ix, indent: false });
            proof {
                assert(rows@ + rows_from(entries@, selected as int, named_only, expanded@, ix + 1, last_day@)
                    =~= before + rows_from(entries@, selected as int, named_only, expanded@, ix as int, day_before));
            }
            ix += 1;
        } else {
            let end = run_end(entries, ix);
            proof {
                lemma_run_end(entries@, ix as int);
            }
            if named_only {
                ix = end;
            } else {
                push_run(entries, selected, expanded, ix, end, &mut last_day, &mut rows);
                proof {
                    assert(rows@ + rows_from(entries@, selected as int, named_only, expanded@, end as int, last_day@)
                        =~= before + rows_from(entries@, selected as int, named_only, expanded@, ix as int, day_before));
                }
                ix = end;
            }
        }
    }
    proof {
        assert(rows@ =~= total);
        assert(entries@.len() == entries.len());
        law_day_headers_mark_date_changes(entries@, selected as int, named_only, expanded@);
        law_rows_tell_checkpoints(entries@, selected as int, named_only, expanded@);
    }
    rows
}

proof fn lemma_entry_rows_snoc(a: int, b: int)
    requires
        a <= b,
    ensures
        entry_rows(a, b + 1) == entry_rows(a, b).push(HistoryRow::Entry { ix: b as usize, indent: true }),
    decreases b - a,
{
    if a < b {
        lemma_entry_rows_snoc(a + 1, b);
        assert(entry_rows(a, b + 1) =~= entry_rows(a, b).push(HistoryRow::Entry { ix: b as usize, indent: true }));
    } else {
        assert(entry_rows(a + 1, b + 1) =~= Seq::<HistoryRow>::empty());
        assert(entry_rows(a, b + 1) =~= entry_rows(a, b).push(HistoryRow::Entry { ix: b as usize, indent: true }));
    }
}

/// A row that stands at the top level of the list for an entry: a named
/// entry's row, or a run's group row (not a day header, nor an entry
/// indented inside an unfolded run).
pub open spec fn is_top_row(row: HistoryRow) -> bool {
    match row {
        HistoryRow::DayHeader { .. } => false,
        HistoryRow::Entry { indent, .. } => !indent,
        HistoryRow::Group { .. } => true,
    }
}

/// The entry a row is about: a header's or entry's index, a group's first.
pub open spec fn row_entry(row: HistoryRow) -> int {
    match row {
        HistoryRow::DayHeader { ix } => ix as int,
        HistoryRow::Entry { ix, .. } => ix as int,
        HistoryRow::Group { start, .. } => start as int,
    }
}

/// The date of entry `e`.
pub open spec fn entry_day(s: Seq<HistoryEntry>, e: int) -> Seq<char> {
    date_label(s[e].created_unix as int)
}

/// The day shown last above row `k`: the date of the entry of the nearest
/// top-level row before it, or `base` when there is none.
pub open spec fn day_before(s: Seq<HistoryEntry>, r: Seq<HistoryRow>, k: int, base: Seq<char>) -> Seq<char>
    decreases k,
{
    if k <= 0 {
        base
    } else if is_top_row(r[k - 1]) {
        entry_day(s, row_entry(r[k - 1]))
    } else {
        day_before(s, r, k - 1, base)
    }
}

/// Day headers stand exactly where the date changes: a top-level row whose
/// entry's date differs from the day shown above it comes right after a
/// header for that entry, and every header comes right before a top-level
/// row of the same entry whose date differs from the day shown above.
pub open spec fn headers_where_days_change(s: Seq<HistoryEntry>, r: Seq<HistoryRow>, base: Seq<char>) -> bool {
    &&& forall|k: int|
        0 <= k < r.len() && is_top_row(#[trigger] r[k]) && entry_day(s, row_entry(r[k])) != day_before(
            s,
            r,
            k,
            base,
        ) ==> k > 0 && r[k - 1] is DayHeader && row_entry(r[k - 1]) == row_entry(r[k])
    &&& forall|k: int|
        0 <= k < r.len() && (#[trigger] r[k]) is DayHeader ==> k + 1 < r.len() && is_top_row(r[k + 1])
            && row_entry(r[k + 1]) == row_entry(r[k]) && entry_day(s, row_entry(r[k])) != day_before(
            s,
            r,
            k,
            base,
        )
}

proof fn lemma_day_before_prefix(s: Seq<HistoryEntry>, p: Seq<HistoryRow>, q: Seq<HistoryRow>, j: int, base: Seq<char>)
    requires
        0 <= j <= p.len(),
    ensures
        day_before(s, p + q, j, base) == day_before(s, p, j, base),
    decreases j,
{
    if j > 0 {
        lemma_day_before_prefix(s, p, q, j - 1, base);
        assert((p + q)[j - 1] == p[j - 1]);
    }
}

proof fn lemma_day_before_concat(s: Seq<HistoryEntry>, p: Seq<HistoryRow>, q: Seq<HistoryRow>, k: int, base: Seq<char>)
    requires
        0 <= k <= q.len(),
    ensures
        day_before(s, p + q, p.len() + k, base) == day_before(s, q, k, day_before(s, p, p.len() as int, base)),
    decreases k,
{
    if k == 0 {
        lemma_day_before_prefix(s, p, q, p.len() as int, base);
    } else {
        lemma_day_before_concat(s, p, q, k - 1, base);
        assert((p + q)[p.len() + k - 1] == q[k - 1]);
    }
}

proof fn lemma_day_before_flat(s: Seq<HistoryEntry>, q: Seq<HistoryRow>, k: int, base: Seq<char>)
    requires
        0 <= k <= q.len(),
        forall|i: int| 0 <= i < q.len() ==> !is_top_row(#[trigger] q[i]),
    ensures
        day_before(s, q, k, base) == base,
    decreases k,
{
    if k > 0 {
        lemma_day_before_flat(s, q, k - 1, base);
    }
}

proof fn lemma_entry_rows_indented(a: int, b: int)
    ensures
        forall|i: int|
            0 <= i < entry_rows(a, b).len() ==> (#[trigger] entry_rows(a, b)[i]) is Entry && !is_top_row(
                entry_rows(a, b)[i],
            ),
    decreases b - a,
{
    if a < b {
        lemma_entry_rows_indented(a + 1, b);
        let r = entry_rows(a, b);
        assert forall|i: int| 0 <= i < r.len() implies (#[trigger] r[i]) is Entry && !is_top_row(r[i]) by {
            if i > 0 {
                assert(r[i] == entry_rows(a + 1, b)[i - 1]);
            }
        }
    }
}

/// The rows of one step of the list: a header if the day changed, the
/// entry's top-level row, the indented rows under it, then the rest.
proof fn lemma_days_compose(
    s: Seq<HistoryEntry>,
    e: int,
    row: HistoryRow,
    t: Seq<HistoryRow>,
    q: Seq<HistoryRow>,
    base: Seq<char>,
)
    requires
        0 <= e < s.len() <= usize::MAX,
        is_top_row(row),
        row_entry(row) == e,
        forall|i: int| 0 <= i < t.len() ==> (#[trigger] t[i]) is Entry && !is_top_row(t[i]),
        headers_where_days_change(s, q, entry_day(s, e)),
    ensures
        headers_where_days_change(s, header_if(s, e, base) + seq![row] + t + q, base),
{
    let h = header_if(s, e, base);
    let p = h + seq![row];
    let x = p + t;
    let r = x + q;
    assert(forall|i: int| 0 <= i < h.len() ==> !is_top_row(#[trigger] h[i]));
    lemma_day_before_flat(s, h, h.len() as int, base);
    lemma_day_before_prefix(s, h, seq![row], h.len() as int, base);
    assert(p[h.len() as int] == row);
    assert(day_before(s, p, p.len() as int, base) == entry_day(s, e));
    lemma_day_before_concat(s, p, t, t.len() as int, base);
    lemma_day_before_flat(s, t, t.len() as int, entry_day(s, e));
    assert(p.len() + t.len() == x.len());
    assert(day_before(s, x, x.len() as int, base) == entry_day(s, e));
    assert forall|k: int|
        0 <= k < r.len() && is_top_row(#[trigger] r[k]) && entry_day(s, row_entry(r[k])) != day_before(
            s,
            r,
            k,
            base,
        ) implies k > 0 && r[k - 1] is DayHeader && row_entry(r[k - 1]) == row_entry(r[k]) by {
        if k < x.len() {
            lemma_day_before_prefix(s, x, q, k, base);
            if k < h.len() {
                assert(r[k] == h[k]);
            } else if k == h.len() {
                assert(r[k] == row);
                lemma_day_before_prefix(s, p, t, k, base);
                lemma_day_before_prefix(s, h, seq![row], k, base);
                assert(h.len() == 1);
                assert(r[0] == h[0]);
            } else {
                assert(r[k] == t[k - p.len()]);
            }
        } else {
            let k2 = k - x.len();
            lemma_day_before_concat(s, x, q, k2, base);
            assert(r[k] == q[k2]);
            assert(k2 > 0);
            assert(r[k - 1] == q[k2 - 1]);
        }
    }
    assert forall|k: int| 0 <= k < r.len() && (#[trigger] r[k]) is DayHeader implies k + 1 < r.len()
        && is_top_row(r[k + 1]) && row_entry(r[k + 1]) == row_entry(r[k]) && entry_day(s, row_entry(r[k]))
        != day_before(s, r, k, base) by {
        if k < x.len() {
            lemma_day_before_prefix(s, x, q, k, base);
            if k < h.len() {
                assert(h.len() == 1 && k == 0);
                assert(r[0] == h[0]);
                assert(r[1] == row);
            } else if k == h.len() {
                assert(r[k] == row);
            } else {
                assert(r[k] == t[k - p.len()]);
            }
        } else {
            let k2 = k - x.len();
            lemma_day_before_concat(s, x, q, k2, base);
            assert(r[k] == q[k2]);
            assert(r[k + 1] == q[k2 + 1]);
        }
    }
}

/// Day headers in the rows from entry `ix` on mark every change of date
/// from `last_day`.
proof fn lemma_rows_from_days(
    s: Seq<HistoryEntry>,
    selected: int,
    named_only: bool,
    expanded: Set<usize>,
    ix: int,
    last_day: Seq<char>,
)
    requires
        0 <= ix,
        s.len() <= usize::MAX,
    ensures
        headers_where_days_change(s, rows_from(s, selected, named_only, expanded, ix, last_day), last_day),
    decreases s.len() - ix,
{
    let r = rows_from(s, selected, named_only, expanded, ix, last_day);
    if ix >= s.len() {
        assert(r =~= Seq::<HistoryRow>::empty());
    } else if s[ix].manual {
        let d = date_label(s[ix].created_unix as int);
        lemma_rows_from_days(s, selected, named_only, expanded, ix + 1, d);
        let row = HistoryRow::Entry { ix: ix as usize, indent: false };
        let q = rows_from(s, selected, named_only, expanded, ix + 1, d);
        lemma_days_compose(s, ix, row, Seq::empty(), q, last_day);
        assert(header_if(s, ix, last_day) + seq![row] + Seq::<HistoryRow>::empty() =~= header_if(s, ix, last_day)
            + seq![row]);
    } else {
        let end = run_end_spec(s, ix);
        lemma_run_end(s, ix);
        if named_only {
            lemma_rows_from_days(s, selected, named_only, expanded, end, last_day);
        } else {
            let d = date_label(s[ix].created_unix as int);
            lemma_rows_from_days(s, selected, named_only, expanded, end, d);
            let open = expanded.contains(ix as usize);
            let row = HistoryRow::Group {
                start: ix as usize,
                count: (end - ix) as usize,
                open: open,
                holds_selection: ix <= selected < end,
            };
            let t = if open {
                entry_rows(ix, end)
            } else {
                Seq::<HistoryRow>::empty()
            };
            lemma_entry_rows_indented(ix, end);
            let q = rows_from(s, selected, named_only, expanded, end, d);
            lemma_days_compose(s, ix, row, t, q, last_day);
        }
    }
}

/// A day header stands wherever the date changes, and nowhere else: in the
/// rewind list, a named entry or a run's group row whose date differs from
/// that of the top-level row above it (or that is the first) comes right
/// after a header for it, and every header is followed by the row whose
/// new day it announces. This holds whatever is shown, folded or selected.
pub proof fn law_day_headers_mark_date_changes(
    entries: Seq<HistoryEntry>,
    selected: int,
    named_only: bool,
    expanded: Set<usize>,
)
    requires
        entries.len() <= usize::MAX,
    ensures
        headers_where_days_change(
            entries,
            rows_from(entries, selected, named_only, expanded, 0, Seq::empty()),
            Seq::empty(),
        ),
{
    lemma_rows_from_days(entries, selected, named_only, expanded, 0, Seq::empty());
}

/// The top-level row of named checkpoint `m`.
pub open spec fn named_row(m: int) -> HistoryRow {
    HistoryRow::Entry { ix: m as usize, indent: false }
}

/// The indented row of checkpoint `m` inside an unfolded run.
pub open spec fn indented_row(m: int) -> HistoryRow {
    HistoryRow::Entry { ix: m as usize, indent: true }
}

/// A top-level entry row at or after `lo` is a named checkpoint.
pub open spec fn entry_row_ok(s: Seq<HistoryEntry>, lo: int, row: HistoryRow) -> bool {
    match row {
        HistoryRow::Entry { ix, indent } => indent || (lo <= ix < s.len() && s[ix as int].manual),
        _ => true,
    }
}

/// Row `k`, if a group row, stands for a whole run of automatic checkpoints
/// at or after `lo` (named or missing on both sides), is unfolded as
/// `expanded` says, is marked when it holds the selection, and when
/// unfolded is followed by the run's entries.
pub open spec fn group_row_ok(
    s: Seq<HistoryEntry>,
    selected: int,
    named_only: bool,
    expanded: Set<usize>,
    r: Seq<HistoryRow>,
    lo: int,
    k: int,
) -> bool {
    match r[k] {
        HistoryRow::Group { start, count, open, holds_selection } => {
            &&& !named_only
            &&& lo <= start
            &&& count > 0
            &&& start + count <= s.len()
            &&& forall|m: int| start <= m < start + count ==> !(#[trigger] s[m]).manual
            &&& start + count == s.len() || s[start + count].manual
            &&& open == expanded.contains(start)
            &&& holds_selection == (start <= selected < start + count)
            &&& open ==> forall|i: int|
                0 <= i < count ==> k + 1 + i < r.len() && #[trigger] r[k + 1 + i] == indented_row(start + i)
        },
        _ => true,
    }
}

/// Row `k`, if an indented entry, comes right after the unfolded group row
/// of its run's first entry, or right after the entry before it.
pub open spec fn indent_row_ok(r: Seq<HistoryRow>, k: int) -> bool {
    match r[k] {
        HistoryRow::Entry { ix, indent } => !indent || (k > 0 && match r[k - 1] {
            HistoryRow::Group { start, open, .. } => open && start == ix,
            HistoryRow::Entry { ix: prev, indent: prev_indent } => prev_indent && prev + 1 == ix,
            _ => false,
        }),
        _ => true,
    }
}

/// Automatic checkpoint `m` lies in the run of group row `row`.
pub open spec fn group_holds(row: HistoryRow, m: int) -> bool {
    match row {
        HistoryRow::Group { start, count, .. } => start <= m < start + count,
        _ => false,
    }
}

/// What the rows from entry `lo` on say of the checkpoints: top-level
/// entry rows are named checkpoints, group rows whole automatic runs;
/// indented rows only follow an unfolded group, in order; top-level rows
/// go down the list; every named checkpoint has its row, and, unless only
/// named ones are shown, every automatic one its group.
pub open spec fn rows_faithful(
    s: Seq<HistoryEntry>,
    selected: int,
    named_only: bool,
    expanded: Set<usize>,
    r: Seq<HistoryRow>,
    lo: int,
) -> bool {
    &&& forall|k: int| 0 <= k < r.len() ==> entry_row_ok(s, lo, #[trigger] r[k])
    &&& forall|k: int| 0 <= k < r.len() ==> #[trigger] group_row_ok(s, selected, named_only, expanded, r, lo, k)
    &&& forall|k: int| 0 <= k < r.len() ==> #[trigger] indent_row_ok(r, k)
    &&& forall|k1: int, k2: int|
        0 <= k1 < k2 < r.len() && is_top_row(#[trigger] r[k1]) && is_top_row(#[trigger] r[k2]) ==> row_entry(r[k1])
            < row_entry(r[k2])
    &&& forall|k: int| 0 <= k < r.len() && is_top_row(#[trigger] r[k]) ==> lo <= row_entry(r[k])
    &&& forall|m: int|
        lo <= m < s.len() && (#[trigger] s[m]).manual ==> exists|k: int|
            0 <= k < r.len() && r[k] == named_row(m)
    &&& !named_only ==> forall|m: int|
        lo <= m < s.len() && !(#[trigger] s[m]).manual ==> exists|k: int|
            0 <= k < r.len() && group_holds(r[k], m)
}

proof fn lemma_entry_rows_exact(a: int, b: int)
    requires
        a <= b,
    ensures
        entry_rows(a, b).len() == b - a,
        forall|i: int|
            0 <= i < b - a ==> #[trigger] entry_rows(a, b)[i] == indented_row(a + i),
    decreases b - a,
{
    if a < b {
        lemma_entry_rows_exact(a + 1, b);
        let r = entry_rows(a, b);
        assert forall|i: int| 0 <= i < b - a implies #[trigger] r[i] == indented_row(a + i) by {
            if i > 0 {
                assert(r[i] == entry_rows(a + 1, b)[i - 1]);
            }
        }
    }
}

/// The rows `q` from entry `next` on, placed after `x`: what `q` says of
/// its checkpoints still holds there, for any `lo` up to `next`.
proof fn lemma_faithful_shift(
    s: Seq<HistoryEntry>,
    selected: int,
    named_only: bool,
    expanded: Set<usize>,
    x: Seq<HistoryRow>,
    q: Seq<HistoryRow>,
    lo: int,
    next: int,
)
    requires
        rows_faithful(s, selected, named_only, expanded, q, next),
        lo <= next,
    ensures
        forall|k: int|
            x.len() <= k < x.len() + q.len() ==> entry_row_ok(s, lo, #[trigger] (x + q)[k]) && group_row_ok(
                s,
                selected,
                named_only,
                expanded,
                x + q,
                lo,
                k,
            ) && (is_top_row((x + q)[k]) ==> next <= row_entry((x + q)[k])) && indent_row_ok(x + q, k),
        forall|k1: int, k2: int|
            x.len() <= k1 < k2 < x.len() + q.len() && is_top_row(#[trigger] (x + q)[k1]) && is_top_row(
                #[trigger] (x + q)[k2],
            ) ==> row_entry((x + q)[k1]) < row_entry((x + q)[k2]),
        forall|m: int|
            next <= m < s.len() && (#[trigger] s[m]).manual ==> exists|k: int|
                0 <= k < (x + q).len() && (x + q)[k] == named_row(m),
        !named_only ==> forall|m: int|
            next <= m < s.len() && !(#[trigger] s[m]).manual ==> exists|k: int|
                0 <= k < (x + q).len() && group_holds((x + q)[k], m),
{
    let r = x + q;
    let n = x.len() as int;
    assert forall|k: int| n <= k < n + q.len() implies entry_row_ok(s, lo, #[trigger] r[k]) && group_row_ok(
        s,
        selected,
        named_only,
        expanded,
        r,
        lo,
        k,
    ) && (is_top_row(r[k]) ==> next <= row_entry(r[k])) && indent_row_ok(r, k) by {
        let k2 = k - n;
        assert(r[k] == q[k2]);
        assert(indent_row_ok(q, k2));
        if k2 > 0 {
            assert(r[k - 1] == q[k2 - 1]);
        }
        assert(entry_row_ok(s, next, q[k2]));
        assert(group_row_ok(s, selected, named_only, expanded, q, next, k2));
        if let HistoryRow::Group { start, count, open, holds_selection } = q[k2] {
            if open {
                assert forall|i: int| 0 <= i < count implies k + 1 + i < r.len() && #[trigger] r[k + 1 + i]
                    == indented_row(start + i) by {
                    assert(q[k2 + 1 + i] == indented_row(start + i));
                    assert(r[k + 1 + i] == q[k2 + 1 + i]);
                }
            }
        }
    }
    assert forall|k1: int, k2: int|
        n <= k1 < k2 < n + q.len() && is_top_row(#[trigger] r[k1]) && is_top_row(#[trigger] r[k2]) implies row_entry(
        r[k1],
    ) < row_entry(r[k2]) by {
        assert(r[k1] == q[k1 - n]);
        assert(r[k2] == q[k2 - n]);
    }
    assert forall|m: int| next <= m < s.len() && (#[trigger] s[m]).manual implies exists|k: int|
        0 <= k < r.len() && r[k] == named_row(m) by {
        let k2 = choose|k2: int| 0 <= k2 < q.len() && q[k2] == named_row(m);
        assert(r[n + k2] == q[k2]);
    }
    if !named_only {
        assert forall|m: int| next <= m < s.len() && !(#[trigger] s[m]).manual implies exists|k: int|
            0 <= k < r.len() && group_holds(r[k], m) by {
            let k2 = choose|k2: int| 0 <= k2 < q.len() && group_holds(q[k2], m);
            assert(r[n + k2] == q[k2]);
        }
    }
}

/// A named checkpoint's rows: a header if the day changed, its row, then
/// the rows from the next entry on.
proof fn lemma_faithful_named(
    s: Seq<HistoryEntry>,
    selected: int,
    named_only: bool,
    expanded: Set<usize>,
    ix: int,
    h: Seq<HistoryRow>,
    q: Seq<HistoryRow>,
)
    requires
        0 <= ix < s.len() <= usize::MAX,
        s[ix].manual,
        forall|i: int| 0 <= i < h.len() ==> (#[trigger] h[i]) is DayHeader,
        rows_faithful(s, selected, named_only, expanded, q, ix + 1),
    ensures
        rows_faithful(
            s,
            selected,
            named_only,
            expanded,
            h + seq![named_row(ix)] + q,
            ix,
        ),
{
    let row = named_row(ix);
    let x = h + seq![row];
    let r = x + q;
    let n = x.len() as int;
    lemma_faithful_shift(s, selected, named_only, expanded, x, q, ix, ix + 1);
    assert(r[n - 1] == row);
    assert forall|k: int| 0 <= k < n implies entry_row_ok(s, ix, #[trigger] r[k]) && group_row_ok(
        s,
        selected,
        named_only,
        expanded,
        r,
        ix,
        k,
    ) && (is_top_row(r[k]) ==> k == n - 1) by {
        if k < h.len() {
            assert(r[k] == h[k]);
        }
    }
    assert(forall|k: int| 0 <= k < r.len() ==> entry_row_ok(s, ix, #[trigger] r[k]));
    assert(forall|k: int| 0 <= k < r.len() ==> #[trigger] group_row_ok(s, selected, named_only, expanded, r, ix, k));
    assert forall|k: int| 0 <= k < r.len() implies #[trigger] indent_row_ok(r, k) by {
        if k < h.len() {
            assert(r[k] == h[k]);
        }
    }
    assert forall|k1: int, k2: int|
        0 <= k1 < k2 < r.len() && is_top_row(#[trigger] r[k1]) && is_top_row(#[trigger] r[k2]) implies row_entry(
        r[k1],
    ) < row_entry(r[k2]) by {
        if k1 < n {
            assert(k1 == n - 1);
        }
    }
    assert forall|k: int| 0 <= k < r.len() && is_top_row(#[trigger] r[k]) implies ix <= row_entry(r[k]) by {
        if k < n {
            assert(k == n - 1);
        }
    }
    assert forall|m: int| ix <= m < s.len() && (#[trigger] s[m]).manual implies exists|k: int|
        0 <= k < r.len() && r[k] == named_row(m) by {
        if m == ix {
            assert(r[n - 1] == named_row(m));
        }
    }
}

/// A run's rows: a header if the day changed, its group row, its entries
/// when unfolded, then the rows from the next named checkpoint on.
proof fn lemma_faithful_run(
    s: Seq<HistoryEntry>,
    selected: int,
    expanded: Set<usize>,
    ix: int,
    end: int,
    h: Seq<HistoryRow>,
    q: Seq<HistoryRow>,
)
    requires
        0 <= ix < end <= s.len() <= usize::MAX,
        forall|m: int| ix <= m < end ==> !(#[trigger] s[m]).manual,
        end == s.len() || s[end].manual,
        forall|i: int| 0 <= i < h.len() ==> (#[trigger] h[i]) is DayHeader,
        rows_faithful(s, selected, false, expanded, q, end),
    ensures
        ({
            let open = expanded.contains(ix as usize);
            rows_faithful(
                s,
                selected,
                false,
                expanded,
                h + seq![
                    HistoryRow::Group {
                        start: ix as usize,
                        count: (end - ix) as usize,
                        open: open,
                        holds_selection: ix <= selected < end,
                    },
                ] + (if open {
                    entry_rows(ix, end)
                } else {
                    Seq::empty()
                }) + q,
                ix,
            )
        }),
{
    let open = expanded.contains(ix as usize);
    let row = HistoryRow::Group {
        start: ix as usize,
        count: (end - ix) as usize,
        open: open,
        holds_selection: ix <= selected < end,
    };
    let t = if open {
        entry_rows(ix, end)
    } else {
        Seq::<HistoryRow>::empty()
    };
    lemma_entry_rows_exact(ix, end);
    let p = h + seq![row];
    let x = p + t;
    let r = x + q;
    let g = h.len() as int;
    let n = x.len() as int;
    lemma_faithful_shift(s, selected, false, expanded, x, q, ix, end);
    assert(r[g] == row);
    assert forall|k: int| 0 <= k < n implies entry_row_ok(s, ix, #[trigger] r[k]) && group_row_ok(
        s,
        selected,
        false,
        expanded,
        r,
        ix,
        k,
    ) && (is_top_row(r[k]) ==> k == g) by {
        if k < g {
            assert(r[k] == h[k]);
        } else if k == g {
            if open {
                assert forall|i: int| 0 <= i < end - ix implies k + 1 + i < r.len() && #[trigger] r[k + 1 + i]
                    == indented_row(ix + i) by {
                    assert(r[k + 1 + i] == t[i]);
                }
            }
        } else {
            assert(r[k] == t[k - g - 1]);
        }
    }
    assert(forall|k: int| 0 <= k < r.len() ==> entry_row_ok(s, ix, #[trigger] r[k]));
    assert(forall|k: int| 0 <= k < r.len() ==> #[trigger] group_row_ok(s, selected, false, expanded, r, ix, k));
    assert forall|k: int| 0 <= k < r.len() implies #[trigger] indent_row_ok(r, k) by {
        if k < g {
            assert(r[k] == h[k]);
        } else if g < k < n {
            let i = k - g - 1;
            assert(r[k] == t[i]);
            if i > 0 {
                assert(r[k - 1] == t[i - 1]);
            }
        }
    }
    assert forall|k1: int, k2: int|
        0 <= k1 < k2 < r.len() && is_top_row(#[trigger] r[k1]) && is_top_row(#[trigger] r[k2]) implies row_entry(
        r[k1],
    ) < row_entry(r[k2]) by {
        if k1 < n {
            assert(k1 == g);
            if k2 < n {
                assert(k2 == g);
            }
        }
    }
    assert forall|k: int| 0 <= k < r.len() && is_top_row(#[trigger] r[k]) implies ix <= row_entry(r[k]) by {
        if k < n {
            assert(k == g);
        }
    }
    assert forall|m: int| ix <= m < s.len() && (#[trigger] s[m]).manual implies exists|k: int|
        0 <= k < r.len() && r[k] == named_row(m) by {
        if m < end {
            assert(!s[m].manual);
        }
    }
    assert forall|m: int| ix <= m < s.len() && !(#[trigger] s[m]).manual implies exists|k: int|
        0 <= k < r.len() && group_holds(r[k], m) by {
        if m < end {
            assert(group_holds(r[g], m));
        }
    }
}

/// The rows from entry `ix` on say truly what the checkpoints from `ix` on
/// are.
proof fn lemma_rows_faithful(
    s: Seq<HistoryEntry>,
    selected: int,
    named_only: bool,
    expanded: Set<usize>,
    ix: int,
    last_day: Seq<char>,
)
    requires
        0 <= ix,
        s.len() <= usize::MAX,
    ensures
        rows_faithful(s, selected, named_only, expanded, rows_from(s, selected, named_only, expanded, ix, last_day), ix),
    decreases s.len() - ix,
{
    let r = rows_from(s, selected, named_only, expanded, ix, last_day);
    if ix >= s.len() {
        assert(r =~= Seq::<HistoryRow>::empty());
    } else if s[ix].manual {
        let d = date_label(s[ix].created_unix as int);
        lemma_rows_faithful(s, selected, named_only, expanded, ix + 1, d);
        lemma_faithful_named(
            s,
            selected,
            named_only,
            expanded,
            ix,
            header_if(s, ix, last_day),
            rows_from(s, selected, named_only, expanded, ix + 1, d),
        );
    } else {
        let end = run_end_spec(s, ix);
        lemma_run_end(s, ix);
        if named_only {
            lemma_rows_faithful(s, selected, named_only, expanded, end, last_day);
            lemma_faithful_shift(s, selected, named_only, expanded, Seq::empty(), r, ix, end);
            assert(Seq::<HistoryRow>::empty() + r =~= r);
            assert forall|m: int| ix <= m < s.len() && (#[trigger] s[m]).manual implies exists|k: int|
                0 <= k < r.len() && r[k] == named_row(m) by {
                if m < end {
                    assert(!s[m].manual);
                }
            }
        } else {
            let d = date_label(s[ix].created_unix as int);
            lemma_rows_faithful(s, selected, named_only, expanded, end, d);
            lemma_faithful_run(
                s,
                selected,
                expanded,
                ix,
                end,
                header_if(s, ix, last_day),
                rows_from(s, selected, named_only, expanded, end, d),
            );
        }
    }
}

/// The rewind list tells the checkpoints truly: each top-level entry row
/// is a named checkpoint and each group row a whole run of automatic ones,
/// between named neighbours or the list's ends, unfolded exactly when
/// `expanded` holds its first entry (its entries then following it, in
/// order), and marked exactly when it holds the selection; the top-level
/// rows go down the list; every named checkpoint has its row; and every
/// automatic one lies in a group unless only named ones are shown, in
/// which case there is no group at all.
pub proof fn law_rows_tell_checkpoints(
    entries: Seq<HistoryEntry>,
    selected: int,
    named_only: bool,
    expanded: Set<usize>,
)
    requires
        entries.len() <= usize::MAX,
    ensures
        rows_faithful(
            entries,
            selected,
            named_only,
            expanded,
            rows_from(entries, selected, named_only, expanded, 0, Seq::empty()),
            0,
        ),
{
    lemma_rows_faithful(entries, selected, named_only, expanded, 0, Seq::empty());
}

/// The selected row can be seen: it is named, or its automatic run is
/// unfolded.
pub open spec fn selection_unfolded(s: Seq<HistoryEntry>, selected: int, expanded: Set<usize>) -> bool {
    s[selected].manual || expanded.contains(group_start_spec(s, selected) as usize)
}

/// History mode: the checkpoints, the selected one, the filter, the diff
/// baseline and the unfolded runs (keyed by their first entry).
pub struct HistoryView {
    entries: Vec<HistoryEntry>,
    selected: usize,
    named_only: bool,
    compare_current: bool,
    expanded: HashSet<usize>,
}

impl HistoryView {
    #[verifier::type_invariant]
    spec fn inv(self) -> bool {
        self.selected < self.entries@.len()
    }

    pub closed spec fn entries_spec(&self) -> Seq<HistoryEntry> {
        self.entries@
    }

    pub closed spec fn selected_spec(&self) -> int {
        self.selected as int
    }

    pub closed spec fn named_only_spec(&self) -> bool {
        self.named_only
    }

    pub closed spec fn compare_current_spec(&self) -> bool {
        self.compare_current
    }

    pub closed spec fn expanded_spec(&self) -> Set<usize> {
        self.expanded@
    }

    /// Enter history on the given checkpoints: none means no history mode.
    /// You land on the newest checkpoint, its run unfolded if it is
    /// automatic.
    pub fn open(entries: Vec<HistoryEntry>) -> (r: Option<Self>)
        ensures
            r is None <==> entries@.len() == 0,
            r matches Some(hv) ==> {
                &&& hv.entries_spec() == entries@
                &&& hv.selected_spec() == entries@.len() - 1
                &&& !hv.named_only_spec()
                &&& !hv.compare_current_spec()
                &&& hv.expanded_spec() == (if entries@[entries@.len() - 1].manual {
                    Set::<usize>::empty()
                } else {
                    Set::<usize>::empty().insert(
                        group_start_spec(entries@, entries@.len() - 1) as usize,
                    )
                })
                &&& selection_unfolded(hv.entries_spec(), hv.selected_spec(), hv.expanded_spec())
            },
    {
        if entries.len() == 0 {
            return None;
        }
        let selected = entries.len() - 1;
        let mut expanded: HashSet<usize> = HashSet::new();
        if !entries[selected].manual {
            let g = auto_group_start(entries.as_slice(), selected);
            expanded.insert(g);
        }
        Some(HistoryView { entries, selected, named_only: false, compare_current: false, expanded })
    }

    /// Select entry `ix` (clamped to the last one). Stepping into a folded
    /// automatic run unfolds it: the selected row is never hidden.
    pub fn select(&mut self, ix: usize)
        ensures
            final(self).entries_spec() == old(self).entries_spec(),
            final(self).selected_spec() == (if ix < old(self).entries_spec().len() {
                ix as int
            } else {
                old(self).entries_spec().len() - 1
            }),
            final(self).named_only_spec() == old(self).named_only_spec(),
            final(self).compare_current_spec() == old(self).compare_current_spec(),
            final(self).expanded_spec() == (if old(self).entries_spec()[final(self).selected_spec()].manual {
                old(self).expanded_spec()
            } else {
                old(self).expanded_spec().insert(
                    group_start_spec(old(self).entries_spec(), final(self).selected_spec()) as usize,
                )
            }),
            selection_unfolded(final(self).entries_spec(), final(self).selected_spec(), final(self).expanded_spec()),
    {
        proof {
            use_type_invariant(&*self);
        }
        let last = self.entries.len() - 1;
        let sel = if ix < last { ix } else { last };
        self.selected = sel;
        if !self.entries[sel].manual {
            let g = auto_group_start(self.entries.as_slice(), sel);
            let mut ex: HashSet<usize> = HashSet::new();
            std::mem::swap(&mut ex, &mut self.expanded);
            ex.insert(g);
            self.expanded = ex;
        }
    }

    /// Step to the previous checkpoint.
    pub fn select_previous(&mut self)
        ensures
            final(self).entries_spec() == old(self).entries_spec(),
            final(self).selected_spec() == (if old(self).selected_spec() > 0 {
                old(self).selected_spec() - 1
            } else {
                0
            }),
            final(self).named_only_spec() == old(self).named_only_spec(),
            final(self).compare_current_spec() == old(self).compare_current_spec(),
            final(self).expanded_spec() == (if old(self).entries_spec()[final(self).selected_spec()].manual {
                old(self).expanded_spec()
            } else {
                old(self).expanded_spec().insert(
                    group_start_spec(old(self).entries_spec(), final(self).selected_spec()) as usize,
                )
            }),
            selection_unfolded(final(self).entries_spec(), final(self).selected_spec(), final(self).expanded_spec()),
    {
        proof {
            use_type_invariant(&*self);
        }
        let ix = if self.selected > 0 { self.selected - 1 } else { 0 };
        self.select(ix);
    }

    /// Step to the next checkpoint, staying on the last one.
    pub fn select_next(&mut self)
        ensures
            final(self).entries_spec() == old(self).entries_spec(),
            final(self).selected_spec() == (if old(self).selected_spec() + 1 < old(self).entries_spec().len() {
                old(self).selected_spec() + 1
            } else {
                old(self).selected_spec()
            }),
            final(self).named_only_spec() == old(self).named_only_spec(),
            final(self).compare_current_spec() == old(self).compare_current_spec(),
            final(self).expanded_spec() == (if old(self).entries_spec()[final(self).selected_spec()].manual {
                old(self).expanded_spec()
            } else {
                old(self).expanded_spec().insert(
                    group_start_spec(old(self).entries_spec(), final(self).selected_spec()) as usize,
                )
            }),
            selection_unfolded(final(self).entries_spec(), final(self).selected_spec(), final(self).expanded_spec()),
    {
        proof {
            use_type_invariant(&*self);
        }
        assert(self.entries@.len() == self.entries.len());
        let ix = self.selected + 1;
        self.select(ix);
    }

    /// Fold or unfold the automatic run starting at `start`.
    pub fn toggle_group(&mut self, start: usize)
        ensures
            final(self).entries_spec() == old(self).entries_spec(),
            final(self).selected_spec() == old(self).selected_spec(),
            final(self).named_only_spec() == old(self).named_only_spec(),
            final(self).compare_current_spec() == old(self).compare_current_spec(),
            final(self).expanded_spec() == (if old(self).expanded_spec().contains(start) {
                old(self).expanded_spec().remove(start)
            } else {
                old(self).expanded_spec().insert(start)
            }),
    {
        proof {
            use_type_invariant(&*self);
        }
        let mut ex: HashSet<usize> = HashSet::new();
        std::mem::swap(&mut ex, &mut self.expanded);
        if !ex.remove(&start) {
            ex.insert(start);
        }
        self.expanded = ex;
    }

    /// Show only named checkpoints, or all of them.
    pub fn toggle_named_only(&mut self)
        ensures
            final(self).entries_spec() == old(self).entries_spec(),
            final(self).selected_spec() == old(self).selected_spec(),
            final(self).named_only_spec() == !old(self).named_only_spec(),
            final(self).compare_current_spec() == old(self).compare_current_spec(),
            final(self).expanded_spec() == old(self).expanded_spec(),
    {
        proof {
            use_type_invariant(&*self);
        }
        self.named_only = !self.named_only;
    }

    /// Diff against the current draft (`true`) or the previous checkpoint.
    pub fn set_compare_current(&mut self, value: bool)
        ensures
            final(self).entries_spec() == old(self).entries_spec(),
            final(self).selected_spec() == old(self).selected_spec(),
            final(self).named_only_spec() == old(self).named_only_spec(),
            final(self).compare_current_spec() == value,
            final(self).expanded_spec() == old(self).expanded_spec(),
    {
        proof {
            use_type_invariant(&*self);
        }
        self.compare_current = value;
    }

    /// The selected entry's index.
    pub fn selected(&self) -> (r: usize)
        ensures
            r == self.selected_spec(),
            r < self.entries_spec().len(),
    {
        proof {
            use_type_invariant(self);
        }
        self.selected
    }

    /// The checkpoints.
    pub fn entries(&self) -> (r: &[HistoryEntry])
        ensures
            r@ == self.entries_spec(),
    {
        self.entries.as_slice()
    }

    /// The rows of the list as they are shown now.
    pub fn rows(&self) -> (r: Vec<HistoryRow>)
        ensures
            r@ == rows_from(self.entries_spec(), self.selected_spec(), self.named_only_spec(), self.expanded_spec(), 0, Seq::empty()),
            headers_where_days_change(self.entries_spec(), r@, Seq::empty()),
            rows_faithful(self.entries_spec(), self.selected_spec(), self.named_only_spec(), self.expanded_spec(), r@, 0),
    {
        history_rows(self.entries.as_slice(), self.selected, self.named_only, &self.expanded)
    }
}

/// A row's word delta against the previous checkpoint, spelled with its
/// unit: nothing for no change, else `+I words`, `−D words` or
/// `+I −D words`.
pub open spec fn delta_spec(ins: nat, del: nat) -> Seq<char> {
    if ins == 0 && del == 0 {
        Seq::empty()
    } else if del == 0 {
        seq!['+'] + decimal(ins) + " words"@
    } else if ins == 0 {
        seq!['\u{2212}'] + decimal(del) + " words"@
    } else {
        seq!['+'] + decimal(ins) + seq![' ', '\u{2212}'] + decimal(del) + " words"@
    }
}

/// The word-delta label of a checkpoint row.
pub fn delta_label(delta: (usize, usize)) -> (s: String)
    ensures
        s@ == delta_spec(delta.0 as nat, delta.1 as nat),
{
    let (ins, del) = delta;
    if ins == 0 && del == 0 {
        return String::new();
    }
    let mut v: Vec<char> = Vec::new();
    if del == 0 {
        v.push('+');
        push_decimal(ins as u64, &mut v);
    } else if ins == 0 {
        v.push('\u{2212}');
        push_decimal(del as u64, &mut v);
    } else {
        v.push('+');
        push_decimal(ins as u64, &mut v);
        v.push(' ');
        v.push('\u{2212}');
        push_decimal(del as u64, &mut v);
    }
    let s = string_from_chars(&v);
    let r = s.concat(" words");
    assert(r@ =~= delta_spec(ins as nat, del as nat));
    r
}

/// A folded run's label: `N auto-checkpoints`, singular for one.
pub open spec fn group_label_spec(n: nat) -> Seq<char> {
    decimal(n) + " auto-checkpoint"@ + if n == 1 {
        Seq::<char>::empty()
    } else {
        "s"@
    }
}

/// The label of a run of `n` automatic checkpoints.
pub fn group_label(n: usize) -> (s: String)
    ensures
        s@ == group_label_spec(n as nat),
{
    let mut v: Vec<char> = Vec::new();
    push_decimal(n as u64, &mut v);
    let s = string_from_chars(&v).concat(" auto-checkpoint");
    if n == 1 {
        s
    } else {
        s.concat("s")
    }
}

} // verus!
