//! The keyboard reference's model: the command registry grouped into
//! sections, the editing vocabulary that is not a command, the packing of
//! sections into columns, and the window's open/close switch.

use vstd::prelude::*;
use vstd::multiset::Multiset;
use crate::margin::str_eq;

verus! {

/// What the keymap shortcut does, given whether the window is open.
#[derive(Clone, Copy, Debug, PartialEq, Eq, Structural)]
pub enum ToggleDecision {
    /// Open the window.
    Open,
    /// Close it and give focus back to the editor.
    CloseAndRestore,
}

/// The shortcut is a strict two-state switch: it opens the window when none
/// is present and closes it when one is.
pub fn toggle_decision(present: bool) -> (d: ToggleDecision)
    ensures
        d == (if present {
            ToggleDecision::CloseAndRestore
        } else {
            ToggleDecision::Open
        }),
{
    match present {
        false => ToggleDecision::Open,
        true => ToggleDecision::CloseAndRestore,
    }
}

/// One row of the sheet: an action and the keys that run it.
#[derive(Debug, PartialEq, Eq)]
pub struct KeymapRow {
    pub action: String,
    pub keys: String,
}

/// A section of the sheet: its heading and its rows.
pub type KeymapSection = (String, Vec<KeymapRow>);

/// A command of the registry, as the sheet reads it.
#[derive(Clone, Copy, Debug)]
pub struct Command {
    /// What the command does.
    pub label: &'static str,
    /// The section it is listed under.
    pub section: &'static str,
    /// Its shortcut; commands without one run from the palette.
    pub keys: Option<&'static str>,
}

/// A row as plain text.
pub open spec fn row_view(r: KeymapRow) -> (Seq<char>, Seq<char>) {
    (r.action@, r.keys@)
}

/// A section as plain text.
pub open spec fn section_view(s: KeymapSection) -> (Seq<char>, Seq<(Seq<char>, Seq<char>)>) {
    (s.0@, s.1@.map_values(|r: KeymapRow| row_view(r)))
}

/// The sections as plain text.
pub open spec fn sections_view(v: Seq<KeymapSection>) -> Seq<(Seq<char>, Seq<(Seq<char>, Seq<char>)>)> {
    v.map_values(|s: KeymapSection| section_view(s))
}

/// The editing vocabulary that is not a command.
pub open spec fn baseline_spec() -> Seq<(Seq<char>, Seq<char>)> {
    seq![
        ("Move by word / paragraph"@, "ctrl-arrows"@),
        ("Select by word / paragraph"@, "ctrl-shift-arrows"@),
        ("Document start / end"@, "ctrl-home / ctrl-end"@),
        ("Select all"@, "ctrl-a"@),
        ("Copy / Cut / Paste"@, "ctrl-c / x / v"@),
        ("Markdown headings"@, "# ## ### + space"@),
        ("Escape any mode"@, "escape"@),
    ]
}

fn row(action: &str, keys: &str) -> (r: KeymapRow)
    ensures
        row_view(r) == (action@, keys@),
{
    KeymapRow { action: String::from_str(action), keys: String::from_str(keys) }
}

/// The non-command editing vocabulary, with one owner shared by the model
/// and the renderer.
pub fn editing_baseline() -> (v: Vec<KeymapRow>)
    ensures
        v@.map_values(|r: KeymapRow| row_view(r)) == baseline_spec(),
{
    let v = vec![
        row("Move by word / paragraph", "ctrl-arrows"),
        row("Select by word / paragraph", "ctrl-shift-arrows"),
        row("Document start / end", "ctrl-home / ctrl-end"),
        row("Select all", "ctrl-a"),
        row("Copy / Cut / Paste", "ctrl-c / x / v"),
        row("Markdown headings", "# ## ### + space"),
        row("Escape any mode", "escape"),
    ];
    assert(v@.map_values(|r: KeymapRow| row_view(r)) =~= baseline_spec());
    v
}

/// A command's row: its label, and its keys or `palette`.
pub open spec fn command_row(c: Command) -> (Seq<char>, Seq<char>) {
    (
        c.label@,
        match c.keys {
            Some(k) => k@,
            None => "palette"@,
        },
    )
}

/// Index of the section named `name`, if there is one.
pub open spec fn section_index(s: Seq<(Seq<char>, Seq<(Seq<char>, Seq<char>)>)>, name: Seq<char>) -> Option<int>
    decreases s.len(),
{
    if s.len() == 0 {
        None
    } else {
        match section_index(s.drop_last(), name) {
            Some(i) => Some(i),
            None => if s.last().0 == name {
                Some(s.len() - 1)
            } else {
                None
            },
        }
    }
}

/// The registry's first `n` commands grouped by section: sections in the
/// order their first command appears, rows in registry order.
pub open spec fn grouped(cmds: Seq<Command>, n: int) -> Seq<(Seq<char>, Seq<(Seq<char>, Seq<char>)>)>
    decreases n,
{
    if n <= 0 {
        Seq::empty()
    } else {
        let s = grouped(cmds, n - 1);
        let c = cmds[n - 1];
        match section_index(s, c.section@) {
            Some(i) => s.update(i, (s[i].0, s[i].1.push(command_row(c)))),
            None => s.push((c.section@, seq![command_row(c)])),
        }
    }
}

/// The sheet's sections: the registry grouped by section, then the editing
/// vocabulary under "Text editing".
pub open spec fn sections_spec(cmds: Seq<Command>) -> Seq<(Seq<char>, Seq<(Seq<char>, Seq<char>)>)> {
    grouped(cmds, cmds.len() as int).push(("Text editing"@, baseline_spec()))
}

proof fn lemma_section_index_none(s: Seq<(Seq<char>, Seq<(Seq<char>, Seq<char>)>)>, name: Seq<char>)
    requires
        forall|j: int| 0 <= j < s.len() ==> (#[trigger] s[j]).0 != name,
    ensures
        section_index(s, name) is None,
    decreases s.len(),
{
    if s.len() > 0 {
        lemma_section_index_none(s.drop_last(), name);
    }
}

proof fn lemma_section_index_at(s: Seq<(Seq<char>, Seq<(Seq<char>, Seq<char>)>)>, name: Seq<char>, k: int)
    requires
        0 <= k < s.len(),
        s[k].0 == name,
        forall|j: int| 0 <= j < k ==> (#[trigger] s[j]).0 != name,
    ensures
        section_index(s, name) == Some(k),
    decreases s.len(),
{
    if k < s.len() - 1 {
        lemma_section_index_at(s.drop_last(), name, k);
    } else {
        lemma_section_index_none(s.drop_last(), name);
    }
}

/// How many rows the sections hold in all.
pub open spec fn row_total(s: Seq<(Seq<char>, Seq<(Seq<char>, Seq<char>)>)>) -> int
    decreases s.len(),
{
    if s.len() == 0 {
        0
    } else {
        row_total(s.drop_last()) + s.last().1.len()
    }
}

proof fn lemma_row_total_grow(
    s: Seq<(Seq<char>, Seq<(Seq<char>, Seq<char>)>)>,
    i: int,
    e: (Seq<char>, Seq<(Seq<char>, Seq<char>)>),
)
    requires
        0 <= i < s.len(),
        e.1.len() == s[i].1.len() + 1,
    ensures
        row_total(s.update(i, e)) == row_total(s) + 1,
    decreases s.len(),
{
    if i == s.len() - 1 {
        assert(s.update(i, e).drop_last() =~= s.drop_last());
    } else {
        lemma_row_total_grow(s.drop_last(), i, e);
        assert(s.update(i, e).drop_last() =~= s.drop_last().update(i, e));
    }
}

proof fn lemma_section_index_absent(s: Seq<(Seq<char>, Seq<(Seq<char>, Seq<char>)>)>, name: Seq<char>)
    requires
        section_index(s, name) is None,
    ensures
        forall|j: int| 0 <= j < s.len() ==> (#[trigger] s[j]).0 != name,
    decreases s.len(),
{
    if s.len() > 0 {
        lemma_section_index_absent(s.drop_last(), name);
        assert forall|j: int| 0 <= j < s.len() implies (#[trigger] s[j]).0 != name by {
            if j < s.len() - 1 {
                assert(s[j] == s.drop_last()[j]);
            }
        }
    }
}

proof fn lemma_section_index_found(s: Seq<(Seq<char>, Seq<(Seq<char>, Seq<char>)>)>, name: Seq<char>)
    ensures
        section_index(s, name) matches Some(i) ==> 0 <= i < s.len() && s[i].0 == name,
    decreases s.len(),
{
    if s.len() > 0 {
        lemma_section_index_found(s.drop_last(), name);
    }
}

proof fn lemma_grouped(cmds: Seq<Command>, n: int)
    requires
        0 <= n <= cmds.len(),
    ensures
        row_total(grouped(cmds, n)) == n,
        forall|a: int, b: int|
            0 <= a < b < grouped(cmds, n).len() ==> (#[trigger] grouped(cmds, n)[a]).0
                != (#[trigger] grouped(cmds, n)[b]).0,
    decreases n,
{
    if n > 0 {
        lemma_grouped(cmds, n - 1);
        let s = grouped(cmds, n - 1);
        let c = cmds[n - 1];
        lemma_section_index_found(s, c.section@);
        match section_index(s, c.section@) {
            Some(i) => {
                lemma_row_total_grow(s, i, (s[i].0, s[i].1.push(command_row(c))));
                let g = grouped(cmds, n);
                assert forall|a: int, b: int| 0 <= a < b < g.len() implies (#[trigger] g[a]).0
                    != (#[trigger] g[b]).0 by {
                    assert(g[a].0 == s[a].0 && g[b].0 == s[b].0);
                }
            },
            None => {
                lemma_section_index_absent(s, c.section@);
                let e = (c.section@, seq![command_row(c)]);
                assert(s.push(e).drop_last() =~= s);
                let g = grouped(cmds, n);
                assert forall|a: int, b: int| 0 <= a < b < g.len() implies (#[trigger] g[a]).0
                    != (#[trigger] g[b]).0 by {
                    if b == s.len() {
                        assert(g[a] == s[a]);
                    } else {
                        assert(g[a] == s[a] && g[b] == s[b]);
                    }
                }
            },
        }
    }
}

/// The sheet lists every command of the registry exactly once in all, and
/// no two of its sections share a name; the editing vocabulary follows.
pub proof fn law_each_command_once(cmds: Seq<Command>)
    ensures
        row_total(sections_spec(cmds).drop_last()) == cmds.len(),
        forall|a: int, b: int|
            0 <= a < b < sections_spec(cmds).len() - 1 ==> (#[trigger] sections_spec(cmds)[a]).0
                != (#[trigger] sections_spec(cmds)[b]).0,
        sections_spec(cmds).last() == ("Text editing"@, baseline_spec()),
{
    lemma_grouped(cmds, cmds.len() as int);
    let g = grouped(cmds, cmds.len() as int);
    assert(sections_spec(cmds).drop_last() =~= g);
    assert forall|a: int, b: int| 0 <= a < b < sections_spec(cmds).len() - 1 implies (
    #[trigger] sections_spec(cmds)[a]).0 != (#[trigger] sections_spec(cmds)[b]).0 by {
        assert(sections_spec(cmds)[a] == g[a] && sections_spec(cmds)[b] == g[b]);
    }
}

/// All the rows of the sections, as a multiset.
pub open spec fn row_multiset(s: Seq<(Seq<char>, Seq<(Seq<char>, Seq<char>)>)>) -> Multiset<
    (Seq<char>, Seq<char>),
>
    decreases s.len(),
{
    if s.len() == 0 {
        Multiset::empty()
    } else {
        row_multiset(s.drop_last()).add(s.last().1.to_multiset())
    }
}

proof fn lemma_row_multiset_grow(
    s: Seq<(Seq<char>, Seq<(Seq<char>, Seq<char>)>)>,
    i: int,
    name: Seq<char>,
    x: (Seq<char>, Seq<char>),
)
    requires
        0 <= i < s.len(),
    ensures
        row_multiset(s.update(i, (name, s[i].1.push(x)))) == row_multiset(s).insert(x),
    decreases s.len(),
{
    broadcast use vstd::seq_lib::group_to_multiset_ensures, vstd::multiset::group_multiset_axioms;

    let t = s.update(i, (name, s[i].1.push(x)));
    if i == s.len() - 1 {
        assert(t.drop_last() =~= s.drop_last());
        assert(t.last().1.to_multiset() =~= s.last().1.to_multiset().insert(x));
        assert(row_multiset(s.drop_last()).add(s.last().1.to_multiset().insert(x)) =~= row_multiset(
            s.drop_last(),
        ).add(s.last().1.to_multiset()).insert(x));
    } else {
        lemma_row_multiset_grow(s.drop_last(), i, name, x);
        assert(t.drop_last() =~= s.drop_last().update(i, (name, s[i].1.push(x))));
        assert(t.last() == s.last());
        assert(row_multiset(s.drop_last()).insert(x).add(s.last().1.to_multiset()) =~= row_multiset(
            s.drop_last(),
        ).add(s.last().1.to_multiset()).insert(x));
    }
}

proof fn lemma_grouped_rows(cmds: Seq<Command>, n: int)
    requires
        0 <= n <= cmds.len(),
    ensures
        row_multiset(grouped(cmds, n)) == cmds.take(n).map_values(|c: Command| command_row(c)).to_multiset(),
    decreases n,
{
    broadcast use vstd::seq_lib::group_to_multiset_ensures, vstd::multiset::group_multiset_axioms;

    if n == 0 {
        assert(cmds.take(0).map_values(|c: Command| command_row(c)) =~= Seq::<(Seq<char>, Seq<char>)>::empty());
        assert(Seq::<(Seq<char>, Seq<char>)>::empty().to_multiset() =~= Multiset::empty());
    } else {
        lemma_grouped_rows(cmds, n - 1);
        let s = grouped(cmds, n - 1);
        let c = cmds[n - 1];
        let rows = cmds.take(n).map_values(|c: Command| command_row(c));
        assert(rows =~= cmds.take(n - 1).map_values(|c: Command| command_row(c)).push(command_row(c)));
        lemma_section_index_found(s, c.section@);
        match section_index(s, c.section@) {
            Some(i) => {
                lemma_row_multiset_grow(s, i, s[i].0, command_row(c));
            },
            None => {
                let e = (c.section@, seq![command_row(c)]);
                assert(s.push(e).drop_last() =~= s);
                assert(seq![command_row(c)] =~= Seq::<(Seq<char>, Seq<char>)>::empty().push(command_row(c)));
                assert(Seq::<(Seq<char>, Seq<char>)>::empty().to_multiset() =~= Multiset::empty());
                assert(row_multiset(s).add(Multiset::empty().insert(command_row(c))) =~= row_multiset(s).insert(command_row(c)));
            },
        }
    }
}

/// The rows of every section but the last are exactly the registry's
/// commands, each once: the same multiset of (label, keys or `palette`)
/// rows.
pub proof fn law_rows_are_the_commands(cmds: Seq<Command>)
    ensures
        row_multiset(sections_spec(cmds).drop_last()) == cmds.map_values(|c: Command| command_row(c)).to_multiset(),
{
    lemma_grouped_rows(cmds, cmds.len() as int);
    assert(sections_spec(cmds).drop_last() =~= grouped(cmds, cmds.len() as int));
    assert(cmds.take(cmds.len() as int) =~= cmds);
}

/// The registry's section names in the order each first appears among the
/// first `n` commands, each once.
pub open spec fn first_sections(cmds: Seq<Command>, n: int) -> Seq<Seq<char>>
    decreases n,
{
    if n <= 0 {
        Seq::empty()
    } else {
        let f = first_sections(cmds, n - 1);
        if f.contains(cmds[n - 1].section@) {
            f
        } else {
            f.push(cmds[n - 1].section@)
        }
    }
}

/// The names of the sections, in order.
pub open spec fn section_names(s: Seq<(Seq<char>, Seq<(Seq<char>, Seq<char>)>)>) -> Seq<Seq<char>> {
    s.map_values(|e: (Seq<char>, Seq<(Seq<char>, Seq<char>)>)| e.0)
}

proof fn lemma_grouped_names(cmds: Seq<Command>, n: int)
    requires
        0 <= n <= cmds.len(),
    ensures
        section_names(grouped(cmds, n)) == first_sections(cmds, n),
    decreases n,
{
    if n == 0 {
        assert(section_names(grouped(cmds, 0)) =~= Seq::<Seq<char>>::empty());
    } else {
        lemma_grouped_names(cmds, n - 1);
        let s = grouped(cmds, n - 1);
        let c = cmds[n - 1];
        let f = first_sections(cmds, n - 1);
        lemma_section_index_found(s, c.section@);
        match section_index(s, c.section@) {
            Some(i) => {
                assert(section_names(s)[i] == c.section@);
                assert(f.contains(c.section@));
                assert(section_names(s.update(i, (s[i].0, s[i].1.push(command_row(c)))))
                    =~= section_names(s));
            },
            None => {
                lemma_section_index_absent(s, c.section@);
                assert(!f.contains(c.section@)) by {
                    if f.contains(c.section@) {
                        let j = choose|j: int| 0 <= j < f.len() && f[j] == c.section@;
                        assert(section_names(s)[j] == s[j].0);
                    }
                }
                assert(section_names(s.push((c.section@, seq![command_row(c)]))) =~= section_names(
                    s,
                ).push(c.section@));
            },
        }
    }
}

/// The sections before "Text editing" are named after the registry's
/// sections in the order each first appears, each once.
pub proof fn law_sections_in_first_appearance_order(cmds: Seq<Command>)
    ensures
        section_names(sections_spec(cmds).drop_last()) == first_sections(cmds, cmds.len() as int),
{
    lemma_grouped_names(cmds, cmds.len() as int);
    assert(sections_spec(cmds).drop_last() =~= grouped(cmds, cmds.len() as int));
}

/// The sheet's sections: the registry's commands grouped by section, in
/// the order their first command appears, then "Text editing".
pub fn keymap_sections(commands: &[Command]) -> (r: Vec<KeymapSection>)
    ensures
        sections_view(r@) == sections_spec(commands@),
{
    let mut sections: Vec<KeymapSection> = Vec::new();
    let mut n: usize = 0;
    while n < commands.len()
        invariant
            0 <= n <= commands@.len(),
            sections_view(sections@) == grouped(commands@, n as int),
        decreases commands@.len() - n,
    {
        let c = commands[n];
        let keys: &str = match c.keys {
            Some(k) => k,
            None => "palette",
        };
        let new_row = row(c.label, keys);
        let ghost before = sections_view(sections@);
        let mut i: usize = 0;
        while i < sections.len() && !str_eq(sections[i].0.as_str(), c.section)
            invariant
                0 <= i <= sections@.len(),
                before == sections_view(sections@),
                forall|j: int| 0 <= j < i ==> (#[trigger] before[j]).0 != c.section@,
            decreases sections@.len() - i,
        {
            i += 1;
        }
        let found = i < sections.len();
        proof {
            assert(before == grouped(commands@, n as int));
        }
        if found {
            proof {
                lemma_section_index_at(before, c.section@, i as int);
            }
            let ghost old_sec = sections@;
            let (name, mut rows) = sections.remove(i);
            let ghost old_rows = rows@;
            rows.push(new_row);
            proof {
                assert(rows@.map_values(|r: KeymapRow| row_view(r)) =~= old_rows.map_values(
                    |r: KeymapRow| row_view(r),
                ).push(row_view(new_row)));
            }
            sections.insert(i, (name, rows));
            proof {
                assert(sections@ =~= old_sec.update(i as int, sections@[i as int]));
                assert(sections_view(sections@) =~= before.update(
                    i as int,
                    (before[i as int].0, before[i as int].1.push(row_view(new_row))),
                ));
            }
        } else {
            proof {
                lemma_section_index_none(before, c.section@);
            }
            let sec_rows = vec![new_row];
            proof {
                assert(sec_rows@.map_values(|r: KeymapRow| row_view(r)) =~= seq![row_view(new_row)]);
            }
            sections.push((String::from_str(c.section), sec_rows));
        }
        proof {
            assert(sections_view(sections@) =~= grouped(commands@, n + 1));
        }
        n += 1;
    }
    sections.push((String::from_str("Text editing"), editing_baseline()));
    proof {
        assert(sections_view(sections@) =~= sections_spec(commands@));
    }
    sections
}

/// The packed sheet: section indices per column, and whether a column is
/// taller than the room the window leaves it.
#[derive(Debug, PartialEq, Eq)]
pub struct SheetLayout {
    pub columns: Vec<Vec<usize>>,
    pub scrolls: bool,
}

/// Height above the grid: the header and the grid's top margin.
pub const HEADER_HEIGHT: i128 = 68;
/// The grid's top margin.
pub const GRID_TOP: i128 = 14;
/// The grid's bottom margin.
pub const GRID_BOTTOM: i128 = 20;
/// A section heading's height.
pub const SECTION_HEADING_HEIGHT: i128 = 24;
/// The pitch of one row.
pub const ROW_PITCH: i128 = 16;
/// Padding below a section.
pub const SECTION_PAD: i128 = 8;

/// The painted height of a section of `rows` rows, in pixels.
pub open spec fn section_h(rows: nat) -> int {
    SECTION_HEADING_HEIGHT + rows * ROW_PITCH + SECTION_PAD
}

/// How many columns a sheet `width` pixels wide holds.
pub open spec fn column_count(width: int) -> nat {
    if width >= 780 {
        3
    } else if width >= 560 {
        2
    } else {
        1
    }
}

/// The leftmost column of least height.
pub open spec fn min_index(h: Seq<int>) -> int
    decreases h.len(),
{
    if h.len() <= 1 {
        0
    } else {
        let m = min_index(h.drop_last());
        if h.last() < h[m] {
            h.len() - 1
        } else {
            m
        }
    }
}

/// The row counts of the sections.
pub open spec fn row_counts(sections: Seq<KeymapSection>) -> Seq<nat> {
    sections.map_values(|s: KeymapSection| s.1@.len())
}

/// The columns and their heights after packing the first `k` sections, in
/// registry order, each into the currently shortest column (leftmost wins
/// ties).
pub open spec fn pack_state(rows: Seq<nat>, count: nat, k: int) -> (Seq<Seq<usize>>, Seq<int>)
    decreases k,
{
    if k <= 0 {
        (Seq::new(count, |j: int| Seq::<usize>::empty()), Seq::new(count, |j: int| 0int))
    } else {
        let (c, h) = pack_state(rows, count, k - 1);
        let j = min_index(h);
        (c.update(j, c[j].push((k - 1) as usize)), h.update(j, h[j] + section_h(rows[k - 1])))
    }
}

/// The packing of all sections at `width`.
pub open spec fn packed(width: int, sections: Seq<KeymapSection>) -> (Seq<Seq<usize>>, Seq<int>) {
    pack_state(row_counts(sections), column_count(width), sections.len() as int)
}

/// The tallest of the heights, 0 for none.
pub open spec fn tallest(h: Seq<int>) -> int
    decreases h.len(),
{
    if h.len() == 0 {
        0
    } else {
        let t = tallest(h.drop_last());
        if h.last() > t {
            h.last()
        } else {
            t
        }
    }
}

/// Some height exceeds `room`.
pub open spec fn any_above(h: Seq<int>, room: int) -> bool {
    exists|j: int| 0 <= j < h.len() && #[trigger] h[j] > room
}

/// The room a window `height` pixels tall leaves the grid.
pub open spec fn room_for(height: int) -> int {
    if height - HEADER_HEIGHT - GRID_TOP - GRID_BOTTOM > 0 {
        height - HEADER_HEIGHT - GRID_TOP - GRID_BOTTOM
    } else {
        0
    }
}

/// The total number of rows over all sections.
pub open spec fn total_rows(sections: Seq<KeymapSection>) -> int
    decreases sections.len(),
{
    if sections.len() == 0 {
        0
    } else {
        total_rows(sections.drop_last()) + sections.last().1@.len()
    }
}

proof fn lemma_min_index(h: Seq<int>)
    requires
        h.len() > 0,
    ensures
        0 <= min_index(h) < h.len(),
        forall|j: int| 0 <= j < h.len() ==> h[min_index(h)] <= #[trigger] h[j],
    decreases h.len(),
{
    if h.len() > 1 {
        lemma_min_index(h.drop_last());
        assert forall|j: int| 0 <= j < h.len() implies h[min_index(h)] <= #[trigger] h[j] by {
            if j < h.len() - 1 {
                assert(h.drop_last()[j] == h[j]);
            }
        }
    }
}

proof fn lemma_total_rows_prefix(sections: Seq<KeymapSection>, k: int)
    requires
        0 <= k <= sections.len(),
    ensures
        total_rows(sections.take(k)) <= total_rows(sections),
        total_rows(sections) >= 0,
        k < sections.len() ==> total_rows(sections.take(k + 1)) == total_rows(sections.take(k))
            + sections[k].1@.len(),
    decreases sections.len() - k,
{
    if k < sections.len() {
        lemma_total_rows_prefix(sections, k + 1);
        assert(sections.take(k + 1).drop_last() =~= sections.take(k));
    } else {
        assert(sections.take(k) =~= sections);
        lemma_total_rows_nonneg(sections);
    }
}

proof fn lemma_total_rows_nonneg(sections: Seq<KeymapSection>)
    ensures
        total_rows(sections) >= 0,
    decreases sections.len(),
{
    if sections.len() > 0 {
        lemma_total_rows_nonneg(sections.drop_last());
    }
}

/// Heights of the state after `k` sections stay within what all of them
/// could add up to.
proof fn lemma_pack_heights(rows: Seq<nat>, count: nat, k: int, sum: int)
    requires
        count >= 1,
        0 <= k <= rows.len(),
        sum == 32 * k + 16 * rows_sum(rows, k),
    ensures
        pack_state(rows, count, k).0.len() == count,
        pack_state(rows, count, k).1.len() == count,
        forall|j: int| 0 <= j < count ==> 0 <= #[trigger] pack_state(rows, count, k).1[j] <= sum,
    decreases k,
{
    if k > 0 {
        let prev = 32 * (k - 1) + 16 * rows_sum(rows, k - 1);
        lemma_pack_heights(rows, count, k - 1, prev);
        let h = pack_state(rows, count, k - 1).1;
        lemma_min_index(h);
    }
}

/// The sum of the first `k` row counts.
pub open spec fn rows_sum(rows: Seq<nat>, k: int) -> int
    decreases k,
{
    if k <= 0 {
        0
    } else {
        rows_sum(rows, k - 1) + rows[k - 1]
    }
}

proof fn lemma_rows_sum_total(sections: Seq<KeymapSection>, k: int)
    requires
        0 <= k <= sections.len(),
    ensures
        rows_sum(row_counts(sections), k) == total_rows(sections.take(k)),
    decreases k,
{
    if k > 0 {
        lemma_rows_sum_total(sections, k - 1);
        assert(sections.take(k).drop_last() =~= sections.take(k - 1));
    } else {
        assert(sections.take(0) =~= Seq::<KeymapSection>::empty());
    }
}

/// Packs the sections into columns: registry order, each into the
/// currently shortest column, leftmost on ties. Returns the columns and
/// their heights.
fn pack_columns(width: i64, sections: &[KeymapSection]) -> (r: (Vec<Vec<usize>>, Vec<i128>))
    requires
        total_rows(sections@) <= usize::MAX,
    ensures
        r.0@.map_values(|c: Vec<usize>| c@) == packed(width as int, sections@).0,
        r.1@.map_values(|h: i128| h as int) == packed(width as int, sections@).1,
        forall|j: int| 0 <= j < r.1@.len() ==> 0 <= #[trigger] r.1@[j] <= 32 * sections@.len() + 16 * total_rows(sections@),
{
    let count: usize = if width >= 780 {
        3
    } else if width >= 560 {
        2
    } else {
        1
    };
    let ghost rows = row_counts(sections@);
    let mut columns: Vec<Vec<usize>> = Vec::new();
    let mut heights: Vec<i128> = Vec::new();
    let mut j: usize = 0;
    while j < count
        invariant
            0 <= j <= count,
            columns@.len() == j,
            heights@.len() == j,
            forall|q: int| 0 <= q < j ==> (#[trigger] columns@[q])@ == Seq::<usize>::empty(),
            forall|q: int| 0 <= q < j ==> #[trigger] heights@[q] == 0,
        decreases count - j,
    {
        columns.push(Vec::new());
        heights.push(0);
        j += 1;
    }
    proof {
        assert(columns@.map_values(|c: Vec<usize>| c@) =~= pack_state(rows, count as nat, 0).0);
        assert(heights@.map_values(|h: i128| h as int) =~= pack_state(rows, count as nat, 0).1);
        lemma_total_rows_nonneg(sections@);
    }
    let mut k: usize = 0;
    while k < sections.len()
        invariant
            1 <= count <= 3,
            count == column_count(width as int),
            rows == row_counts(sections@),
            total_rows(sections@) <= usize::MAX,
            0 <= k <= sections@.len(),
            columns@.map_values(|c: Vec<usize>| c@) == pack_state(rows, count as nat, k as int).0,
            heights@.map_values(|h: i128| h as int) == pack_state(rows, count as nat, k as int).1,
        decreases sections@.len() - k,
    {
        proof {
            lemma_rows_sum_total(sections@, k as int);
            lemma_total_rows_prefix(sections@, k as int);
            lemma_pack_heights(rows, count as nat, k as int, 32 * k + 16 * rows_sum(rows, k as int));
            assert(heights@.len() == count);
        }
        let ghost hs = heights@.map_values(|h: i128| h as int);
        let mut m: usize = 0;
        let mut q: usize = 1;
        proof {
            assert(hs.take(1).len() == 1);
            assert(min_index(hs.take(1)) == 0);
        }
        while q < heights.len()
            invariant
                hs == heights@.map_values(|h: i128| h as int),
                1 <= q <= heights@.len(),
                m == min_index(hs.take(q as int)),
                m < q,
            decreases heights@.len() - q,
        {
            proof {
                assert(hs.take(q + 1).drop_last() =~= hs.take(q as int));
                assert(hs.take(q + 1).last() == hs[q as int]);
                assert(hs.take(q as int)[m as int] == hs[m as int]);
            }
            if heights[q] < heights[m] {
                m = q;
            }
            q += 1;
        }
        proof {
            assert(hs.take(heights@.len() as int) =~= hs);
        }
        let n_rows = sections[k].1.len();
        let add: i128 = SECTION_HEADING_HEIGHT + (n_rows as i128) * ROW_PITCH + SECTION_PAD;
        let ghost old_cols = columns@;
        let mut col = columns.remove(m);
        col.push(k);
        columns.insert(m, col);
        let hm = heights[m];
        proof {
            assert(0 <= hs[m as int] <= 32 * k + 16 * rows_sum(rows, k as int));
            assert(rows_sum(rows, k as int) <= usize::MAX);
        }
        heights.set(m, hm + add);
        proof {
            assert(rows[k as int] == n_rows);
            assert(columns@ =~= old_cols.update(m as int, columns@[m as int]));
            assert(columns@.map_values(|c: Vec<usize>| c@) =~= pack_state(rows, count as nat, k + 1).0);
            assert(heights@.map_values(|h: i128| h as int) =~= pack_state(rows, count as nat, k + 1).1);
        }
        k += 1;
    }
    proof {
        lemma_rows_sum_total(sections@, sections@.len() as int);
        assert(sections@.take(sections@.len() as int) =~= sections@);
        lemma_pack_heights(rows, count as nat, k as int, 32 * k + 16 * rows_sum(rows, k as int));
        assert forall|j: int| 0 <= j < heights@.len() implies 0 <= #[trigger] heights@[j] <= 32 * sections@.len() + 16 * total_rows(sections@) by {
            assert(heights@.map_values(|h: i128| h as int)[j] == heights@[j] as int);
        }
    }
    (columns, heights)
}

/// The sheet's layout for a window `width` by `height` pixels (fractional
/// sizes taken down to whole pixels): the packed columns, and whether some
/// column is taller than the room under the header.
pub fn allocate_layout(width: i64, height: i64, sections: &[KeymapSection]) -> (r: SheetLayout)
    requires
        total_rows(sections@) <= usize::MAX,
    ensures
        r.columns@.map_values(|c: Vec<usize>| c@) == packed(width as int, sections@).0,
        r.scrolls == any_above(packed(width as int, sections@).1, room_for(height as int)),
{
    let (columns, heights) = pack_columns(width, sections);
    let ghost hs = heights@.map_values(|h: i128| h as int);
    let raw: i128 = (height as i128) - HEADER_HEIGHT - GRID_TOP - GRID_BOTTOM;
    let available: i128 = if raw > 0 {
        raw
    } else {
        0
    };
    let mut scrolls = false;
    let mut j: usize = 0;
    while j < heights.len()
        invariant
            hs == heights@.map_values(|h: i128| h as int),
            available == room_for(height as int),
            0 <= j <= heights@.len(),
            scrolls == exists|q: int| 0 <= q < j && #[trigger] hs[q] > available,
        decreases heights@.len() - j,
    {
        proof {
            assert(hs[j as int] == heights@[j as int] as int);
        }
        if heights[j] > available {
            scrolls = true;
        }
        j += 1;
    }
    SheetLayout { columns, scrolls }
}

/// The window height, in whole pixels, at which the tallest packed column
/// fits exactly: header and margins around the tallest column.
pub fn content_fit_height(width: i64, sections: &[KeymapSection]) -> (h: i128)
    requires
        total_rows(sections@) <= usize::MAX,
    ensures
        h == HEADER_HEIGHT + GRID_TOP + tallest(packed(width as int, sections@).1) + GRID_BOTTOM,
        h <= i128::MAX / 2,
{
    let (_, heights) = pack_columns(width, sections);
    let ghost hs = heights@.map_values(|h: i128| h as int);
    proof {
        assert(sections@.len() == sections.len());
        assert(sections@.len() <= 0xffff_ffff_ffff_ffff);
        assert(total_rows(sections@) <= 0xffff_ffff_ffff_ffff);
        assert forall|q: int| 0 <= q < heights@.len() implies 0 <= #[trigger] hs[q] <= i128::MAX / 4 by {
            assert(hs[q] == heights@[q] as int);
        }
    }
    let mut t: i128 = 0;
    let mut j: usize = 0;
    while j < heights.len()
        invariant
            hs == heights@.map_values(|h: i128| h as int),
            0 <= j <= heights@.len(),
            t == tallest(hs.take(j as int)),
            0 <= t <= i128::MAX / 4,
            forall|q: int| 0 <= q < j ==> t >= #[trigger] hs[q],
            forall|q: int| 0 <= q < heights@.len() ==> 0 <= #[trigger] hs[q] <= i128::MAX / 4,
        decreases heights@.len() - j,
    {
        proof {
            assert(hs.take(j + 1).drop_last() =~= hs.take(j as int));
        }
        proof {
            assert(hs[j as int] == heights@[j as int] as int);
        }
        if heights[j] > t {
            t = heights[j];
        }
        j += 1;
    }
    proof {
        assert(hs.take(heights@.len() as int) =~= hs);
    }
    HEADER_HEIGHT + GRID_TOP + t + GRID_BOTTOM
}

proof fn lemma_tallest(h: Seq<int>)
    requires
        forall|j: int| 0 <= j < h.len() ==> #[trigger] h[j] >= 0,
    ensures
        tallest(h) >= 0,
        forall|j: int| 0 <= j < h.len() ==> tallest(h) >= #[trigger] h[j],
        tallest(h) == 0 || exists|j: int| 0 <= j < h.len() && #[trigger] h[j] == tallest(h),
    decreases h.len(),
{
    if h.len() > 0 {
        lemma_tallest(h.drop_last());
        assert forall|j: int| 0 <= j < h.len() implies tallest(h) >= #[trigger] h[j] by {
            if j < h.len() - 1 {
                assert(h.drop_last()[j] == h[j]);
            }
        }
        if tallest(h) != 0 && tallest(h) != h.last() {
            let j = choose|j: int| 0 <= j < h.drop_last().len() && #[trigger] h.drop_last()[j] == tallest(h.drop_last());
            assert(h[j] == tallest(h));
        }
    }
}

/// The fit height is exact: a window scrolls if and only if it is shorter
/// than `content_fit_height`, for any sheet with a nonempty column; an
/// empty sheet never scrolls.
pub proof fn law_fit_height_is_exact(width: int, height: int, sections: Seq<KeymapSection>)
    ensures
        any_above(packed(width, sections).1, room_for(height)) <==> (tallest(
            packed(width, sections).1,
        ) > 0 && height < HEADER_HEIGHT + GRID_TOP + tallest(packed(width, sections).1)
            + GRID_BOTTOM),
{
    let rows = row_counts(sections);
    let count = column_count(width);
    let k = sections.len() as int;
    assert(rows.len() == k);
    lemma_pack_heights(rows, count, k, 32 * k + 16 * rows_sum(rows, k));
    let h = packed(width, sections).1;
    lemma_tallest(h);
    let room = room_for(height);
    if any_above(h, room) {
        let j = choose|j: int| 0 <= j < h.len() && #[trigger] h[j] > room;
        assert(tallest(h) >= h[j]);
    }
    if tallest(h) > room {
        let j = choose|j: int| 0 <= j < h.len() && #[trigger] h[j] == tallest(h);
        assert(h[j] > room);
    }
}

/// Section `i` is in some column.
pub open spec fn placed(c: Seq<Seq<usize>>, i: int) -> bool {
    exists|j: int| 0 <= j < c.len() && #[trigger] c[j].contains(i as usize)
}

/// Every section index below `k` is in one column, once; nothing else is;
/// and each column lists its sections in registry order.
pub open spec fn intact(c: Seq<Seq<usize>>, k: int) -> bool {
    &&& forall|j: int, a: int, b: int|
        0 <= j < c.len() && 0 <= a < b < c[j].len() ==> #[trigger] c[j][a] < #[trigger] c[j][b]
    &&& forall|i: int| 0 <= i < k ==> #[trigger] placed(c, i)
    &&& forall|j: int, a: int| 0 <= j < c.len() && 0 <= a < c[j].len() ==> #[trigger] c[j][a] < k
    &&& forall|j1: int, j2: int, a: int, b: int|
        0 <= j1 < c.len() && 0 <= j2 < c.len() && 0 <= a < c[j1].len() && 0 <= b < c[j2].len()
            && #[trigger] c[j1][a] == #[trigger] c[j2][b] ==> j1 == j2 && a == b
}

proof fn lemma_pack_intact(rows: Seq<nat>, count: nat, k: int)
    requires
        count >= 1,
        0 <= k <= rows.len(),
        k <= usize::MAX,
    ensures
        pack_state(rows, count, k).0.len() == count,
        intact(pack_state(rows, count, k).0, k),
    decreases k,
{
    if k > 0 {
        lemma_pack_intact(rows, count, k - 1);
        lemma_pack_heights(rows, count, k - 1, 32 * (k - 1) + 16 * rows_sum(rows, k - 1));
        let (c, h) = pack_state(rows, count, k - 1);
        lemma_min_index(h);
        let m = min_index(h);
        let c2 = pack_state(rows, count, k).0;
        assert(c2 == c.update(m, c[m].push((k - 1) as usize)));
        assert forall|i: int| 0 <= i < k implies #[trigger] placed(c2, i) by {
            if i == k - 1 {
                assert(c2[m][c[m].len() as int] == (k - 1) as usize);
                assert(c2[m].contains(i as usize));
            } else {
                assert(placed(c, i));
                let j = choose|j: int| 0 <= j < c.len() && #[trigger] c[j].contains(i as usize);
                let a = choose|a: int| 0 <= a < c[j].len() && c[j][a] == i as usize;
                if j == m {
                    assert(c2[m][a] == i as usize);
                }
                assert(c2[j].contains(i as usize));
            }
        }
        assert forall|j1: int, j2: int, a: int, b: int|
            0 <= j1 < c2.len() && 0 <= j2 < c2.len() && 0 <= a < c2[j1].len() && 0 <= b < c2[j2].len()
                && #[trigger] c2[j1][a] == #[trigger] c2[j2][b] implies j1 == j2 && a == b by {
            let old1 = !(j1 == m && a == c[m].len());
            let old2 = !(j2 == m && b == c[m].len());
            if old1 {
                assert(c2[j1][a] == c[j1][a]);
            }
            if old2 {
                assert(c2[j2][b] == c[j2][b]);
            }
        }
        assert forall|j: int, a: int, b: int|
            0 <= j < c2.len() && 0 <= a < b < c2[j].len() implies #[trigger] c2[j][a]
            < #[trigger] c2[j][b] by {
            assert(c2[j][a] == c[j][a]);
            if j == m && b == c[m].len() {
                assert(c2[j][b] == (k - 1) as usize);
                assert(c[j][a] < k - 1);
            } else {
                assert(c2[j][b] == c[j][b]);
            }
        }
    }
}

/// Packing keeps every section intact: the sheet has the columns its width
/// allows, each section index lands in exactly one column, once, and each
/// column keeps registry order.
pub proof fn law_sections_stay_intact(width: int, sections: Seq<KeymapSection>)
    requires
        sections.len() <= usize::MAX,
    ensures
        packed(width, sections).0.len() == column_count(width),
        intact(packed(width, sections).0, sections.len() as int),
{
    lemma_pack_intact(row_counts(sections), column_count(width), sections.len() as int);
}

/// The keyboard reference's width.
pub const DEFAULT_WIDTH: i64 = 900;
/// The room client-side decorations take on each side of the window.
pub const CSD_GUTTER: i64 = 22;

/// The unresizable window's outer size, derived from the registry: the
/// default width, and the height that fits the sheet exactly, each with
/// the decoration gutters.
pub fn static_window_size(sections: &[KeymapSection]) -> (r: (i128, i128))
    requires
        total_rows(sections@) <= usize::MAX,
    ensures
        r.0 == DEFAULT_WIDTH + 2 * CSD_GUTTER,
        r.1 == HEADER_HEIGHT + GRID_TOP + tallest(packed(DEFAULT_WIDTH as int, sections@).1)
            + GRID_BOTTOM + 2 * CSD_GUTTER,
{
    let fit = content_fit_height(DEFAULT_WIDTH, sections);
    (DEFAULT_WIDTH as i128 + 2 * CSD_GUTTER as i128, fit + 2 * CSD_GUTTER as i128)
}

/// The smallest size the keyboard reference window is restored at.
pub const MIN_WINDOW_WIDTH: i64 = 400;
/// The smallest height the keyboard reference window is restored at.
pub const MIN_WINDOW_HEIGHT: i64 = 300;

pub open spec fn max_int(a: int, b: int) -> int {
    if a >= b { a } else { b }
}

pub open spec fn min_int(a: int, b: int) -> int {
    if a <= b { a } else { b }
}

/// A remembered window rectangle `(x, y, width, height)` brought fully into
/// the work area `(x, y, width, height)`: at least the minimum size but no
/// larger than the area, then moved inside it.
pub fn clamp_bounds(record: (i64, i64, i64, i64), work: (i64, i64, i64, i64)) -> (r: (
    i64,
    i64,
    i64,
    i64,
))
    ensures
        r.2 == min_int(max_int(record.2 as int, MIN_WINDOW_WIDTH as int), work.2 as int),
        r.3 == min_int(max_int(record.3 as int, MIN_WINDOW_HEIGHT as int), work.3 as int),
        r.0 == min_int(max_int(record.0 as int, work.0 as int), work.0 + work.2 - r.2),
        r.1 == min_int(max_int(record.1 as int, work.1 as int), work.1 + work.3 - r.3),
        work.0 <= r.0 && r.0 + r.2 <= work.0 + work.2,
        work.1 <= r.1 && r.1 + r.3 <= work.1 + work.3,
{
    let (wx, wy, ww, wh) = work;
    let w: i64 = if record.2 >= MIN_WINDOW_WIDTH { record.2 } else { MIN_WINDOW_WIDTH };
    let w = if w <= ww { w } else { ww };
    let h: i64 = if record.3 >= MIN_WINDOW_HEIGHT { record.3 } else { MIN_WINDOW_HEIGHT };
    let h = if h <= wh { h } else { wh };
    let x0: i64 = if record.0 >= wx { record.0 } else { wx };
    let xr: i128 = wx as i128 + ww as i128 - w as i128;
    let x: i64 = if (x0 as i128) <= xr { x0 } else { xr as i64 };
    let y0: i64 = if record.1 >= wy { record.1 } else { wy };
    let yr: i128 = wy as i128 + wh as i128 - h as i128;
    let y: i64 = if (y0 as i128) <= yr { y0 } else { yr as i64 };
    (x, y, w, h)
}

/// The rectangle `outer` holds all of `inner`.
pub open spec fn holds(outer: (i64, i64, i64, i64), inner: (i64, i64, i64, i64)) -> bool {
    inner.0 >= outer.0 && inner.1 >= outer.1 && inner.0 + inner.2 <= outer.0 + outer.2 && inner.1
        + inner.3 <= outer.1 + outer.3
}

/// The display that holds the editor's whole window: the first that does,
/// if any. Remembered coordinates never pull the reference to another
/// display; the editor's display decides.
pub fn containing_display(editor: (i64, i64, i64, i64), displays: &[(i64, i64, i64, i64)]) -> (r:
    Option<usize>)
    ensures
        match r {
            Some(i) => i < displays.len() && holds(displays@[i as int], editor) && forall|j: int|
                0 <= j < i ==> !holds(#[trigger] displays@[j], editor),
            None => forall|j: int| 0 <= j < displays.len() ==> !holds(#[trigger] displays@[j], editor),
        },
{
    let mut i: usize = 0;
    while i < displays.len()
        invariant
            0 <= i <= displays@.len(),
            forall|j: int| 0 <= j < i ==> !holds(#[trigger] displays@[j], editor),
        decreases displays.len() - i,
    {
        let (ex, ey, ew, eh) = editor;
        let (x, y, w, h) = displays[i];
        if ex >= x && ey >= y && ex as i128 + ew as i128 <= x as i128 + w as i128 && ey as i128
            + eh as i128 <= y as i128 + h as i128 {
            return Some(i);
        }
        i += 1;
    }
    None
}

/// The sheet in a window of the static size, less its decoration gutters,
/// never scrolls: the static size is the exact fit, however the registry
/// grows.
pub proof fn law_static_window_never_scrolls(sections: Seq<KeymapSection>)
    ensures
        !any_above(
            packed(DEFAULT_WIDTH as int, sections).1,
            room_for(
                HEADER_HEIGHT + GRID_TOP + tallest(packed(DEFAULT_WIDTH as int, sections).1)
                    + GRID_BOTTOM,
            ),
        ),
{
    law_fit_height_is_exact(
        DEFAULT_WIDTH as int,
        HEADER_HEIGHT + GRID_TOP + tallest(packed(DEFAULT_WIDTH as int, sections).1) + GRID_BOTTOM,
        sections,
    );
}

} // verus!
