//! The two small state files: `intents.json`, the caret each document was
//! left at, and `palette_freq.json`, how often each palette command ran. The
//! app reads and writes the files; these functions are what it does with
//! their contents.

use vstd::prelude::*;
use crate::table::{KeyedTable, map_of};
use crate::find::{char_offset, char_offsets};

verus! {

/// One document's remembered session: the caret offset at the last quit.
#[derive(Clone, Copy, Debug, Default, PartialEq, Eq)]
pub struct SessionEntry {
    pub caret: Option<usize>,
}

/// The value under `k`, if the map has one.
pub open spec fn lookup<V>(m: Map<Seq<char>, V>, k: Seq<char>) -> Option<V> {
    if m.dom().contains(k) {
        Some(m[k])
    } else {
        None
    }
}

/// The session table read from the sessions file: its key/value pairs when
/// the file parsed, an empty table when it was missing or garbage.
pub fn load_sessions(parsed: Option<Vec<(String, SessionEntry)>>) -> (t: KeyedTable<SessionEntry>)
    ensures
        t@ == match parsed {
            Some(pairs) => map_of(pairs@),
            None => Map::empty(),
        },
{
    match parsed {
        Some(pairs) => KeyedTable::from_entries(pairs),
        None => KeyedTable::new(),
    }
}

/// The caret recorded for the document keyed `key` at its last quit, if any.
pub fn load_session(sessions: &KeyedTable<SessionEntry>, key: &str) -> (r: Option<SessionEntry>)
    ensures
        r == lookup(sessions@, key@),
{
    sessions.get(key)
}

/// Quit time: remember the caret of the document keyed `key`. Every other
/// document's entry is left as it was.
pub fn record_caret(sessions: &mut KeyedTable<SessionEntry>, key: &str, caret: usize)
    ensures
        final(sessions)@ == old(sessions)@.insert(key@, SessionEntry { caret: Some(caret) }),
{
    let mut entry = match sessions.get(key) {
        Some(e) => e,
        None => SessionEntry { caret: None },
    };
    entry.caret = Some(caret);
    sessions.insert(key, entry);
}

/// Where a remembered caret lands in the document as it is now (which may
/// have changed since the caret was recorded): clamped to the end and moved
/// back to the start of the character it falls inside.
pub fn restore_caret(text: &str, caret: usize) -> (r: usize)
    ensures
        r <= caret,
        exists|k: int|
            0 <= k <= text@.len() && r == #[trigger] char_offset(text@, k) && (k == text@.len()
                || char_offset(text@, k + 1) > caret),
{
    let offsets = char_offsets(text);
    let n = offsets.len() - 1;
    let mut k: usize = 0;
    while k < n && offsets[k + 1] <= caret
        invariant
            n == text@.len(),
            offsets@.len() == n + 1,
            forall|i: int| 0 <= i <= n ==> #[trigger] offsets@[i] == char_offset(text@, i),
            k <= n,
            offsets@[k as int] <= caret,
        decreases n - k,
    {
        k += 1;
    }
    offsets[k]
}

/// The key/value pairs of `text` when it is a JSON object whose values are
/// all counts that fit `u32`, keys in ascending order; `None` for anything
/// else.
pub uninterp spec fn json_counts(text: Seq<char>) -> Option<Seq<(Seq<char>, u32)>>;

/// The pairs with their keys as character sequences.
pub open spec fn pair_views(s: Seq<(String, u32)>) -> Seq<(Seq<char>, u32)> {
    s.map_values(|p: (String, u32)| (p.0@, p.1))
}

/// The table of `(key, count)` pairs; a later pair for a key wins.
pub open spec fn counts_map(s: Seq<(Seq<char>, u32)>) -> Map<Seq<char>, u32>
    decreases s.len(),
{
    if s.len() == 0 {
        Map::empty()
    } else {
        counts_map(s.drop_last()).insert(s.last().0, s.last().1)
    }
}

proof fn lemma_counts_map(s: Seq<(String, u32)>)
    ensures
        map_of(s) == counts_map(pair_views(s)),
    decreases s.len(),
{
    if s.len() > 0 {
        lemma_counts_map(s.drop_last());
        assert(pair_views(s).drop_last() =~= pair_views(s.drop_last()));
    }
}

/// `serde_json::from_str` into a `BTreeMap<String, u32>`, read back as its
/// pairs in key order. Claimed: the result is `json_counts` of the text.
#[verifier::external_body]
fn parse_counts(text: &str) -> (r: Option<Vec<(String, u32)>>)
    ensures
        match r {
            Some(v) => json_counts(text@) == Some(pair_views(v@)),
            None => json_counts(text@) is None,
        },
{
    serde_json::from_str::<std::collections::BTreeMap<String, u32>>(text).ok().map(
        |m| m.into_iter().collect(),
    )
}

/// The palette's execution counts from the text of their file (`None` when
/// it is missing or unreadable): the object's counts when it is a JSON
/// object of counts, an empty table otherwise. Nothing is written.
pub fn load_palette_freq(text: Option<&str>) -> (t: KeyedTable<u32>)
    ensures
        t@ == match text {
            Some(s) => match json_counts(s@) {
                Some(pairs) => counts_map(pairs),
                None => Map::empty(),
            },
            None => Map::empty(),
        },
{
    match text {
        Some(s) => match parse_counts(s) {
            Some(pairs) => {
                proof {
                    lemma_counts_map(pairs@);
                }
                KeyedTable::from_entries(pairs)
            },
            None => KeyedTable::new(),
        },
        None => KeyedTable::new(),
    }
}

/// The count a command has run so far (0 when never).
pub open spec fn count_of(m: Map<Seq<char>, u32>, label: Seq<char>) -> int {
    if m.dom().contains(label) {
        m[label] as int
    } else {
        0
    }
}

/// Count one execution of the command labelled `label`; returns the new
/// count, which is also what the table now holds for it.
pub fn bump_palette_freq(freq: &mut KeyedTable<u32>, label: &str) -> (n: u32)
    requires
        count_of(old(freq)@, label@) < u32::MAX,
    ensures
        n == count_of(old(freq)@, label@) + 1,
        final(freq)@ == old(freq)@.insert(label@, n),
{
    let count = match freq.get(label) {
        Some(c) => c,
        None => 0,
    };
    let n = count + 1;
    freq.insert(label, n);
    n
}

/// Read after write: the caret just recorded for a document is the one its
/// next load returns, and recording it leaves every other document's entry
/// as it was.
pub proof fn law_record_then_load(
    before: Map<Seq<char>, SessionEntry>,
    key: Seq<char>,
    other: Seq<char>,
    caret: usize,
)
    requires
        other != key,
    ensures
        lookup(before.insert(key, SessionEntry { caret: Some(caret) }), key) == Some(
            SessionEntry { caret: Some(caret) },
        ),
        lookup(before.insert(key, SessionEntry { caret: Some(caret) }), other) == lookup(
            before,
            other,
        ),
{
}

/// Counting is monotone and exact: each bump of a label adds one to its
/// count and leaves every other label's count alone.
pub proof fn law_bump_counts_one(
    before: Map<Seq<char>, u32>,
    label: Seq<char>,
    other: Seq<char>,
)
    requires
        other != label,
        count_of(before, label) < u32::MAX,
    ensures
        count_of(before.insert(label, (count_of(before, label) + 1) as u32), label) == count_of(
            before,
            label,
        ) + 1,
        count_of(before.insert(label, (count_of(before, label) + 1) as u32), other) == count_of(
            before,
            other,
        ),
{
}

} // verus!
