//! The recent-documents list: most recent first, each path once, at most
//! twenty entries that still exist on disk. Entries whose file is missing
//! stay visible as stale evidence and never count against that cap.

use vstd::prelude::*;
use crate::portal::{portal_parts_spec, portal_path_parts, same_path, same_path_exec};

verus! {

/// How many existing files the list keeps.
pub const LIVE_CAP: usize = 20;

/// One remembered document: its path, and whether the file existed when the
/// list was last looked at.
#[derive(Debug)]
pub struct RecentPath {
    pub path: String,
    pub exists: bool,
}

/// The capped list: walking in order, a missing entry always stays, an
/// existing one stays while no more than `LIVE_CAP` existing ones (itself
/// included) have been seen. `live` counts the existing ones already seen.
pub open spec fn cap_from(s: Seq<RecentPath>, live: int) -> Seq<RecentPath>
    decreases s.len(),
{
    if s.len() == 0 {
        seq![]
    } else if !s[0].exists {
        seq![s[0]] + cap_from(s.drop_first(), live)
    } else if live + 1 <= LIVE_CAP {
        seq![s[0]] + cap_from(s.drop_first(), live + 1)
    } else {
        cap_from(s.drop_first(), live + 1)
    }
}

/// `s` without the entries whose path is `p`, compared component by
/// component (so `/a/b/` and `/a//b` are `/a/b`).
pub open spec fn without(s: Seq<RecentPath>, p: Seq<char>) -> Seq<RecentPath>
    decreases s.len(),
{
    if s.len() == 0 {
        seq![]
    } else if same_path(s[0].path@, p) {
        without(s.drop_first(), p)
    } else {
        seq![s[0]] + without(s.drop_first(), p)
    }
}

/// The number of existing entries in `s`.
pub open spec fn live_count(s: Seq<RecentPath>) -> int
    decreases s.len(),
{
    if s.len() == 0 {
        0
    } else {
        (if s[0].exists {
            1int
        } else {
            0int
        }) + live_count(s.drop_first())
    }
}

proof fn lemma_cap_step(s: Seq<RecentPath>, i: int, live: int)
    requires
        0 <= i < s.len(),
    ensures
        cap_from(s.skip(i), live) == if !s[i].exists {
            seq![s[i]] + cap_from(s.skip(i + 1), live)
        } else if live + 1 <= LIVE_CAP {
            seq![s[i]] + cap_from(s.skip(i + 1), live + 1)
        } else {
            cap_from(s.skip(i + 1), live + 1)
        },
{
    assert(s.skip(i).drop_first() =~= s.skip(i + 1));
    assert(s.skip(i)[0] == s[i]);
}

/// Keep at most `LIVE_CAP` existing entries, the earliest ones; missing
/// entries all stay; order is kept.
pub fn cap_recents(list: &mut Vec<RecentPath>)
    ensures
        final(list)@ == cap_from(old(list)@, 0),
{
    let ghost s = list@;
    let mut out: Vec<RecentPath> = Vec::new();
    let mut live: usize = 0;
    let mut i: usize = 0;
    assert(s.skip(0) =~= s);
    assert(out@ + cap_from(s.skip(0), 0) =~= cap_from(s, 0));
    while i < list.len()
        invariant
            s == list@,
            i <= s.len(),
            live <= i,
            out@ + cap_from(s.skip(i as int), live as int) == cap_from(s, 0),
        decreases s.len() - i,
    {
        let e = RecentPath { path: list[i].path.clone(), exists: list[i].exists };
        proof {
            lemma_cap_step(s, i as int, live as int);
        }
        let keep = !e.exists || live + 1 <= LIVE_CAP;
        if e.exists {
            live += 1;
        }
        if keep {
            let ghost before = out@;
            out.push(e);
            proof {
                assert(out@ =~= before + seq![s[i as int]]);
                assert(before + seq![s[i as int]] + cap_from(s.skip(i + 1), live as int) =~= before
                    + (seq![s[i as int]] + cap_from(s.skip(i + 1), live as int)));
            }
        }
        i += 1;
    }
    proof {
        assert(s.skip(s.len() as int) =~= Seq::<RecentPath>::empty());
        assert(out@ + Seq::<RecentPath>::empty() =~= out@);
    }
    *list = out;
}

fn remove_path(list: &Vec<RecentPath>, p: &String) -> (r: Vec<RecentPath>)
    ensures
        r@ == without(list@, p@),
{
    let ghost s = list@;
    let mut out: Vec<RecentPath> = Vec::new();
    let mut i: usize = list.len();
    assert(s.skip(s.len() as int) =~= Seq::<RecentPath>::empty());
    while i > 0
        invariant
            s == list@,
            i <= s.len(),
            out@ == without(s.skip(i as int), p@),
        decreases i,
    {
        i -= 1;
        assert(s.skip(i as int).drop_first() =~= s.skip(i + 1));
        assert(s.skip(i as int)[0] == s[i as int]);
        if !same_path_exec(list[i].path.as_str(), p.as_str()) {
            let e = RecentPath { path: list[i].path.clone(), exists: list[i].exists };
            let ghost before = out@;
            out.insert(0, e);
            assert(out@ =~= seq![s[i as int]] + before);
        }
    }
    assert(s.skip(0) =~= s);
    out
}

/// Bring `entry` to the front: any older entry for the same path goes, the
/// new one leads, and the list is capped again.
pub fn push_recent(list: &mut Vec<RecentPath>, entry: RecentPath)
    ensures
        final(list)@ == cap_from(seq![entry] + without(old(list)@, entry.path@), 0),
{
    let rest = remove_path(list, &entry.path);
    let mut out: Vec<RecentPath> = Vec::new();
    out.push(entry);
    let mut i: usize = 0;
    while i < rest.len()
        invariant
            i <= rest@.len(),
            out@ == seq![entry] + rest@.take(i as int),
        decreases rest@.len() - i,
    {
        let e = RecentPath { path: rest[i].path.clone(), exists: rest[i].exists };
        out.push(e);
        i += 1;
        assert(out@ =~= seq![entry] + rest@.take(i as int));
    }
    assert(rest@.take(rest@.len() as int) =~= rest@);
    cap_recents(&mut out);
    *list = out;
}

/// A document renamed from `old_path` to `new_entry.path`: the old path
/// leaves the list and the new one leads it.
pub fn replace_recent(list: &mut Vec<RecentPath>, old_path: &String, new_entry: RecentPath)
    ensures
        final(list)@ == cap_from(
            seq![new_entry] + without(without(old(list)@, old_path@), new_entry.path@),
            0,
        ),
{
    let kept = remove_path(list, old_path);
    *list = kept;
    push_recent(list, new_entry);
}

proof fn lemma_cap_subset(s: Seq<RecentPath>, live: int, x: RecentPath)
    requires
        cap_from(s, live).contains(x),
    ensures
        s.contains(x),
    decreases s.len(),
{
    if s.len() > 0 {
        let r = cap_from(s.drop_first(), if s[0].exists { live + 1 } else { live });
        if x != s[0] {
            if r.contains(x) {
                lemma_cap_subset(s.drop_first(), if s[0].exists { live + 1 } else { live }, x);
                let j = choose|j: int| 0 <= j < s.drop_first().len() && s.drop_first()[j] == x;
                assert(s[j + 1] == x);
            } else {
                let t = cap_from(s, live);
                let j = choose|j: int| 0 <= j < t.len() && t[j] == x;
                if !s[0].exists || live + 1 <= LIVE_CAP {
                    assert(t == seq![s[0]] + r);
                    assert(r[j - 1] == x);
                } else {
                    assert(t == r);
                }
            }
        } else {
            assert(s[0] == x);
        }
    }
}

proof fn lemma_without_excludes(s: Seq<RecentPath>, p: Seq<char>, x: RecentPath)
    requires
        without(s, p).contains(x),
    ensures
        !same_path(x.path@, p),
    decreases s.len(),
{
    if s.len() > 0 {
        let r = without(s.drop_first(), p);
        let t = without(s, p);
        let j = choose|j: int| 0 <= j < t.len() && t[j] == x;
        if same_path(s[0].path@, p) {
            assert(t == r);
            lemma_without_excludes(s.drop_first(), p, x);
        } else if j > 0 {
            assert(t[j] == r[j - 1]);
            assert(r.contains(x));
            lemma_without_excludes(s.drop_first(), p, x);
        }
    }
}

proof fn lemma_cap_live(s: Seq<RecentPath>, live: int)
    requires
        0 <= live <= LIVE_CAP,
    ensures
        live_count(cap_from(s, live)) <= LIVE_CAP - live,
    decreases s.len(),
{
    if s.len() > 0 {
        let rest = s.drop_first();
        if !s[0].exists {
            lemma_cap_live(rest, live);
            assert((seq![s[0]] + cap_from(rest, live)).drop_first() =~= cap_from(rest, live));
        } else if live + 1 <= LIVE_CAP {
            lemma_cap_live(rest, live + 1);
            assert((seq![s[0]] + cap_from(rest, live + 1)).drop_first() =~= cap_from(
                rest,
                live + 1,
            ));
        } else {
            lemma_cap_none_live(rest, live + 1);
        }
    }
}

proof fn lemma_cap_none_live(s: Seq<RecentPath>, live: int)
    requires
        live > LIVE_CAP,
    ensures
        live_count(cap_from(s, live)) == 0,
    decreases s.len(),
{
    if s.len() > 0 {
        let rest = s.drop_first();
        if !s[0].exists {
            lemma_cap_none_live(rest, live);
            assert((seq![s[0]] + cap_from(rest, live)).drop_first() =~= cap_from(rest, live));
        } else {
            lemma_cap_none_live(rest, live + 1);
        }
    }
}

proof fn lemma_cap_keeps_missing(s: Seq<RecentPath>, live: int, x: RecentPath)
    requires
        s.contains(x),
        !x.exists,
    ensures
        cap_from(s, live).contains(x),
    decreases s.len(),
{
    let rest = s.drop_first();
    let next = if s[0].exists { live + 1 } else { live };
    if s[0] == x {
        assert((seq![s[0]] + cap_from(rest, next))[0] == x);
    } else {
        let j = choose|j: int| 0 <= j < s.len() && s[j] == x;
        assert(rest[j - 1] == x);
        lemma_cap_keeps_missing(rest, next, x);
        let r = cap_from(rest, next);
        let k = choose|k: int| 0 <= k < r.len() && r[k] == x;
        if !s[0].exists || live + 1 <= LIVE_CAP {
            assert((seq![s[0]] + r)[k + 1] == x);
        }
    }
}

/// What pushing a document does to the list: it comes first, it occurs
/// nowhere else, at most `LIVE_CAP` existing files remain, and no missing
/// entry is ever dropped.
pub proof fn law_push_recent(s: Seq<RecentPath>, entry: RecentPath, x: RecentPath)
    ensures
        cap_from(seq![entry] + without(s, entry.path@), 0).len() > 0,
        cap_from(seq![entry] + without(s, entry.path@), 0)[0] == entry,
        forall|i: int|
            0 < i < cap_from(seq![entry] + without(s, entry.path@), 0).len() ==> !same_path((#[trigger] cap_from(
                seq![entry] + without(s, entry.path@),
                0,
            )[i]).path@, entry.path@),
        live_count(cap_from(seq![entry] + without(s, entry.path@), 0)) <= LIVE_CAP,
        s.contains(x) && !x.exists && !same_path(x.path@, entry.path@) ==> cap_from(
            seq![entry] + without(s, entry.path@),
            0,
        ).contains(x),
{
    let w = without(s, entry.path@);
    let t = seq![entry] + w;
    let next = if entry.exists { 1int } else { 0int };
    assert(t.drop_first() =~= w);
    assert(t[0] == entry);
    let r = cap_from(w, next);
    assert(cap_from(t, 0) == seq![entry] + r);
    assert forall|i: int| 0 < i < cap_from(t, 0).len() implies !same_path(
        (#[trigger] cap_from(t, 0)[i]).path@,
        entry.path@,
    ) by {
        let y = cap_from(t, 0)[i];
        assert(y == r[i - 1]);
        assert(r.contains(y));
        lemma_cap_subset(w, next, y);
        lemma_without_excludes(s, entry.path@, y);
    }
    lemma_cap_live(t, 0);
    if s.contains(x) && !x.exists && !same_path(x.path@, entry.path@) {
        lemma_without_keeps(s, entry.path@, x);
        assert(t[w.index_of(x) + 1] == x);
        lemma_cap_keeps_missing(t, 0, x);
    }
}

proof fn lemma_without_keeps(s: Seq<RecentPath>, p: Seq<char>, x: RecentPath)
    requires
        s.contains(x),
        !same_path(x.path@, p),
    ensures
        without(s, p).contains(x),
    decreases s.len(),
{
    let rest = s.drop_first();
    if s[0] == x {
        assert((seq![s[0]] + without(rest, p))[0] == x);
    } else {
        let j = choose|j: int| 0 <= j < s.len() && s[j] == x;
        assert(rest[j - 1] == x);
        lemma_without_keeps(rest, p, x);
        let r = without(rest, p);
        let k = choose|k: int| 0 <= k < r.len() && r[k] == x;
        if !same_path(s[0].path@, p) {
            assert((seq![s[0]] + r)[k + 1] == x);
        }
    }
}

proof fn lemma_cap_over_all_missing(s: Seq<RecentPath>, live: int)
    requires
        live > LIVE_CAP,
    ensures
        forall|i: int| 0 <= i < cap_from(s, live).len() ==> !(#[trigger] cap_from(s, live)[i]).exists,
    decreases s.len(),
{
    if s.len() > 0 {
        let rest = s.drop_first();
        if !s[0].exists {
            lemma_cap_over_all_missing(rest, live);
            let r = cap_from(rest, live);
            assert(cap_from(s, live) == seq![s[0]] + r);
            assert forall|i: int| 0 <= i < cap_from(s, live).len() implies !(#[trigger] cap_from(
                s,
                live,
            )[i]).exists by {
                if i > 0 {
                    assert(cap_from(s, live)[i] == r[i - 1]);
                }
            }
        } else {
            lemma_cap_over_all_missing(rest, live + 1);
            assert(cap_from(s, live) == cap_from(rest, live + 1));
        }
    }
}

proof fn lemma_cap_all_missing(s: Seq<RecentPath>, live: int)
    requires
        forall|i: int| 0 <= i < s.len() ==> !(#[trigger] s[i]).exists,
    ensures
        cap_from(s, live) == s,
    decreases s.len(),
{
    if s.len() > 0 {
        let rest = s.drop_first();
        assert forall|i: int| 0 <= i < rest.len() implies !(#[trigger] rest[i]).exists by {
            assert(rest[i] == s[i + 1]);
        }
        lemma_cap_all_missing(rest, live);
        assert(seq![s[0]] + rest =~= s);
    }
}

proof fn lemma_cap_idempotent(s: Seq<RecentPath>, live: int)
    requires
        0 <= live,
    ensures
        cap_from(cap_from(s, live), live) == cap_from(s, live),
    decreases s.len(),
{
    if s.len() > 0 {
        let rest = s.drop_first();
        if !s[0].exists {
            lemma_cap_idempotent(rest, live);
            let t = seq![s[0]] + cap_from(rest, live);
            assert(t.drop_first() =~= cap_from(rest, live));
        } else if live + 1 <= LIVE_CAP {
            lemma_cap_idempotent(rest, live + 1);
            let t = seq![s[0]] + cap_from(rest, live + 1);
            assert(t.drop_first() =~= cap_from(rest, live + 1));
        } else {
            lemma_cap_over_all_missing(rest, live + 1);
            lemma_cap_all_missing(cap_from(rest, live + 1), live);
        }
    }
}

/// Capping a capped list changes nothing.
pub proof fn law_cap_is_idempotent(s: Seq<RecentPath>)
    ensures
        cap_from(cap_from(s, 0), 0) == cap_from(s, 0),
{
    lemma_cap_idempotent(s, 0);
}

/// The stored paths that are not document-portal paths under
/// `runtime_dir`, in order.
pub open spec fn outside_portal(s: Seq<Seq<char>>, runtime_dir: Seq<char>) -> Seq<Seq<char>>
    decreases s.len(),
{
    if s.len() == 0 {
        Seq::empty()
    } else {
        let r = outside_portal(s.drop_last(), runtime_dir);
        if portal_parts_spec(s.last(), runtime_dir) is None {
            r.push(s.last())
        } else {
            r
        }
    }
}

/// The recents as stored, less the paths still under the document portal
/// (plumbing a writer does not know; the portal could not resolve them).
/// Order is kept.
pub fn drop_portal_paths(list: &Vec<String>, runtime_dir: &str) -> (r: Vec<String>)
    ensures
        r@.map_values(|p: String| p@) == outside_portal(
            list@.map_values(|p: String| p@),
            runtime_dir@,
        ),
{
    let ghost views = list@.map_values(|p: String| p@);
    let mut out: Vec<String> = Vec::new();
    let mut i: usize = 0;
    while i < list.len()
        invariant
            views == list@.map_values(|p: String| p@),
            i <= list@.len(),
            out@.map_values(|p: String| p@) == outside_portal(views.take(i as int), runtime_dir@),
        decreases list@.len() - i,
    {
        proof {
            assert(views.take(i + 1).drop_last() =~= views.take(i as int));
            assert(views.take(i + 1).last() == list@[i as int]@);
        }
        let ghost before = out@;
        if portal_path_parts(list[i].as_str(), runtime_dir).is_none() {
            out.push(list[i].clone());
            proof {
                assert(out@.map_values(|p: String| p@) =~= before.map_values(|p: String| p@).push(
                    list@[i as int]@,
                ));
            }
        }
        i += 1;
    }
    proof {
        assert(views.take(list@.len() as int) =~= views);
    }
    out
}

/// The paths listed in `text` when it is a JSON array of strings; `None`
/// for anything else.
pub uninterp spec fn json_path_list(text: Seq<char>) -> Option<Seq<Seq<char>>>;

/// `serde_json::from_str` into a `Vec<String>`. Claimed: the result is
/// `json_path_list` of the text.
#[verifier::external_body]
fn parse_path_list(text: &str) -> (r: Option<Vec<String>>)
    ensures
        match r {
            Some(v) => json_path_list(text@) == Some(v@.map_values(|s: String| s@)),
            None => json_path_list(text@) is None,
        },
{
    serde_json::from_str::<Vec<String>>(text).ok()
}

/// The recents as stored, from the text of their file (`None` when it is
/// missing or unreadable): the listed paths, most recent first, when the
/// text is a JSON list of paths; none otherwise.
pub fn stored_recents(text: Option<&str>) -> (r: Vec<String>)
    ensures
        r@.map_values(|p: String| p@) == match text {
            Some(t) => match json_path_list(t@) {
                Some(l) => l,
                None => Seq::empty(),
            },
            None => Seq::empty(),
        },
{
    match text {
        Some(t) => match parse_path_list(t) {
            Some(v) => v,
            None => {
                let v: Vec<String> = Vec::new();
                assert(v@.map_values(|p: String| p@) =~= Seq::<Seq<char>>::empty());
                v
            },
        },
        None => {
            let v: Vec<String> = Vec::new();
            assert(v@.map_values(|p: String| p@) =~= Seq::<Seq<char>>::empty());
            v
        },
    }
}

/// Pushing `a`, then `b`, then `a` again onto an empty list leaves `a`
/// first and `b` second, nothing else: most recent first, each path once.
pub proof fn law_three_pushes(a: RecentPath, b: RecentPath)
    requires
        !same_path(a.path@, b.path@),
    ensures
        ({
            let l1 = cap_from(seq![a] + without(Seq::empty(), a.path@), 0);
            let l2 = cap_from(seq![b] + without(l1, b.path@), 0);
            let l3 = cap_from(seq![a] + without(l2, a.path@), 0);
            l1 == seq![a] && l2 == seq![b, a] && l3 == seq![a, b]
        }),
{
    reveal_with_fuel(cap_from, 3);
    reveal_with_fuel(without, 3);
    let e = Seq::<RecentPath>::empty();
    assert(without(e, a.path@) == e);
    assert(seq![a] + e =~= seq![a]);
    assert(seq![a].drop_first() =~= e);
    assert(cap_from(seq![a], 0) =~= seq![a]);
    let l1 = seq![a];
    assert(!same_path(l1[0].path@, b.path@));
    assert(l1.drop_first() =~= e);
    assert(without(l1, b.path@) =~= seq![a]);
    let t2 = seq![b] + seq![a];
    assert(t2 =~= seq![b, a]);
    assert(t2.drop_first() =~= seq![a]);
    assert(cap_from(t2, 0) =~= seq![b, a]);
    let l2 = seq![b, a];
    assert(same_path(l2[1].path@, a.path@));
    assert(!same_path(l2[0].path@, a.path@));
    assert(l2.drop_first() =~= seq![a]);
    assert(without(seq![a], a.path@) =~= e);
    assert(without(l2, a.path@) =~= seq![b]);
    let t3 = seq![a] + seq![b];
    assert(t3 =~= seq![a, b]);
    assert(t3.drop_first() =~= seq![b]);
    assert(seq![b].drop_first() =~= e);
    assert(cap_from(seq![b], if a.exists { 1int } else { 0int }) =~= seq![b]);
    assert(cap_from(t3, 0) =~= seq![a, b]);
}

} // verus!
