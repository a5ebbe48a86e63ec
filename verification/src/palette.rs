//! Moving through the omnibox's rows and the model list: the highlight
//! stops at either end, except that find's "next match" wraps around.

use vstd::prelude::*;
use crate::ai::{contains_chars, has_infix, lowercase, str_to_lowercase, string_views};
use crate::chars::string_from_chars;
use crate::chars::chars_of;
use crate::stem::{trim_ws, trim_end_vec, trim_start_vec, TrimClass};

verus! {

/// The row below `selected` in a list of `len` rows, staying on the last.
pub fn step_down(selected: usize, len: usize) -> (r: usize)
    requires
        len > 0,
    ensures
        r == (if selected + 1 < len {
            selected + 1
        } else {
            len - 1
        }),
{
    if selected < len - 1 {
        selected + 1
    } else {
        len - 1
    }
}

/// The row above `selected`, staying on the first.
pub fn step_up(selected: usize) -> (r: usize)
    ensures
        r == (if selected > 0 {
            selected - 1
        } else {
            0int
        }),
{
    if selected > 0 {
        selected - 1
    } else {
        0
    }
}

/// Find's next match after `selected` among `len`, wrapping to the first.
pub fn next_match(selected: usize, len: usize) -> (r: usize)
    requires
        len > 0,
        selected < usize::MAX,
    ensures
        r == (selected + 1) % (len as int),
        r < len,
{
    (selected + 1) % len
}

/// The match a selection lands on: `ix`, or the last one past the end.
pub fn clamp_match(ix: usize, len: usize) -> (r: usize)
    requires
        len > 0,
    ensures
        r == (if ix < len {
            ix as int
        } else {
            len - 1
        }),
{
    if ix < len {
        ix
    } else {
        len - 1
    }
}

/// The models a settings query keeps: all of them for an empty query, else
/// those whose lowercased name holds the lowercased, trimmed query.
pub open spec fn models_matching(models: Seq<Seq<char>>, lowered: Seq<Seq<char>>, query: Seq<char>) -> Seq<Seq<char>>
    decreases models.len(),
{
    if models.len() == 0 {
        Seq::empty()
    } else {
        let rest = models_matching(models.drop_last(), lowered.drop_last(), query);
        if query.len() == 0 || has_infix(lowered.last(), query) {
            rest.push(models.last())
        } else {
            rest
        }
    }
}

/// The models kept for a query, given each model's lowercased name and the
/// lowercased query.
pub fn filter_models_lowered(models: &Vec<String>, lowered: &Vec<String>, query: &str) -> (r: Vec<String>)
    requires
        lowered@.len() == models@.len(),
    ensures
        string_views(r@) == models_matching(string_views(models@), string_views(lowered@), query@),
{
    let q = chars_of(query);
    let mut r: Vec<String> = Vec::new();
    let mut i: usize = 0;
    while i < models.len()
        invariant
            lowered@.len() == models@.len(),
            q@ == query@,
            0 <= i <= models@.len(),
            string_views(r@) == models_matching(
                string_views(models@).take(i as int),
                string_views(lowered@).take(i as int),
                query@,
            ),
        decreases models@.len() - i,
    {
        proof {
            assert(string_views(models@).take(i + 1).drop_last() =~= string_views(models@).take(i as int));
            assert(string_views(lowered@).take(i + 1).drop_last() =~= string_views(lowered@).take(i as int));
        }
        let l = chars_of(lowered[i].as_str());
        if q.len() == 0 || contains_chars(&l, &q) {
            let ghost before = r@;
            r.push(models[i].clone());
            proof {
                assert(string_views(r@) =~= string_views(before).push(models@[i as int]@));
            }
        }
        i += 1;
    }
    proof {
        assert(string_views(models@).take(models@.len() as int) =~= string_views(models@));
        assert(string_views(lowered@).take(models@.len() as int) =~= string_views(lowered@));
    }
    r
}

/// The models the settings list shows for what is typed in the model
/// field: names are compared lowercased, the query trimmed and lowercased.
pub fn filter_models(models: &Vec<String>, query: &str) -> (r: Vec<String>)
    ensures
        string_views(r@) == models_matching(
            string_views(models@),
            string_views(models@).map_values(|m: Seq<char>| lowercase(m)),
            lowercase(trim_ws(query@)),
        ),
{
    let v = chars_of(query);
    let t = trim_end_vec(&trim_start_vec(&v, &TrimClass::Whitespace), &TrimClass::Whitespace);
    let trimmed = string_from_chars(&t);
    let q = str_to_lowercase(trimmed.as_str());
    let mut lowered: Vec<String> = Vec::new();
    let mut i: usize = 0;
    while i < models.len()
        invariant
            0 <= i <= models@.len(),
            lowered@.len() == i,
            forall|k: int| 0 <= k < i ==> (#[trigger] lowered@[k])@ == lowercase(models@[k]@),
        decreases models@.len() - i,
    {
        lowered.push(str_to_lowercase(models[i].as_str()));
        i += 1;
    }
    proof {
        assert(string_views(lowered@) =~= string_views(models@).map_values(|m: Seq<char>| lowercase(m)));
    }
    filter_models_lowered(models, &lowered, q.as_str())
}

} // verus!
