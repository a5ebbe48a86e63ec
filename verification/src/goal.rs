//! The titlebar's word count and the session goal: a number of words to
//! write this session, counted from the words there were when it was set.

use vstd::prelude::*;
use crate::chars::{chars_of, string_from_chars};
use crate::footnotes::{parse_u64, parse_u64_spec};
use crate::format::{decimal, format_thousands, push_decimal, thousands};
use crate::stem::{trim_ws, trim_end_vec, trim_start_vec, TrimClass};

verus! {

/// What a typed goal does.
#[derive(Clone, Copy, Debug, PartialEq, Eq, Structural)]
pub enum GoalEntry {
    /// Zero clears the goal.
    Clear,
    /// A number of words sets it.
    SetTo(usize),
    /// Anything else changes nothing.
    Ignore,
}

/// `s` without its commas and spaces.
pub open spec fn without_separators(s: Seq<char>) -> Seq<char>
    decreases s.len(),
{
    if s.len() == 0 {
        s
    } else if s.last() == ',' || s.last() == ' ' {
        without_separators(s.drop_last())
    } else {
        without_separators(s.drop_last()).push(s.last())
    }
}

/// The goal a typed text gives: trimmed, commas and spaces taken out, read
/// as a number of words; zero clears, anything unreadable is ignored.
pub open spec fn goal_spec(text: Seq<char>) -> GoalEntry {
    match parse_u64_spec(without_separators(trim_ws(text))) {
        Some(v) => if v == 0 {
            GoalEntry::Clear
        } else if v <= usize::MAX {
            GoalEntry::SetTo(v as usize)
        } else {
            GoalEntry::Ignore
        },
        None => GoalEntry::Ignore,
    }
}

/// Reads a typed session goal.
pub fn parse_goal(text: &str) -> (r: GoalEntry)
    ensures
        r == goal_spec(text@),
{
    let v = chars_of(text);
    let t = trim_end_vec(&trim_start_vec(&v, &TrimClass::Whitespace), &TrimClass::Whitespace);
    let mut kept: Vec<char> = Vec::new();
    let mut i: usize = 0;
    while i < t.len()
        invariant
            0 <= i <= t@.len(),
            kept@ == without_separators(t@.take(i as int)),
        decreases t@.len() - i,
    {
        proof {
            assert(t@.take(i + 1).drop_last() =~= t@.take(i as int));
        }
        let c = t[i];
        if c != ',' && c != ' ' {
            kept.push(c);
        }
        i += 1;
    }
    proof {
        assert(t@.take(t@.len() as int) =~= t@);
    }
    let s = string_from_chars(&kept);
    match parse_u64(s.as_str()) {
        Some(n) => {
            if n == 0 {
                GoalEntry::Clear
            } else if (n as u128) <= (usize::MAX as u128) {
                GoalEntry::SetTo(n as usize)
            } else {
                GoalEntry::Ignore
            }
        },
        None => GoalEntry::Ignore,
    }
}

/// `v` with its sign always shown: `+5`, `+0`, `-3`.
pub open spec fn signed_spec(v: int) -> Seq<char> {
    if v >= 0 {
        seq!['+'] + decimal(v as nat)
    } else {
        seq!['-'] + decimal((-v) as nat)
    }
}

/// The titlebar's count: `1,234 words`.
pub fn word_count_label(count: usize) -> (s: String)
    ensures
        s@ == thousands(count as nat) + " words"@,
{
    format_thousands(count).concat(" words")
}

/// Progress against a goal of `goal` words set when the count was
/// `start`: the words written since (negative after cutting), and whether
/// the goal is reached.
pub fn goal_progress(count: usize, goal: usize, start: usize) -> (r: (i128, bool))
    ensures
        r.0 == count - start,
        r.1 == (count - start >= goal),
{
    let delta = (count as i128) - (start as i128);
    (delta, delta >= goal as i128)
}

/// The goal's label beside the count: `+412/500`.
pub fn goal_label(count: usize, goal: usize, start: usize) -> (s: String)
    ensures
        s@ == signed_spec(count - start) + seq!['/'] + decimal(goal as nat),
{
    let mut v: Vec<char> = Vec::new();
    if count >= start {
        v.push('+');
        push_decimal((count - start) as u64, &mut v);
    } else {
        v.push('-');
        push_decimal((start - count) as u64, &mut v);
    }
    v.push('/');
    push_decimal(goal as u64, &mut v);
    assert(v@ =~= signed_spec(count - start) + seq!['/'] + decimal(goal as nat));
    string_from_chars(&v)
}

} // verus!
