//! The margin's small decisions: which note a click lands on, which cards
//! surface and which recede, and what a card paints.

use vstd::prelude::*;
use vstd::string::StrSliceExecFns;
use std::collections::HashSet;

verus! {

broadcast use vstd::std_specs::hash::group_hash_axioms;

/// What kind of annotation a margin card shows.
#[derive(Clone, Copy, Debug, PartialEq, Eq, Structural)]
pub enum NoteKind {
    /// A note the writer typed.
    Note,
    /// A diagnosis from an AI pass.
    Diagnosis,
}

/// The door: a writer note always surfaces as a card; a diagnosis is hidden
/// while drafting, and a copy-level diagnosis is held back while a
/// developmental one is still open.
pub open spec fn surfaces_spec(kind: NoteKind, level: Seq<char>, drafting: bool, has_dev: bool) -> bool {
    kind != NoteKind::Diagnosis || (!drafting && !(has_dev && level == "copy"@))
}

/// Does this open note surface as a margin card right now?
pub fn note_surfaces(kind: NoteKind, level: &str, drafting: bool, has_dev: bool) -> (b: bool)
    ensures
        b == surfaces_spec(kind, level@, drafting, has_dev),
{
    if kind != NoteKind::Diagnosis {
        return true;
    }
    if drafting {
        return false;
    }
    !(has_dev && str_eq(level, "copy"))
}

/// String equality on `&str`.
pub fn str_eq(a: &str, b: &str) -> (r: bool)
    ensures
        r == (a@ == b@),
{
    let n = a.unicode_len();
    if n != b.unicode_len() {
        return false;
    }
    let mut i: usize = 0;
    while i < n
        invariant
            n == a@.len(),
            n == b@.len(),
            0 <= i <= n,
            forall|k: int| 0 <= k < i ==> a@[k] == b@[k],
        decreases n - i,
    {
        if a.get_char(i) != b.get_char(i) {
            return false;
        }
        i += 1;
    }
    assert(a@ =~= b@);
    true
}

/// Index of the first anchor `[start, end)` that strictly contains `c`.
pub open spec fn first_containing(r: Seq<(u64, usize, usize)>, c: int) -> Option<int>
    decreases r.len(),
{
    if r.len() == 0 {
        None
    } else if r[0].1 <= c < r[0].2 {
        Some(0)
    } else {
        match first_containing(r.drop_first(), c) {
            Some(i) => Some(i + 1),
            None => None,
        }
    }
}

/// Index of the first anchor that ends exactly at `c`.
pub open spec fn first_ending_at(r: Seq<(u64, usize, usize)>, c: int) -> Option<int>
    decreases r.len(),
{
    if r.len() == 0 {
        None
    } else if r[0].2 == c {
        Some(0)
    } else {
        match first_ending_at(r.drop_first(), c) {
            Some(i) => Some(i + 1),
            None => None,
        }
    }
}

/// The note a click at char index `c` activates: the first anchor that
/// strictly contains `c`, else the first one that ends exactly at `c`.
pub open spec fn note_at_spec(r: Seq<(u64, usize, usize)>, c: int) -> Option<u64> {
    match first_containing(r, c) {
        Some(i) => Some(r[i].0),
        None => match first_ending_at(r, c) {
            Some(i) => Some(r[i].0),
            None => None,
        },
    }
}

proof fn lemma_first_containing(r: Seq<(u64, usize, usize)>, c: int, i: int)
    requires
        0 <= i <= r.len(),
        forall|k: int| 0 <= k < i ==> !((#[trigger] r[k]).1 <= c < r[k].2),
    ensures
        first_containing(r, c) == (match first_containing(r.skip(i), c) {
            Some(j) => Some(j + i),
            None => None::<int>,
        }),
    decreases i,
{
    if i > 0 {
        lemma_first_containing(r.drop_first(), c, i - 1);
        assert(r.drop_first().skip(i - 1) =~= r.skip(i));
    } else {
        assert(r.skip(0) =~= r);
    }
}

proof fn lemma_first_ending(r: Seq<(u64, usize, usize)>, c: int, i: int)
    requires
        0 <= i <= r.len(),
        forall|k: int| 0 <= k < i ==> (#[trigger] r[k]).2 != c,
    ensures
        first_ending_at(r, c) == (match first_ending_at(r.skip(i), c) {
            Some(j) => Some(j + i),
            None => None::<int>,
        }),
    decreases i,
{
    if i > 0 {
        lemma_first_ending(r.drop_first(), c, i - 1);
        assert(r.drop_first().skip(i - 1) =~= r.skip(i));
    } else {
        assert(r.skip(0) =~= r);
    }
}

/// Which open annotation a click at char index `c` activates, given each
/// open note's `(id, start, end)`.
pub fn note_at_char(ranges: &[(u64, usize, usize)], c: usize) -> (r: Option<u64>)
    ensures
        r == note_at_spec(ranges@, c as int),
{
    let mut i: usize = 0;
    while i < ranges.len()
        invariant
            0 <= i <= ranges@.len(),
            forall|k: int| 0 <= k < i ==> !((#[trigger] ranges@[k]).1 <= c < ranges@[k].2),
        decreases ranges.len() - i,
    {
        let (id, s, e) = ranges[i];
        if s <= c && c < e {
            proof {
                lemma_first_containing(ranges@, c as int, i as int);
            }
            return Some(id);
        }
        i += 1;
    }
    proof {
        lemma_first_containing(ranges@, c as int, i as int);
    }
    let mut j: usize = 0;
    while j < ranges.len()
        invariant
            0 <= j <= ranges@.len(),
            first_containing(ranges@, c as int) is None,
            forall|k: int| 0 <= k < j ==> (#[trigger] ranges@[k]).2 != c,
        decreases ranges.len() - j,
    {
        let (id, _s, e) = ranges[j];
        if e == c {
            proof {
                lemma_first_ending(ranges@, c as int, j as int);
            }
            return Some(id);
        }
        j += 1;
    }
    proof {
        lemma_first_ending(ranges@, c as int, j as int);
    }
    None
}

/// `a` ranks with or ahead of `b` in the margin's budget order: a later pass
/// first, then the higher id.
pub open spec fn at_or_above(a: (u64, u64), b: (u64, u64)) -> bool {
    a.1 > b.1 || (a.1 == b.1 && a.0 >= b.0)
}

/// How many entries of `s` rank with or ahead of `e`.
pub open spec fn count_at_or_above(s: Seq<(u64, u64)>, e: (u64, u64)) -> nat
    decreases s.len(),
{
    if s.len() == 0 {
        0
    } else {
        count_at_or_above(s.drop_last(), e) + if at_or_above(s.last(), e) {
            1nat
        } else {
            0nat
        }
    }
}

/// The diagnoses among the first `n` entries that fall past the budget: once
/// the entries are ordered newest first (highest pass, then highest id), an
/// entry recedes when more than `cap` entries rank with or ahead of it.
pub open spec fn receded_among(s: Seq<(u64, u64)>, cap: nat, n: int) -> Set<u64> {
    Set::new(
        |id: u64|
            exists|k: int|
                0 <= k < n && (#[trigger] s[k]).0 == id && count_at_or_above(s, s[k]) > cap,
    )
}

/// The diagnoses past the full-size budget: all but the newest `cap`.
pub open spec fn receded_spec(s: Seq<(u64, u64)>, cap: nat) -> Set<u64> {
    receded_among(s, cap, s.len() as int)
}

proof fn lemma_count_le_len(s: Seq<(u64, u64)>, e: (u64, u64))
    ensures
        count_at_or_above(s, e) <= s.len(),
    decreases s.len(),
{
    if s.len() > 0 {
        lemma_count_le_len(s.drop_last(), e);
    }
}

/// How many entries rank with or ahead of `e`.
fn count_ahead(s: &[(u64, u64)], e: (u64, u64)) -> (n: usize)
    ensures
        n == count_at_or_above(s@, e),
{
    let mut n: usize = 0;
    let mut j: usize = 0;
    while j < s.len()
        invariant
            0 <= j <= s@.len(),
            n == count_at_or_above(s@.take(j as int), e),
            n <= j,
        decreases s.len() - j,
    {
        proof {
            assert(s@.take(j + 1).drop_last() =~= s@.take(j as int));
        }
        let (id, pass) = s[j];
        if pass > e.1 || (pass == e.1 && id >= e.0) {
            n += 1;
        }
        j += 1;
    }
    proof {
        assert(s@.take(s@.len() as int) =~= s@);
    }
    n
}

/// At most this many diagnosis cards render full size in the lane at once.
pub const FULL_DIAGNOSIS_CAP: usize = 5;

/// A card in the lane, as the full-size budget sees it.
#[derive(Clone, Copy, Debug)]
pub struct LaneCard {
    pub id: u64,
    pub pass_id: u64,
    pub diagnosis: bool,
    pub active: bool,
}

/// The cards the budget counts, as `(id, pass_id)`, in lane order: the
/// diagnoses other than the selected card. The writer's own notes are
/// never budgeted.
pub open spec fn budgeted(cards: Seq<LaneCard>) -> Seq<(u64, u64)>
    decreases cards.len(),
{
    if cards.len() == 0 {
        Seq::empty()
    } else {
        let rest = budgeted(cards.drop_last());
        let c = cards.last();
        if c.diagnosis && !c.active {
            rest.push((c.id, c.pass_id))
        } else {
            rest
        }
    }
}

proof fn lemma_budgeted_from_diagnoses(cards: Seq<LaneCard>)
    ensures
        forall|k: int|
            0 <= k < budgeted(cards).len() ==> exists|j: int|
                0 <= j < cards.len() && (#[trigger] cards[j]).id == (#[trigger] budgeted(cards)[k]).0
                    && cards[j].diagnosis && !cards[j].active,
    decreases cards.len(),
{
    if cards.len() > 0 {
        let init = cards.drop_last();
        lemma_budgeted_from_diagnoses(init);
        assert forall|k: int| 0 <= k < budgeted(cards).len() implies exists|j: int|
            0 <= j < cards.len() && (#[trigger] cards[j]).id == (#[trigger] budgeted(cards)[k]).0
                && cards[j].diagnosis && !cards[j].active by {
            if k < budgeted(init).len() {
                assert(budgeted(cards)[k] == budgeted(init)[k]);
                let j = choose|j: int|
                    0 <= j < init.len() && (#[trigger] init[j]).id == budgeted(init)[k].0
                        && init[j].diagnosis && !init[j].active;
                assert(cards[j] == init[j]);
            } else {
                assert(cards[cards.len() - 1] == cards.last());
            }
        }
    }
}

/// The lane cards that recede to one line: among the budgeted diagnoses,
/// all but the newest `FULL_DIAGNOSIS_CAP`. Only a diagnosis other than the
/// selected card ever recedes.
pub fn receded_cards(cards: &[LaneCard]) -> (r: HashSet<u64>)
    ensures
        r@ == receded_spec(budgeted(cards@), FULL_DIAGNOSIS_CAP as nat),
        forall|id: u64|
            r@.contains(id) ==> exists|j: int|
                0 <= j < cards@.len() && (#[trigger] cards@[j]).id == id && cards@[j].diagnosis
                    && !cards@[j].active,
{
    let mut surfaced: Vec<(u64, u64)> = Vec::new();
    let mut i: usize = 0;
    while i < cards.len()
        invariant
            0 <= i <= cards@.len(),
            surfaced@ == budgeted(cards@.take(i as int)),
        decreases cards.len() - i,
    {
        let c = cards[i];
        if c.diagnosis && !c.active {
            surfaced.push((c.id, c.pass_id));
        }
        i += 1;
        proof {
            assert(cards@.take(i as int).drop_last() =~= cards@.take(i - 1));
        }
    }
    proof {
        assert(cards@.take(cards@.len() as int) =~= cards@);
    }
    let r = oldest_beyond_cap(&surfaced, FULL_DIAGNOSIS_CAP);
    proof {
        lemma_budgeted_from_diagnoses(cards@);
        assert forall|id: u64| r@.contains(id) implies exists|j: int|
            0 <= j < cards@.len() && (#[trigger] cards@[j]).id == id && cards@[j].diagnosis
                && !cards@[j].active by {
            let s = surfaced@;
            let k = choose|k: int|
                0 <= k < s.len() && (#[trigger] s[k]).0 == id && count_at_or_above(s, s[k])
                    > FULL_DIAGNOSIS_CAP as nat;
            assert(budgeted(cards@)[k] == s[k]);
        }
    }
    r
}

/// Of the lane's diagnoses `(id, pass_id)`, the ones past the full-size
/// budget: the newest `cap` (highest pass_id, then id) stay full, the rest
/// recede to one-line cards.
pub fn oldest_beyond_cap(surfaced: &[(u64, u64)], cap: usize) -> (r: HashSet<u64>)
    ensures
        r@ == receded_spec(surfaced@, cap as nat),
        surfaced@.len() <= cap ==> r@.is_empty(),
{
    let mut out: HashSet<u64> = HashSet::new();
    let mut i: usize = 0;
    proof {
        assert(out@ =~= receded_among(surfaced@, cap as nat, 0));
    }
    while i < surfaced.len()
        invariant
            0 <= i <= surfaced@.len(),
            out@ == receded_among(surfaced@, cap as nat, i as int),
        decreases surfaced.len() - i,
    {
        let e = surfaced[i];
        let n = count_ahead(surfaced, e);
        if n > cap {
            out.insert(e.0);
        }
        proof {
            let s = surfaced@;
            assert forall|id: u64| #[trigger]
                receded_among(s, cap as nat, i + 1).contains(id) == out@.contains(id) by {
                if receded_among(s, cap as nat, i + 1).contains(id) {
                    let k = choose|k: int|
                        0 <= k < i + 1 && (#[trigger] s[k]).0 == id && count_at_or_above(s, s[k])
                            > cap;
                    if k < i {
                        assert(receded_among(s, cap as nat, i as int).contains(id));
                    }
                }
                if out@.contains(id) {
                    if !(n > cap && id == e.0) {
                        assert(receded_among(s, cap as nat, i as int).contains(id));
                        let k = choose|k: int|
                            0 <= k < i && (#[trigger] s[k]).0 == id && count_at_or_above(s, s[k])
                                > cap;
                        assert(0 <= k < i + 1);
                    } else {
                        assert(s[i as int].0 == id);
                    }
                }
            }
            assert(out@ =~= receded_among(s, cap as nat, i + 1));
        }
        i += 1;
    }
    proof {
        if surfaced@.len() <= cap {
            assert forall|k: int| 0 <= k < surfaced@.len() implies count_at_or_above(
                surfaced@,
                #[trigger] surfaced@[k],
            ) <= cap by {
                lemma_count_le_len(surfaced@, surfaced@[k]);
            }
            assert(out@ =~= Set::<u64>::empty());
        }
    }
    out
}

/// What a card paints in its body region: exactly one of a composer or the
/// note's text.
#[derive(Clone, Copy, Debug, PartialEq, Eq, Structural)]
pub enum CardBody {
    /// The note is being composed here: paint the input.
    Composer,
    /// Paint the committed text.
    Text,
}

/// A card's body region from whether its own composer is open.
pub fn card_body(composing_here: bool) -> (b: CardBody)
    ensures
        composing_here <==> b == CardBody::Composer,
        !composing_here <==> b == CardBody::Text,
{
    if composing_here {
        CardBody::Composer
    } else {
        CardBody::Text
    }
}

/// The margin's interaction state. The composer's identity and its input
/// live in one variant, so a draft can only ever address the card it edits.
pub enum CardFocus<I> {
    /// No card selected.
    Idle,
    /// A card is highlighted and raised, but not editable.
    Selected(u64),
    /// A note's body is open in the composer `input`.
    Composing { id: u64, input: I },
}

impl<I> CardFocus<I> {
    /// The card that gets the highlight and the top z-order, if any.
    pub open spec fn active_spec(&self) -> Option<u64> {
        match self {
            CardFocus::Idle => None,
            CardFocus::Selected(id) => Some(*id),
            CardFocus::Composing { id, .. } => Some(*id),
        }
    }

    /// The note whose composer is open, if one is.
    pub open spec fn composing_spec(&self) -> Option<u64> {
        match self {
            CardFocus::Composing { id, .. } => Some(*id),
            _ => None,
        }
    }

    /// The selected or composed card, if any.
    pub fn active_id(&self) -> (r: Option<u64>)
        ensures
            r == self.active_spec(),
    {
        match self {
            CardFocus::Idle => None,
            CardFocus::Selected(id) => Some(*id),
            CardFocus::Composing { id, .. } => Some(*id),
        }
    }

    /// The note whose composer is open, if one is.
    pub fn composing_id(&self) -> (r: Option<u64>)
        ensures
            r == self.composing_spec(),
    {
        match self {
            CardFocus::Composing { id, .. } => Some(*id),
            _ => None,
        }
    }

    /// The open composer's input, if composing.
    pub fn input(&self) -> (r: Option<&I>)
        ensures
            r is Some <==> self is Composing,
            self is Composing ==> r == Some(&self->input),
    {
        match self {
            CardFocus::Composing { input, .. } => Some(input),
            _ => None,
        }
    }
}

/// Whatever is being composed is also the active card: the composer and
/// the highlight can never address two different notes.
pub proof fn law_composing_is_active<I>(f: CardFocus<I>)
    ensures
        f.composing_spec() is Some ==> f.active_spec() == f.composing_spec(),
        f.input_present() <==> f.composing_spec() is Some,
{
}

impl<I> CardFocus<I> {
    /// An input is held exactly in the composing state.
    pub open spec fn input_present(&self) -> bool {
        self is Composing
    }
}

/// A note card's header label: "Note", or a diagnosis level (or
/// "Diagnosis" when it has none), with " · detached" when its anchor was
/// lost in a restore.
pub open spec fn card_label_spec(is_diagnosis: bool, level: Seq<char>, orphaned: bool) -> Seq<char> {
    let base = if is_diagnosis {
        if level.len() == 0 {
            "Diagnosis"@
        } else {
            level
        }
    } else {
        "Note"@
    };
    if orphaned {
        base + " · detached"@
    } else {
        base
    }
}

/// A note card's header label.
pub fn note_card_label(is_diagnosis: bool, level: &str, orphaned: bool) -> (s: String)
    ensures
        s@ == card_label_spec(is_diagnosis, level@, orphaned),
{
    let base: &str = if is_diagnosis {
        if level.unicode_len() == 0 {
            "Diagnosis"
        } else {
            level
        }
    } else {
        "Note"
    };
    let out = String::from_str(base);
    if orphaned {
        out.concat(" · detached")
    } else {
        out
    }
}

/// An open annotation, as the margin's door reads it.
#[derive(Debug)]
pub struct OpenNote {
    pub id: u64,
    pub kind: NoteKind,
    /// A diagnosis's level of edit (`developmental`, `line`, `copy`).
    pub level: String,
}

/// A diagnosis at the given level.
pub open spec fn is_diagnosis_at(n: OpenNote, level: Seq<char>) -> bool {
    n.kind == NoteKind::Diagnosis && n.level@ == level
}

/// How many of the notes satisfy `p`.
pub open spec fn count_where(notes: Seq<OpenNote>, p: spec_fn(OpenNote) -> bool) -> nat
    decreases notes.len(),
{
    if notes.len() == 0 {
        0
    } else {
        count_where(notes.drop_last(), p) + if p(notes.last()) {
            1nat
        } else {
            0nat
        }
    }
}

/// Some open developmental diagnosis exists.
pub open spec fn has_developmental(notes: Seq<OpenNote>) -> bool {
    exists|i: int| 0 <= i < notes.len() && is_diagnosis_at(#[trigger] notes[i], "developmental"@)
}

proof fn lemma_count_le(notes: Seq<OpenNote>, p: spec_fn(OpenNote) -> bool)
    ensures
        count_where(notes, p) <= notes.len(),
    decreases notes.len(),
{
    if notes.len() > 0 {
        lemma_count_le(notes.drop_last(), p);
    }
}

/// Open diagnoses the closed door holds back while drafting; the writer's
/// own notes never count.
pub fn resting_diagnoses(notes: &[OpenNote]) -> (n: usize)
    ensures
        n == count_where(notes@, |x: OpenNote| x.kind == NoteKind::Diagnosis),
{
    let mut n: usize = 0;
    let mut i: usize = 0;
    while i < notes.len()
        invariant
            0 <= i <= notes@.len(),
            n == count_where(notes@.take(i as int), |x: OpenNote| x.kind == NoteKind::Diagnosis),
            n <= i,
        decreases notes@.len() - i,
    {
        proof {
            assert(notes@.take(i + 1).drop_last() =~= notes@.take(i as int));
        }
        if notes[i].kind == NoteKind::Diagnosis {
            n += 1;
        }
        i += 1;
    }
    proof {
        assert(notes@.take(notes@.len() as int) =~= notes@);
    }
    n
}

/// Is some open diagnosis developmental?
fn any_developmental(notes: &[OpenNote]) -> (b: bool)
    ensures
        b == has_developmental(notes@),
{
    let mut i: usize = 0;
    while i < notes.len()
        invariant
            0 <= i <= notes@.len(),
            forall|k: int| 0 <= k < i ==> !is_diagnosis_at(#[trigger] notes@[k], "developmental"@),
        decreases notes@.len() - i,
    {
        if notes[i].kind == NoteKind::Diagnosis && str_eq(notes[i].level.as_str(), "developmental") {
            return true;
        }
        i += 1;
    }
    false
}

/// Copy-level diagnoses held back while a developmental one is still open;
/// zero unless both exist.
pub fn suppressed_copy(notes: &[OpenNote]) -> (n: usize)
    ensures
        n == (if has_developmental(notes@) {
            count_where(notes@, |x: OpenNote| is_diagnosis_at(x, "copy"@))
        } else {
            0
        }),
{
    if !any_developmental(notes) {
        return 0;
    }
    let mut n: usize = 0;
    let mut i: usize = 0;
    while i < notes.len()
        invariant
            0 <= i <= notes@.len(),
            n == count_where(notes@.take(i as int), |x: OpenNote| is_diagnosis_at(x, "copy"@)),
            n <= i,
        decreases notes@.len() - i,
    {
        proof {
            assert(notes@.take(i + 1).drop_last() =~= notes@.take(i as int));
        }
        if notes[i].kind == NoteKind::Diagnosis && str_eq(notes[i].level.as_str(), "copy") {
            n += 1;
        }
        i += 1;
    }
    proof {
        assert(notes@.take(notes@.len() as int) =~= notes@);
    }
    n
}

/// The rail's count: diagnoses resting behind the door while drafting,
/// copy-level ones held back while reviewing; none when that is zero.
pub fn margin_rail_count(notes: &[OpenNote], drafting: bool) -> (r: Option<usize>)
    ensures
        ({
            let n = if drafting {
                count_where(notes@, |x: OpenNote| x.kind == NoteKind::Diagnosis)
            } else if has_developmental(notes@) {
                count_where(notes@, |x: OpenNote| is_diagnosis_at(x, "copy"@))
            } else {
                0
            };
            r == (if n > 0 {
                Some(n as usize)
            } else {
                None::<usize>
            })
        }),
{
    let n = if drafting {
        resting_diagnoses(notes)
    } else {
        suppressed_copy(notes)
    };
    if n > 0 {
        Some(n)
    } else {
        None
    }
}

/// Would any open note surface as a margin card right now?
pub open spec fn any_surfaces(notes: Seq<OpenNote>, drafting: bool) -> bool {
    exists|i: int|
        0 <= i < notes.len() && surfaces_spec(
            (#[trigger] notes[i]).kind,
            notes[i].level@,
            drafting,
            !drafting && has_developmental(notes),
        )
}

/// Would any open note surface as a card? The door's filter without
/// placing a single card.
pub fn has_margin_cards(notes: &[OpenNote], drafting: bool) -> (b: bool)
    ensures
        b == any_surfaces(notes@, drafting),
{
    let has_dev = !drafting && any_developmental(notes);
    let mut i: usize = 0;
    while i < notes.len()
        invariant
            0 <= i <= notes@.len(),
            has_dev == (!drafting && has_developmental(notes@)),
            forall|k: int|
                0 <= k < i ==> !surfaces_spec(
                    (#[trigger] notes@[k]).kind,
                    notes@[k].level@,
                    drafting,
                    has_dev,
                ),
        decreases notes@.len() - i,
    {
        if note_surfaces(notes[i].kind, notes[i].level.as_str(), drafting, has_dev) {
            return true;
        }
        i += 1;
    }
    false
}

/// The count on the narrow-window pill: the cards when there are any, else
/// the rail's count.
pub fn narrow_notes_count(cards: usize, rail: Option<usize>) -> (n: usize)
    ensures
        n == (if cards == 0 {
            match rail {
                Some(k) => k,
                None => 0,
            }
        } else {
            cards
        }),
{
    if cards == 0 {
        match rail {
            Some(k) => k,
            None => 0,
        }
    } else {
        cards
    }
}

/// The levels-of-edit depth in force: the session's override, else the
/// configured one; anything but `developmental` or `copy` reads as `line`.
pub open spec fn mode_spec(session: Option<Seq<char>>, config: Seq<char>) -> Seq<char> {
    let m = match session {
        Some(s) => s,
        None => config,
    };
    if m == "developmental"@ || m == "copy"@ {
        m
    } else {
        "line"@
    }
}

/// The effective levels-of-edit depth.
pub fn effective_mode(session: &Option<String>, config: &str) -> (r: String)
    ensures
        r@ == mode_spec(
            match session {
                Some(s) => Some(s@),
                None => None,
            },
            config@,
        ),
{
    let m: &str = match session {
        Some(s) => s.as_str(),
        None => config,
    };
    if str_eq(m, "developmental") || str_eq(m, "copy") {
        String::from_str(m)
    } else {
        String::from_str("line")
    }
}

} // verus!
