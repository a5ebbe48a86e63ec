//! How a paragraph paints: cut into runs at every boundary of the
//! selection, the text being composed, the inline formatting, the margin
//! notes' anchors, the find matches and the deletions of a history diff;
//! each run with its look.
//!
//! A look names inks and background layers; the renderer turns them into
//! colours and composites the layers bottom to top, the selection over all.

use vstd::prelude::*;

verus! {

/// Inline formatting of a span of text.
#[derive(Clone, Copy, Debug, PartialEq, Eq, Structural)]
pub enum SpanAttr {
    Strong,
    Emphasis,
    Underline,
    Strikethrough,
    Highlight,
    Code,
    Link,
    FootnoteRef,
}

/// The colour a run's glyphs (or a line under them) take.
#[derive(Clone, Copy, Debug, PartialEq, Eq, Structural)]
pub enum Ink {
    /// The paragraph's own text colour.
    Text,
    Link,
    /// Glyphs that keep their advance but do not ink (a footnote reference's
    /// carrier digits, under the painted superior figure).
    Transparent,
    /// Deleted text in a history diff.
    Muted,
    /// The AI's marks.
    Accent,
}

/// A background layer.
#[derive(Clone, Copy, Debug, PartialEq, Eq, Structural)]
pub enum Tint {
    Highlight,
    Code,
    /// A resting writer's note's anchor.
    Note,
    /// The active writer's note's anchor.
    NoteActive,
    /// The active diagnosis's anchor.
    DiagnosisActive,
    FindMatch,
}

/// A line under the text: straight, or the wavy squiggle of a resting
/// diagnosis.
#[derive(Clone, Copy, Debug, PartialEq, Eq, Structural)]
pub struct Underline {
    pub wavy: bool,
    pub ink: Ink,
}

/// A run's glyph styling: weight, slant, family, ink and the lines on it,
/// and the background the inline formatting gives it.
#[derive(Clone, Copy, Debug, PartialEq, Eq)]
pub struct Paint {
    pub bold: bool,
    pub italic: bool,
    pub code_font: bool,
    pub ink: Ink,
    pub underline: Option<Underline>,
    pub strikethrough: Option<Ink>,
    pub span_bg: Option<Tint>,
}

/// One run of a paragraph: the bytes `start..end` and their look. The
/// background layers are `backdrop`, bottom first; the selection, when
/// `selected`, goes over them.
#[derive(Debug)]
pub struct Run {
    pub start: usize,
    pub end: usize,
    pub paint: Paint,
    pub backdrop: Vec<Tint>,
    pub selected: bool,
}

/// Bytes `w0..w1` lie inside `r`.
pub open spec fn covers(r: (usize, usize), w0: int, w1: int) -> bool {
    r.0 <= w0 && w1 <= r.1
}

/// What one formatting span does to the look of a run it covers.
pub open spec fn apply_attr(p: Paint, a: SpanAttr) -> Paint {
    match a {
        SpanAttr::Strong => Paint { bold: true, ..p },
        SpanAttr::Emphasis => Paint { italic: true, ..p },
        SpanAttr::Underline => Paint {
            underline: if p.underline is Some {
                p.underline
            } else {
                Some(Underline { wavy: false, ink: p.ink })
            },
            ..p
        },
        SpanAttr::Strikethrough => Paint { strikethrough: Some(p.ink), ..p },
        SpanAttr::Highlight => Paint {
            span_bg: if p.span_bg is Some {
                p.span_bg
            } else {
                Some(Tint::Highlight)
            },
            ..p
        },
        SpanAttr::Code => Paint {
            code_font: true,
            span_bg: if p.span_bg is Some {
                p.span_bg
            } else {
                Some(Tint::Code)
            },
            ..p
        },
        SpanAttr::Link => Paint {
            ink: Ink::Link,
            underline: if p.underline is Some {
                p.underline
            } else {
                Some(Underline { wavy: false, ink: Ink::Link })
            },
            ..p
        },
        SpanAttr::FootnoteRef => Paint { ink: Ink::Transparent, ..p },
    }
}

/// The look of bytes `w0..w1` after the first `k` spans, in order.
pub open spec fn span_paint(spans: Seq<((usize, usize), SpanAttr)>, w0: int, w1: int, start: Paint, k: int) -> Paint
    decreases k,
{
    if k <= 0 {
        start
    } else {
        let p = span_paint(spans, w0, w1, start, k - 1);
        if covers(spans[k - 1].0, w0, w1) {
            apply_attr(p, spans[k - 1].1)
        } else {
            p
        }
    }
}

/// The line and the background layers the first `k` notes give bytes
/// `w0..w1`: a resting diagnosis's squiggle (unless a line is already
/// there), or the tint of the note's kind and state.
pub open spec fn note_paint(notes: Seq<((usize, usize), bool, bool)>, w0: int, w1: int, line: Option<Underline>, k: int) -> (
    Option<Underline>,
    Seq<Tint>,
)
    decreases k,
{
    if k <= 0 {
        (line, Seq::empty())
    } else {
        let (u, layers) = note_paint(notes, w0, w1, line, k - 1);
        let n = notes[k - 1];
        if !covers(n.0, w0, w1) {
            (u, layers)
        } else if n.2 && !n.1 {
            (if u is Some { u } else { Some(Underline { wavy: true, ink: Ink::Accent }) }, layers)
        } else {
            (u, layers.push(if n.2 { Tint::DiagnosisActive } else if n.1 { Tint::NoteActive } else { Tint::Note }))
        }
    }
}

/// The find-match layers over bytes `w0..w1`, one per covering match.
pub open spec fn match_layers(matches: Seq<(usize, usize)>, w0: int, w1: int, k: int) -> Seq<Tint>
    decreases k,
{
    if k <= 0 {
        Seq::empty()
    } else {
        let layers = match_layers(matches, w0, w1, k - 1);
        if covers(matches[k - 1], w0, w1) {
            layers.push(Tint::FindMatch)
        } else {
            layers
        }
    }
}

/// Some range of `rs` covers bytes `w0..w1`.
pub open spec fn any_covers(rs: Seq<(usize, usize)>, w0: int, w1: int) -> bool {
    exists|i: int| 0 <= i < rs.len() && covers(#[trigger] rs[i], w0, w1)
}

/// The look of the run `w0..w1` before any span: the paragraph's font and
/// ink, underlined when the text being composed covers it.
pub open spec fn start_paint(marked: Option<(usize, usize)>, w0: int, w1: int) -> Paint {
    let in_marked = match marked {
        Some(m) => covers(m, w0, w1),
        None => false,
    };
    Paint {
        bold: false,
        italic: false,
        code_font: false,
        ink: Ink::Text,
        underline: if in_marked { Some(Underline { wavy: false, ink: Ink::Text }) } else { None },
        strikethrough: None,
        span_bg: None,
    }
}

/// The look of the run `w0..w1`, with its background layers.
pub open spec fn run_look(
    selection: (usize, usize),
    marked: Option<(usize, usize)>,
    spans: Seq<((usize, usize), SpanAttr)>,
    notes: Seq<((usize, usize), bool, bool)>,
    matches: Seq<(usize, usize)>,
    dels: Seq<(usize, usize)>,
    w0: int,
    w1: int,
) -> (Paint, Seq<Tint>) {
    let p = span_paint(spans, w0, w1, start_paint(marked, w0, w1), spans.len() as int);
    let (line, tints) = note_paint(notes, w0, w1, p.underline, notes.len() as int);
    let deleted = any_covers(dels, w0, w1);
    let paint = Paint {
        underline: line,
        ink: if deleted { Ink::Muted } else { p.ink },
        strikethrough: if deleted { Some(Ink::Muted) } else { p.strikethrough },
        ..p
    };
    let base: Seq<Tint> = match p.span_bg {
        Some(t) => seq![t],
        None => Seq::empty(),
    };
    (paint, base + tints + match_layers(matches, w0, w1, matches.len() as int))
}

/// Every range whose ends cut the paragraph into runs.
pub open spec fn cut_sources(
    selection: (usize, usize),
    marked: Option<(usize, usize)>,
    spans: Seq<((usize, usize), SpanAttr)>,
    notes: Seq<((usize, usize), bool, bool)>,
    matches: Seq<(usize, usize)>,
    dels: Seq<(usize, usize)>,
) -> Seq<(usize, usize)> {
    seq![selection] + match marked {
        Some(m) => seq![m],
        None => Seq::empty(),
    } + spans.map_values(|s: ((usize, usize), SpanAttr)| s.0) + notes.map_values(
        |n: ((usize, usize), bool, bool)| n.0,
    ) + matches + dels
}

/// `x` held to the paragraph's bytes.
pub open spec fn clamp_to(par: (usize, usize), x: usize) -> int {
    if x < par.0 {
        par.0 as int
    } else if x > par.1 {
        par.1 as int
    } else {
        x as int
    }
}

/// `x` is a cut: an end of the paragraph, or an end of a source range held
/// to the paragraph.
pub open spec fn is_cut(par: (usize, usize), rs: Seq<(usize, usize)>, x: int) -> bool {
    x == par.0 || x == par.1 || exists|i: int|
        0 <= i < rs.len() && (clamp_to(par, (#[trigger] rs[i]).0) == x || clamp_to(par, rs[i].1) == x)
}

fn clamp_exec(par: (usize, usize), x: usize) -> (r: usize)
    requires
        par.0 <= par.1,
    ensures
        r == clamp_to(par, x),
{
    if x < par.0 {
        par.0
    } else if x > par.1 {
        par.1
    } else {
        x
    }
}

fn push_ranges(out: &mut Vec<(usize, usize)>, rs: &[(usize, usize)])
    ensures
        final(out)@ == old(out)@ + rs@,
{
    let ghost before = out@;
    let mut i: usize = 0;
    while i < rs.len()
        invariant
            0 <= i <= rs@.len(),
            out@ == before + rs@.take(i as int),
        decreases rs.len() - i,
    {
        out.push(rs[i]);
        i += 1;
        proof {
            assert(out@ =~= before + rs@.take(i as int));
        }
    }
    proof {
        assert(rs@.take(rs@.len() as int) =~= rs@);
    }
}

/// All the cut sources, in one list.
fn gather_sources(
    selection: (usize, usize),
    marked: Option<(usize, usize)>,
    spans: &[((usize, usize), SpanAttr)],
    notes: &[((usize, usize), bool, bool)],
    matches: &[(usize, usize)],
    dels: &[(usize, usize)],
) -> (r: Vec<(usize, usize)>)
    ensures
        r@ == cut_sources(selection, marked, spans@, notes@, matches@, dels@),
{
    let mut out: Vec<(usize, usize)> = Vec::new();
    out.push(selection);
    match marked {
        Some(m) => {
            out.push(m);
        },
        None => {},
    }
    let ghost head = out@;
    let mut i: usize = 0;
    while i < spans.len()
        invariant
            0 <= i <= spans@.len(),
            out@ == head + spans@.take(i as int).map_values(
                |s: ((usize, usize), SpanAttr)| s.0,
            ),
        decreases spans.len() - i,
    {
        out.push(spans[i].0);
        i += 1;
        proof {
            assert(out@ =~= head + spans@.take(i as int).map_values(
                |s: ((usize, usize), SpanAttr)| s.0,
            ));
        }
    }
    proof {
        assert(spans@.take(spans@.len() as int) =~= spans@);
    }
    let ghost mid = out@;
    let mut j: usize = 0;
    while j < notes.len()
        invariant
            0 <= j <= notes@.len(),
            out@ == mid + notes@.take(j as int).map_values(
                |n: ((usize, usize), bool, bool)| n.0,
            ),
        decreases notes.len() - j,
    {
        out.push(notes[j].0);
        j += 1;
        proof {
            assert(out@ =~= mid + notes@.take(j as int).map_values(
                |n: ((usize, usize), bool, bool)| n.0,
            ));
        }
    }
    proof {
        assert(notes@.take(notes@.len() as int) =~= notes@);
    }
    push_ranges(&mut out, matches);
    push_ranges(&mut out, dels);
    proof {
        let m: Seq<(usize, usize)> = match marked {
            Some(m) => seq![m],
            None => Seq::empty(),
        };
        assert(head =~= seq![selection] + m);
        assert(out@ =~= cut_sources(selection, marked, spans@, notes@, matches@, dels@));
    }
    out
}

/// The next cut after `p`.
fn next_cut(par: (usize, usize), rs: &Vec<(usize, usize)>, p: usize) -> (q: usize)
    requires
        par.0 <= p < par.1,
    ensures
        p < q <= par.1,
        is_cut(par, rs@, q as int),
        forall|x: int| p < x < q ==> !is_cut(par, rs@, x),
{
    let mut q = par.1;
    let mut i: usize = 0;
    while i < rs.len()
        invariant
            par.0 <= p < q <= par.1,
            0 <= i <= rs@.len(),
            is_cut(par, rs@, q as int),
            forall|k: int|
                0 <= k < i ==> !(p < clamp_to(par, (#[trigger] rs@[k]).0) < q) && !(p < clamp_to(
                    par,
                    rs@[k].1,
                ) < q),
        decreases rs.len() - i,
    {
        let a = clamp_exec(par, rs[i].0);
        if p < a && a < q {
            q = a;
        }
        let b = clamp_exec(par, rs[i].1);
        if p < b && b < q {
            q = b;
        }
        i += 1;
    }
    q
}

/// The look of the run `w0..w1`.
fn look_of(
    selection: (usize, usize),
    marked: Option<(usize, usize)>,
    spans: &[((usize, usize), SpanAttr)],
    notes: &[((usize, usize), bool, bool)],
    matches: &[(usize, usize)],
    dels: &[(usize, usize)],
    w0: usize,
    w1: usize,
) -> (r: (Paint, Vec<Tint>))
    ensures
        r.0 == run_look(selection, marked, spans@, notes@, matches@, dels@, w0 as int, w1 as int).0,
        r.1@ == run_look(selection, marked, spans@, notes@, matches@, dels@, w0 as int, w1 as int).1,
{
    let in_marked = match marked {
        Some(m) => m.0 <= w0 && w1 <= m.1,
        None => false,
    };
    let start = Paint {
        bold: false,
        italic: false,
        code_font: false,
        ink: Ink::Text,
        underline: if in_marked {
            Some(Underline { wavy: false, ink: Ink::Text })
        } else {
            None
        },
        strikethrough: None,
        span_bg: None,
    };
    let mut p = start;
    let mut i: usize = 0;
    while i < spans.len()
        invariant
            0 <= i <= spans@.len(),
            p == span_paint(spans@, w0 as int, w1 as int, start, i as int),
        decreases spans.len() - i,
    {
        let (range, attr) = spans[i];
        if range.0 <= w0 && w1 <= range.1 {
            match attr {
                SpanAttr::Strong => {
                    p.bold = true;
                },
                SpanAttr::Emphasis => {
                    p.italic = true;
                },
                SpanAttr::Underline => {
                    if p.underline.is_none() {
                        p.underline = Some(Underline { wavy: false, ink: p.ink });
                    }
                },
                SpanAttr::Strikethrough => {
                    p.strikethrough = Some(p.ink);
                },
                SpanAttr::Highlight => {
                    if p.span_bg.is_none() {
                        p.span_bg = Some(Tint::Highlight);
                    }
                },
                SpanAttr::Code => {
                    p.code_font = true;
                    if p.span_bg.is_none() {
                        p.span_bg = Some(Tint::Code);
                    }
                },
                SpanAttr::Link => {
                    p.ink = Ink::Link;
                    if p.underline.is_none() {
                        p.underline = Some(Underline { wavy: false, ink: Ink::Link });
                    }
                },
                SpanAttr::FootnoteRef => {
                    p.ink = Ink::Transparent;
                },
            }
        }
        i += 1;
    }
    let span_final = p;
    let mut line = p.underline;
    let mut tints: Vec<Tint> = Vec::new();
    let mut j: usize = 0;
    while j < notes.len()
        invariant
            0 <= j <= notes@.len(),
            (line, tints@) == note_paint(notes@, w0 as int, w1 as int, span_final.underline, j as int),
        decreases notes.len() - j,
    {
        let (r, active, is_diagnosis) = notes[j];
        if r.0 <= w0 && w1 <= r.1 {
            if is_diagnosis && !active {
                if line.is_none() {
                    line = Some(Underline { wavy: true, ink: Ink::Accent });
                }
            } else {
                let tint = if is_diagnosis {
                    Tint::DiagnosisActive
                } else if active {
                    Tint::NoteActive
                } else {
                    Tint::Note
                };
                tints.push(tint);
            }
        }
        j += 1;
    }
    let mut found: Vec<Tint> = Vec::new();
    let mut k: usize = 0;
    while k < matches.len()
        invariant
            0 <= k <= matches@.len(),
            found@ == match_layers(matches@, w0 as int, w1 as int, k as int),
        decreases matches.len() - k,
    {
        let r = matches[k];
        if r.0 <= w0 && w1 <= r.1 {
            found.push(Tint::FindMatch);
        }
        k += 1;
    }
    let mut deleted = false;
    let mut d: usize = 0;
    while d < dels.len()
        invariant
            0 <= d <= dels@.len(),
            deleted == exists|i: int| 0 <= i < d && covers(#[trigger] dels@[i], w0 as int, w1 as int),
        decreases dels.len() - d,
    {
        let r = dels[d];
        if r.0 <= w0 && w1 <= r.1 {
            deleted = true;
        }
        d += 1;
    }
    let paint = Paint {
        underline: line,
        ink: if deleted {
            Ink::Muted
        } else {
            p.ink
        },
        strikethrough: if deleted {
            Some(Ink::Muted)
        } else {
            p.strikethrough
        },
        ..p
    };
    let mut backdrop: Vec<Tint> = Vec::new();
    match p.span_bg {
        Some(t) => {
            backdrop.push(t);
        },
        None => {},
    }
    let ghost base = backdrop@;
    let mut a: usize = 0;
    while a < tints.len()
        invariant
            0 <= a <= tints@.len(),
            backdrop@ == base + tints@.take(a as int),
        decreases tints.len() - a,
    {
        backdrop.push(tints[a]);
        a += 1;
        proof {
            assert(backdrop@ =~= base + tints@.take(a as int));
        }
    }
    proof {
        assert(tints@.take(tints@.len() as int) =~= tints@);
    }
    let ghost mid = backdrop@;
    let mut b: usize = 0;
    while b < found.len()
        invariant
            0 <= b <= found@.len(),
            backdrop@ == mid + found@.take(b as int),
        decreases found.len() - b,
    {
        backdrop.push(found[b]);
        b += 1;
        proof {
            assert(backdrop@ =~= mid + found@.take(b as int));
        }
    }
    proof {
        assert(found@.take(found@.len() as int) =~= found@);
        let look = run_look(selection, marked, spans@, notes@, matches@, dels@, w0 as int, w1 as int);
        let bs: Seq<Tint> = match p.span_bg {
            Some(t) => seq![t],
            None => Seq::empty(),
        };
        assert(base =~= bs);
        assert(backdrop@ =~= look.1);
    }
    (paint, backdrop)
}

/// The runs of the paragraph `par`: cut at every end of the selection, the
/// composed text, the spans, the note anchors, the find matches and the
/// deletions (held to the paragraph), in order, each with its look; a run
/// is selected when it lies inside the selection.
pub fn runs_for_paragraph(
    par: (usize, usize),
    selection: (usize, usize),
    marked: Option<(usize, usize)>,
    spans: &[((usize, usize), SpanAttr)],
    notes: &[((usize, usize), bool, bool)],
    matches: &[(usize, usize)],
    dels: &[(usize, usize)],
) -> (r: Vec<Run>)
    requires
        par.0 <= par.1,
    ensures
        par.0 == par.1 ==> r.len() == 0,
        par.0 < par.1 ==> r.len() > 0 && r@[0].start == par.0 && r@[r.len() - 1].end == par.1,
        forall|k: int| 0 <= k < r.len() - 1 ==> r@[k].end == (#[trigger] r@[k + 1]).start,
        forall|x: int|
            par.0 <= x < par.1 && is_cut(
                par,
                cut_sources(selection, marked, spans@, notes@, matches@, dels@),
                x,
            ) ==> exists|k: int| 0 <= k < r.len() && (#[trigger] r@[k]).start == x,
        forall|k: int|
            0 <= k < r.len() ==> {
                let w = #[trigger] r@[k];
                let srcs = cut_sources(selection, marked, spans@, notes@, matches@, dels@);
                &&& w.start < w.end
                &&& is_cut(par, srcs, w.start as int)
                &&& is_cut(par, srcs, w.end as int)
                &&& forall|x: int| w.start < x < w.end ==> !is_cut(par, srcs, x)
                &&& w.paint == run_look(
                    selection,
                    marked,
                    spans@,
                    notes@,
                    matches@,
                    dels@,
                    w.start as int,
                    w.end as int,
                ).0
                &&& w.backdrop@ == run_look(
                    selection,
                    marked,
                    spans@,
                    notes@,
                    matches@,
                    dels@,
                    w.start as int,
                    w.end as int,
                ).1
                &&& w.selected == (selection.0 <= w.start && w.end <= selection.1)
            },
{
    let srcs = gather_sources(selection, marked, spans, notes, matches, dels);
    let mut runs: Vec<Run> = Vec::new();
    let mut p = par.0;
    while p < par.1
        invariant
            par.0 <= p <= par.1,
            srcs@ == cut_sources(selection, marked, spans@, notes@, matches@, dels@),
            is_cut(par, srcs@, p as int),
            runs.len() == 0 ==> p == par.0,
            runs.len() > 0 ==> runs@[0].start == par.0 && runs@[runs.len() - 1].end == p,
            forall|x: int|
                par.0 <= x < p && is_cut(par, srcs@, x) ==> exists|k: int|
                    0 <= k < runs.len() && (#[trigger] runs@[k]).start == x,
            forall|k: int| 0 <= k < runs.len() - 1 ==> runs@[k].end == (#[trigger] runs@[k + 1]).start,
            forall|k: int|
                0 <= k < runs.len() ==> {
                    let w = #[trigger] runs@[k];
                    &&& w.start < w.end
                    &&& is_cut(par, srcs@, w.start as int)
                    &&& is_cut(par, srcs@, w.end as int)
                    &&& forall|x: int| w.start < x < w.end ==> !is_cut(par, srcs@, x)
                    &&& w.paint == run_look(
                        selection,
                        marked,
                        spans@,
                        notes@,
                        matches@,
                        dels@,
                        w.start as int,
                        w.end as int,
                    ).0
                    &&& w.backdrop@ == run_look(
                        selection,
                        marked,
                        spans@,
                        notes@,
                        matches@,
                        dels@,
                        w.start as int,
                        w.end as int,
                    ).1
                    &&& w.selected == (selection.0 <= w.start && w.end <= selection.1)
                },
        decreases par.1 - p,
    {
        let q = next_cut(par, &srcs, p);
        let (paint, backdrop) = look_of(selection, marked, spans, notes, matches, dels, p, q);
        let selected = selection.0 <= p && q <= selection.1;
        let ghost before = runs@;
        runs.push(Run { start: p, end: q, paint, backdrop, selected });
        proof {
            assert forall|x: int| par.0 <= x < q && is_cut(par, srcs@, x) implies exists|k: int|
                0 <= k < runs.len() && (#[trigger] runs@[k]).start == x by {
                if x < p {
                    let k = choose|k: int| 0 <= k < before.len() && (#[trigger] before[k]).start == x;
                    assert(runs@[k] == before[k]);
                } else {
                    assert(x == p);
                    assert(runs@[before.len() as int].start == x);
                }
            }
        }
        p = q;
    }
    runs
}

/// The look of text that no formatting, note, match or deletion covers.
pub open spec fn plain_paint() -> Paint {
    Paint {
        bold: false,
        italic: false,
        code_font: false,
        ink: Ink::Text,
        underline: None,
        strikethrough: None,
        span_bg: None,
    }
}

proof fn lemma_span_paint_untouched(spans: Seq<((usize, usize), SpanAttr)>, w0: int, w1: int, start: Paint, k: int)
    requires
        k <= spans.len(),
        forall|i: int| 0 <= i < spans.len() ==> !covers((#[trigger] spans[i]).0, w0, w1),
    ensures
        span_paint(spans, w0, w1, start, k) == start,
    decreases k,
{
    if k > 0 {
        lemma_span_paint_untouched(spans, w0, w1, start, k - 1);
        assert(!covers(spans[k - 1].0, w0, w1));
    }
}

proof fn lemma_note_paint_untouched(notes: Seq<((usize, usize), bool, bool)>, w0: int, w1: int, line: Option<Underline>, k: int)
    requires
        k <= notes.len(),
        forall|i: int| 0 <= i < notes.len() ==> !covers((#[trigger] notes[i]).0, w0, w1),
    ensures
        note_paint(notes, w0, w1, line, k) == (line, Seq::<Tint>::empty()),
    decreases k,
{
    if k > 0 {
        lemma_note_paint_untouched(notes, w0, w1, line, k - 1);
        assert(!covers(notes[k - 1].0, w0, w1));
    }
}

proof fn lemma_match_layers_untouched(matches: Seq<(usize, usize)>, w0: int, w1: int, k: int)
    requires
        k <= matches.len(),
        forall|i: int| 0 <= i < matches.len() ==> !covers(#[trigger] matches[i], w0, w1),
    ensures
        match_layers(matches, w0, w1, k) == Seq::<Tint>::empty(),
    decreases k,
{
    if k > 0 {
        lemma_match_layers_untouched(matches, w0, w1, k - 1);
        assert(!covers(matches[k - 1], w0, w1));
    }
}

/// Text that no span, note anchor, find match, deletion or composed text
/// covers paints plain: the paragraph's font and ink, no lines under or
/// through it, no background layer.
pub proof fn law_untouched_text_is_plain(
    selection: (usize, usize),
    marked: Option<(usize, usize)>,
    spans: Seq<((usize, usize), SpanAttr)>,
    notes: Seq<((usize, usize), bool, bool)>,
    matches: Seq<(usize, usize)>,
    dels: Seq<(usize, usize)>,
    w0: int,
    w1: int,
)
    requires
        marked matches Some(m) ==> !covers(m, w0, w1),
        forall|i: int| 0 <= i < spans.len() ==> !covers((#[trigger] spans[i]).0, w0, w1),
        forall|i: int| 0 <= i < notes.len() ==> !covers((#[trigger] notes[i]).0, w0, w1),
        forall|i: int| 0 <= i < matches.len() ==> !covers(#[trigger] matches[i], w0, w1),
        forall|i: int| 0 <= i < dels.len() ==> !covers(#[trigger] dels[i], w0, w1),
    ensures
        run_look(selection, marked, spans, notes, matches, dels, w0, w1).0 == plain_paint(),
        run_look(selection, marked, spans, notes, matches, dels, w0, w1).1 == Seq::<Tint>::empty(),
{
    lemma_span_paint_untouched(spans, w0, w1, plain_paint(), spans.len() as int);
    lemma_note_paint_untouched(notes, w0, w1, None, notes.len() as int);
    lemma_match_layers_untouched(matches, w0, w1, matches.len() as int);
    assert(!any_covers(dels, w0, w1));
    assert(Seq::<Tint>::empty() + Seq::<Tint>::empty() + Seq::<Tint>::empty() =~= Seq::<Tint>::empty());
}

/// A span that is not a strikethrough leaves the line through the text as
/// it was.
proof fn lemma_span_paint_keeps_strike(
    spans: Seq<((usize, usize), SpanAttr)>,
    w0: int,
    w1: int,
    start: Paint,
    j: int,
    k: int,
)
    requires
        0 <= j <= k <= spans.len(),
        forall|i: int|
            j <= i < spans.len() && covers((#[trigger] spans[i]).0, w0, w1) ==> spans[i].1 != SpanAttr::Strikethrough,
    ensures
        span_paint(spans, w0, w1, start, k).strikethrough == span_paint(spans, w0, w1, start, j).strikethrough,
    decreases k - j,
{
    if k > j {
        lemma_span_paint_keeps_strike(spans, w0, w1, start, j, k - 1);
        if covers(spans[k - 1].0, w0, w1) {
            assert(spans[k - 1].1 != SpanAttr::Strikethrough);
        }
    }
}

/// Spans other than links and footnote references keep the ink.
proof fn lemma_span_paint_keeps_ink(
    spans: Seq<((usize, usize), SpanAttr)>,
    w0: int,
    w1: int,
    start: Paint,
    k: int,
)
    requires
        0 <= k <= spans.len(),
        forall|i: int|
            0 <= i < spans.len() && covers((#[trigger] spans[i]).0, w0, w1) ==> spans[i].1 != SpanAttr::Link
                && spans[i].1 != SpanAttr::FootnoteRef,
    ensures
        span_paint(spans, w0, w1, start, k).ink == start.ink,
    decreases k,
{
    if k > 0 {
        lemma_span_paint_keeps_ink(spans, w0, w1, start, k - 1);
        if covers(spans[k - 1].0, w0, w1) {
            assert(spans[k - 1].1 != SpanAttr::Link && spans[k - 1].1 != SpanAttr::FootnoteRef);
        }
    }
}

/// Where no span changes the ink, a strikethrough's line keeps the
/// starting ink through every later span.
proof fn lemma_span_paint_strike_in_text_ink(
    spans: Seq<((usize, usize), SpanAttr)>,
    w0: int,
    w1: int,
    start: Paint,
    j: int,
    k: int,
)
    requires
        0 <= j < k <= spans.len(),
        covers(spans[j].0, w0, w1),
        spans[j].1 == SpanAttr::Strikethrough,
        forall|i: int|
            0 <= i < spans.len() && covers((#[trigger] spans[i]).0, w0, w1) ==> spans[i].1 != SpanAttr::Link
                && spans[i].1 != SpanAttr::FootnoteRef,
    ensures
        span_paint(spans, w0, w1, start, k).strikethrough == Some(start.ink),
    decreases k - j,
{
    lemma_span_paint_keeps_ink(spans, w0, w1, start, k - 1);
    if k > j + 1 {
        lemma_span_paint_strike_in_text_ink(spans, w0, w1, start, j, k - 1);
    }
}

/// Struck-through text paints with a line through it. A run that a
/// strikethrough span covers, and no deletion, has a line through it, in
/// the ink the run had just before the last such span; when no link or
/// footnote reference covers the run, that is the paragraph's text ink.
pub proof fn law_strikethrough_draws_a_line(
    selection: (usize, usize),
    marked: Option<(usize, usize)>,
    spans: Seq<((usize, usize), SpanAttr)>,
    notes: Seq<((usize, usize), bool, bool)>,
    matches: Seq<(usize, usize)>,
    dels: Seq<(usize, usize)>,
    w0: int,
    w1: int,
    j: int,
)
    requires
        0 <= j < spans.len(),
        covers(spans[j].0, w0, w1),
        spans[j].1 == SpanAttr::Strikethrough,
        forall|i: int| 0 <= i < dels.len() ==> !covers(#[trigger] dels[i], w0, w1),
    ensures
        run_look(selection, marked, spans, notes, matches, dels, w0, w1).0.strikethrough is Some,
        (forall|i: int|
            j < i < spans.len() && covers((#[trigger] spans[i]).0, w0, w1) ==> spans[i].1
                != SpanAttr::Strikethrough) ==> run_look(selection, marked, spans, notes, matches, dels, w0, w1).0.strikethrough
            == Some(span_paint(spans, w0, w1, start_paint(marked, w0, w1), j).ink),
        (forall|i: int|
            0 <= i < spans.len() && covers((#[trigger] spans[i]).0, w0, w1) ==> spans[i].1 != SpanAttr::Link
                && spans[i].1 != SpanAttr::FootnoteRef) ==> run_look(selection, marked, spans, notes, matches, dels, w0, w1).0.strikethrough
            == Some(Ink::Text),
{
    let start = start_paint(marked, w0, w1);
    let n = spans.len() as int;
    assert(!any_covers(dels, w0, w1));
    lemma_span_paint_monotone(spans, w0, w1, start, j + 1, n);
    if forall|i: int|
        j < i < spans.len() && covers((#[trigger] spans[i]).0, w0, w1) ==> spans[i].1 != SpanAttr::Strikethrough {
        lemma_span_paint_keeps_strike(spans, w0, w1, start, j + 1, n);
    }
    if forall|i: int|
        0 <= i < spans.len() && covers((#[trigger] spans[i]).0, w0, w1) ==> spans[i].1 != SpanAttr::Link
            && spans[i].1 != SpanAttr::FootnoteRef {
        lemma_span_paint_strike_in_text_ink(spans, w0, w1, start, j, n);
    }
}

/// No span takes away what an earlier one gave: weight, slant, the code
/// font, a background, a line under or through the text.
proof fn lemma_span_paint_monotone(
    spans: Seq<((usize, usize), SpanAttr)>,
    w0: int,
    w1: int,
    start: Paint,
    i: int,
    k: int,
)
    requires
        0 <= i <= k <= spans.len(),
    ensures
        ({
            let a = span_paint(spans, w0, w1, start, i);
            let b = span_paint(spans, w0, w1, start, k);
            &&& a.bold ==> b.bold
            &&& a.italic ==> b.italic
            &&& a.code_font ==> b.code_font
            &&& a.span_bg is Some ==> b.span_bg is Some
            &&& a.underline is Some ==> b.underline is Some
            &&& a.strikethrough is Some ==> b.strikethrough is Some
        }),
    decreases k - i,
{
    if k > i {
        lemma_span_paint_monotone(spans, w0, w1, start, i, k - 1);
    }
}

/// A note never takes a line away from the text.
proof fn lemma_note_paint_keeps_line(
    notes: Seq<((usize, usize), bool, bool)>,
    w0: int,
    w1: int,
    line: Option<Underline>,
    k: int,
)
    requires
        line is Some,
    ensures
        note_paint(notes, w0, w1, line, k).0 is Some,
    decreases k,
{
    if k > 0 {
        lemma_note_paint_keeps_line(notes, w0, w1, line, k - 1);
    }
}

/// Formatting shows on every run its span covers: strong text is bold,
/// emphasis italic, code in the code font on a background, highlighted text
/// on a background, underlined and linked text underlined; linked text
/// inks as a link unless a footnote reference also covers it; deleted text
/// is muted and struck through, whatever its spans say.
pub proof fn law_formatting_shows(
    selection: (usize, usize),
    marked: Option<(usize, usize)>,
    spans: Seq<((usize, usize), SpanAttr)>,
    notes: Seq<((usize, usize), bool, bool)>,
    matches: Seq<(usize, usize)>,
    dels: Seq<(usize, usize)>,
    w0: int,
    w1: int,
    j: int,
)
    requires
        0 <= j < spans.len(),
        covers(spans[j].0, w0, w1),
    ensures
        ({
            let look = run_look(selection, marked, spans, notes, matches, dels, w0, w1);
            let p = look.0;
            let a = spans[j].1;
            &&& a == SpanAttr::Strong ==> p.bold
            &&& a == SpanAttr::Emphasis ==> p.italic
            &&& a == SpanAttr::Code ==> p.code_font && p.span_bg is Some
            &&& a == SpanAttr::Highlight ==> p.span_bg is Some
            &&& p.span_bg matches Some(t) ==> look.1.len() > 0 && look.1[0] == t
            &&& (a == SpanAttr::Underline || a == SpanAttr::Link) ==> p.underline is Some
            &&& a == SpanAttr::Link && !any_covers(dels, w0, w1) && (forall|i: int|
                0 <= i < spans.len() && covers((#[trigger] spans[i]).0, w0, w1) ==> spans[i].1
                    != SpanAttr::FootnoteRef) ==> p.ink == Ink::Link
            &&& any_covers(dels, w0, w1) ==> p.ink == Ink::Muted && p.strikethrough == Some(Ink::Muted)
        }),
{
    let start = start_paint(marked, w0, w1);
    let n = spans.len() as int;
    lemma_span_paint_monotone(spans, w0, w1, start, j + 1, n);
    let sp = span_paint(spans, w0, w1, start, n);
    if sp.underline is Some {
        lemma_note_paint_keeps_line(notes, w0, w1, sp.underline, notes.len() as int);
    }
    if spans[j].1 == SpanAttr::Link && (forall|i: int|
        0 <= i < spans.len() && covers((#[trigger] spans[i]).0, w0, w1) ==> spans[i].1 != SpanAttr::FootnoteRef) {
        lemma_span_paint_link_ink(spans, w0, w1, start, j, n);
    }
}

/// After a link span, with no footnote reference covering the run, the ink
/// stays the link's.
proof fn lemma_span_paint_link_ink(
    spans: Seq<((usize, usize), SpanAttr)>,
    w0: int,
    w1: int,
    start: Paint,
    j: int,
    k: int,
)
    requires
        0 <= j < k <= spans.len(),
        covers(spans[j].0, w0, w1),
        spans[j].1 == SpanAttr::Link,
        forall|i: int|
            0 <= i < spans.len() && covers((#[trigger] spans[i]).0, w0, w1) ==> spans[i].1 != SpanAttr::FootnoteRef,
    ensures
        span_paint(spans, w0, w1, start, k).ink == Ink::Link,
    decreases k - j,
{
    if k > j + 1 {
        lemma_span_paint_link_ink(spans, w0, w1, start, j, k - 1);
        if covers(spans[k - 1].0, w0, w1) {
            assert(spans[k - 1].1 != SpanAttr::FootnoteRef);
        }
    }
}

} // verus!
