use strop::runs::{runs_for_paragraph, Ink, Run, SpanAttr, Tint, Underline};

/// A run shows a background when a layer or the selection paints it.
fn has_background(r: &Run) -> bool {
    r.selected || !r.backdrop.is_empty()
}

#[test]
fn bold_and_highlight_runs() {
    let par = (0, 10);
    let spans = vec![((2, 5), SpanAttr::Strong), ((5, 8), SpanAttr::Highlight)];
    let runs = runs_for_paragraph(par, (0, 0), None, &spans, &[], &[], &[]);
    // Segments: [0,2) plain, [2,5) bold, [5,8) highlight, [8,10) plain.
    assert_eq!(runs.len(), 4);
    assert!(runs[1].paint.bold);
    assert!(!has_background(&runs[1]));
    assert!(!runs[2].paint.bold);
    assert!(has_background(&runs[2]));
    assert!(!has_background(&runs[0]));
    let bounds: Vec<(usize, usize)> = runs.iter().map(|r| (r.start, r.end)).collect();
    assert_eq!(bounds, vec![(0, 2), (2, 5), (5, 8), (8, 10)]);
}

#[test]
fn selection_composites_over_highlight() {
    // Markings stay visible through selection: the selected-and-highlighted
    // segment keeps the highlight under the selection; partial overlap splits
    // into its own runs.
    let par = (0, 6);
    let spans = vec![((0, 6), SpanAttr::Highlight)];
    let runs = runs_for_paragraph(par, (2, 4), None, &spans, &[], &[], &[]);
    assert_eq!(runs.len(), 3);
    assert!(runs[1].selected);
    assert_eq!(runs[1].backdrop, vec![Tint::Highlight]);
    // Outside the selection the pure highlight shows.
    assert!(!runs[0].selected);
    assert_eq!(runs[0].backdrop, vec![Tint::Highlight]);
    // Selection over plain text is the plain selection.
    let plain = runs_for_paragraph(par, (2, 4), None, &[], &[], &[], &[]);
    assert!(plain[1].selected);
    assert!(plain[1].backdrop.is_empty());
}

#[test]
fn footnote_ref_carrier_paints_transparent_without_pill() {
    // The carrier digit keeps its advance but must not ink: the superior
    // figure is painted over it.
    let par = (0, 5);
    let spans = vec![((2, 3), SpanAttr::FootnoteRef)];
    let runs = runs_for_paragraph(par, (0, 0), None, &spans, &[], &[], &[]);
    assert_eq!(runs.len(), 3);
    assert_eq!(runs[1].paint.ink, Ink::Transparent);
    assert!(!has_background(&runs[1]));
    // Neighbours stay inked.
    assert_ne!(runs[0].paint.ink, Ink::Transparent);
}

#[test]
fn code_run_switches_family_and_marked_text_underlines() {
    let par = (0, 8);
    let spans = vec![((0, 4), SpanAttr::Code)];
    let runs = runs_for_paragraph(par, (0, 0), Some((4, 8)), &spans, &[], &[], &[]);
    assert!(runs[0].paint.code_font);
    assert!(runs[1].paint.underline.is_some());
}

#[test]
fn note_anchors_matches_and_deletions_layer_in_order() {
    let par = (0, 12);
    // A resting diagnosis squiggles; an active note tints; a find match
    // layers over the tint; a deletion mutes and strikes.
    let notes = vec![((0, 4), false, true), ((4, 8), true, false)];
    let matches = vec![(6, 8)];
    let dels = vec![(8, 12)];
    let spans = vec![((4, 8), SpanAttr::Highlight)];
    let runs = runs_for_paragraph(par, (0, 0), None, &spans, &notes, &matches, &dels);
    let bounds: Vec<(usize, usize)> = runs.iter().map(|r| (r.start, r.end)).collect();
    assert_eq!(bounds, vec![(0, 4), (4, 6), (6, 8), (8, 12)]);
    assert_eq!(runs[0].paint.underline, Some(Underline { wavy: true, ink: Ink::Accent }));
    assert_eq!(runs[1].backdrop, vec![Tint::Highlight, Tint::NoteActive]);
    assert_eq!(runs[2].backdrop, vec![Tint::Highlight, Tint::NoteActive, Tint::FindMatch]);
    assert_eq!(runs[3].paint.ink, Ink::Muted);
    assert_eq!(runs[3].paint.strikethrough, Some(Ink::Muted));
    // The writer's own underline outranks the squiggle.
    let spans = vec![((0, 4), SpanAttr::Underline)];
    let runs = runs_for_paragraph((0, 4), (0, 0), None, &spans, &notes, &[], &[]);
    assert_eq!(runs[0].paint.underline, Some(Underline { wavy: false, ink: Ink::Text }));
}

#[test]
fn ranges_outside_the_paragraph_are_held_to_it() {
    let spans = vec![((0, 100), SpanAttr::Emphasis)];
    let runs = runs_for_paragraph((10, 20), (5, 15), None, &spans, &[], &[], &[]);
    let bounds: Vec<(usize, usize)> = runs.iter().map(|r| (r.start, r.end)).collect();
    assert_eq!(bounds, vec![(10, 15), (15, 20)]);
    assert!(runs.iter().all(|r| r.paint.italic));
    assert!(runs[0].selected && !runs[1].selected);
    assert!(runs_for_paragraph((7, 7), (0, 9), None, &spans, &[], &[], &[]).is_empty());
}
