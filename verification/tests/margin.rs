use std::collections::HashSet;
use strop::margin::{
    card_body, note_at_char, note_card_label, note_surfaces, oldest_beyond_cap, CardBody,
    CardFocus, NoteKind,
};

#[test]
fn note_at_char_accepts_the_trailing_boundary() {
    let one = [(7u64, 2usize, 6usize)];
    assert_eq!(note_at_char(&one, 2), Some(7));
    assert_eq!(note_at_char(&one, 4), Some(7));
    assert_eq!(note_at_char(&one, 6), Some(7));
    assert_eq!(note_at_char(&one, 7), None);
    assert_eq!(note_at_char(&one, 1), None);
    let pair = [(7u64, 2, 6), (8u64, 6, 9)];
    assert_eq!(note_at_char(&pair, 6), Some(8));
    assert_eq!(note_at_char(&pair, 9), Some(8));
    assert_eq!(note_at_char(&[], 0), None);
}

#[test]
fn oldest_beyond_cap_recedes_the_oldest_passes() {
    assert!(oldest_beyond_cap(&[(1, 1), (2, 1), (3, 2)], 5).is_empty());
    assert!(oldest_beyond_cap(&[(1, 1), (2, 2), (3, 3), (4, 4), (5, 5)], 5).is_empty());
    let receded =
        oldest_beyond_cap(&[(1, 1), (2, 1), (3, 2), (4, 2), (5, 3), (6, 3), (7, 3)], 4);
    assert_eq!(receded, HashSet::from([1u64, 2, 3]));
}

#[test]
fn oldest_beyond_cap_breaks_pass_ties_by_id() {
    // One pass, cap 2: the two highest ids stay full.
    let receded = oldest_beyond_cap(&[(4, 7), (9, 7), (2, 7), (5, 7)], 2);
    assert_eq!(receded, HashSet::from([2u64, 4]));
    // A zero budget recedes everything.
    assert_eq!(oldest_beyond_cap(&[(1, 1), (2, 2)], 0), HashSet::from([1u64, 2]));
}

#[test]
fn door_filter_note_surfaces() {
    assert!(note_surfaces(NoteKind::Note, "", true, true));
    assert!(note_surfaces(NoteKind::Note, "", false, false));
    assert!(!note_surfaces(NoteKind::Diagnosis, "developmental", true, false));
    assert!(note_surfaces(NoteKind::Diagnosis, "developmental", false, true));
    assert!(!note_surfaces(NoteKind::Diagnosis, "copy", false, true));
    assert!(note_surfaces(NoteKind::Diagnosis, "copy", false, false));
}

#[test]
fn card_body_renders_exactly_one_thing() {
    assert!(matches!(card_body(true), CardBody::Composer));
    assert!(matches!(card_body(false), CardBody::Text));
}

#[test]
fn idle_focus_addresses_no_card() {
    let f: CardFocus<String> = CardFocus::Idle;
    assert_eq!(f.active_id(), None);
    assert_eq!(f.composing_id(), None);
    assert!(f.input().is_none());
}

#[test]
fn selected_focus_is_active_but_never_composing() {
    let f: CardFocus<String> = CardFocus::Selected(7);
    assert_eq!(f.active_id(), Some(7));
    assert_eq!(f.composing_id(), None);
    assert!(f.input().is_none());
    assert!(matches!(card_body(f.composing_id() == Some(7)), CardBody::Text));
}

#[test]
fn composing_implies_active_on_the_same_card() {
    for f in [
        CardFocus::<String>::Idle,
        CardFocus::Selected(3),
        CardFocus::Selected(9),
        CardFocus::Composing { id: 4, input: "draft".to_owned() },
    ] {
        if let Some(cid) = f.composing_id() {
            assert_eq!(f.active_id(), Some(cid), "composing must be active");
        }
    }
}

#[test]
fn composing_focus_carries_its_input() {
    let f = CardFocus::Composing { id: 12, input: "half a thought".to_owned() };
    assert_eq!(f.active_id(), Some(12));
    assert_eq!(f.composing_id(), Some(12));
    assert_eq!(f.input().map(|s| s.as_str()), Some("half a thought"));
    assert!(matches!(card_body(f.composing_id() == Some(12)), CardBody::Composer));
}

#[test]
fn card_labels_name_the_kind_and_detachment() {
    assert_eq!(note_card_label(false, "", false), "Note");
    assert_eq!(note_card_label(false, "copy", false), "Note");
    assert_eq!(note_card_label(true, "", false), "Diagnosis");
    assert_eq!(note_card_label(true, "line", false), "line");
    assert_eq!(note_card_label(true, "copy", true), "copy · detached");
    assert_eq!(note_card_label(false, "", true), "Note · detached");
}

use strop::margin::{
    effective_mode, has_margin_cards, margin_rail_count, narrow_notes_count, resting_diagnoses,
    suppressed_copy, OpenNote,
};
use strop::margin::{receded_cards, LaneCard, FULL_DIAGNOSIS_CAP};

fn note(id: u64, kind: NoteKind, level: &str) -> OpenNote {
    OpenNote { id, kind, level: level.to_owned() }
}

#[test]
fn the_door_counts_what_it_holds_back() {
    let notes = vec![
        note(1, NoteKind::Note, ""),
        note(2, NoteKind::Diagnosis, "developmental"),
        note(3, NoteKind::Diagnosis, "copy"),
        note(4, NoteKind::Diagnosis, "copy"),
        note(5, NoteKind::Diagnosis, "line"),
    ];
    assert_eq!(resting_diagnoses(&notes), 4);
    assert_eq!(suppressed_copy(&notes), 2);
    assert_eq!(margin_rail_count(&notes, true), Some(4));
    assert_eq!(margin_rail_count(&notes, false), Some(2));
    let no_dev = vec![note(3, NoteKind::Diagnosis, "copy")];
    assert_eq!(suppressed_copy(&no_dev), 0);
    assert_eq!(margin_rail_count(&no_dev, false), None);
    assert_eq!(margin_rail_count(&[], true), None);
}

#[test]
fn any_card_surfacing_occupies_the_lane() {
    let only_diag = vec![note(2, NoteKind::Diagnosis, "line")];
    assert!(!has_margin_cards(&only_diag, true));
    assert!(has_margin_cards(&only_diag, false));
    let held = vec![
        note(2, NoteKind::Diagnosis, "developmental"),
        note(3, NoteKind::Diagnosis, "copy"),
    ];
    assert!(has_margin_cards(&held, false));
    assert!(has_margin_cards(&[note(1, NoteKind::Note, "")], true));
    assert!(!has_margin_cards(&[], false));
}

#[test]
fn narrow_pill_counts_cards_else_the_rail() {
    assert_eq!(narrow_notes_count(3, Some(9)), 3);
    assert_eq!(narrow_notes_count(0, Some(9)), 9);
    assert_eq!(narrow_notes_count(0, None), 0);
}

#[test]
fn edit_depth_defaults_to_line() {
    assert_eq!(effective_mode(&Some("copy".into()), "developmental"), "copy");
    assert_eq!(effective_mode(&None, "developmental"), "developmental");
    assert_eq!(effective_mode(&None, "whatever"), "line");
    assert_eq!(effective_mode(&Some("line".into()), "copy"), "line");
}

fn lane_card(id: u64, pass_id: u64, diagnosis: bool, active: bool) -> LaneCard {
    LaneCard { id, pass_id, diagnosis, active }
}

#[test]
fn only_unselected_diagnoses_recede_past_the_budget() {
    assert_eq!(FULL_DIAGNOSIS_CAP, 5);
    let mut cards: Vec<LaneCard> = (1..=7).map(|i| lane_card(i, i, true, false)).collect();
    // The writer's own note and the selected card are never budgeted.
    cards.push(lane_card(100, 0, false, false));
    cards.push(lane_card(101, 0, true, true));
    let receded = receded_cards(&cards);
    assert_eq!(receded, HashSet::from([1, 2]));
    // Within the budget nothing recedes.
    assert!(receded_cards(&cards[..5]).is_empty());
}
