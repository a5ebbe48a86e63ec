use strop::text::{
    next_boundary, next_paragraph_boundary, next_word_boundary, paragraph_bounds,
    previous_boundary, previous_paragraph_boundary, previous_word_boundary, word_range_at,
};
use strop::text::{extend_selection, unit_at, SelectGranularity};

#[test]
fn word_motion_survives_long_blank_run() {
    let n = 200_000;
    let mut text = String::with_capacity(n + 4);
    for _ in 0..n {
        text.push('\n');
    }
    text.push_str("word");
    assert_eq!(previous_word_boundary(&text, n), 0);

    let mut text2 = String::with_capacity(n + 4);
    text2.push_str("word");
    for _ in 0..n {
        text2.push('\n');
    }
    let len = text2.len();
    assert_eq!(next_word_boundary(&text2, 0), 4);
    assert_eq!(next_word_boundary(&text2, 4), len);
}

#[test]
fn paragraphs_are_newline_delimited() {
    let t = "one\ntwo three\n\nfour";
    assert_eq!(paragraph_bounds(t, 0), (0, 3));
    assert_eq!(paragraph_bounds(t, 5), (4, 13));
    assert_eq!(paragraph_bounds(t, 14), (14, 14));
    assert_eq!(paragraph_bounds(t, t.len()), (15, 19));
}

#[test]
fn character_motion_steps_whole_graphemes() {
    let t = "aé\u{301}b";
    assert_eq!(next_boundary(t, 0), 1);
    assert_eq!(next_boundary(t, 1), 5);
    assert_eq!(previous_boundary(t, 5), 1);
    assert_eq!(previous_boundary(t, 0), 0);
    assert_eq!(next_boundary(t, t.len()), t.len());
}

#[test]
fn word_motion_skips_punctuation_and_space() {
    let t = "Hello, world!";
    assert_eq!(next_word_boundary(t, 0), 5);
    assert_eq!(next_word_boundary(t, 5), 12);
    assert_eq!(previous_word_boundary(t, 12), 7);
    assert_eq!(previous_word_boundary(t, 7), 0);
    assert_eq!(word_range_at(t, 8), (7, 12));
}

#[test]
fn paragraph_motion_lands_on_paragraph_edges() {
    let t = "one\ntwo\nthree";
    assert_eq!(next_paragraph_boundary(t, 0), 3);
    assert_eq!(next_paragraph_boundary(t, 3), 7);
    assert_eq!(previous_paragraph_boundary(t, 9), 8);
    assert_eq!(previous_paragraph_boundary(t, 8), 4);
}

#[test]
fn drag_units_follow_granularity() {
    let t = "one two\nthree";
    assert_eq!(unit_at(t, 5, SelectGranularity::Char), (5, 5));
    assert_eq!(unit_at(t, 5, SelectGranularity::Word), (4, 7));
    assert_eq!(unit_at(t, 5, SelectGranularity::Paragraph), (0, 7));
    assert_eq!(unit_at(t, 10, SelectGranularity::Paragraph), (8, 13));
}

#[test]
fn drag_by_unit_unions_origin_and_pointer_unit() {
    // Dragging forward from "two" into "three" keeps the origin's start.
    assert_eq!(extend_selection((4, 7), (8, 13)), (4, 13, false));
    // Dragging backward reverses the selection and keeps the origin's end.
    assert_eq!(extend_selection((4, 7), (0, 3)), (0, 7, true));
    // Inside the origin unit nothing changes.
    assert_eq!(extend_selection((4, 7), (5, 5)), (4, 7, false));
}
