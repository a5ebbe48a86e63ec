use strop::state::{
    bump_palette_freq, load_palette_freq, load_session, load_sessions, record_caret, restore_caret,
    SessionEntry,
};

#[test]
fn session_caret_round_trips_at_injected_path() {
    // The file's contents, as the app hands them over: nothing yet.
    let mut sessions = load_sessions(None);
    assert!(load_session(&sessions, "/docs/Essay.strop").is_none(), "empty start");

    // Quit records the caret; load round-trips it. A second document never
    // collides.
    record_caret(&mut sessions, "/docs/Essay.strop", 42);
    assert_eq!(load_session(&sessions, "/docs/Essay.strop").unwrap().caret, Some(42));
    assert!(load_session(&sessions, "/docs/Other.strop").is_none());
    record_caret(&mut sessions, "/docs/Other.strop", 7);
    assert_eq!(load_session(&sessions, "/docs/Other.strop").unwrap().caret, Some(7));

    // A later quit overwrites the caret in place, in one entry, without
    // disturbing the other document.
    record_caret(&mut sessions, "/docs/Essay.strop", 99);
    assert_eq!(load_session(&sessions, "/docs/Essay.strop").unwrap().caret, Some(99));
    assert_eq!(load_session(&sessions, "/docs/Other.strop").unwrap().caret, Some(7));
    assert_eq!(sessions.to_entries().len(), 2);

    // A file that parsed keeps its carets.
    let parsed = vec![("/docs/Essay.strop".to_string(), SessionEntry { caret: Some(5) })];
    let sessions = load_sessions(Some(parsed));
    assert_eq!(load_session(&sessions, "/docs/Essay.strop").unwrap().caret, Some(5));

    // A garbage file degrades to empty, never panics.
    let mut sessions = load_sessions(None);
    assert!(load_session(&sessions, "/docs/Essay.strop").is_none());
    record_caret(&mut sessions, "/docs/Essay.strop", 1);
    assert!(load_session(&sessions, "/docs/Essay.strop").is_some());
}

#[test]
fn palette_freq_round_trip_at_injected_path() {
    let mut freq = load_palette_freq(None);
    assert!(freq.to_entries().is_empty(), "empty start");

    // Each bump returns the running count.
    assert_eq!(bump_palette_freq(&mut freq, "Toggle Bold"), 1);
    assert_eq!(bump_palette_freq(&mut freq, "Toggle Bold"), 2);
    assert_eq!(bump_palette_freq(&mut freq, "Find in Document"), 1);
    assert_eq!(freq.get("Toggle Bold"), Some(2));
    assert_eq!(freq.get("Find in Document"), Some(1));

    // A file of counts seeds them; a garbage one starts over.
    let mut freq = load_palette_freq(Some("{\"Undo\": 4, \"Find in Document\": 1}"));
    assert_eq!(bump_palette_freq(&mut freq, "Undo"), 5);
    assert_eq!(freq.get("Find in Document"), Some(1));
    let mut freq = load_palette_freq(Some("not json"));
    assert_eq!(bump_palette_freq(&mut freq, "Undo"), 1, "re-seeded");
    // The wrong shape or a count past u32 is garbage too.
    assert!(load_palette_freq(Some("[1, 2]")).to_entries().is_empty());
    assert!(load_palette_freq(Some("{\"Undo\": 99999999999}")).to_entries().is_empty());
    assert!(load_palette_freq(Some("{\"Undo\": \"four\"}")).to_entries().is_empty());
}

#[test]
fn restored_caret_is_clamped_and_snapped_to_a_character() {
    let text = "aé漢b";
    // Boundaries: 0 a 1 é 3 漢 6 b 7.
    assert_eq!(restore_caret(text, 0), 0);
    assert_eq!(restore_caret(text, 2), 1);
    assert_eq!(restore_caret(text, 3), 3);
    assert_eq!(restore_caret(text, 5), 3);
    assert_eq!(restore_caret(text, 7), 7);
    // The document shrank since the caret was recorded.
    assert_eq!(restore_caret(text, 1000), 7);
    assert_eq!(restore_caret("", 12), 0);
}
