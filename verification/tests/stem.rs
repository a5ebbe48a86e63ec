use strop::stem::{first_free, rename_target, stem_from_title};

#[test]
fn stem_sanitizes_separators_and_dotfiles() {
    assert_eq!(stem_from_title("  Моё эссе  "), Some("Моё эссе".into()));
    assert_eq!(stem_from_title("a/b\\c"), Some("a b c".into()));
    assert_eq!(stem_from_title("..hidden"), Some("hidden".into()));
    assert_eq!(stem_from_title("   "), None);
    assert_eq!(stem_from_title("///"), None);
    assert_eq!(stem_from_title("draft.old"), Some("draft.old".into()));
    assert_eq!(
        stem_from_title("my-notes v0.2"),
        Some("my-notes v0.2".into())
    );
    assert_eq!(stem_from_title("CON"), Some("CON_".into()));
    assert_eq!(stem_from_title("con.txt"), Some("con.txt_".into()));
    assert_eq!(stem_from_title("notes."), Some("notes".into()));
    assert_eq!(stem_from_title("a:b"), Some("a b".into()));
}

#[test]
fn numbered_devices_are_reserved_but_not_zero_or_two_digits() {
    assert_eq!(stem_from_title("com1"), Some("com1_".into()));
    assert_eq!(stem_from_title("LPT9.log"), Some("LPT9.log_".into()));
    assert_eq!(stem_from_title("COM0"), Some("COM0".into()));
    assert_eq!(stem_from_title("COM10"), Some("COM10".into()));
    assert_eq!(stem_from_title("console"), Some("console".into()));
}

#[test]
fn control_characters_and_unicode_spaces_are_cleaned() {
    assert_eq!(stem_from_title("\u{3000}tab\there\u{a0}"), Some("tab here".into()));
    assert_eq!(stem_from_title("a*b?c\"d<e>f|g"), Some("a b c d e f g".into()));
    assert_eq!(stem_from_title(". x"), Some(" x".into()));
    assert_eq!(stem_from_title("end. . "), Some("end".into()));
}

#[test]
fn rename_names_the_file_and_the_window() {
    assert_eq!(
        rename_target("  Моё эссе  "),
        Some(("Моё эссе.strop".to_string(), "Моё эссе — Strop".to_string()))
    );
    assert_eq!(rename_target("a/b"), Some(("a b.strop".to_string(), "a b — Strop".to_string())));
    assert_eq!(rename_target("///"), None);
}

#[test]
fn the_first_free_candidate_is_chosen() {
    // Untitled.strop and Untitled 2.strop exist; Untitled 3.strop does not.
    assert_eq!(first_free(&[true, true, false, true]), 3);
    assert_eq!(first_free(&[false]), 1);
    assert_eq!(first_free(&[true, true]), 3);
    assert_eq!(first_free(&[]), 1);
}
