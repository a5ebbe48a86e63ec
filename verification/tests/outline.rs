use strop::footnotes::BlockKind;
use strop::outline::{heading_shortcut, line_snippet, outline_items};

#[test]
fn outline_lists_headings_with_their_byte_offsets() {
    let text = "Title\nbody text\n  Ёлка  \nmore";
    let kinds = vec![
        BlockKind::Heading(1),
        BlockKind::Paragraph,
        BlockKind::Heading(2),
        BlockKind::Paragraph,
    ];
    assert_eq!(
        outline_items(text, &kinds),
        vec![(0, 1, "Title".to_owned(), 0), (2, 2, "Ёлка".to_owned(), 16)]
    );
    // Blocks past the lines, or missing, add nothing.
    assert_eq!(outline_items("one", &[]), vec![]);
}

#[test]
fn outline_titles_are_cut_at_120_characters() {
    let long = "x".repeat(130);
    let items = outline_items(&long, &[BlockKind::Heading(3)]);
    assert_eq!(items[0].2.chars().count(), 120);
}

#[test]
fn snippets_trim_and_cap_their_line() {
    let text = "first\n   second line   \n";
    assert_eq!(line_snippet(text, 0), "first");
    assert_eq!(line_snippet(text, 1), "second line");
    assert_eq!(line_snippet(text, 2), "");
    assert_eq!(line_snippet(text, 3), "");
    let long = "y".repeat(200);
    let s = line_snippet(&long, 0);
    assert_eq!(s.chars().count(), 81);
    assert!(s.ends_with('\u{2026}'));
}

#[test]
fn hashes_and_a_space_make_a_heading() {
    assert_eq!(heading_shortcut("# "), Some(1));
    assert_eq!(heading_shortcut("## "), Some(2));
    assert_eq!(heading_shortcut("### "), Some(3));
    assert_eq!(heading_shortcut("#### "), None);
    assert_eq!(heading_shortcut(" "), None);
    assert_eq!(heading_shortcut("#a "), None);
    assert_eq!(heading_shortcut("##"), None);
}
