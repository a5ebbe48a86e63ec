use strop::footnotes::{footnote_numbers, BlockKind};

#[test]
fn footnote_numbers_follow_ref_order_not_stored_ids() {
    let refs = vec![(40usize, "1"), (10usize, "2")];
    let kinds = vec![
        BlockKind::Paragraph,
        BlockKind::FootnoteDef { id: "1".into() },
        BlockKind::FootnoteDef { id: "2".into() },
        BlockKind::FootnoteDef { id: "9".into() },
    ];
    let map = footnote_numbers(&refs, &kinds);
    assert_eq!(map.get("2"), Some(1));
    assert_eq!(map.get("1"), Some(2));
    assert_eq!(map.get("9"), Some(3));
}

#[test]
fn repeated_refs_keep_their_first_number() {
    let refs = vec![(30usize, "a"), (5usize, "b"), (50usize, "b"), (7usize, "a")];
    let map = footnote_numbers(&refs, &[]);
    assert_eq!(map.get("b"), Some(1));
    assert_eq!(map.get("a"), Some(2));
    assert_eq!(map.get("c"), None);
}

#[test]
fn refs_at_one_position_order_by_id() {
    let refs = vec![(3usize, "z"), (3usize, "m")];
    let map = footnote_numbers(&refs, &[BlockKind::FootnoteDef { id: "m".into() }]);
    assert_eq!(map.get("m"), Some(1));
    assert_eq!(map.get("z"), Some(2));
}

use strop::footnotes::{next_footnote_id, parse_u64, zone_excerpt};

#[test]
fn fresh_ids_are_never_reused() {
    let kinds = vec![
        BlockKind::FootnoteDef { id: "3".into() },
        BlockKind::FootnoteDef { id: "note".into() },
        BlockKind::Paragraph,
    ];
    assert_eq!(next_footnote_id(&kinds, &["1", "7"]), "8");
    assert_eq!(next_footnote_id(&kinds, &[]), "4");
    assert_eq!(next_footnote_id(&[], &[]), "1");
    assert_eq!(next_footnote_id(&[], &["x", "+41"]), "42");
}

#[test]
fn ids_parse_as_u64_does() {
    for s in ["0", "42", "+7", "007", "18446744073709551615", "18446744073709551616", "", "+", "-1", " 1", "1a"] {
        assert_eq!(parse_u64(s), s.parse::<u64>().ok(), "{s:?}");
    }
}

#[test]
fn zone_excerpts_cut_long_definitions() {
    assert_eq!(zone_excerpt("short"), ("short".to_owned(), 5));
    let long = "é".repeat(120);
    let (text, len) = zone_excerpt(&long);
    assert_eq!(text.chars().count(), 111);
    assert!(text.ends_with('\u{2026}'));
    assert_eq!(len, 220);
}
