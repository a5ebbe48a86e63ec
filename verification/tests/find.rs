use strop::find::{find_matches, find_matches_folded, replace_all, MAX_MATCHES};

#[test]
fn matches_fold_case_and_report_bytes() {
    assert_eq!(find_matches("Hello hello HELLO", "hello"), vec![(0, 5), (6, 11), (12, 17)]);
    assert_eq!(find_matches("Ёлка и ёлка", "ЁЛКА"), vec![(0, 8), (12, 20)]);
    assert_eq!(find_matches("abc", ""), vec![]);
    assert_eq!(find_matches("ab", "abc"), vec![]);
}

#[test]
fn matches_do_not_overlap() {
    assert_eq!(find_matches("aaaa", "aa"), vec![(0, 2), (2, 4)]);
    assert_eq!(find_matches("aaa", "aa"), vec![(0, 2)]);
}

#[test]
fn matches_stop_at_the_cap() {
    let text = "x".repeat(MAX_MATCHES + 20);
    let found = find_matches(&text, "x");
    assert_eq!(found.len(), MAX_MATCHES);
    assert_eq!(found.last(), Some(&(MAX_MATCHES - 1, MAX_MATCHES)));
}

#[test]
fn folded_search_reads_the_given_folds() {
    let hay: Vec<char> = "ab".chars().collect();
    let needle: Vec<char> = "b".chars().collect();
    assert_eq!(find_matches_folded("éX", &hay, &needle), vec![(2, 3)]);
}

#[test]
fn replace_all_swaps_every_folded_match() {
    assert_eq!(replace_all("Cat cat CAT dog", "cat", "fox"), ("fox fox fox dog".to_string(), 3));
    // Non-overlapping, left to right.
    assert_eq!(replace_all("aaaa", "aa", "b"), ("bb".to_string(), 2));
    // Cyrillic folds too, and the replacement may change the length.
    assert_eq!(replace_all("Ёлка и ёлка", "ёлка", "ель"), ("ель и ель".to_string(), 2));
    // An empty query replaces nothing.
    assert_eq!(replace_all("text", "", "x"), ("text".to_string(), 0));
    assert_eq!(replace_all("text", "zz", "x"), ("text".to_string(), 0));
}

#[test]
fn replace_all_stops_at_the_match_cap() {
    let text = "a".repeat(MAX_MATCHES + 20);
    let (out, n) = replace_all(&text, "a", "b");
    assert_eq!(n, MAX_MATCHES);
    assert_eq!(n, find_matches(&text, "a").len());
    assert_eq!(out, "b".repeat(MAX_MATCHES) + &"a".repeat(20));
}
