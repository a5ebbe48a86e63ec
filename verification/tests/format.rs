use strop::format::{count_words, format_day, format_thousands, format_time, format_unix};

#[test]
fn thousands_separator() {
    assert_eq!(format_thousands(0), "0");
    assert_eq!(format_thousands(56), "56");
    assert_eq!(format_thousands(999), "999");
    assert_eq!(format_thousands(1234), "1,234");
    assert_eq!(format_thousands(1234567), "1,234,567");
}

#[test]
fn thousands_keep_inner_zeros() {
    assert_eq!(format_thousands(1000), "1,000");
    assert_eq!(format_thousands(1000001), "1,000,001");
    assert_eq!(format_thousands(100200300), "100,200,300");
    assert_eq!(format_thousands(12045), "12,045");
}

#[test]
fn thousands_strip_back_to_the_plain_numeral() {
    for n in [0usize, 7, 999, 1000, 65536, 1234567, 4294967295] {
        assert_eq!(format_thousands(n).replace(',', ""), n.to_string());
    }
}

#[test]
fn words_count_across_chunks() {
    assert_eq!(count_words(&["hello world"]), 2);
    assert_eq!(count_words(&["hel", "lo wor", "ld"]), 2);
    assert_eq!(count_words(&["hello ", " world"]), 2);
    assert_eq!(count_words(&["", "  ", "\n\t"]), 0);
    assert_eq!(count_words(&[]), 0);
    assert_eq!(count_words(&["Моё\u{a0}эссе — три"]), 4);
}

#[test]
fn chunking_never_changes_the_count() {
    let text = "  The quick  brown\nfox\u{2003}jumps over\tthe lazy dog. ";
    let whole = count_words(&[text]);
    assert_eq!(whole, 9);
    let bytes: Vec<usize> = text.char_indices().map(|(b, _)| b).collect();
    for &cut in &bytes {
        assert_eq!(count_words(&[&text[..cut], &text[cut..]]), whole);
    }
}

#[test]
fn unix_labels_are_utc_civil_time() {
    assert_eq!(format_unix(0), "1970-01-01 00:00");
    assert_eq!(format_unix(86399), "1970-01-01 23:59");
    assert_eq!(format_unix(951782400), "2000-02-29 00:00");
    assert_eq!(format_unix(1700000000), "2023-11-14 22:13");
    assert_eq!(format_unix(-1), "1969-12-31 23:59");
    assert_eq!(format_unix(-62167219200), "0000-01-01 00:00");
    assert_eq!(format_unix(-62167219201), "-001-12-31 23:59");
    assert_eq!(format_unix(253402300799), "9999-12-31 23:59");
    assert_eq!(format_unix(253402300800), "10000-01-01 00:00");
}

#[test]
fn unix_label_parts_agree_with_the_whole() {
    for secs in [0i64, 1, 59, 3600, 1700000000, -86401, 4102444800] {
        assert_eq!(
            format_unix(secs),
            format!("{} {}", format_day(secs), format_time(secs))
        );
    }
}

#[test]
fn unix_labels_survive_the_extremes() {
    assert_eq!(format_unix(i64::MAX).len() > 16, true);
    assert_eq!(format_unix(i64::MIN).starts_with('-'), true);
}
