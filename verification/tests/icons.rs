use strop::icons::{StropAssets, BOOK, STROP_MARK, WIN_CLOSE};

#[test]
fn every_named_icon_is_embedded() {
    let a = StropAssets;
    for path in [BOOK, STROP_MARK, WIN_CLOSE] {
        assert!(a.load(path).is_some(), "{path}");
    }
    assert_eq!(a.load("icons/book.svg"), Some(2));
    assert_eq!(a.load("icons/nope.svg"), None);
}

#[test]
fn listing_filters_by_prefix_in_table_order() {
    let a = StropAssets;
    assert_eq!(a.list("icon/"), vec!["icon/strop-mark.svg", "icon/strop-mark-mono.svg"]);
    assert_eq!(
        a.list("icons/win-"),
        vec!["icons/win-close.svg", "icons/win-maximize.svg", "icons/win-minimize.svg"]
    );
    assert_eq!(a.list("").len(), 14);
    assert!(a.list("fonts/").is_empty());
}
