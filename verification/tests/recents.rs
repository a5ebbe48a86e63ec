use strop::recents::{drop_portal_paths, stored_recents};
use strop::recents::{cap_recents, push_recent, replace_recent, RecentPath, LIVE_CAP};

fn entry(path: &str, exists: bool) -> RecentPath {
    RecentPath { path: path.to_string(), exists }
}

fn paths(list: &[RecentPath]) -> Vec<&str> {
    list.iter().map(|e| e.path.as_str()).collect()
}

#[test]
fn missing_recents_do_not_consume_the_live_cap() {
    let mut list = vec![entry("/tmp/missing.strop", false)];
    for ix in 0..21 {
        list.push(entry(&format!("/tmp/live-{ix}.strop"), true));
    }
    cap_recents(&mut list);
    assert_eq!(list.iter().filter(|e| e.exists).count(), 20);
    assert_eq!(LIVE_CAP, 20);
    assert!(list.iter().any(|e| e.path == "/tmp/missing.strop"));
    // The oldest live entry is the one that goes.
    assert!(!list.iter().any(|e| e.path == "/tmp/live-20.strop"));
}

#[test]
fn pushing_brings_a_document_to_the_front_once() {
    let mut list = vec![entry("a", true), entry("b", true), entry("c", false)];
    push_recent(&mut list, entry("b", true));
    assert_eq!(paths(&list), vec!["b", "a", "c"]);
    push_recent(&mut list, entry("d", true));
    assert_eq!(paths(&list), vec!["d", "b", "a", "c"]);
}

#[test]
fn renaming_replaces_the_old_path_at_the_front() {
    let mut list = vec![entry("a", true), entry("b", true)];
    replace_recent(&mut list, &"b".to_string(), entry("b2", true));
    assert_eq!(paths(&list), vec!["b2", "a"]);
}

#[test]
fn three_pushes_leave_the_most_recent_first_without_duplicates() {
    let mut list: Vec<RecentPath> = Vec::new();
    push_recent(&mut list, entry("/tmp/a.strop", true));
    push_recent(&mut list, entry("/tmp/b.strop", true));
    push_recent(&mut list, entry("/tmp/a.strop", true));
    assert_eq!(paths(&list), vec!["/tmp/a.strop", "/tmp/b.strop"]);
}

#[test]
fn paths_compare_component_by_component() {
    let mut list = vec![entry("/home/w/a.strop", true), entry("/home/w/b.strop", true)];
    push_recent(&mut list, entry("/home//w/./a.strop", true));
    assert_eq!(paths(&list), vec!["/home//w/./a.strop", "/home/w/b.strop"]);
    let mut list = vec![entry("/docs/x/", true)];
    push_recent(&mut list, entry("/docs/x", true));
    assert_eq!(paths(&list), vec!["/docs/x"]);
}

#[test]
fn stored_portal_paths_drop_out_of_the_recents() {
    let list = vec![
        "/home/w/Documents/Strop/Essay.strop".to_string(),
        "/run/user/1000/doc/7ad41c2e/Draft.strop".to_string(),
        "/run/user/1000/docs/Other.strop".to_string(),
    ];
    assert_eq!(
        drop_portal_paths(&list, "/run/user/1000"),
        vec!["/home/w/Documents/Strop/Essay.strop".to_string(), "/run/user/1000/docs/Other.strop".to_string()]
    );
}

#[test]
fn the_stored_list_reads_back_or_degrades_to_empty() {
    assert_eq!(
        stored_recents(Some(r#"["/home/w/a.strop", "/home/w/b.strop"]"#)),
        vec!["/home/w/a.strop".to_string(), "/home/w/b.strop".to_string()]
    );
    assert!(stored_recents(None).is_empty());
    assert!(stored_recents(Some("not json")).is_empty());
    assert!(stored_recents(Some(r#"{"a": 1}"#)).is_empty());
    assert!(stored_recents(Some("[1, 2]")).is_empty());
}
