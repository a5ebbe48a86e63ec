use strop::portal::portal_path_parts;

#[test]
fn document_portal_path_exposes_id_and_filename() {
    let runtime = "/tmp/strop-test-runtime";
    let path = format!("{runtime}/doc/7ad41c2e/Draft.strop");
    assert_eq!(
        portal_path_parts(&path, runtime),
        Some(("7ad41c2e".to_owned(), "Draft.strop".to_owned()))
    );
}

#[test]
fn ordinary_path_is_not_a_document_portal_path() {
    let runtime = "/tmp/strop-test-runtime";
    let path = "/home/writer/Documents/Draft.strop";
    assert_eq!(portal_path_parts(path, runtime), None);
}

#[test]
fn document_portal_path_keeps_nested_tail() {
    let runtime = "/tmp/strop-test-runtime";
    let path = format!("{runtime}/doc/7ad41c2e/Project/images/cover.png");
    assert_eq!(
        portal_path_parts(&path, runtime),
        Some(("7ad41c2e".to_owned(), "Project/images/cover.png".to_owned()))
    );
}

#[test]
fn portal_paths_need_an_id_below_doc() {
    let runtime = "/run/user/1000";
    assert_eq!(portal_path_parts("/run/user/1000/doc", runtime), None);
    assert_eq!(
        portal_path_parts("/run/user/1000//doc/ab/", runtime),
        Some(("ab".to_owned(), "".to_owned()))
    );
}
