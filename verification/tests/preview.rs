use strop::preview::{merge_preview, DiffBlock, DiffOp, DiffSeg, KindSource};

fn seg(op: DiffOp, text: &str) -> DiffSeg {
    DiffSeg { op, text: text.to_owned() }
}

#[test]
fn merged_preview_marks_runs_and_projects_both_versions() {
    let old = "a b\nc";
    let new = "a x\nc";
    let blocks = vec![
        DiffBlock {
            old_par: Some(0),
            new_par: Some(0),
            segs: vec![seg(DiffOp::Same, "a "), seg(DiffOp::Delete, "b"), seg(DiffOp::Insert, "x")],
        },
        DiffBlock { old_par: Some(1), new_par: Some(1), segs: vec![seg(DiffOp::Same, "c")] },
    ];
    let old_spans = [(2usize, 3usize, 1u8)];
    let new_spans = [(2usize, 3usize, 2u8), (4usize, 5usize, 3u8)];
    let p = merge_preview(&blocks, old, new, &old_spans, &new_spans, 2, 2);
    assert_eq!(p.text, "a bx\nc");
    assert_eq!(p.inserts, vec![(3, 4)]);
    assert_eq!(p.deletes, vec![(2, 3)]);
    assert_eq!(p.spans, vec![(2, 3, 1), (3, 4, 2), (5, 6, 3)]);
    assert_eq!(p.kinds, vec![KindSource::New(0), KindSource::New(1)]);
}

#[test]
fn deleted_blocks_take_the_older_kind() {
    let old = "gone\nkept";
    let new = "kept";
    let blocks = vec![
        DiffBlock { old_par: Some(0), new_par: None, segs: vec![seg(DiffOp::Delete, "gone")] },
        DiffBlock { old_par: Some(1), new_par: Some(0), segs: vec![seg(DiffOp::Same, "kept")] },
    ];
    let none: [(usize, usize, u8); 0] = [];
    let p = merge_preview(&blocks, old, new, &none, &none, 2, 0);
    assert_eq!(p.text, "gone\nkept");
    assert_eq!(p.deletes, vec![(0, 4)]);
    assert_eq!(p.kinds, vec![KindSource::Old(0), KindSource::Old(1)]);
    let p = merge_preview(&blocks, old, new, &none, &none, 0, 0);
    assert_eq!(p.kinds, vec![KindSource::Plain, KindSource::Plain]);
}

#[test]
fn multibyte_spans_convert_by_character() {
    let old = "";
    let new = "ёж и ёлка";
    let blocks = vec![DiffBlock { old_par: None, new_par: Some(0), segs: vec![seg(DiffOp::Insert, new)] }];
    let new_spans = [(5usize, 9usize, 'h'), (7usize, 99usize, 'x')];
    let none: [(usize, usize, char); 0] = [];
    let p = merge_preview(&blocks, old, new, &none, &new_spans, 0, 1);
    assert_eq!(p.spans, vec![(8, 16, 'h'), (12, 16, 'x')]);
    assert_eq!(p.inserts, vec![(0, 16)]);
}
