use std::collections::HashSet;
use strop::history::{
    auto_group_start, delta_label, group_label, history_rows, HistoryEntry, HistoryRow,
    HistoryView,
};

fn e(manual: bool) -> HistoryEntry {
    HistoryEntry { name: String::new(), created_unix: 0, manual, delta: (0, 0) }
}

fn at(manual: bool, created_unix: i64) -> HistoryEntry {
    HistoryEntry { name: String::new(), created_unix, manual, delta: (0, 0) }
}

#[test]
fn auto_runs_group_from_their_first_entry() {
    let entries = vec![e(true), e(false), e(false), e(true), e(false)];
    assert_eq!(auto_group_start(&entries, 1), 1);
    assert_eq!(auto_group_start(&entries, 2), 1);
    assert_eq!(auto_group_start(&entries, 4), 4);
    let entries = vec![e(false), e(false), e(true)];
    assert_eq!(auto_group_start(&entries, 1), 0);
}

#[test]
fn rows_fold_auto_runs_and_head_each_day() {
    let day = 86400;
    let entries = vec![
        at(true, 0),
        at(false, 10),
        at(false, 20),
        at(true, day),
        at(false, day + 5),
    ];
    let rows = history_rows(&entries, 2, false, &HashSet::new());
    assert_eq!(
        rows,
        vec![
            HistoryRow::DayHeader { ix: 0 },
            HistoryRow::Entry { ix: 0, indent: false },
            HistoryRow::Group { start: 1, count: 2, open: false, holds_selection: true },
            HistoryRow::DayHeader { ix: 3 },
            HistoryRow::Entry { ix: 3, indent: false },
            HistoryRow::Group { start: 4, count: 1, open: false, holds_selection: false },
        ]
    );
    let open = history_rows(&entries, 2, false, &HashSet::from([1usize]));
    assert_eq!(
        &open[2..5],
        &[
            HistoryRow::Group { start: 1, count: 2, open: true, holds_selection: true },
            HistoryRow::Entry { ix: 1, indent: true },
            HistoryRow::Entry { ix: 2, indent: true },
        ]
    );
    let named = history_rows(&entries, 2, true, &HashSet::from([1usize]));
    assert_eq!(
        named,
        vec![
            HistoryRow::DayHeader { ix: 0 },
            HistoryRow::Entry { ix: 0, indent: false },
            HistoryRow::DayHeader { ix: 3 },
            HistoryRow::Entry { ix: 3, indent: false },
        ]
    );
}

#[test]
fn opening_lands_on_the_newest_unfolded() {
    assert!(HistoryView::open(Vec::new()).is_none());
    let hv = HistoryView::open(vec![e(true), e(false), e(false)]).unwrap();
    assert_eq!(hv.selected(), 2);
    assert!(hv.rows().contains(&HistoryRow::Entry { ix: 2, indent: true }));
    let hv = HistoryView::open(vec![e(false), e(true)]).unwrap();
    assert_eq!(hv.selected(), 1);
    assert!(!hv.rows().iter().any(|r| matches!(r, HistoryRow::Group { open: true, .. })));
}

#[test]
fn stepping_into_a_folded_run_unfolds_it() {
    let mut hv = HistoryView::open(vec![e(false), e(false), e(true), e(false)]).unwrap();
    hv.select(0);
    assert_eq!(hv.selected(), 0);
    assert!(hv.rows().contains(&HistoryRow::Entry { ix: 0, indent: true }));
    hv.select(99);
    assert_eq!(hv.selected(), 3);
    hv.select_previous();
    assert_eq!(hv.selected(), 2);
    hv.select_next();
    hv.select_next();
    assert_eq!(hv.selected(), 3);
    hv.toggle_group(0);
    assert!(!hv.rows().contains(&HistoryRow::Entry { ix: 0, indent: true }));
    hv.toggle_group(0);
    assert!(hv.rows().contains(&HistoryRow::Entry { ix: 0, indent: true }));
    hv.toggle_named_only();
    assert_eq!(hv.rows(), vec![HistoryRow::DayHeader { ix: 2 }, HistoryRow::Entry { ix: 2, indent: false }]);
}

#[test]
fn delta_and_group_labels_spell_their_units() {
    assert_eq!(delta_label((0, 0)), "");
    assert_eq!(delta_label((412, 0)), "+412 words");
    assert_eq!(delta_label((0, 3)), "\u{2212}3 words");
    assert_eq!(delta_label((12, 40)), "+12 \u{2212}40 words");
    assert_eq!(group_label(1), "1 auto-checkpoint");
    assert_eq!(group_label(5), "5 auto-checkpoints");
}
