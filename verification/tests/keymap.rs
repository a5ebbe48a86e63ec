use strop::keymap::{clamp_bounds, containing_display, static_window_size, CSD_GUTTER, DEFAULT_WIDTH};
use strop::keymap::{
    allocate_layout, content_fit_height, editing_baseline, keymap_sections, toggle_decision,
    Command, KeymapRow, ToggleDecision,
};

fn registry() -> Vec<Command> {
    vec![
        Command { label: "New Document", section: "File", keys: Some("ctrl-n") },
        Command { label: "Bold", section: "Format", keys: Some("ctrl-b") },
        Command { label: "Save", section: "File", keys: Some("ctrl-s") },
        Command { label: "Export Markdown", section: "File", keys: None },
        Command { label: "Italic", section: "Format", keys: Some("ctrl-i") },
        Command { label: "Toggle History", section: "View", keys: Some("ctrl-h") },
    ]
}

#[test]
fn controller_toggle_is_a_strict_two_state_switch() {
    assert_eq!(toggle_decision(false), ToggleDecision::Open);
    assert_eq!(toggle_decision(true), ToggleDecision::CloseAndRestore);
}

#[test]
fn model_contains_registry_once_in_deterministic_order() {
    let commands = registry();
    let first = keymap_sections(&commands);
    assert_eq!(first, keymap_sections(&commands));
    let mut rows: Vec<_> = first[..first.len() - 1]
        .iter()
        .flat_map(|(_, rows)| rows.iter().map(|row| row.action.as_str()))
        .collect();
    assert_eq!(rows.len(), commands.len());
    rows.sort_unstable();
    let mut labels: Vec<_> = commands.iter().map(|c| c.label).collect();
    labels.sort_unstable();
    assert_eq!(rows, labels);
    let names: Vec<_> = first[..first.len() - 1].iter().map(|(n, _)| n.as_str()).collect();
    assert_eq!(names, vec!["File", "Format", "View"]);
    for command in commands.iter().filter(|c| c.keys.is_none()) {
        assert!(first
            .iter()
            .flat_map(|(_, rows)| rows)
            .any(|row| row.action == command.label && row.keys == "palette"));
    }
    assert_eq!(first.last().unwrap().0, "Text editing");
    assert_eq!(first.last().unwrap().1, editing_baseline());
}

#[test]
fn editing_baseline_has_its_seven_rows() {
    let rows = editing_baseline();
    assert_eq!(rows.len(), 7);
    assert_eq!(
        rows[0],
        KeymapRow { action: "Move by word / paragraph".into(), keys: "ctrl-arrows".into() }
    );
    assert_eq!(rows[6].keys, "escape");
}

#[test]
fn layout_breakpoints_keep_sections_intact_and_default_fits() {
    let sections = keymap_sections(&registry());
    for (width, columns) in [(900, 3), (779, 2), (560, 2), (559, 1)] {
        let layout = allocate_layout(width, 1000, &sections);
        assert_eq!(layout.columns.len(), columns);
        let mut assigned: Vec<_> = layout.columns.into_iter().flatten().collect();
        assigned.sort_unstable();
        assert_eq!(assigned, (0..sections.len()).collect::<Vec<_>>());
    }
    let fit = content_fit_height(900, &sections);
    assert!(!allocate_layout(900, fit as i64, &sections).scrolls);
    assert!(allocate_layout(900, fit as i64 - 30, &sections).scrolls);
    assert!(allocate_layout(900, fit as i64 - 1, &sections).scrolls);
    assert!(allocate_layout(900, 100, &sections).scrolls);
    // The unresizable window's size is derived from the registry: the sheet
    // born at it never clips or scrolls.
    let (w, h) = static_window_size(&sections);
    assert_eq!(w, (DEFAULT_WIDTH + 2 * CSD_GUTTER) as i128);
    assert!(
        !allocate_layout((w - 2 * CSD_GUTTER as i128) as i64, (h - 2 * CSD_GUTTER as i128) as i64, &sections)
            .scrolls,
        "client decoration inset broke the static no-scroll contract"
    );
}

#[test]
fn packing_goes_to_the_shortest_column_leftmost_first() {
    let sections = keymap_sections(&registry());
    // File has 3 rows (80 px), Format 2 (64), View 1 (48), Text editing 7
    // (144): the last goes under View, the shortest column.
    let layout = allocate_layout(900, 10_000, &sections);
    assert_eq!(layout.columns, vec![vec![0], vec![1], vec![2, 3]]);
    // 48 + 144 = 192 tallest, plus 102 of chrome.
    assert_eq!(content_fit_height(900, &sections), 294);
    // Two columns: 80 | 64, then View under Format (112), then Text
    // editing under File (224).
    let two = allocate_layout(600, 10_000, &sections);
    assert_eq!(two.columns, vec![vec![0, 3], vec![1, 2]]);
    let narrow = allocate_layout(300, 10_000, &sections);
    assert_eq!(narrow.columns, vec![vec![0, 1, 2, 3]]);
}

#[test]
fn bounds_are_fully_clamped_to_the_work_area() {
    assert_eq!(clamp_bounds((-200, 900, 900, 560), (100, 50, 800, 500)), (100, 50, 800, 500));
}

#[test]
fn editor_display_selection_handles_a_two_display_matrix() {
    let displays = [(0, 0, 1920, 1080), (1920, -200, 2560, 1440)];
    assert_eq!(containing_display((100, 80, 900, 700), &displays), Some(0));
    assert_eq!(containing_display((2100, 0, 1200, 900), &displays), Some(1));
    assert_eq!(containing_display((1800, 0, 300, 700), &displays), None);
    assert_eq!(containing_display((5000, 0, 800, 600), &displays), None);

    assert_eq!(
        clamp_bounds((100, 100, 900, 560), displays[1]),
        (1920, 100, 900, 560),
        "remembered primary-display bounds clamp onto the editor's display"
    );
}

#[test]
fn small_remembered_windows_grow_to_the_minimum() {
    assert_eq!(clamp_bounds((10, 10, 100, 100), (0, 0, 1920, 1080)), (10, 10, 400, 300));
    // A work area smaller than the minimum wins.
    assert_eq!(clamp_bounds((10, 10, 100, 100), (0, 0, 350, 250)), (0, 0, 350, 250));
}
