use strop::layers::{Layer, Layers};

fn open(palette: bool, shortcuts: bool, popover: bool, history: bool) -> Layers {
    Layers {
        ai_settings: false,
        palette,
        shortcuts,
        selection_popover: popover,
        history,
        narrow_notes: false,
    }
}

#[test]
fn escape_closes_the_topmost_layer_one_per_press() {
    let mut l = open(true, true, true, true);
    l.ai_settings = true;
    assert_eq!(l.escape(), Some(Layer::AiSettings));
    assert_eq!(l.escape(), Some(Layer::Palette));
    assert_eq!(l.escape(), Some(Layer::Shortcuts));
    assert_eq!(l.escape(), Some(Layer::SelectionPopover));
    assert_eq!(l.escape(), Some(Layer::History));
    assert_eq!(l.escape(), None);
    assert_eq!(l, open(false, false, false, false));
}

#[test]
fn escape_with_the_palette_open_closes_it_even_from_the_editor() {
    let mut l = open(true, false, false, true);
    assert_eq!(l.escape(), Some(Layer::Palette));
    assert_eq!(l, open(false, false, false, true));
}

#[test]
fn a_click_outside_closes_only_the_light_layers() {
    let mut l = open(true, true, true, true);
    l.ai_settings = true;
    l.narrow_notes = true;
    l.light_dismiss();
    let mut want = open(false, false, false, true);
    want.ai_settings = true;
    assert_eq!(l, want);
}
