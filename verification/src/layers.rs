//! The editor's transient layers and how they are dismissed: Esc closes
//! exactly the topmost one, one per press; a click outside the light layers
//! closes all of those and nothing else.

use vstd::prelude::*;

verus! {

/// Which transient layers are open over the document.
#[derive(Clone, Copy, Debug, PartialEq, Eq, Structural)]
pub struct Layers {
    pub ai_settings: bool,
    pub palette: bool,
    pub shortcuts: bool,
    pub selection_popover: bool,
    pub history: bool,
    pub narrow_notes: bool,
}

/// A layer that Esc can close.
#[derive(Clone, Copy, Debug, PartialEq, Eq, Structural)]
pub enum Layer {
    AiSettings,
    Palette,
    Shortcuts,
    SelectionPopover,
    History,
}

/// The topmost open layer Esc can close, in the order AI settings, palette
/// (find and replace included), shortcuts, selection popover, history.
pub open spec fn topmost(l: Layers) -> Option<Layer> {
    if l.ai_settings {
        Some(Layer::AiSettings)
    } else if l.palette {
        Some(Layer::Palette)
    } else if l.shortcuts {
        Some(Layer::Shortcuts)
    } else if l.selection_popover {
        Some(Layer::SelectionPopover)
    } else if l.history {
        Some(Layer::History)
    } else {
        None
    }
}

/// `l` with the layer `x` closed.
pub open spec fn without(l: Layers, x: Layer) -> Layers {
    match x {
        Layer::AiSettings => Layers { ai_settings: false, ..l },
        Layer::Palette => Layers { palette: false, ..l },
        Layer::Shortcuts => Layers { shortcuts: false, ..l },
        Layer::SelectionPopover => Layers { selection_popover: false, ..l },
        Layer::History => Layers { history: false, ..l },
    }
}

/// How many of the layers Esc can close are open.
pub open spec fn open_count(l: Layers) -> int {
    (if l.ai_settings { 1int } else { 0 }) + (if l.palette { 1int } else { 0 }) + (if l.shortcuts {
        1int
    } else {
        0
    }) + (if l.selection_popover { 1int } else { 0 }) + (if l.history { 1int } else { 0 })
}

impl Layers {
    /// Esc: close the topmost layer, and only it. Returns the layer closed,
    /// if any was open.
    pub fn escape(&mut self) -> (closed: Option<Layer>)
        ensures
            closed == topmost(*old(self)),
            match closed {
                Some(x) => *final(self) == without(*old(self), x),
                None => *final(self) == *old(self),
            },
    {
        if self.ai_settings {
            self.ai_settings = false;
            Some(Layer::AiSettings)
        } else if self.palette {
            self.palette = false;
            Some(Layer::Palette)
        } else if self.shortcuts {
            self.shortcuts = false;
            Some(Layer::Shortcuts)
        } else if self.selection_popover {
            self.selection_popover = false;
            Some(Layer::SelectionPopover)
        } else if self.history {
            self.history = false;
            Some(Layer::History)
        } else {
            None
        }
    }

    /// A click outside the light layers: the palette, the shortcuts sheet,
    /// the selection popover and the narrow notes drawer close; the AI
    /// settings panel and the history view stay.
    pub fn light_dismiss(&mut self)
        ensures
            *final(self) == (Layers {
                palette: false,
                shortcuts: false,
                selection_popover: false,
                narrow_notes: false,
                ..*old(self)
            }),
    {
        self.palette = false;
        self.shortcuts = false;
        self.selection_popover = false;
        self.narrow_notes = false;
    }
}

/// One press of Esc closes exactly one layer when any is open, and none
/// when none is: the count of open layers drops by one, and every layer
/// above the one closed was already shut.
pub proof fn law_escape_closes_exactly_one(l: Layers)
    ensures
        topmost(l) is Some ==> open_count(without(l, topmost(l)->0)) == open_count(l) - 1,
        topmost(l) is None ==> open_count(l) == 0,
        topmost(l) is Some ==> topmost(without(l, topmost(l)->0)) != topmost(l),
{
}

} // verus!
