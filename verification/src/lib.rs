//! The verified core of the Strop writing app: title sanitising, the session
//! and palette-frequency tables, recents bookkeeping, hyphenation routing,
//! caret motion, find and replace over document text, footnote numbering,
//! the history list and preview, the AI pass's state machine, the keyboard
//! reference's layout, and the margin: which cards surface, where they sit,
//! and which are on screen.

pub mod chars;
pub mod stem;
pub mod table;
pub mod state;
pub mod recents;
pub mod portal;
pub mod segment;
pub mod hyphen;
pub mod text;
pub mod format;
pub mod margin;
pub mod footnotes;
pub mod history;
pub mod ai;
pub mod keymap;
pub mod find;
pub mod icons;
pub mod outline;
pub mod preview;
pub mod ai_run;
pub mod goal;
pub mod palette;
pub mod zone;
pub mod lane;
pub mod layers;
pub mod runs;
