# strop

The logic of Strop, a distraction-free writing app, as a Verus library.
The functions in `src/` carry contracts that Verus proves, except a few
small wrappers around outside calls (`#[verifier::external_body]`: std's
case mapping, Unicode normalisation and segmentation, and the
`hyphenation` crate), whose contracts are trusted and say so in their doc
comments.

## Layout

- `src/` — the library, one module per concern:
  - text and search: `text` (caret motion by grapheme, word and
    paragraph; drag selection units), `find` (case-folded find and replace
    all), `outline` (headings and line previews), `segment` and `chars`
    (Unicode segmentation and character helpers);
  - the document's furniture: `footnotes` (painted numbers, new ids,
    excerpts), `zone` (which footnotes the page-bottom zone shows),
    `history` (the rewind list), `preview` (the merged history diff);
  - the margin: `margin` (which notes surface, card labels, focus),
    `lane` (the card packer, card visibility, reveal scrolling);
  - the app's chrome and state: `stem` (titles to file names), `recents`,
    `state` and `table` (carets and palette counts), `portal` (document
    portal paths), `palette` and `layers` (omnibox movement, Esc and
    click-away), `keymap` (the keyboard reference), `goal` and `format`
    (titlebar counts and timestamps), `icons`;
  - the AI surface: `ai` (providers, models, failures) and `ai_run` (the
    pass as a state machine);
  - `hyphen`: language routing and safe breaks over the `hyphenation`
    crate's patterns, loaded from the bytes of dictionary files.
- `tests/` — ordinary Rust tests against the compiled library.
- `app/` — the command-line shell: file and directory handling, the
  state files on disk, the hyphenation dictionaries under
  `assets/hyphenation/` (read at run time, never compiled in), launching
  windows and external programs.

Coordinates in `lane` and `keymap` are whole pixels.
