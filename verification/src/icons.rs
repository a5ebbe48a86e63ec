//! The icon plate's table: the app's few pictorial marks by asset path, and
//! the asset source's lookups over it.

use vstd::prelude::*;
use crate::margin::str_eq;
use vstd::string::StrSliceExecFns;

verus! {

pub const BOOK: &'static str = "icons/book.svg";
/// The mono silhouette: an icon paints one color.
pub const STROP_MARK: &'static str = "icon/strop-mark-mono.svg";
pub const CARET_DOWN: &'static str = "icons/caret-down.svg";
pub const DISMISS: &'static str = "icons/dismiss.svg";
pub const GRAVE: &'static str = "icons/grave.svg";
pub const HISTORY: &'static str = "icons/history.svg";
pub const LINK: &'static str = "icons/link.svg";
pub const MENU: &'static str = "icons/menu.svg";
pub const NOTE: &'static str = "icons/note.svg";
pub const SQUIGGLE: &'static str = "icons/squiggle.svg";
pub const WIN_CLOSE: &'static str = "icons/win-close.svg";
pub const WIN_MAXIMIZE: &'static str = "icons/win-maximize.svg";
pub const WIN_MINIMIZE: &'static str = "icons/win-minimize.svg";

/// The embedded icons' paths, in table order.
pub open spec fn icon_paths() -> Seq<&'static str> {
    seq![
        "icon/strop-mark.svg",
        "icon/strop-mark-mono.svg",
        "icons/book.svg",
        "icons/caret-down.svg",
        "icons/dismiss.svg",
        "icons/grave.svg",
        "icons/history.svg",
        "icons/link.svg",
        "icons/menu.svg",
        "icons/note.svg",
        "icons/squiggle.svg",
        "icons/win-close.svg",
        "icons/win-maximize.svg",
        "icons/win-minimize.svg",
    ]
}

/// The paths of the embedded icons, in table order.
pub fn icon_table() -> (r: Vec<&'static str>)
    ensures
        r@ == icon_paths(),
{
    let r = vec![
        "icon/strop-mark.svg",
        "icon/strop-mark-mono.svg",
        "icons/book.svg",
        "icons/caret-down.svg",
        "icons/dismiss.svg",
        "icons/grave.svg",
        "icons/history.svg",
        "icons/link.svg",
        "icons/menu.svg",
        "icons/note.svg",
        "icons/squiggle.svg",
        "icons/win-close.svg",
        "icons/win-maximize.svg",
        "icons/win-minimize.svg",
    ];
    assert(r@ =~= icon_paths());
    r
}

/// `s` begins with `p`.
pub open spec fn starts_with(s: Seq<char>, p: Seq<char>) -> bool {
    p.len() <= s.len() && s.take(p.len() as int) == p
}

/// Index of the first table entry from `i` on whose path is `path`.
pub open spec fn find_from(path: Seq<char>, i: int) -> Option<int>
    decreases icon_paths().len() - i,
{
    if i < 0 || i >= icon_paths().len() {
        None
    } else if icon_paths()[i]@ == path {
        Some(i)
    } else {
        find_from(path, i + 1)
    }
}

/// The table's paths that begin with `prefix`, in table order.
pub open spec fn listed(prefix: Seq<char>, n: int) -> Seq<&'static str>
    decreases n,
{
    if n <= 0 {
        Seq::empty()
    } else {
        let rest = listed(prefix, n - 1);
        if starts_with(icon_paths()[n - 1]@, prefix) {
            rest.push(icon_paths()[n - 1])
        } else {
            rest
        }
    }
}

/// Does `s` begin with `p`?
fn str_starts_with(s: &str, p: &str) -> (b: bool)
    ensures
        b == starts_with(s@, p@),
{
    let n = p.unicode_len();
    if n > s.unicode_len() {
        return false;
    }
    let mut i: usize = 0;
    while i < n
        invariant
            n == p@.len(),
            n <= s@.len(),
            0 <= i <= n,
            forall|q: int| 0 <= q < i ==> s@[q] == p@[q],
        decreases n - i,
    {
        if s.get_char(i) != p.get_char(i) {
            proof {
                assert(s@.take(n as int)[i as int] != p@[i as int]);
            }
            return false;
        }
        i += 1;
    }
    assert(s@.take(n as int) =~= p@);
    true
}

/// The app's asset source: the embedded icons, by path.
pub struct StropAssets;

impl StropAssets {
    /// The table entry of the icon at `path`, if one is embedded.
    pub fn load(&self, path: &str) -> (r: Option<usize>)
        ensures
            r == (match find_from(path@, 0) {
                Some(i) => Some(i as usize),
                None => None,
            }),
    {
        let table = icon_table();
        let mut i: usize = 0;
        while i < table.len()
            invariant
                table@ == icon_paths(),
                0 <= i <= table@.len(),
                find_from(path@, 0) == find_from(path@, i as int),
            decreases table@.len() - i,
        {
            if str_eq(table[i], path) {
                return Some(i);
            }
            i += 1;
        }
        None
    }

    /// The embedded icon paths that begin with `path`, in table order.
    pub fn list(&self, path: &str) -> (r: Vec<&'static str>)
        ensures
            r@ == listed(path@, icon_paths().len() as int),
    {
        let table = icon_table();
        let mut out: Vec<&'static str> = Vec::new();
        let mut i: usize = 0;
        while i < table.len()
            invariant
                table@ == icon_paths(),
                0 <= i <= table@.len(),
                out@ == listed(path@, i as int),
            decreases table@.len() - i,
        {
            if str_starts_with(table[i], path) {
                out.push(table[i]);
            }
            i += 1;
        }
        out
    }
}

} // verus!
