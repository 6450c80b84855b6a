//! The Markdown note windows of the reader: which window a note file that
//! is loaded again reopens.

use vstd::prelude::*;
use crate::text::{chars_eq, chars_of};

verus! {

/// The first window, from `i` on, that is closed and shows the file `path`.
pub open spec fn closed_window_from(windows: Seq<(bool, Seq<char>)>, path: Seq<char>, i: int) -> Option<int>
    decreases windows.len() - i,
{
    if i < 0 || i >= windows.len() {
        None
    } else if windows[i].1 == path && !windows[i].0 {
        Some(i)
    } else {
        closed_window_from(windows, path, i + 1)
    }
}

/// The windows as (open, file) pairs.
pub open spec fn windows_view(windows: Seq<(bool, String)>) -> Seq<(bool, Seq<char>)> {
    windows.map_values(|w: (bool, String)| (w.0, w.1@))
}

/// The window that loading the note file `path` again reopens: the first
/// closed window that shows it, if any.
pub fn first_closed_window(windows: &Vec<(bool, String)>, path: &str) -> (r: Option<usize>)
    ensures
        match closed_window_from(windows_view(windows@), path@, 0) {
            Some(i) => r == Some(i as usize),
            None => r is None,
        },
{
    let p = chars_of(path);
    let ghost ws = windows_view(windows@);
    let mut i: usize = 0;
    while i < windows.len()
        invariant
            i <= windows@.len(),
            ws == windows_view(windows@),
            p@ == path@,
            closed_window_from(ws, path@, 0) == closed_window_from(ws, path@, i as int),
        decreases windows.len() - i,
    {
        let w = chars_of(windows[i].1.as_str());
        assert(ws[i as int] == (windows@[i as int].0, windows@[i as int].1@));
        if chars_eq(&w, &p) && !windows[i].0 {
            return Some(i);
        }
        i = i + 1;
    }
    None
}

} // verus!
