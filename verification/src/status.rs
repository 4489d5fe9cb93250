//! The text of the status line and of the titles.
use vstd::prelude::*;

use crate::app::{AppMode, AppState};
use crate::fs_tree::{display_name, node_name};
use crate::paths::file_name_of;
use crate::text::{decimal, decimal_string, format_size_binary, human_size};

verus! {

/// The first status line while scanning, `scanned` being the size scanned so
/// far as `humansize` writes it.
pub open spec fn scanning_text(done: nat, scanned: Seq<char>) -> Seq<char> {
    if done == 0 {
        " Scanning...  [Q] Quit"@
    } else {
        " Scanning... "@ + decimal(done) + " top-level items done, "@ + scanned
            + " scanned so far  [Q] Quit"@
    }
}

/// The first status line while scanning, given the text of the size scanned.
pub fn scanning_line(done: usize, scanned: String) -> (r: String)
    ensures
        r@ == scanning_text(done as nat, scanned@),
{
    if done == 0 {
        String::from_str(" Scanning...  [Q] Quit")
    } else {
        let mut r = String::from_str(" Scanning... ");
        r.append(decimal_string(done as u64).as_str());
        r.append(" top-level items done, ");
        r.append(scanned.as_str());
        r.append(" scanned so far  [Q] Quit");
        r
    }
}

/// The key hints shown while browsing, with the number of selected items.
pub open spec fn browsing_text(selected: nat) -> Seq<char> {
    " [\u{2191}\u{2193}] Navigate  [Enter/\u{2192}] Expand  [\u{2190}] Collapse  [Space] Select  [D] Delete  [R] Rescan  [Q] Quit"@
        + if selected > 0 {
        "  |  "@ + decimal(selected) + " selected"@
    } else {
        Seq::empty()
    }
}

/// The key hints shown in the dialog.
pub open spec fn confirming_text() -> Seq<char> {
    " [Tab/\u{2190}/\u{2192}] Switch button  [Enter] Confirm  [Esc] Cancel"@
}

/// The two status lines: the hints for the screen, and the status message
/// while browsing.
pub open spec fn status_text(s: AppState) -> (Seq<char>, Seq<char>) {
    match s.mode {
        AppMode::Scanning => (
            scanning_text(s.scan_progress.0 as nat, format_size_binary(s.scan_progress.1)),
            Seq::empty(),
        ),
        AppMode::Browsing => (
            browsing_text(s.selected_paths@.len()),
            match s.status_msg {
                Some(m) => m@,
                None => Seq::empty(),
            },
        ),
        AppMode::Confirming => (confirming_text(), Seq::empty()),
    }
}

/// The two lines of the status bar.
pub fn status_lines(state: &AppState) -> (r: (String, String))
    ensures
        (r.0@, r.1@) == status_text(*state),
{
    match state.mode {
        AppMode::Scanning => {
            let scanned = human_size(state.scan_progress.1);
            (scanning_line(state.scan_progress.0, scanned), String::new())
        },
        AppMode::Browsing => {
            let mut line = String::from_str(
                " [\u{2191}\u{2193}] Navigate  [Enter/\u{2192}] Expand  [\u{2190}] Collapse  [Space] Select  [D] Delete  [R] Rescan  [Q] Quit",
            );
            let sel = state.selected_paths.len();
            if sel > 0 {
                line.append("  |  ");
                line.append(decimal_string(sel as u64).as_str());
                line.append(" selected");
            } else {
                proof {
                    assert(line@ + Seq::<char>::empty() =~= line@);
                }
            }
            let msg = match &state.status_msg {
                Some(m) => m.clone(),
                None => String::new(),
            };
            (line, msg)
        },
        AppMode::Confirming => (
            String::from_str(" [Tab/\u{2190}/\u{2192}] Switch button  [Enter] Confirm  [Esc] Cancel"),
            String::new(),
        ),
    }
}

/// The title of the tree: how many items are selected, if any.
pub open spec fn tree_title_text(selected: nat) -> Seq<char> {
    if selected > 0 {
        " Files  ("@ + decimal(selected) + " selected) "@
    } else {
        " Files "@
    }
}

/// The title of the tree for `selected` selected items.
pub fn tree_title(selected: usize) -> (r: String)
    ensures
        r@ == tree_title_text(selected as nat),
{
    if selected > 0 {
        let mut r = String::from_str(" Files  (");
        r.append(decimal_string(selected as u64).as_str());
        r.append(" selected) ");
        r
    } else {
        String::from_str(" Files ")
    }
}

/// The header of the dialog.
pub open spec fn dialog_header_text(count: nat) -> Seq<char> {
    " "@ + decimal(count) + " item(s) will be permanently deleted:"@
}

/// The header of the dialog for `count` targets.
pub fn dialog_header(count: usize) -> (r: String)
    ensures
        r@ == dialog_header_text(count as nat),
{
    let mut r = String::from_str(" ");
    r.append(decimal_string(count as u64).as_str());
    r.append(" item(s) will be permanently deleted:");
    r
}

/// How the dialog lists `count` targets in `rows` rows: the number of
/// targets shown, and, where not all fit, how many more there are, told on
/// the last row.
pub fn dialog_list(count: usize, rows: usize) -> (r: (usize, Option<usize>))
    requires
        count > rows ==> rows >= 1,
    ensures
        count <= rows ==> r == (count, None::<usize>),
        count > rows ==> r == ((rows - 1) as usize, Some((count - (rows - 1)) as usize)),
{
    if count > rows {
        (rows - 1, Some(count - (rows - 1)))
    } else {
        (count, None)
    }
}

/// The line of the dialog for one target.
pub open spec fn dialog_item_text(path: Seq<char>, size: u64) -> Seq<char> {
    "   \u{2022} "@ + display_name(path) + "  ("@ + format_size_binary(size) + ")"@
}

/// The line of the dialog for the target `path` of `size` bytes, in its
/// three coloured pieces: the bullet, the name, and the size as `humansize`
/// writes it in brackets.
pub fn dialog_item(path: &String, size: u64) -> (r: (String, String, String))
    ensures
        r.0@ == "   \u{2022} "@,
        r.1@ == display_name(path@),
        r.2@ == "  ("@ + format_size_binary(size) + ")"@,
        r.0@ + r.1@ + r.2@ == dialog_item_text(path@, size),
{
    let bullet = String::from_str("   \u{2022} ");
    let name = node_name(path, file_name_of(path));
    let mut sz = String::from_str("  (");
    sz.append(human_size(size).as_str());
    sz.append(")");
    proof {
        assert(bullet@ + name@ + sz@ =~= dialog_item_text(path@, size));
    }
    (bullet, name, sz)
}

/// The last line of the dialog where `remaining` targets do not fit.
pub open spec fn dialog_more_text(remaining: nat) -> Seq<char> {
    "   ... and "@ + decimal(remaining) + " more"@
}

/// The last line of the dialog where `remaining` targets do not fit.
pub fn dialog_more(remaining: usize) -> (r: String)
    ensures
        r@ == dialog_more_text(remaining as nat),
{
    let mut r = String::from_str("   ... and ");
    r.append(decimal_string(remaining as u64).as_str());
    r.append(" more");
    r
}

/// A size in binary units, as `humansize` writes it (the dialog's total, the
/// drive's figures).
pub fn size_text(bytes: u64) -> (r: String)
    ensures
        r@ == format_size_binary(bytes),
{
    human_size(bytes)
}

} // verus!
