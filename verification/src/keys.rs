//! What each key does, by screen.
use vstd::prelude::*;

use crate::app::{AppMode, AppState};

verus! {

/// A key press, as the browser tells keys apart.
#[derive(Debug, Clone, Copy, PartialEq, Eq)]
pub enum Key {
    Char(char),
    Esc,
    Up,
    Down,
    PageUp,
    PageDown,
    Home,
    End,
    Enter,
    Left,
    Right,
    Tab,
    Other,
}

/// What a key asks for.
#[derive(Debug, Clone, Copy, PartialEq, Eq, Structural)]
pub enum Action {
    Nothing,
    Quit,
    CursorUp,
    CursorDown,
    PageUp,
    PageDown,
    Home,
    End,
    Expand,
    CollapseOrParent,
    ToggleSelect,
    SelectAll,
    OpenConfirm,
    Rescan,
    CancelConfirm,
    ToggleFocus,
    Delete,
}

/// The action of `key` on a screen in `mode`; in the dialog, Enter deletes
/// when "Yes" has the focus (`focus_yes`) and cancels otherwise.
pub open spec fn action_of(mode: AppMode, focus_yes: bool, key: Key) -> Action {
    match mode {
        AppMode::Scanning => match key {
            Key::Char(c) => if c == 'q' || c == 'Q' {
                Action::Quit
            } else {
                Action::Nothing
            },
            Key::Esc => Action::Quit,
            _ => Action::Nothing,
        },
        AppMode::Browsing => match key {
            Key::Char(c) => if c == 'q' || c == 'Q' {
                Action::Quit
            } else if c == 'k' {
                Action::CursorUp
            } else if c == 'j' {
                Action::CursorDown
            } else if c == 'l' {
                Action::Expand
            } else if c == 'h' {
                Action::CollapseOrParent
            } else if c == ' ' {
                Action::ToggleSelect
            } else if c == 'a' || c == 'A' {
                Action::SelectAll
            } else if c == 'd' || c == 'D' {
                Action::OpenConfirm
            } else if c == 'r' || c == 'R' {
                Action::Rescan
            } else {
                Action::Nothing
            },
            Key::Esc => Action::Quit,
            Key::Up => Action::CursorUp,
            Key::Down => Action::CursorDown,
            Key::PageUp => Action::PageUp,
            Key::PageDown => Action::PageDown,
            Key::Home => Action::Home,
            Key::End => Action::End,
            Key::Enter => Action::Expand,
            Key::Right => Action::Expand,
            Key::Left => Action::CollapseOrParent,
            _ => Action::Nothing,
        },
        AppMode::Confirming => match key {
            Key::Char(c) => if c == 'q' || c == 'Q' {
                Action::CancelConfirm
            } else if c == 'h' || c == 'l' {
                Action::ToggleFocus
            } else {
                Action::Nothing
            },
            Key::Esc => Action::CancelConfirm,
            Key::Tab => Action::ToggleFocus,
            Key::Left => Action::ToggleFocus,
            Key::Right => Action::ToggleFocus,
            Key::Enter => if focus_yes {
                Action::Delete
            } else {
                Action::CancelConfirm
            },
            _ => Action::Nothing,
        },
    }
}

/// What `key` asks for in the current state.
pub fn key_action(state: &AppState, key: Key) -> (r: Action)
    ensures
        r == action_of(state.mode, state.confirm_focus_yes, key),
{
    match state.mode {
        AppMode::Scanning => match key {
            Key::Char(c) => if c == 'q' || c == 'Q' {
                Action::Quit
            } else {
                Action::Nothing
            },
            Key::Esc => Action::Quit,
            _ => Action::Nothing,
        },
        AppMode::Browsing => match key {
            Key::Char(c) => if c == 'q' || c == 'Q' {
                Action::Quit
            } else if c == 'k' {
                Action::CursorUp
            } else if c == 'j' {
                Action::CursorDown
            } else if c == 'l' {
                Action::Expand
            } else if c == 'h' {
                Action::CollapseOrParent
            } else if c == ' ' {
                Action::ToggleSelect
            } else if c == 'a' || c == 'A' {
                Action::SelectAll
            } else if c == 'd' || c == 'D' {
                Action::OpenConfirm
            } else if c == 'r' || c == 'R' {
                Action::Rescan
            } else {
                Action::Nothing
            },
            Key::Esc => Action::Quit,
            Key::Up => Action::CursorUp,
            Key::Down => Action::CursorDown,
            Key::PageUp => Action::PageUp,
            Key::PageDown => Action::PageDown,
            Key::Home => Action::Home,
            Key::End => Action::End,
            Key::Enter => Action::Expand,
            Key::Right => Action::Expand,
            Key::Left => Action::CollapseOrParent,
            _ => Action::Nothing,
        },
        AppMode::Confirming => match key {
            Key::Char(c) => if c == 'q' || c == 'Q' {
                Action::CancelConfirm
            } else if c == 'h' || c == 'l' {
                Action::ToggleFocus
            } else {
                Action::Nothing
            },
            Key::Esc => Action::CancelConfirm,
            Key::Tab => Action::ToggleFocus,
            Key::Left => Action::ToggleFocus,
            Key::Right => Action::ToggleFocus,
            Key::Enter => if state.confirm_focus_yes {
                Action::Delete
            } else {
                Action::CancelConfirm
            },
            _ => Action::Nothing,
        },
    }
}

/// The number of tree rows in view on a terminal of `height` rows (24 where
/// the height is unknown): the height less 7 rows of frame, bars and
/// borders, and at least 0.
pub fn visible_height(height: Option<u16>) -> (r: usize)
    ensures
        r == (match height {
            Some(h) => if h >= 7 { h - 7 } else { 0 },
            None => 17,
        }),
{
    let h: usize = match height {
        Some(h) => h as usize,
        None => 24,
    };
    h.saturating_sub(7)
}

impl AppState {
    /// Ends the program at the next turn of the loop.
    pub fn quit(&mut self)
        ensures
            *final(self) == (AppState { should_quit: true, ..*old(self) }),
    {
        self.should_quit = true;
    }

    /// Moves the cursor to the first row, scrolled to the top.
    pub fn cursor_home(&mut self)
        ensures
            *final(self) == (AppState { cursor: 0, scroll_offset: 0, ..*old(self) }),
    {
        self.cursor = 0;
        self.scroll_offset = 0;
    }

    /// Moves the cursor to the last row, scrolled so that it is the last of
    /// the `visible_height` rows in view.
    pub fn cursor_end(&mut self, visible_height: usize)
        ensures
            final(self).cursor == (if old(self).flat_list.len() > 0 {
                old(self).flat_list.len() - 1
            } else {
                0
            }),
            final(self).scroll_offset == (if final(self).cursor >= visible_height {
                final(self).cursor + 1 - visible_height
            } else {
                old(self).scroll_offset as int
            }),
            *final(self) == (AppState {
                cursor: final(self).cursor,
                scroll_offset: final(self).scroll_offset,
                ..*old(self)
            }),
    {
        let max = self.flat_list.len().saturating_sub(1);
        self.cursor = max;
        if max >= visible_height {
            self.scroll_offset = max + 1 - visible_height;
        }
    }

    /// Moves the focus of the dialog between "Yes" and "Cancel".
    pub fn toggle_focus(&mut self)
        ensures
            *final(self) == (AppState { confirm_focus_yes: !old(self).confirm_focus_yes, ..*old(self) }),
    {
        self.confirm_focus_yes = !self.confirm_focus_yes;
    }

    /// Clears the status line and the selection, and starts a new scan.
    pub fn rescan(&mut self)
        ensures
            final(self).status_msg is None,
            final(self).mode == AppMode::Scanning,
            final(self).scan_progress == (0usize, 0u64),
            final(self).skipped_total == 0,
            final(self).root matches Some(t) && t@ == crate::app::scan_root(old(self).root_path@),
            rows_of_scan(*final(self), old(self).root_path@),
            final(self).selected_paths@.len() == 0,
            *final(self) == (AppState {
                selected_paths: final(self).selected_paths,
                status_msg: final(self).status_msg,
                mode: final(self).mode,
                scan_progress: final(self).scan_progress,
                skipped_total: final(self).skipped_total,
                root: final(self).root,
                flat_list: final(self).flat_list,
                ..*old(self)
            }),
    {
        self.status_msg = None;
        self.start_scan();
    }
}

/// The shown rows are those of a fresh scan of `path`.
pub open spec fn rows_of_scan(s: AppState, path: Seq<char>) -> bool {
    crate::fs_tree::rows(s.flat_list@) == crate::fs_tree::flat_rows(crate::app::scan_root(path))
}

/// Law: the keys that the key table lists together ask for the same thing.
/// While browsing, the arrows and their letters agree (Up and 'k', Down and
/// 'j', Enter, Right and 'l', Left and 'h'), as do the quit keys (Q, q,
/// Esc), 'a' and 'A', 'd' and 'D', 'r' and 'R'; on the scanning screen Q, q
/// and Esc quit; in the dialog Tab, Left, Right, 'h' and 'l' all move the
/// focus, and Esc, q and Q cancel. None of the keys of the table is ignored
/// where it is listed, and the moves of the cursor go the ways they name.
pub proof fn lemma_keys_agree(focus_yes: bool)
    ensures
        ({
            let b = |k: Key| action_of(AppMode::Browsing, focus_yes, k);
            let s = |k: Key| action_of(AppMode::Scanning, focus_yes, k);
            let c = |k: Key| action_of(AppMode::Confirming, focus_yes, k);
            &&& b(Key::Up) == b(Key::Char('k'))
            &&& b(Key::Down) == b(Key::Char('j'))
            &&& b(Key::Enter) == b(Key::Right) && b(Key::Right) == b(Key::Char('l'))
            &&& b(Key::Left) == b(Key::Char('h'))
            &&& b(Key::Esc) == b(Key::Char('q')) && b(Key::Char('q')) == b(Key::Char('Q'))
            &&& b(Key::Char('a')) == b(Key::Char('A'))
            &&& b(Key::Char('d')) == b(Key::Char('D'))
            &&& b(Key::Char('r')) == b(Key::Char('R'))
            &&& s(Key::Esc) == s(Key::Char('q')) && s(Key::Char('q')) == s(Key::Char('Q'))
            &&& c(Key::Tab) == c(Key::Left) && c(Key::Left) == c(Key::Right) && c(Key::Right) == c(Key::Char('h'))
                && c(Key::Char('h')) == c(Key::Char('l'))
            &&& c(Key::Esc) == c(Key::Char('q')) && c(Key::Char('q')) == c(Key::Char('Q'))
            &&& b(Key::Up) == Action::CursorUp && b(Key::Down) == Action::CursorDown
            &&& b(Key::PageUp) == Action::PageUp && b(Key::PageDown) == Action::PageDown
            &&& b(Key::Enter) == Action::Expand && b(Key::Left) == Action::CollapseOrParent
            &&& b(Key::Char(' ')) == Action::ToggleSelect && b(Key::Char('a')) == Action::SelectAll
            &&& b(Key::Char('d')) == Action::OpenConfirm && b(Key::Char('r')) == Action::Rescan
            &&& b(Key::Esc) == Action::Quit && s(Key::Esc) == Action::Quit
            &&& c(Key::Tab) == Action::ToggleFocus && c(Key::Esc) == Action::CancelConfirm
            &&& c(Key::Enter) == (if focus_yes { Action::Delete } else { Action::CancelConfirm })
        }),
{
}

} // verus!
