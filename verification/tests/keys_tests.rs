use diskovery::selection::PathSet;
use diskovery::app::{AppMode, AppState, DriveInfo};
use diskovery::keys::{key_action, visible_height, Action, Key};
use diskovery::status::{dialog_header, dialog_item, dialog_list, dialog_more, scanning_line, size_text, status_lines, tree_title};

fn state(mode: AppMode) -> AppState {
    let mut s = AppState::new(
        "/r".to_string(),
        DriveInfo { mount: String::new(), total_bytes: 0, used_bytes: 0, free_bytes: 0 },
    );
    s.mode = mode;
    s
}

#[test]
fn scanning_screen_only_quits() {
    let s = state(AppMode::Scanning);
    assert_eq!(key_action(&s, Key::Char('q')), Action::Quit);
    assert_eq!(key_action(&s, Key::Char('Q')), Action::Quit);
    assert_eq!(key_action(&s, Key::Esc), Action::Quit);
    assert_eq!(key_action(&s, Key::Down), Action::Nothing);
}

#[test]
fn browsing_keys() {
    let s = state(AppMode::Browsing);
    assert_eq!(key_action(&s, Key::Esc), Action::Quit);
    assert_eq!(key_action(&s, Key::Up), Action::CursorUp);
    assert_eq!(key_action(&s, Key::Char('k')), Action::CursorUp);
    assert_eq!(key_action(&s, Key::Char('j')), Action::CursorDown);
    assert_eq!(key_action(&s, Key::PageDown), Action::PageDown);
    assert_eq!(key_action(&s, Key::PageUp), Action::PageUp);
    assert_eq!(key_action(&s, Key::Home), Action::Home);
    assert_eq!(key_action(&s, Key::End), Action::End);
    assert_eq!(key_action(&s, Key::Enter), Action::Expand);
    assert_eq!(key_action(&s, Key::Char('l')), Action::Expand);
    assert_eq!(key_action(&s, Key::Left), Action::CollapseOrParent);
    assert_eq!(key_action(&s, Key::Char(' ')), Action::ToggleSelect);
    assert_eq!(key_action(&s, Key::Char('A')), Action::SelectAll);
    assert_eq!(key_action(&s, Key::Char('d')), Action::OpenConfirm);
    assert_eq!(key_action(&s, Key::Char('R')), Action::Rescan);
    assert_eq!(key_action(&s, Key::Tab), Action::Nothing);
    assert_eq!(key_action(&s, Key::Char('x')), Action::Nothing);
}

#[test]
fn dialog_keys() {
    let mut s = state(AppMode::Confirming);
    assert_eq!(key_action(&s, Key::Esc), Action::CancelConfirm);
    assert_eq!(key_action(&s, Key::Char('q')), Action::CancelConfirm);
    assert_eq!(key_action(&s, Key::Tab), Action::ToggleFocus);
    assert_eq!(key_action(&s, Key::Char('h')), Action::ToggleFocus);
    assert_eq!(key_action(&s, Key::Enter), Action::Delete);
    s.toggle_focus();
    assert!(!s.confirm_focus_yes);
    assert_eq!(key_action(&s, Key::Enter), Action::CancelConfirm);
}

#[test]
fn visible_height_leaves_room_for_frame() {
    assert_eq!(visible_height(Some(30)), 23);
    assert_eq!(visible_height(Some(5)), 0);
    assert_eq!(visible_height(None), 17);
}

#[test]
fn quit_and_rescan() {
    let mut s = state(AppMode::Browsing);
    s.status_msg = Some("x".to_string());
    s.quit();
    assert!(s.should_quit);
    s.rescan();
    assert!(s.status_msg.is_none());
    assert_eq!(s.mode, AppMode::Scanning);
}

#[test]
fn status_lines_per_screen() {
    let mut s = state(AppMode::Scanning);
    assert_eq!(status_lines(&s).0, " Scanning...  [Q] Quit");
    s.scan_progress = (3, 1536);
    assert_eq!(
        status_lines(&s).0,
        " Scanning... 3 top-level items done, 1.50 KiB scanned so far  [Q] Quit"
    );
    s.mode = AppMode::Browsing;
    s.selected_paths = PathSet::from_paths(&vec!["/r".to_string(), "/s".to_string()]);
    s.status_msg = Some("hello".to_string());
    let (l1, l2) = status_lines(&s);
    assert!(l1.ends_with("[Q] Quit  |  2 selected"));
    assert!(l1.starts_with(" [\u{2191}\u{2193}] Navigate"));
    assert_eq!(l2, "hello");
    s.mode = AppMode::Confirming;
    assert_eq!(
        status_lines(&s),
        (" [Tab/\u{2190}/\u{2192}] Switch button  [Enter] Confirm  [Esc] Cancel".to_string(), String::new())
    );
}

#[test]
fn scanning_line_given_size_text() {
    assert_eq!(scanning_line(0, "9 B".to_string()), " Scanning...  [Q] Quit");
    assert_eq!(
        scanning_line(1, "9 B".to_string()),
        " Scanning... 1 top-level items done, 9 B scanned so far  [Q] Quit"
    );
}

#[test]
fn titles_and_dialog_text() {
    assert_eq!(tree_title(0), " Files ");
    assert_eq!(tree_title(4), " Files  (4 selected) ");
    assert_eq!(dialog_header(2), " 2 item(s) will be permanently deleted:");
    assert_eq!(dialog_list(3, 10), (3, None));
    assert_eq!(dialog_list(12, 10), (9, Some(3)));
    assert_eq!(dialog_list(2, 1), (0, Some(2)));
}

#[test]
fn dialog_lines_name_each_target_with_its_size() {
    let (b, n, s) = dialog_item(&"/r/a/photo.jpg".to_string(), 1536);
    assert_eq!(format!("{}{}{}", b, n, s), "   \u{2022} photo.jpg  (1.50 KiB)");
    assert_eq!((b.as_str(), n.as_str(), s.as_str()), ("   \u{2022} ", "photo.jpg", "  (1.50 KiB)"));
    let (b, n, s) = dialog_item(&"/".to_string(), 0);
    assert_eq!(format!("{}{}{}", b, n, s), "   \u{2022} /  (0 B)");
    assert_eq!(dialog_more(3), "   ... and 3 more");
    assert_eq!(size_text(1024), "1 KiB");
}
