use diskovery::selection::PathSet;
use diskovery::app::{delete_report, AppMode, AppState, DriveInfo};
use diskovery::fs_tree::FsNode;
use diskovery::scanner::ScanMsg;

fn dir(path: &str, size: u64, children: Vec<FsNode>, expanded: bool) -> FsNode {
    let mut n = FsNode::new_dir(path.to_string());
    n.size = size;
    n.children = children;
    n.expanded = expanded;
    n
}

fn file(path: &str, size: u64) -> FsNode {
    FsNode::new_file(path.to_string(), size)
}

fn no_drive() -> DriveInfo {
    DriveInfo { mount: String::new(), total_bytes: 0, used_bytes: 0, free_bytes: 0 }
}

/// A state browsing /r, which holds a (expanded, with f1 and f2), b and c.
fn browsing() -> AppState {
    let mut s = AppState::new("/r".to_string(), no_drive());
    let a = dir("/r/a", 30, vec![file("/r/a/f1", 20), file("/r/a/f2", 10)], false);
    let mut root = dir("/r", 60, vec![a, file("/r/b", 20), file("/r/c", 10)], true);
    root.children[0].expanded = true;
    s.root = Some(root);
    s.rebuild_flat();
    s.mode = AppMode::Browsing;
    s
}

fn paths(s: &AppState) -> Vec<String> {
    s.flat_list.iter().map(|i| i.path.clone()).collect()
}

#[test]
fn new_state_starts_scanning_an_empty_expanded_root() {
    let s = AppState::new("/home/u".to_string(), no_drive());
    assert_eq!(s.mode, AppMode::Scanning);
    let root = s.root.as_ref().unwrap();
    assert_eq!(root.path, "/home/u");
    assert_eq!(root.name, "u");
    assert!(root.expanded);
    assert_eq!(s.flat_list.len(), 1);
    assert_eq!(s.cursor, 0);
    assert!(s.confirm_focus_yes);
    assert!(!s.should_quit);
    assert!(s.status_msg.is_none());
}

#[test]
fn update_message_adds_child_sorted_and_sums_root() {
    let mut s = AppState::new("/r".to_string(), no_drive());
    let m1 = ScanMsg::Update { node: file("/r/small", 5), skipped: 1 };
    assert!(s.can_take(&m1));
    assert!(!s.poll_scan(m1));
    assert_eq!(s.mode, AppMode::Browsing);
    let m2 = ScanMsg::Update { node: dir("/r/big", 50, vec![], false), skipped: 2 };
    assert!(!s.poll_scan(m2));
    let root = s.root.as_ref().unwrap();
    assert_eq!(root.size, 55);
    assert_eq!(root.children[0].path, "/r/big");
    assert_eq!(root.children[1].path, "/r/small");
    assert_eq!(s.scan_progress, (2, 55));
    assert_eq!(s.skipped_total, 3);
    assert_eq!(paths(&s), vec!["/r", "/r/big", "/r/small"]);
}

#[test]
fn update_message_replaces_a_child_with_the_same_path() {
    let mut s = AppState::new("/r".to_string(), no_drive());
    s.poll_scan(ScanMsg::Update { node: file("/r/x", 5), skipped: 0 });
    s.poll_scan(ScanMsg::Update { node: file("/r/x", 8), skipped: 0 });
    let root = s.root.as_ref().unwrap();
    assert_eq!(root.children.len(), 1);
    assert_eq!(root.size, 8);
}

#[test]
fn done_message_reports_skipped_paths() {
    let mut s = AppState::new("/r".to_string(), no_drive());
    s.poll_scan(ScanMsg::Update { node: file("/r/x", 5), skipped: 2 });
    assert!(s.poll_scan(ScanMsg::Done { skipped: 0 }));
    assert_eq!(s.mode, AppMode::Browsing);
    assert_eq!(
        s.status_msg.as_deref(),
        Some("2 path(s) skipped (permission denied \u{2014} run as administrator to scan them)")
    );
}

#[test]
fn done_message_without_skips_clears_status() {
    let mut s = AppState::new("/r".to_string(), no_drive());
    s.status_msg = Some("old".to_string());
    assert!(s.poll_scan(ScanMsg::Done { skipped: 0 }));
    assert!(s.status_msg.is_none());
}

#[test]
fn can_take_refuses_an_overflowing_total() {
    let mut s = AppState::new("/r".to_string(), no_drive());
    s.poll_scan(ScanMsg::Update { node: file("/r/x", u64::MAX - 1), skipped: 0 });
    let m = ScanMsg::Update { node: file("/r/y", 2), skipped: 0 };
    assert!(!s.can_take(&m));
    let same = ScanMsg::Update { node: file("/r/x", 2), skipped: 0 };
    s.scan_progress.1 = 0;
    assert!(s.can_take(&same));
    assert!(!s.can_take(&ScanMsg::Done { skipped: usize::MAX }) || s.skipped_total == 0);
}

#[test]
fn cursor_moves_and_scrolls() {
    let mut s = browsing();
    assert_eq!(s.flat_list.len(), 6);
    s.cursor_down(2);
    assert_eq!((s.cursor, s.scroll_offset), (1, 0));
    s.cursor_down(2);
    assert_eq!((s.cursor, s.scroll_offset), (2, 1));
    s.cursor_up();
    assert_eq!((s.cursor, s.scroll_offset), (1, 1));
    s.cursor_up();
    assert_eq!((s.cursor, s.scroll_offset), (0, 0));
    s.cursor_up();
    assert_eq!((s.cursor, s.scroll_offset), (0, 0));
}

#[test]
fn cursor_stops_at_last_row() {
    let mut s = browsing();
    s.cursor = 5;
    s.scroll_offset = 3;
    s.cursor_down(3);
    assert_eq!((s.cursor, s.scroll_offset), (5, 3));
}

#[test]
fn pages_move_half_a_screen() {
    let mut s = browsing();
    s.page_down(4);
    assert_eq!((s.cursor, s.scroll_offset), (2, 0));
    s.page_down(4);
    assert_eq!((s.cursor, s.scroll_offset), (4, 1));
    s.page_down(4);
    assert_eq!((s.cursor, s.scroll_offset), (5, 2));
    s.page_up(4);
    assert_eq!((s.cursor, s.scroll_offset), (3, 2));
    s.page_up(1);
    assert_eq!((s.cursor, s.scroll_offset), (2, 2));
    s.page_up(10);
    assert_eq!((s.cursor, s.scroll_offset), (0, 0));
}

#[test]
fn home_and_end_jump() {
    let mut s = browsing();
    s.cursor_end(4);
    assert_eq!((s.cursor, s.scroll_offset), (5, 2));
    s.cursor_home();
    assert_eq!((s.cursor, s.scroll_offset), (0, 0));
}

#[test]
fn toggle_expand_expands_and_a_second_enter_keeps_it_open() {
    let mut s = browsing();
    let before = paths(&s);
    s.cursor = 1;
    s.toggle_expand();
    assert_eq!(paths(&s), before);
    s.collapse_or_parent();
    assert_eq!(paths(&s), vec!["/r", "/r/a", "/r/b", "/r/c"]);
    s.toggle_expand();
    assert_eq!(paths(&s), before);
    s.toggle_expand();
    assert_eq!(paths(&s), before);
}

#[test]
fn collapse_or_parent_climbs_to_a_root_given_with_a_trailing_separator() {
    let mut s = AppState::new("/r/".to_string(), no_drive());
    let mut root = dir("/r/", 20, vec![file("/r/a", 20)], true);
    root.expanded = true;
    s.root = Some(root);
    s.rebuild_flat();
    s.mode = AppMode::Browsing;
    s.cursor = 1;
    s.collapse_or_parent();
    assert_eq!(s.cursor, 0);
}

#[test]
fn toggle_expand_on_a_file_does_nothing() {
    let mut s = browsing();
    s.cursor = 4;
    s.toggle_expand();
    assert_eq!(s.flat_list.len(), 6);
}

#[test]
fn collapse_or_parent_collapses_then_climbs() {
    let mut s = browsing();
    s.cursor = 3;
    s.collapse_or_parent();
    assert_eq!(s.cursor, 1);
    s.collapse_or_parent();
    assert_eq!(paths(&s), vec!["/r", "/r/a", "/r/b", "/r/c"]);
    assert_eq!(s.cursor, 1);
    s.collapse_or_parent();
    assert_eq!(s.cursor, 0);
}

#[test]
fn move_cursor_to_missing_path_stays() {
    let mut s = browsing();
    s.cursor = 2;
    s.move_cursor_to_path(Some("/nowhere".to_string()));
    assert_eq!(s.cursor, 2);
    s.move_cursor_to_path(None);
    assert_eq!(s.cursor, 2);
    s.move_cursor_to_path(Some("/r/b".to_string()));
    assert_eq!(s.cursor, 4);
}

#[test]
fn toggle_select_twice_unselects() {
    let mut s = browsing();
    s.cursor = 4;
    s.toggle_select();
    assert_eq!(s.selected_paths.to_vec(), vec!["/r/b".to_string()]);
    assert!(s.flat_list[4].selected);
    s.toggle_select();
    assert!(s.selected_paths.is_empty());
    assert!(!s.flat_list[4].selected);
}

#[test]
fn select_all_selects_every_shown_row() {
    let mut s = browsing();
    s.cursor = 4;
    s.toggle_select();
    s.select_all();
    assert_eq!(s.selected_paths.to_vec(), vec!["/r/b", "/r", "/r/a", "/r/a/f1", "/r/a/f2", "/r/c"]);
    assert!(s.flat_list.iter().all(|i| i.selected));
}

#[test]
fn open_confirm_takes_selection_with_sizes() {
    let mut s = browsing();
    s.cursor = 4;
    s.toggle_select();
    s.cursor = 2;
    s.toggle_select();
    assert!(s.confirm_fits());
    s.open_confirm();
    assert_eq!(s.mode, AppMode::Confirming);
    assert_eq!(
        s.confirm_targets,
        vec![("/r/b".to_string(), 20), ("/r/a/f1".to_string(), 20)]
    );
    assert_eq!(s.confirm_total_bytes, 40);
    assert!(s.confirm_focus_yes);
}

#[test]
fn open_confirm_without_selection_takes_cursor_item() {
    let mut s = browsing();
    s.cursor = 5;
    s.open_confirm();
    assert_eq!(s.confirm_targets, vec![("/r/c".to_string(), 10)]);
    assert_eq!(s.confirm_total_bytes, 10);
}

#[test]
fn open_confirm_with_nothing_to_delete_stays() {
    let mut s = browsing();
    s.cursor = 99;
    s.open_confirm();
    assert_eq!(s.mode, AppMode::Browsing);
    s.selected_paths = PathSet::from_paths(&vec!["/gone".to_string()]);
    s.open_confirm();
    assert_eq!(s.mode, AppMode::Browsing);
    assert!(s.confirm_targets.is_empty());
}

#[test]
fn confirm_fits_detects_overflow() {
    let mut s = browsing();
    s.root.as_mut().unwrap().children[1].size = u64::MAX;
    s.selected_paths = PathSet::from_paths(&vec!["/r/b".to_string(), "/r/c".to_string()]);
    assert!(!s.confirm_fits());
}

#[test]
fn cancel_confirm_returns_to_browsing() {
    let mut s = browsing();
    s.cursor = 5;
    s.open_confirm();
    s.cancel_confirm();
    assert_eq!(s.mode, AppMode::Browsing);
    assert!(s.confirm_targets.is_empty());
}

#[test]
fn deletion_order_is_longest_path_first() {
    let mut s = browsing();
    s.confirm_targets = vec![
        ("/r/a".to_string(), 1),
        ("/r/a/f1".to_string(), 2),
        ("/r/b".to_string(), 3),
        ("/r/a/f2".to_string(), 4),
    ];
    let order = s.deletion_order();
    let names: Vec<&str> = order.iter().map(|t| t.0.as_str()).collect();
    assert_eq!(names, vec!["/r/a/f1", "/r/a/f2", "/r/a", "/r/b"]);
}

#[test]
fn execute_delete_reports_and_rescans() {
    let mut s = browsing();
    s.cursor = 5;
    s.toggle_select();
    s.open_confirm();
    s.confirm_total_bytes = 1024;
    let drive = DriveInfo { mount: "/".to_string(), total_bytes: 10, used_bytes: 4, free_bytes: 6 };
    s.execute_delete(1, vec![], drive);
    assert_eq!(s.status_msg.as_deref(), Some("Deleted 1 item(s). Freed ~1 KiB."));
    assert_eq!(s.mode, AppMode::Scanning);
    assert!(s.selected_paths.is_empty());
    assert!(s.confirm_targets.is_empty());
    assert_eq!(s.confirm_total_bytes, 0);
    assert_eq!(s.drive.total_bytes, 10);
    assert_eq!(s.flat_list.len(), 1);
}

#[test]
fn delete_report_lists_errors() {
    let r = delete_report(1, &vec!["a: denied".to_string(), "b: busy".to_string()], "5 B".to_string());
    assert_eq!(r, "Deleted 1 item(s). 2 error(s): a: denied; b: busy");
    let ok = delete_report(3, &vec![], "1.50 KiB".to_string());
    assert_eq!(ok, "Deleted 3 item(s). Freed ~1.50 KiB.");
}

#[test]
fn drive_info_default_is_empty() {
    let d = DriveInfo::default();
    assert_eq!(d.mount, "");
    assert_eq!((d.total_bytes, d.used_bytes, d.free_bytes), (0, 0, 0));
}

#[test]
fn open_confirm_counts_a_file_inside_a_selected_folder_once() {
    let mut s = browsing();
    s.cursor = 1;
    s.toggle_select();
    s.cursor = 2;
    s.toggle_select();
    s.open_confirm();
    assert_eq!(s.confirm_targets.len(), 2);
    assert_eq!(s.confirm_total_bytes, 30);
}

#[test]
fn rescan_forgets_the_selection() {
    let mut s = browsing();
    s.cursor = 4;
    s.toggle_select();
    assert_eq!(s.selected_paths.len(), 1);
    s.rescan();
    assert!(s.selected_paths.is_empty());
    s.cursor = 0;
    s.open_confirm();
    assert_eq!(s.confirm_targets, vec![("/r".to_string(), 0)]);
}

#[test]
fn a_path_set_holds_each_path_once() {
    let mut set = PathSet::from_paths(&vec!["/a".to_string(), "/b".to_string(), "/a".to_string()]);
    assert_eq!(set.to_vec(), vec!["/a", "/b"]);
    set.add(&"/b".to_string());
    assert_eq!(set.len(), 2);
    set.toggle(&"/a".to_string());
    assert_eq!(set.to_vec(), vec!["/b"]);
    set.toggle(&"/a".to_string());
    assert_eq!(set.to_vec(), vec!["/b", "/a"]);
    assert_eq!(set.get(1), "/a");
}

#[test]
fn a_path_set_compares_paths_as_paths() {
    let mut set = PathSet::from_paths(&vec!["/a/".to_string(), "/a".to_string(), "/b".to_string()]);
    assert_eq!(set.to_vec(), vec!["/a/", "/b"]);
    set.toggle(&"/a".to_string());
    assert_eq!(set.to_vec(), vec!["/b"]);
}

#[test]
fn marks_and_selection_stay_in_step() {
    let mut s = browsing();
    let in_step = |s: &AppState| {
        let sel = s.selected_paths.to_vec();
        s.flat_list.iter().all(|i| i.selected == sel.contains(&i.path))
    };
    s.cursor = 2;
    s.toggle_select();
    assert!(in_step(&s));
    s.cursor = 4;
    s.toggle_select();
    s.cursor = 2;
    s.toggle_select();
    assert!(in_step(&s));
    s.select_all();
    assert!(in_step(&s));
    s.cursor = 1;
    s.toggle_select();
    assert!(in_step(&s));
}
