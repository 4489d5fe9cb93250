use diskovery::fs_tree::{FlatItem, NodeKind};
use diskovery::tree_text::{align_right, fit_name, label_fits, name_column, row_label, rows_in_view, size_cell};

fn item(name: &str, depth: usize, kind: NodeKind, has_children: bool, expanded: bool, selected: bool) -> FlatItem {
    FlatItem {
        path: format!("/x/{}", name),
        depth,
        name: name.to_string(),
        kind,
        size: 0,
        parent_size: 0,
        expanded,
        selected,
        has_children,
    }
}

#[test]
fn label_of_expanded_selected_directory() {
    let it = item("docs", 1, NodeKind::Directory, true, true, true);
    assert_eq!(row_label(&it, 20), "  [x] \u{25bc} docs        ");
    assert_eq!(row_label(&it, 20).chars().count(), 20);
}

#[test]
fn label_of_collapsed_directory_and_file() {
    let d = item("d", 0, NodeKind::Directory, true, false, false);
    assert_eq!(row_label(&d, 10), "[ ] \u{25b6} d   ");
    assert_eq!(row_label(&d, 10).chars().count(), 10);
    let f = item("f", 0, NodeKind::File, false, false, false);
    assert_eq!(row_label(&f, 10), "[ ]   f   ");
}

#[test]
fn long_names_are_cut_with_dots() {
    let f = item("abcdefghij", 0, NodeKind::File, false, false, false);
    assert_eq!(row_label(&f, 13), "[ ]   abcd...");
    assert_eq!(fit_name("abcdefghij", 3), "abcdefghij");
    assert_eq!(fit_name("abc", 0), "abc");
}

#[test]
fn non_ascii_names_are_cut_by_characters() {
    let f = item("\u{e9}\u{e9}\u{e9}\u{e9}\u{e9}\u{e9}", 0, NodeKind::File, false, false, false);
    assert!(label_fits(&f));
    assert_eq!(row_label(&f, 10), "[ ]   \u{e9}...");
    assert_eq!(row_label(&f, 12), "[ ]   \u{e9}\u{e9}\u{e9}\u{e9}\u{e9}\u{e9}");
    assert_eq!(fit_name("\u{65e5}\u{672c}\u{8a9e}\u{6587}\u{5b57}", 4), "\u{65e5}...");
}

#[test]
fn rows_of_every_kind_are_as_wide_as_the_name_column() {
    for (kind, children) in [(NodeKind::Directory, true), (NodeKind::Directory, false), (NodeKind::File, false)] {
        let it = item("x", 2, kind, children, false, false);
        assert_eq!(row_label(&it, 30).chars().count(), 30);
    }
}

#[test]
fn tree_panel_geometry() {
    assert_eq!(name_column(80), 50);
    assert_eq!(name_column(20), 0);
    assert_eq!(rows_in_view(10, 3, 4), (3, 7));
    assert_eq!(rows_in_view(10, 8, 4), (8, 10));
    assert_eq!(rows_in_view(10, 12, 4), (10, 10));
    assert_eq!(rows_in_view(3, 0, usize::MAX), (0, 3));
}

#[test]
fn sizes_are_right_aligned() {
    assert_eq!(align_right("5 B"), "       5 B");
    assert_eq!(align_right("0123456789ab"), "0123456789ab");
    assert_eq!(size_cell(1536), "  1.50 KiB");
    assert_eq!(size_cell(0), "       0 B");
}
