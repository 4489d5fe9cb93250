use diskovery::layout::{build_layout, centered_rect, dialog_area, dialog_frame, dialog_rows, Rect};

fn rect(x: u16, y: u16, width: u16, height: u16) -> Rect {
    Rect { x, y, width, height }
}

#[test]
fn screen_splits_into_bar_tree_and_status() {
    let (bar, tree, status) = build_layout(rect(0, 0, 80, 24));
    assert_eq!(bar, rect(0, 0, 80, 3));
    assert_eq!(tree, rect(0, 3, 80, 19));
    assert_eq!(status, rect(0, 22, 80, 2));
}

#[test]
fn centered_rect_takes_the_middle_share() {
    assert_eq!(centered_rect(60, 70, rect(0, 0, 100, 100)), rect(20, 15, 60, 70));
    assert_eq!(centered_rect(100, 100, rect(3, 4, 10, 10)), rect(3, 4, 10, 10));
}

#[test]
fn dialog_for_two_targets_lists_both() {
    let d = dialog_area(rect(0, 0, 100, 100), 2);
    assert_eq!(d, rect(20, 15 + (70 - 11) / 2, 60, 11));
    let rows = dialog_rows(d);
    assert_eq!(rows.len(), 8);
    assert_eq!(rows[2].height, 2);
    assert_eq!(rows[1], rect(21, d.y + 2, 58, 1));
    assert_eq!(rows[6].y, d.y + 8);
}

#[test]
fn dialog_for_many_targets_keeps_ten_rows_of_list() {
    let d = dialog_area(rect(0, 0, 100, 100), 25);
    assert_eq!(d.height, 19);
    assert_eq!(dialog_rows(d)[2].height, 10);
}

#[test]
fn dialog_in_a_small_screen_takes_the_whole_cell() {
    let d = dialog_area(rect(0, 0, 100, 10), 5);
    assert_eq!(d, centered_rect(60, 70, rect(0, 0, 100, 10)));
}

#[test]
fn dialog_frame_takes_the_rows_the_targets_need_in_the_middle() {
    assert_eq!(dialog_frame(rect(20, 15, 60, 70), 2), rect(20, 15 + 29, 60, 11));
    assert_eq!(dialog_frame(rect(20, 15, 60, 70), 40), rect(20, 15 + 25, 60, 19));
    assert_eq!(dialog_frame(rect(20, 15, 60, 10), 3), rect(20, 15, 60, 10));
}

fn edge(len: u16, k: u32) -> u16 {
    ((k * len as u32 + 50) / 100) as u16
}

#[test]
fn centered_rect_of_an_80_by_40_screen() {
    assert_eq!(centered_rect(60, 70, rect(0, 0, 80, 40)), rect(16, 6, 48, 28));
}

#[test]
fn centered_rect_rounds_its_edges_half_up() {
    for w in 0..120u16 {
        for h in [0u16, 1, 7, 10, 13, 24, 33, 41, 50, 99] {
            let r = centered_rect(60, 70, rect(3, 2, w, h));
            let y0 = edge(h, 15);
            let y1 = edge(h, 85);
            let x0 = edge(w, 20);
            let x1 = edge(w, 80);
            assert_eq!(r, rect(3 + x0, 2 + y0, x1 - x0, y1 - y0), "w {} h {}", w, h);
        }
    }
}

#[test]
fn screen_rows_for_every_height_from_five() {
    for h in 5..200u16 {
        let (bar, tree, status) = build_layout(rect(1, 4, 30, h));
        assert_eq!(bar, rect(1, 4, 30, 3));
        assert_eq!(tree, rect(1, 7, 30, h - 5));
        assert_eq!(status, rect(1, 4 + h - 2, 30, 2));
    }
}

#[test]
fn dialog_rows_give_the_list_what_the_single_rows_leave() {
    for h in 10..60u16 {
        let rows = dialog_rows(rect(5, 5, 40, h));
        let inner_h = h - 2;
        assert_eq!(rows[2], rect(6, 8, 38, inner_h - 7), "h {}", h);
        assert_eq!(rows[7], rect(6, 6 + inner_h - 1, 38, 1));
    }
}

#[test]
fn dialog_on_an_80_by_40_screen_lists_two_targets() {
    let d = dialog_area(rect(0, 0, 80, 40), 2);
    let rows = dialog_rows(d);
    assert_eq!(rows[2].height, 2);
}
