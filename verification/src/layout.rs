//! Where the parts of the screen go: the bars and the tree one above the
//! other, and the dialog in the middle.
use ratatui::layout as tui;
use vstd::prelude::*;

verus! {

/// A rectangle of terminal cells.
#[derive(Debug, Clone, Copy, PartialEq, Eq, Structural)]
pub struct Rect {
    pub x: u16,
    pub y: u16,
    pub width: u16,
    pub height: u16,
}

/// How much of an area a part asks for: a fixed length, at least a length,
/// or a percentage.
#[derive(Debug, Clone, Copy, PartialEq, Eq, Structural)]
pub enum Constraint {
    Length(u16),
    Min(u16),
    Percentage(u16),
}

/// The direction in which an area is cut.
#[derive(Debug, Clone, Copy, PartialEq, Eq, Structural)]
pub enum Direction {
    Horizontal,
    Vertical,
}

/// `r` lies inside `a`.
pub open spec fn within(r: Rect, a: Rect) -> bool {
    &&& a.x <= r.x
    &&& r.x + r.width <= a.x + a.width
    &&& a.y <= r.y
    &&& r.y + r.height <= a.y + a.height
}

/// A part of `area` cut in `direction`: inside `area`, and as wide (cut
/// vertically) or as tall (cut horizontally) as `area`.
pub open spec fn part_of(r: Rect, area: Rect, direction: Direction) -> bool {
    &&& within(r, area)
    &&& direction == Direction::Vertical ==> r.x == area.x && r.width == area.width
    &&& direction == Direction::Horizontal ==> r.y == area.y && r.height == area.height
}

/// The area ends inside the screen's coordinates, so that ratatui's
/// `right()` and `bottom()` do not saturate.
pub open spec fn in_range(a: Rect) -> bool {
    a.x + a.width <= u16::MAX && a.y + a.height <= u16::MAX
}

/// The length of `area` along the cut.
pub open spec fn length_along(area: Rect, direction: Direction) -> int {
    match direction {
        Direction::Vertical => area.height as int,
        Direction::Horizontal => area.width as int,
    }
}

/// The band of `area` from `lo` to `hi` cells along the cut, spanning it
/// across.
pub open spec fn band(area: Rect, direction: Direction, lo: int, hi: int) -> Rect {
    match direction {
        Direction::Vertical => Rect { y: (area.y + lo) as u16, height: (hi - lo) as u16, ..area },
        Direction::Horizontal => Rect { x: (area.x + lo) as u16, width: (hi - lo) as u16, ..area },
    }
}

/// Where `k` percent of a length `len` ends, rounded to the nearest cell,
/// halves up (as ratatui rounds the solver's edges).
pub open spec fn pct_edge(len: int, k: int) -> int {
    (k * len + 50) / 100
}

/// The percentage a constraint asks for; -1 for another kind.
pub open spec fn percent_of(c: Constraint) -> int {
    match c {
        Constraint::Percentage(p) => p as int,
        _ => -1,
    }
}

/// Three percentages that add up to at most 100.
pub open spec fn three_percentages(cs: Seq<Constraint>) -> bool {
    &&& cs.len() == 3
    &&& forall|i: int| 0 <= i < 3 ==> percent_of(#[trigger] cs[i]) >= 0
    &&& percent_of(cs[0]) + percent_of(cs[1]) + percent_of(cs[2]) <= 100
}

/// The parts that three percentages `a`, `b`, `c` (together at most 100)
/// give: each its share of the length from the start, in order.
pub open spec fn percent_parts(area: Rect, direction: Direction, a: int, b: int, c: int) -> Seq<Rect> {
    let len = length_along(area, direction);
    seq![
        band(area, direction, 0, pct_edge(len, a)),
        band(area, direction, pct_edge(len, a), pct_edge(len, a + b)),
        band(area, direction, pct_edge(len, a + b), pct_edge(len, a + b + c)),
    ]
}

/// The screen's three rows for `screen_parts` in a screen of at least 5 rows.
pub open spec fn screen_rows(area: Rect) -> Seq<Rect> {
    let h = area.height as int;
    seq![
        band(area, Direction::Vertical, 0, 3),
        band(area, Direction::Vertical, 3, h - 2),
        band(area, Direction::Vertical, h - 2, h),
    ]
}

/// The dialog's eight rows for `dialog_parts` in an inside of at least 8
/// rows: the list takes what the seven single rows leave.
pub open spec fn dialog_row_bands(area: Rect) -> Seq<Rect> {
    let h = area.height as int;
    seq![
        band(area, Direction::Vertical, 0, 1),
        band(area, Direction::Vertical, 1, 2),
        band(area, Direction::Vertical, 2, h - 5),
        band(area, Direction::Vertical, h - 5, h - 4),
        band(area, Direction::Vertical, h - 4, h - 3),
        band(area, Direction::Vertical, h - 3, h - 2),
        band(area, Direction::Vertical, h - 2, h - 1),
        band(area, Direction::Vertical, h - 1, h),
    ]
}

/// Calls `ratatui::layout::Layout::split` on `Layout::new` of the given
/// direction and constraints (no margin, the default `Flex::Start`).
/// Claimed, as the source of `try_split` (and cassowary's strengths) shows
/// it: one part per constraint, each inside `area` and spanning it across
/// the cut; and, where the solver's optimum is unique, that optimum:
/// - three percentages that add up to at most 100 each get their share
///   exactly (strong), from the start of the area, the rest left to the
///   last spacer; the edges are rounded to cells, halves up;
/// - `screen_parts` in at least 5 rows: the lengths exactly (strong × 10),
///   the `Min` row the rest (its medium fill outweighs the last spacer's
///   growth);
/// - `dialog_parts` in at least 8 rows: likewise.
/// Not stated: the sizes in other cases, where several solutions can be
/// equally good and the solver picks one by the order in which it walks a
/// hash map; and the solver's own failure, which ratatui turns into a panic
/// and which no constraint list used here can cause.
#[verifier::external_body]
fn split(direction: Direction, area: Rect, constraints: &Vec<Constraint>) -> (r: Vec<Rect>)
    ensures
        r@.len() == constraints@.len(),
        forall|i: int| 0 <= i < r@.len() ==> part_of(#[trigger] r@[i], area, direction),
        in_range(area) && three_percentages(constraints@) ==> r@ == percent_parts(
            area,
            direction,
            percent_of(constraints@[0]),
            percent_of(constraints@[1]),
            percent_of(constraints@[2]),
        ),
        in_range(area) && direction == Direction::Vertical && constraints@ == screen_parts() && area.height >= 5
            ==> r@ == screen_rows(area),
        in_range(area) && direction == Direction::Vertical && constraints@ == dialog_parts() && area.height >= 8
            ==> r@ == dialog_row_bands(area),
{
    let d = match direction {
        Direction::Horizontal => tui::Direction::Horizontal,
        Direction::Vertical => tui::Direction::Vertical,
    };
    let cs: Vec<tui::Constraint> = constraints.iter().map(|c| match *c {
        Constraint::Length(n) => tui::Constraint::Length(n),
        Constraint::Min(n) => tui::Constraint::Min(n),
        Constraint::Percentage(n) => tui::Constraint::Percentage(n),
    }).collect();
    let a = tui::Rect { x: area.x, y: area.y, width: area.width, height: area.height };
    tui::Layout::new(d, cs).split(a).iter().map(|r| Rect { x: r.x, y: r.y, width: r.width, height: r.height }).collect()
}

/// The parts of the screen, top to bottom: the drive bar (3 rows), the tree
/// (the rest), the status bar (2 rows).
pub open spec fn screen_parts() -> Seq<Constraint> {
    seq![Constraint::Length(3), Constraint::Min(0), Constraint::Length(2)]
}

/// The drive bar, the tree and the status bar of the screen `area`, cut
/// by `screen_parts`: each a full-width part of `area`; on a screen of at
/// least 5 rows, 3 rows on top, 2 at the bottom and the rest between.
pub fn build_layout(area: Rect) -> (r: (Rect, Rect, Rect))
    ensures
        part_of(r.0, area, Direction::Vertical),
        part_of(r.1, area, Direction::Vertical),
        part_of(r.2, area, Direction::Vertical),
        in_range(area) && area.height >= 5 ==> r == (screen_rows(area)[0], screen_rows(area)[1], screen_rows(area)[2]),
{
    let parts = vec![Constraint::Length(3), Constraint::Min(0), Constraint::Length(2)];
    proof {
        assert(parts@ =~= screen_parts());
    }
    let chunks = split(Direction::Vertical, area, &parts);
    (chunks[0], chunks[1], chunks[2])
}

/// Three parts: a share `p` of the area in the middle, with half of the rest
/// on each side.
pub open spec fn centered_parts(p: u16) -> Seq<Constraint> {
    seq![
        Constraint::Percentage(((100 - p) / 2) as u16),
        Constraint::Percentage(p),
        Constraint::Percentage(((100 - p) / 2) as u16),
    ]
}

fn centered_constraints(p: u16) -> (r: Vec<Constraint>)
    requires
        p <= 100,
    ensures
        r@ == centered_parts(p),
{
    let side = (100 - p) / 2;
    let r = vec![Constraint::Percentage(side), Constraint::Percentage(p), Constraint::Percentage(side)];
    proof {
        assert(r@ =~= centered_parts(p));
    }
    r
}

/// The middle cell of the `centered_parts` splits: of `area` cut down by
/// `percent_y`, the middle band; of that, cut across by `percent_x`, the
/// middle band.
pub open spec fn centered_cell(percent_x: u16, percent_y: u16, area: Rect) -> Rect {
    let qy = (100 - percent_y) / 2;
    let qx = (100 - percent_x) / 2;
    let v = percent_parts(area, Direction::Vertical, qy, percent_y as int, qy)[1];
    percent_parts(v, Direction::Horizontal, qx, percent_x as int, qx)[1]
}

/// The rectangle that takes `percent_x` of the width and `percent_y` of the
/// height of `area`, in its middle: the middle part of `centered_parts` cut
/// across the middle part of `centered_parts` cut down `area`. It lies
/// inside `area`, and is `centered_cell` where `area` ends inside the
/// coordinates.
pub fn centered_rect(percent_x: u16, percent_y: u16, area: Rect) -> (r: Rect)
    requires
        percent_x <= 100,
        percent_y <= 100,
    ensures
        within(r, area),
        in_range(area) ==> r == centered_cell(percent_x, percent_y, area),
{
    let cy = centered_constraints(percent_y);
    let vert = split(Direction::Vertical, area, &cy);
    proof {
        assert(percent_of(cy@[0]) + percent_of(cy@[1]) + percent_of(cy@[2]) <= 100);
        assert forall|i: int| 0 <= i < 3 implies percent_of(#[trigger] cy@[i]) >= 0 by {}
    }
    let cx = centered_constraints(percent_x);
    let horiz = split(Direction::Horizontal, vert[1], &cx);
    proof {
        assert(percent_of(cx@[0]) + percent_of(cx@[1]) + percent_of(cx@[2]) <= 100);
        assert forall|i: int| 0 <= i < 3 implies percent_of(#[trigger] cx@[i]) >= 0 by {}
    }
    horiz[1]
}

/// `a + b`, or `u16::MAX` where that overflows.
pub open spec fn sat_add(a: u16, b: u16) -> u16 {
    if a + b > u16::MAX {
        u16::MAX
    } else {
        (a + b) as u16
    }
}

/// `a - b`, or 0 where that goes below 0.
pub open spec fn sat_sub(a: u16, b: u16) -> u16 {
    if a >= b {
        (a - b) as u16
    } else {
        0
    }
}

/// What `ratatui::widgets::Block::inner` gives for a block with a border on
/// every side and no padding: the area less one cell on each side.
pub open spec fn inside_borders(a: Rect) -> Rect {
    let x1 = if sat_add(a.x, 1) <= sat_add(a.x, a.width) { sat_add(a.x, 1) } else { sat_add(a.x, a.width) };
    let y1 = if sat_add(a.y, 1) <= sat_add(a.y, a.height) { sat_add(a.y, 1) } else { sat_add(a.y, a.height) };
    Rect { x: x1, y: y1, width: sat_sub(sat_sub(a.width, 1), 1), height: sat_sub(sat_sub(a.height, 1), 1) }
}

/// Calls `ratatui::widgets::Block::inner` on a block with all borders and a
/// title at the top. Claimed: the result is `inside_borders(area)`, as the
/// source of `inner` computes it (the top title adds nothing where the top
/// border is there).
#[verifier::external_body]
fn block_inner(area: Rect) -> (r: Rect)
    ensures
        r == inside_borders(area),
{
    let block = ratatui::widgets::Block::default().borders(ratatui::widgets::Borders::ALL).title(" Confirm Deletion ");
    let a = tui::Rect { x: area.x, y: area.y, width: area.width, height: area.height };
    let i = block.inner(a);
    Rect { x: i.x, y: i.y, width: i.width, height: i.height }
}

/// The height the dialog needs for `count` targets: a row each, at most 10,
/// seven fixed rows and two borders.
pub open spec fn dialog_height(count: nat) -> int {
    (if count < 10 { count as int } else { 10 }) + 9
}

/// The dialog's frame within `cell`: `cell` itself where it is no taller than
/// `dialog_height(count)`, else that many rows in its vertical middle.
pub open spec fn dialog_frame_of(cell: Rect, count: nat) -> Rect {
    if cell.height > dialog_height(count) {
        Rect {
            y: sat_add(cell.y, ((cell.height - dialog_height(count)) / 2) as u16),
            height: dialog_height(count) as u16,
            ..cell
        }
    } else {
        cell
    }
}

/// The dialog's frame for `count` targets within the screen cell `cell`.
pub fn dialog_frame(cell: Rect, count: usize) -> (r: Rect)
    ensures
        r == dialog_frame_of(cell, count as nat),
        within(r, cell),
        r.height <= dialog_height(count as nat),
{
    let shown: u16 = if count < 10 { count as u16 } else { 10 };
    let needed: u16 = shown + 9;
    if cell.height > needed {
        let off = (cell.height - needed) / 2;
        Rect { y: cell.y.saturating_add(off), height: needed, ..cell }
    } else {
        cell
    }
}

/// Where the deletion dialog for `count` targets goes on the screen `area`:
/// its frame (`dialog_frame`) within the middle 60% by 70% of `area`
/// (`centered_rect`), no taller than the targets need, so that up to ten of
/// them are all listed where the screen has the room.
pub fn dialog_area(area: Rect, count: usize) -> (r: Rect)
    ensures
        within(r, area),
        r.height <= dialog_height(count as nat),
        in_range(area) ==> r == dialog_frame_of(centered_cell(60, 70, area), count as nat),
{
    let cell = centered_rect(60, 70, area);
    dialog_frame(cell, count)
}

/// The rows of the dialog, top to bottom: a blank, the header, the list
/// (at least a row), a blank, the total, a blank, the buttons, a blank.
pub open spec fn dialog_parts() -> Seq<Constraint> {
    seq![
        Constraint::Length(1),
        Constraint::Length(1),
        Constraint::Min(1),
        Constraint::Length(1),
        Constraint::Length(1),
        Constraint::Length(1),
        Constraint::Length(1),
        Constraint::Length(1),
    ]
}

/// The eight rows of the dialog `dialog`, cut by `dialog_parts` inside its
/// borders: each a full-width part of the inside.
pub fn dialog_rows(dialog: Rect) -> (r: Vec<Rect>)
    ensures
        r@.len() == 8,
        forall|i: int| 0 <= i < 8 ==> part_of(#[trigger] r@[i], inside_borders(dialog), Direction::Vertical),
        in_range(inside_borders(dialog)) && inside_borders(dialog).height >= 8 ==> r@ == dialog_row_bands(
            inside_borders(dialog),
        ),
{
    let inner = block_inner(dialog);
    let parts = vec![
        Constraint::Length(1),
        Constraint::Length(1),
        Constraint::Min(1),
        Constraint::Length(1),
        Constraint::Length(1),
        Constraint::Length(1),
        Constraint::Length(1),
        Constraint::Length(1),
    ];
    proof {
        assert(parts@ =~= dialog_parts());
    }
    split(Direction::Vertical, inner, &parts)
}

/// Law: where the screen's middle cell has room for the dialog, the dialog
/// for `count` targets (at least one, as the dialog only opens with one)
/// lists them all, up to ten: its list row is `min(count, 10)` rows tall.
pub proof fn lemma_dialog_lists_all(area: Rect, count: nat)
    requires
        in_range(area),
        count >= 1,
        centered_cell(60, 70, area).height > dialog_height(count),
    ensures
        ({
            let inside = inside_borders(dialog_frame_of(centered_cell(60, 70, area), count));
            &&& in_range(inside)
            &&& inside.height >= 8
            &&& dialog_row_bands(inside)[2].height == (if count < 10 { count as int } else { 10 })
        }),
{
    let cell = centered_cell(60, 70, area);
    let h = area.height as int;
    let w = area.width as int;
    let v = percent_parts(area, Direction::Vertical, 15, 70, 15)[1];
    assert(v == band(area, Direction::Vertical, pct_edge(h, 15), pct_edge(h, 85)));
    assert(pct_edge(h, 15) <= pct_edge(h, 85) <= h) by (nonlinear_arith)
        requires
            h >= 0,
    {}
    assert(v.y == area.y + pct_edge(h, 15));
    assert(v.y + v.height <= area.y + area.height);
    assert(pct_edge(w, 20) <= pct_edge(w, 80) <= w) by (nonlinear_arith)
        requires
            w >= 0,
    {}
    assert(cell.y == v.y && cell.height == v.height);
    assert(cell.x + cell.width <= area.x + area.width);
    let dh = dialog_height(count);
    let frame = dialog_frame_of(cell, count);
    let off = (cell.height - dh) / 2;
    assert(cell.y + off + dh <= cell.y + cell.height);
    assert(frame.y == cell.y + off);
    assert(frame.height == dh);
    let inside = inside_borders(frame);
    assert(inside.y == frame.y + 1);
    assert(inside.height == dh - 2);
    assert(frame.x == cell.x && frame.width == cell.width);
    assert(inside.x + inside.width <= u16::MAX);
    assert(inside.y + inside.height <= u16::MAX);
    assert(in_range(inside));
    assert(inside.height >= 8);
    let bands = dialog_row_bands(inside);
    assert(bands[2] == band(inside, Direction::Vertical, 2, inside.height - 5));
}

} // verus!
