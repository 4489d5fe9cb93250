//! The text of a row of the tree: indentation, checkbox, arrow, the name cut
//! or padded to its column, and the size right-aligned.
use vstd::prelude::*;

use crate::fs_tree::{FlatItem, FlatRow, NodeKind};
use crate::text::{format_size_binary, human_size};

verus! {

/// `n` spaces.
pub open spec fn spaces(n: nat) -> Seq<char> {
    Seq::new(n, |i: int| ' ')
}

/// The arrow of a row: down for an expanded directory with children, right
/// for a collapsed one, blank otherwise.
pub open spec fn icon_text(r: FlatRow) -> Seq<char> {
    if r.kind == NodeKind::Directory && r.has_children {
        if r.expanded {
            "\u{25bc} "@
        } else {
            "\u{25b6} "@
        }
    } else {
        "  "@
    }
}

/// The checkbox of a row.
pub open spec fn checkbox_text(r: FlatRow) -> Seq<char> {
    if r.selected {
        "[x] "@
    } else {
        "[ ] "@
    }
}

/// The columns before the name: two per level, the checkbox and the arrow
/// (or its blank); a character takes a column.
pub open spec fn prefix_cols(r: FlatRow) -> int {
    2 * r.depth + 6
}

/// The columns left for the name in a column of `name_col` characters.
pub open spec fn name_width(r: FlatRow, name_col: int) -> int {
    if name_col >= prefix_cols(r) {
        name_col - prefix_cols(r)
    } else {
        0
    }
}

/// The name as shown in `width` columns: cut to its first `width - 3`
/// characters and followed by "..." where it is longer than `width` and
/// `width` is more than 3; then padded with spaces to `width` characters.
pub open spec fn fitted_name(name: Seq<char>, width: int) -> Seq<char> {
    let cut = if name.len() > width && width > 3 {
        name.subrange(0, width - 3) + "..."@
    } else {
        name
    };
    if cut.len() < width {
        cut + spaces((width - cut.len()) as nat)
    } else {
        cut
    }
}

/// The text of the row, before the size: indentation, checkbox, arrow, and
/// the fitted name.
pub open spec fn row_label_text(r: FlatRow, name_col: int) -> Seq<char> {
    spaces((2 * r.depth) as nat) + checkbox_text(r) + icon_text(r) + fitted_name(
        r.name,
        name_width(r, name_col),
    )
}

fn push_spaces(s: &mut String, n: usize)
    ensures
        final(s)@ == old(s)@ + spaces(n as nat),
{
    let mut i: usize = 0;
    proof {
        reveal_strlit(" ");
        assert(old(s)@ + spaces(0) =~= old(s)@);
    }
    while i < n
        invariant
            0 <= i <= n,
            s@ == old(s)@ + spaces(i as nat),
        decreases n - i,
    {
        s.append(" ");
        proof {
            reveal_strlit(" ");
            assert(old(s)@ + spaces(i as nat) + " "@ =~= old(s)@ + spaces((i + 1) as nat));
        }
        i = i + 1;
    }
}

/// The name fitted to `width` columns.
pub fn fit_name(name: &str, width: usize) -> (r: String)
    ensures
        r@ == fitted_name(name@, width as int),
        name@.len() <= width || width > 3 ==> r@.len() == width,
{
    proof {
        reveal_strlit("...");
    }
    let n = name.unicode_len();
    let mut cut = if n > width && width > 3 {
        let head = name.substring_char(0, width - 3);
        let mut c = String::from_str(head);
        c.append("...");
        c
    } else {
        String::from_str(name)
    };
    let chars = cut.as_str().unicode_len();
    if chars < width {
        push_spaces(&mut cut, width - chars);
    }
    cut
}

/// The text of a row of the tree, before its size, in a column of
/// `name_col` characters: exactly `name_col` wide where the prefix and the
/// name fit (a name too long for its width is cut where that width is more
/// than 3), so that the size and bar columns line up.
pub fn row_label(item: &FlatItem, name_col: usize) -> (r: String)
    requires
        prefix_cols(item@) <= usize::MAX,
    ensures
        r@ == row_label_text(item@, name_col as int),
        prefix_cols(item@) <= name_col && (item@.name.len() <= name_width(item@, name_col as int)
            || name_width(item@, name_col as int) > 3) ==> r@.len() == name_col,
{
    proof {
        reveal_strlit("[x] ");
        reveal_strlit("[ ] ");
        reveal_strlit("\u{25bc} ");
        reveal_strlit("\u{25b6} ");
        reveal_strlit("  ");
    }
    let mut r = String::new();
    push_spaces(&mut r, 2 * item.depth);
    if item.selected {
        r.append("[x] ");
    } else {
        r.append("[ ] ");
    }
    let arrow = item.kind == NodeKind::Directory && item.has_children;
    if arrow {
        if item.expanded {
            r.append("\u{25bc} ");
        } else {
            r.append("\u{25b6} ");
        }
    } else {
        r.append("  ");
    }
    let prefix: usize = 2 * item.depth + 6;
    let width = if name_col >= prefix {
        name_col - prefix
    } else {
        0
    };
    let name = fit_name(item.name.as_str(), width);
    r.append(name.as_str());
    r
}

/// Whether `row_label` can build the row's text: the prefix's length fits
/// in `usize`.
pub fn label_fits(item: &FlatItem) -> (r: bool)
    ensures
        r == (prefix_cols(item@) <= usize::MAX),
{
    item.depth <= (usize::MAX - 6) / 2
}

/// The text right-aligned in 10 characters, as `format!("{:>10}", ..)`
/// writes it.
pub open spec fn right_aligned(s: Seq<char>) -> Seq<char> {
    if s.len() < 10 {
        spaces((10 - s.len()) as nat) + s
    } else {
        s
    }
}

/// `s` right-aligned in 10 characters.
pub fn align_right(s: &str) -> (r: String)
    ensures
        r@ == right_aligned(s@),
{
    let n = s.unicode_len();
    let mut r = String::new();
    if n < 10 {
        push_spaces(&mut r, 10 - n);
    }
    proof {
        assert(Seq::<char>::empty() + spaces(0) =~= Seq::<char>::empty());
    }
    r.append(s);
    proof {
        if n >= 10 {
            assert(Seq::<char>::empty() + s@ =~= s@);
        }
    }
    r
}

/// The size column of a row: the size in binary units, right-aligned.
pub fn size_cell(size: u64) -> (r: String)
    ensures
        r@ == right_aligned(format_size_binary(size)),
{
    let text = human_size(size);
    align_right(text.as_str())
}

/// The width of the name column in a tree panel `width` columns wide: less
/// the two borders, the size (10), a space, the bar with its brackets (16)
/// and a space.
pub fn name_column(width: u16) -> (r: usize)
    ensures
        r == (if width >= 30 { width - 30 } else { 0 }),
{
    let inner: usize = if width >= 2 { (width - 2) as usize } else { 0 };
    if inner >= 28 {
        inner - 28
    } else {
        0
    }
}

/// The rows of a list of `len` rows in view with the list scrolled by
/// `scroll` in `height` rows: from `start` up to, not including, `end`.
pub fn rows_in_view(len: usize, scroll: usize, height: usize) -> (r: (usize, usize))
    ensures
        r.0 == (if scroll <= len { scroll } else { len }),
        r.1 == (if scroll >= len { len as int } else if scroll + height <= len { scroll + height } else { len as int }),
        r.0 <= r.1 <= len,
{
    if scroll >= len {
        (len, len)
    } else if height <= len - scroll {
        (scroll, scroll + height)
    } else {
        (scroll, len)
    }
}

} // verus!
