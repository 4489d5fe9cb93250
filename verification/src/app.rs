//! The state of the browser: the scanned tree, its shown rows, the cursor, the
//! selection and the deletion dialog, and how each key and each scan result
//! changes it.
use vstd::prelude::*;

use crate::fs_tree::{
    display_name, find_tree, flat_rows, insert_by_size, lemma_mark_keeps_rows, lemma_marks_find,
    lemma_marks_replace, lemma_rows_are_nodes, mark_paths, marks, rows_in_marks, lemma_trees_of, lemma_update_composed, lemma_update_undone, rebuild_flat_list,
    rows, size_key, sort_by_size, sort_nodes_by_size, sorted_desc, trees_of, update_tree, views,
    FlatItem, FlatRow, FsNode, FsTree, NodeKind,
};
use crate::order::{
    insert_by_key, lemma_insert_at, lemma_sort_by_key_sorted, lemma_sum_sort, lemma_sum_take,
    sort_by_key_desc, sorted_by_key_desc, sum_by_key,
};
use crate::paths::{first_path_index, lemma_first_path_index, parent_of, path_eq, path_eq_is_equivalence, path_parent, same_path};
use crate::scanner::ScanMsg;
use crate::selection::{
    add_path, add_paths, each_path_once, holds_path, lemma_add_marks, lemma_select_all_paths, lemma_toggle_other,
    lemma_toggle_path_twice, lemma_toggle_self, toggle_path, PathSet,
};
use crate::text::{
    decimal, decimal_string, format_size_binary, human_size, join, joined, strings,
};

verus! {

/// Total, used and free space of the drive that holds the scanned folder.
#[derive(Debug, Clone)]
pub struct DriveInfo {
    pub mount: String,
    pub total_bytes: u64,
    pub used_bytes: u64,
    pub free_bytes: u64,
}

impl Default for DriveInfo {
    /// No drive: an empty mount point and no space.
    fn default() -> (r: DriveInfo)
        ensures
            r.mount@ == Seq::<char>::empty(),
            r.total_bytes == 0,
            r.used_bytes == 0,
            r.free_bytes == 0,
    {
        DriveInfo { mount: String::new(), total_bytes: 0, used_bytes: 0, free_bytes: 0 }
    }
}

/// What the screen is doing: waiting for the first scan result, showing the
/// tree, or asking to confirm a deletion.
#[derive(Debug, Clone, Copy, PartialEq, Eq, Structural)]
pub enum AppMode {
    Scanning,
    Browsing,
    Confirming,
}

/// The whole state of the browser.
pub struct AppState {
    pub drive: DriveInfo,
    pub root_path: String,
    pub scan_progress: (usize, u64),
    pub root: Option<FsNode>,
    pub flat_list: Vec<FlatItem>,
    pub cursor: usize,
    pub scroll_offset: usize,
    pub selected_paths: PathSet,
    pub mode: AppMode,
    pub confirm_targets: Vec<(String, u64)>,
    pub confirm_total_bytes: u64,
    pub confirm_focus_yes: bool,
    pub status_msg: Option<String>,
    pub should_quit: bool,
    pub skipped_total: usize,
}

/// The root that a new scan starts from: the scanned folder, empty and
/// expanded.
pub open spec fn scan_root(path: Seq<char>) -> FsTree {
    FsTree {
        path: path,
        name: display_name(path),
        kind: NodeKind::Directory,
        size: 0,
        children: Seq::empty(),
        expanded: true,
        selected: false,
    }
}

/// Half a page, and at least one row.
pub open spec fn half_page(visible_height: usize) -> int {
    if visible_height / 2 >= 1 {
        (visible_height / 2) as int
    } else {
        1
    }
}

/// The paths of the rows.
pub open spec fn row_paths(r: Seq<FlatRow>) -> Seq<Seq<char>> {
    r.map_values(|row: FlatRow| row.path)
}

/// The node, expanded.
pub open spec fn expand() -> spec_fn(FsTree) -> FsTree {
    |n: FsTree| FsTree { expanded: true, ..n }
}

/// The node, collapsed.
pub open spec fn collapse() -> spec_fn(FsTree) -> FsTree {
    |n: FsTree| FsTree { expanded: false, ..n }
}

/// The node, selected where it was not and unselected where it was.
pub open spec fn flip_selected() -> spec_fn(FsTree) -> FsTree {
    |n: FsTree| FsTree { selected: !n.selected, ..n }
}

/// The node, selected.
pub open spec fn mark_selected() -> spec_fn(FsTree) -> FsTree {
    |n: FsTree| FsTree { selected: true, ..n }
}

/// The tree with the first node of each of the paths `ps` selected.
pub open spec fn select_paths(t: FsTree, ps: Seq<Seq<char>>) -> FsTree
    decreases ps.len(),
{
    if ps.len() == 0 {
        t
    } else {
        update_tree(select_paths(t, ps.drop_last()), ps.last(), mark_selected())
    }
}

/// Changes the first node of `root` with path `p` by setting its `expanded`
/// or `selected` flag: `which` picks the flag, `value` the new value, and
/// `flip` makes the new value the negation of the old one.
fn set_flag(root: &mut FsNode, p: &String, which: bool, flip: bool, value: bool)
    ensures
        final(root)@ == update_tree(
            old(root)@,
            p@,
            if which {
                |n: FsTree| FsTree { expanded: if flip { !n.expanded } else { value }, ..n }
            } else {
                if flip { flip_selected() } else { |n: FsTree| FsTree { selected: value, ..n } }
            },
        ),
{
    match root.find_mut(p) {
        Some(node) => {
            if which {
                node.expanded = if flip { !node.expanded } else { value };
            } else {
                node.selected = if flip { !node.selected } else { value };
            }
        },
        None => {},
    }
}

/// The index of the first row whose path is the same path as `p`.
fn row_index(list: &Vec<FlatItem>, p: &String) -> (r: Option<usize>)
    ensures
        match r {
            Some(i) => first_path_index(row_paths(rows(list@)), p@) == i,
            None => first_path_index(row_paths(rows(list@)), p@) < 0,
        },
{
    let ghost ps = row_paths(rows(list@));
    proof {
        lemma_first_path_index(ps, p@);
    }
    let n = list.len();
    let mut i: usize = 0;
    while i < n
        invariant
            0 <= i <= n,
            n == list.len(),
            ps == row_paths(rows(list@)),
            ps.len() == n,
            forall|j: int| 0 <= j < i ==> !path_eq(#[trigger] ps[j], p@),
            -1 <= first_path_index(ps, p@) < ps.len(),
            first_path_index(ps, p@) >= 0 ==> path_eq(ps[first_path_index(ps, p@)], p@),
            forall|j: int| 0 <= j < ps.len() && (first_path_index(ps, p@) < 0 || j < first_path_index(ps, p@))
                ==> !path_eq(#[trigger] ps[j], p@),
        decreases n - i,
    {
        proof {
            assert(ps[i as int] == list@[i as int].path@);
        }
        if same_path(&list[i].path, p) {
            return Some(i);
        }
        i = i + 1;
    }
    None
}

/// Where the cursor goes when asked to move to `target`: to the first row with
/// the same path (as `Path`'s `==` tells), if any; else it stays.
pub open spec fn moved_cursor(s: AppState, target: Option<Seq<char>>) -> int {
    match target {
        Some(t) => if first_path_index(row_paths(rows(s.flat_list@)), t) >= 0 {
            first_path_index(row_paths(rows(s.flat_list@)), t)
        } else {
            s.cursor as int
        },
        None => s.cursor as int,
    }
}

/// `after` is `before` with the first node with path `p` changed by `f`, and
/// the rows shown anew; with no tree, nothing changes.
pub open spec fn tree_updated(
    before: AppState,
    after: AppState,
    p: Seq<char>,
    f: spec_fn(FsTree) -> FsTree,
) -> bool {
    &&& match before.root {
        Some(r) => after.root matches Some(r2) && r2@ == update_tree(r@, p, f),
        None => after.root is None && after.flat_list == before.flat_list,
    }
    &&& after.rows_match()
}

/// The total size of the trees of `s`.
pub open spec fn sum_sizes(s: Seq<FsTree>) -> int {
    sum_by_key(s, size_key())
}

/// The paths of the trees of `s`.
pub open spec fn tree_paths(s: Seq<FsTree>) -> Seq<Seq<char>> {
    s.map_values(|t: FsTree| t.path)
}

/// `s` with `node` in place of the first tree with the same path (as
/// `Path`'s `==` tells), or added at the end where there is none.
pub open spec fn place_child(s: Seq<FsTree>, node: FsTree) -> Seq<FsTree> {
    if first_path_index(tree_paths(s), node.path) >= 0 {
        s.update(first_path_index(tree_paths(s), node.path), node)
    } else {
        s.push(node)
    }
}

/// The root after a finished top-level entry arrives: the entry placed among
/// its children, the children ordered by size, and the root's size their sum.
pub open spec fn merged_root(r: FsTree, node: FsTree) -> FsTree {
    FsTree {
        children: sort_by_size(place_child(r.children, node)),
        size: sum_sizes(place_child(r.children, node)) as u64,
        ..r
    }
}

/// The note shown when a scan had to skip paths.
pub open spec fn skipped_note(n: nat) -> Seq<char> {
    decimal(n) + " path(s) skipped (permission denied \u{2014} run as administrator to scan them)"@
}

/// Places `node` among the children of `root`, orders them by size, and sets
/// the size of `root` to their sum.
fn merge_child(root: &mut FsNode, node: FsNode)
    requires
        sum_sizes(place_child(old(root)@.children, node@)) <= u64::MAX,
    ensures
        final(root)@ == merged_root(old(root)@, node@),
{
    broadcast use lemma_trees_of;
    let ghost kids0 = views(root.children@);
    proof {
        lemma_trees_of(old(root).children@);
        assert(old(root)@.children == trees_of(old(root).children@));
        assert(kids0 == old(root)@.children);
    }
    let found = child_index(root, &node);
    proof {
        lemma_first_path_index(tree_paths(kids0), node@.path);
        assert(kids0.len() == root.children@.len());
        assert(tree_paths(kids0).len() == kids0.len());
    }
    match found {
        Some(k) => {
            root.children.set(k, node);
            proof {
                assert(views(root.children@) =~= kids0.update(k as int, node@));
            }
        },
        None => {
            root.children.push(node);
            proof {
                assert(views(root.children@) =~= kids0.push(node@));
            }
        },
    }
    let ghost placed = views(root.children@);
    proof {
        assert(placed == place_child(old(root)@.children, node@));
    }
    sort_nodes_by_size(&mut root.children);
    proof {
        lemma_sum_sort(placed, size_key());
        lemma_sort_by_key_sorted(placed, size_key());
    }
    let ghost sorted = views(root.children@);
    let m = root.children.len();
    let mut total: u64 = 0;
    let mut i: usize = 0;
    while i < m
        invariant
            0 <= i <= m,
            m == root.children.len(),
            sorted == views(root.children@),
            sorted.len() == m,
            sum_by_key(sorted, size_key()) <= u64::MAX,
            total == sum_by_key(sorted.take(i as int), size_key()),
        decreases m - i,
    {
        proof {
            lemma_sum_take(sorted, i as int, size_key());
            lemma_sum_take(sorted, i + 1, size_key());
            assert(sorted[i as int] == root.children@[i as int]@);
        }
        total = total + root.children[i].size;
        i = i + 1;
    }
    proof {
        assert(sorted.take(m as int) =~= sorted);
    }
    root.size = total;
    proof {
        assert(root@.children == trees_of(root.children@));
        assert(root@.children == sort_by_size(placed));
        assert(root@.size == sum_sizes(placed) as u64);
    }
}

/// The index of the first child of `root` with the same path as `node`.
fn child_index(root: &FsNode, node: &FsNode) -> (r: Option<usize>)
    ensures
        match r {
            Some(k) => first_path_index(tree_paths(root@.children), node@.path) == k,
            None => first_path_index(tree_paths(root@.children), node@.path) < 0,
        },
{
    broadcast use lemma_trees_of;
    let ghost kids = root@.children;
    let ghost f = first_path_index(tree_paths(kids), node@.path);
    proof {
        lemma_trees_of(root.children@);
        assert(kids == trees_of(root.children@));
        lemma_first_path_index(tree_paths(kids), node@.path);
        assert(node@.path == node.path@);
    }
    let n = root.children.len();
    let mut k: usize = 0;
    while k < n
        invariant
            0 <= k <= n,
            n == root.children.len(),
            kids == views(root.children@),
            kids == root@.children,
            kids.len() == n,
            f == first_path_index(tree_paths(kids), node@.path),
            forall|j: int| 0 <= j < k ==> !path_eq(#[trigger] tree_paths(kids)[j], node@.path),
            -1 <= f < n,
            f >= 0 ==> path_eq(tree_paths(kids)[f], node@.path),
            forall|j: int| 0 <= j < n && (f < 0 || j < f) ==> !path_eq(#[trigger] tree_paths(kids)[j], node@.path),
        decreases n - k,
    {
        proof {
            assert(tree_paths(kids)[k as int] == root.children@[k as int].path@);
        }
        if same_path(&root.children[k].path, &node.path) {
            proof {
                if f >= 0 && f < k {
                    assert(!path_eq(tree_paths(kids)[f], node@.path));
                }
                if f < 0 || f > k {
                    assert(!path_eq(tree_paths(kids)[k as int], node@.path));
                }
            }
            return Some(k);
        }
        k = k + 1;
    }
    proof {
        if f >= 0 {
            assert(!path_eq(tree_paths(kids)[f], node@.path));
        }
    }
    None
}

/// Whether the sizes of the children of `root`, with `node` placed among
/// them, add up to no more than `u64::MAX`.
fn placed_sizes_fit(root: &FsNode, node: &FsNode) -> (r: bool)
    ensures
        r == (sum_sizes(place_child(root@.children, node@)) <= u64::MAX),
{
    broadcast use lemma_trees_of;
    let ghost kids = root@.children;
    let ghost placed = place_child(kids, node@);
    proof {
        lemma_trees_of(root.children@);
        assert(kids == trees_of(root.children@));
        lemma_first_path_index(tree_paths(kids), node@.path);
        assert(node@.size == node.size);
    }
    let found = child_index(root, node);
    let n = root.children.len();
    proof {
        assert forall|j: int| 0 <= j < placed.len() implies (size_key())(#[trigger] placed[j]) >= 0 by {}
    }
    let mut total: u64 = 0;
    let mut i: usize = 0;
    while i < n
        invariant
            0 <= i <= n,
            n == root.children.len(),
            kids == views(root.children@),
            kids.len() == n,
            kids == root@.children,
            node@.size == node.size,
            placed == place_child(kids, node@),
            found matches Some(k) ==> first_path_index(tree_paths(kids), node@.path) == k && placed.len() == n,
            first_path_index(tree_paths(kids), node@.path) < n,
            found is None ==> first_path_index(tree_paths(kids), node@.path) < 0 && placed.len() == n + 1,
            forall|j: int| 0 <= j < placed.len() ==> (size_key())(#[trigger] placed[j]) >= 0,
            total == sum_by_key(placed.take(i as int), size_key()),
        decreases n - i,
    {
        let size = match found {
            Some(k) => if i == k {
                node.size
            } else {
                root.children[i].size
            },
            None => root.children[i].size,
        };
        proof {
            assert(kids[i as int] == root.children@[i as int]@);
            match found {
                Some(k) => {
                    assert(placed == kids.update(k as int, node@));
                    if i == k {
                        assert(placed[i as int] == node@);
                    } else {
                        assert(kids.update(k as int, node@)[i as int] == kids[i as int]);
                        assert(placed[i as int] == kids[i as int]);
                    }
                },
                None => {
                    assert(placed == kids.push(node@));
                    assert(placed[i as int] == kids[i as int]);
                },
            }
            assert(size == placed[i as int].size);
            lemma_sum_take(placed, i as int, size_key());
            lemma_sum_take(placed, i + 1, size_key());
        }
        match total.checked_add(size) {
            Some(t) => {
                total = t;
            },
            None => {
                return false;
            },
        }
        i = i + 1;
    }
    match found {
        Some(_) => {
            proof {
                assert(placed.take(n as int) =~= placed);
            }
            true
        },
        None => {
            proof {
                lemma_sum_take(placed, n as int, size_key());
                assert(placed.take(n + 1) =~= placed);
                assert(placed[n as int] == node@);
            }
            total.checked_add(node.size).is_some()
        },
    }
}

/// The models of deletion targets: each path with its size.
pub open spec fn targets(v: Seq<(String, u64)>) -> Seq<(Seq<char>, u64)> {
    v.map_values(|t: (String, u64)| (t.0@, t.1))
}

/// The length of a target's path in bytes, as a key.
pub open spec fn path_bytes() -> spec_fn((Seq<char>, u64)) -> int {
    |t: (Seq<char>, u64)| vstd::utf8::encode_utf8(t.0).len() as int
}

/// Whether some parent of `x`, going up from `x` (as `Path::parent` gives
/// them), is the same path as `a`: whether `x` lies inside `a`.
pub open spec fn has_ancestor(x: Seq<char>, a: Seq<char>) -> bool
    decreases x.len(),
{
    match path_parent(x) {
        Some(up) => if up.len() < x.len() {
            path_eq(up, a) || has_ancestor(up, a)
        } else {
            false
        },
        None => false,
    }
}

/// Whether `x`, the path of target `j`, lies inside one of the first `m`
/// targets other than `j`.
pub open spec fn covered_upto(s: Seq<(Seq<char>, u64)>, x: Seq<char>, j: int, m: int) -> bool
    decreases m,
{
    if m <= 0 {
        false
    } else {
        covered_upto(s, x, j, m - 1) || (m - 1 != j && has_ancestor(x, s[m - 1].0))
    }
}

/// Whether target `j` lies inside another target, so that deleting that one
/// frees its bytes already.
pub open spec fn covered(s: Seq<(Seq<char>, u64)>, j: int) -> bool {
    covered_upto(s, s[j].0, j, s.len() as int)
}

/// The bytes that the first `n` targets free: the sizes of those that lie
/// inside no other target.
pub open spec fn freed_upto(s: Seq<(Seq<char>, u64)>, n: int) -> int
    decreases n,
{
    if n <= 0 {
        0
    } else {
        freed_upto(s, n - 1) + if covered(s, n - 1) {
            0
        } else {
            s[n - 1].1 as int
        }
    }
}

/// The space that deleting the targets frees: each byte counted once, the
/// size of a target that lies inside another one being left out.
pub open spec fn freed_total(s: Seq<(Seq<char>, u64)>) -> int {
    freed_upto(s, s.len() as int)
}

proof fn lemma_freed_mono(s: Seq<(Seq<char>, u64)>, i: int, n: int)
    requires
        0 <= i <= n,
    ensures
        0 <= freed_upto(s, i) <= freed_upto(s, n),
    decreases n - i,
{
    if i < n {
        lemma_freed_mono(s, i, n - 1);
    } else {
        lemma_freed_nonneg(s, n);
    }
}

proof fn lemma_freed_nonneg(s: Seq<(Seq<char>, u64)>, n: int)
    ensures
        freed_upto(s, n) >= 0,
    decreases n,
{
    if n > 0 {
        lemma_freed_nonneg(s, n - 1);
    }
}

/// The total size of the targets, each counted.
pub open spec fn sizes_sum(s: Seq<(Seq<char>, u64)>) -> int
    decreases s.len(),
{
    if s.len() == 0 {
        0
    } else {
        sizes_sum(s.drop_last()) + s.last().1
    }
}

proof fn lemma_covered_upto_iff(s: Seq<(Seq<char>, u64)>, x: Seq<char>, j: int, m: int)
    requires
        0 <= m <= s.len(),
    ensures
        covered_upto(s, x, j, m) <==> exists|i: int| 0 <= i < m && i != j && #[trigger] has_ancestor(x, s[i].0),
    decreases m,
{
    if m > 0 {
        lemma_covered_upto_iff(s, x, j, m - 1);
        if exists|i: int| 0 <= i < m && i != j && #[trigger] has_ancestor(x, s[i].0) {
            let i = choose|i: int| 0 <= i < m && i != j && #[trigger] has_ancestor(x, s[i].0);
            if i < m - 1 {
                assert(covered_upto(s, x, j, m - 1));
            }
        }
    }
}

/// Law: a target counts as inside another exactly where another target's
/// path is among its parents, going up by `Path::parent`; nothing else (no
/// sharing of a string prefix) makes it so.
pub proof fn lemma_covered_iff(s: Seq<(Seq<char>, u64)>, j: int)
    requires
        0 <= j < s.len(),
    ensures
        covered(s, j) <==> exists|m: int| 0 <= m < s.len() && m != j && #[trigger] has_ancestor(s[j].0, s[m].0),
{
    lemma_covered_upto_iff(s, s[j].0, j, s.len() as int);
}

/// Law: where no target lies inside another, the space freed is the total
/// size of the targets, each counted; in any case it is no more than that
/// total.
pub proof fn lemma_freed_total_sum(s: Seq<(Seq<char>, u64)>)
    ensures
        freed_total(s) <= sizes_sum(s),
        (forall|j: int, m: int| 0 <= j < s.len() && 0 <= m < s.len() && j != m ==> !#[trigger] has_ancestor(
            s[j].0,
            s[m].0,
        )) ==> freed_total(s) == sizes_sum(s),
{
    lemma_freed_prefix(s, s.len() as int);
    assert(s.take(s.len() as int) =~= s);
    if forall|j: int, m: int| 0 <= j < s.len() && 0 <= m < s.len() && j != m ==> !#[trigger] has_ancestor(
        s[j].0,
        s[m].0,
    ) {
        assert forall|j: int| 0 <= j < s.len() implies !covered(s, j) by {
            lemma_covered_iff(s, j);
        }
        lemma_freed_all(s, s.len() as int);
    }
}

/// Law: a target that lies inside another frees nothing of its own: the
/// total freed leaves its size out.
pub proof fn lemma_freed_leaves_out_inner(s: Seq<(Seq<char>, u64)>, j: int)
    requires
        0 <= j < s.len(),
        exists|m: int| 0 <= m < s.len() && m != j && #[trigger] has_ancestor(s[j].0, s[m].0),
    ensures
        freed_total(s) <= sizes_sum(s) - s[j].1,
{
    lemma_covered_iff(s, j);
    lemma_freed_without(s, j, s.len() as int);
    assert(s.take(s.len() as int) =~= s);
}

proof fn lemma_freed_without(s: Seq<(Seq<char>, u64)>, j: int, n: int)
    requires
        0 <= j < s.len(),
        covered(s, j),
        0 <= n <= s.len(),
    ensures
        freed_upto(s, n) <= sizes_sum(s.take(n)) - (if j < n { s[j].1 as int } else { 0 }),
    decreases n,
{
    if n > 0 {
        lemma_freed_without(s, j, n - 1);
        assert(s.take(n).drop_last() =~= s.take(n - 1));
        assert(s.take(n).last() == s[n - 1]);
    }
}

proof fn lemma_freed_prefix(s: Seq<(Seq<char>, u64)>, n: int)
    requires
        0 <= n <= s.len(),
    ensures
        freed_upto(s, n) <= sizes_sum(s.take(n)),
    decreases n,
{
    if n > 0 {
        lemma_freed_prefix(s, n - 1);
        assert(s.take(n).drop_last() =~= s.take(n - 1));
    }
}

proof fn lemma_freed_all(s: Seq<(Seq<char>, u64)>, n: int)
    requires
        0 <= n <= s.len(),
        forall|j: int| 0 <= j < s.len() ==> !covered(s, j),
    ensures
        freed_upto(s, n) == sizes_sum(s.take(n)),
    decreases n,
{
    if n > 0 {
        lemma_freed_all(s, n - 1);
        assert(s.take(n).drop_last() =~= s.take(n - 1));
        assert(!covered(s, n - 1));
    }
}

/// Whether `x` lies inside `a`.
fn is_inside(x: &String, a: &String) -> (r: bool)
    ensures
        r == has_ancestor(x@, a@),
{
    let mut cur = parent_of(x);
    let ghost mut prev: Seq<char> = x@;
    proof {
        match &cur {
            Some(up) => {
                assert(path_parent(x@) == Some(up@));
            },
            None => {
                assert(path_parent(x@) is None);
            },
        }
    }
    while cur.is_some()
        invariant
            cur matches Some(c) ==> c@.len() < prev.len(),
            has_ancestor(x@, a@) == (match cur {
                Some(c) => path_eq(c@, a@) || has_ancestor(c@, a@),
                None => false,
            }),
        decreases match cur {
            Some(c) => c@.len() + 1,
            None => 0,
        },
    {
        let c = cur.unwrap();
        if same_path(&c, a) {
            return true;
        }
        cur = parent_of(&c);
        proof {
            prev = c@;
            match &cur {
                Some(up) => {
                    assert(path_parent(c@) == Some(up@));
                },
                None => {
                    assert(path_parent(c@) is None);
                },
            }
        }
    }
    false
}

proof fn lemma_covered_mono(s: Seq<(Seq<char>, u64)>, x: Seq<char>, j: int, m: int, n: int)
    requires
        m <= n,
        covered_upto(s, x, j, m),
    ensures
        covered_upto(s, x, j, n),
    decreases n - m,
{
    if m < n {
        lemma_covered_mono(s, x, j, m, n - 1);
    }
}

/// Whether target `j` lies inside another target.
fn is_covered(c: &Vec<(String, u64)>, j: usize) -> (r: bool)
    requires
        j < c.len(),
    ensures
        r == covered(targets(c@), j as int),
{
    let ghost s = targets(c@);
    let n = c.len();
    let mut m: usize = 0;
    while m < n
        invariant
            0 <= m <= n,
            n == c.len(),
            j < n,
            s == targets(c@),
            s.len() == n,
            !covered_upto(s, s[j as int].0, j as int, m as int),
        decreases n - m,
    {
        proof {
            assert(s[m as int].0 == c@[m as int].0@);
            assert(s[j as int].0 == c@[j as int].0@);
        }
        if m != j && is_inside(&c[j].0, &c[m].0) {
            proof {
                lemma_covered_mono(s, s[j as int].0, j as int, m + 1, n as int);
            }
            return true;
        }
        m = m + 1;
    }
    false
}

/// The space that deleting the targets frees; `None` where it exceeds
/// `u64::MAX`.
fn freed_bytes(c: &Vec<(String, u64)>) -> (r: Option<u64>)
    ensures
        match r {
            Some(x) => x == freed_total(targets(c@)),
            None => freed_total(targets(c@)) > u64::MAX,
        },
{
    let ghost s = targets(c@);
    let n = c.len();
    let mut total: u64 = 0;
    let mut i: usize = 0;
    while i < n
        invariant
            0 <= i <= n,
            n == c.len(),
            s == targets(c@),
            s.len() == n,
            total == freed_upto(s, i as int),
        decreases n - i,
    {
        proof {
            assert(s[i as int].1 == c@[i as int].1);
        }
        if !is_covered(c, i) {
            match total.checked_add(c[i].1) {
                Some(x) => {
                    total = x;
                },
                None => {
                    proof {
                        lemma_freed_mono(s, i + 1, n as int);
                    }
                    return None;
                },
            }
        }
        i = i + 1;
    }
    Some(total)
}

/// The selected paths found in the tree, each with its size, in the order of
/// the selection.
pub open spec fn found_targets(t: FsTree, sel: Seq<Seq<char>>) -> Seq<(Seq<char>, u64)>
    decreases sel.len(),
{
    if sel.len() == 0 {
        Seq::empty()
    } else {
        found_targets(t, sel.drop_last()) + match find_tree(t, sel.last()) {
            Some(n) => seq![(sel.last(), n.size)],
            None => Seq::empty(),
        }
    }
}

/// Law: the targets of a deletion are the selected paths that the tree has:
/// each selected path with a node in the tree is a target, with that node's
/// size (whatever it is, 0 included), and each target is a selected path with
/// its node's size; there are no more targets than selected paths.
pub proof fn lemma_found_targets(t: FsTree, sel: Seq<Seq<char>>)
    ensures
        forall|i: int| 0 <= i < sel.len() && (#[trigger] find_tree(t, sel[i])) is Some ==> found_targets(
            t,
            sel,
        ).contains((sel[i], find_tree(t, sel[i]).unwrap().size)),
        forall|j: int| 0 <= j < found_targets(t, sel).len() ==> sel.contains((#[trigger] found_targets(t, sel)[j]).0)
            && find_tree(t, found_targets(t, sel)[j].0) is Some && find_tree(t, found_targets(t, sel)[j].0).unwrap().size
            == found_targets(t, sel)[j].1,
        found_targets(t, sel).len() <= sel.len(),
    decreases sel.len(),
{
    if sel.len() > 0 {
        let d = sel.drop_last();
        lemma_found_targets(t, d);
        let a = found_targets(t, d);
        let x = sel.last();
        let f = found_targets(t, sel);
        let b = match find_tree(t, x) {
            Some(n) => seq![(x, n.size)],
            None => Seq::empty(),
        };
        assert(f == a + b);
        assert forall|i: int| 0 <= i < sel.len() && (#[trigger] find_tree(t, sel[i])) is Some implies f.contains(
            (sel[i], find_tree(t, sel[i]).unwrap().size),
        ) by {
            if i < d.len() {
                assert(d[i] == sel[i]);
                assert(find_tree(t, d[i]) is Some);
                let j = choose|j: int| 0 <= j < a.len() && a[j] == (d[i], find_tree(t, d[i]).unwrap().size);
                assert(f[j] == a[j]);
            } else {
                assert(f[a.len() as int] == b[0]);
            }
        }
        assert forall|j: int| 0 <= j < f.len() implies sel.contains((#[trigger] f[j]).0) && find_tree(t, f[j].0) is Some
            && find_tree(t, f[j].0).unwrap().size == f[j].1 by {
            if j < a.len() {
                assert(f[j] == a[j]);
                let i = choose|i: int| 0 <= i < d.len() && d[i] == a[j].0;
                assert(sel[i] == d[i]);
            } else {
                assert(f[j] == b[j - a.len()]);
                assert(sel[sel.len() - 1] == x);
            }
        }
    }
}

/// The report shown after a deletion.
pub open spec fn delete_report_text(deleted: nat, errors: Seq<Seq<char>>, freed: Seq<char>) -> Seq<char> {
    if errors.len() == 0 {
        "Deleted "@ + decimal(deleted) + " item(s). Freed ~"@ + freed + "."@
    } else {
        "Deleted "@ + decimal(deleted) + " item(s). "@ + decimal(errors.len()) + " error(s): "@
            + joined(errors, "; "@)
    }
}

/// Law: the report after a deletion starts with the number of items deleted,
/// in decimal; without errors it ends with the space freed; with errors it
/// ends with all of them, joined by "; ", after their number.
pub proof fn lemma_delete_report(deleted: nat, errors: Seq<Seq<char>>, freed: Seq<char>)
    ensures
        ("Deleted "@ + decimal(deleted) + " item(s). "@).is_prefix_of(delete_report_text(deleted, errors, freed)),
        errors.len() == 0 ==> (freed + "."@).is_suffix_of(delete_report_text(deleted, errors, freed)),
        errors.len() > 0 ==> (decimal(errors.len()) + " error(s): "@ + joined(errors, "; "@)).is_suffix_of(
            delete_report_text(deleted, errors, freed),
        ),
{
    reveal_strlit("Deleted ");
    reveal_strlit(" item(s). ");
    reveal_strlit(" item(s). Freed ~");
    reveal_strlit("Freed ~");
    let head = "Deleted "@ + decimal(deleted) + " item(s). "@;
    let r = delete_report_text(deleted, errors, freed);
    if errors.len() == 0 {
        assert(" item(s). Freed ~"@ =~= " item(s). "@ + "Freed ~"@);
        assert(r =~= head + ("Freed ~"@ + freed + "."@));
        let tail = freed + "."@;
        assert(r.subrange(r.len() - tail.len(), r.len() as int) =~= tail);
    } else {
        let tail = decimal(errors.len()) + " error(s): "@ + joined(errors, "; "@);
        assert(r =~= head + tail);
        assert(r.subrange(r.len() - tail.len(), r.len() as int) =~= tail);
    }
    assert(r.subrange(0, head.len() as int) =~= head);
}

/// The report shown after a deletion: how many items were deleted, and
/// either the space freed (`freed`, as `humansize` writes it) or the errors.
pub fn delete_report(deleted: usize, errors: &Vec<String>, freed: String) -> (r: String)
    ensures
        r@ == delete_report_text(deleted as nat, strings(errors@), freed@),
{
    let mut r = String::from_str("Deleted ");
    r.append(decimal_string(deleted as u64).as_str());
    if errors.len() == 0 {
        r.append(" item(s). Freed ~");
        r.append(freed.as_str());
        r.append(".");
    } else {
        r.append(" item(s). ");
        r.append(decimal_string(errors.len() as u64).as_str());
        r.append(" error(s): ");
        r.append(join(errors, "; ").as_str());
    }
    r
}

/// Orders deletion targets by the length of their paths in bytes, longest
/// first; targets of equal length keep their order.
fn sort_targets_by_path_len(v: &mut Vec<(String, u64)>)
    ensures
        targets(final(v)@) == sort_by_key_desc(targets(old(v)@), path_bytes()),
{
    broadcast use vstd::slice::group_slice_axioms;
    let ghost orig = targets(v@);
    let n = v.len();
    if n == 0 {
        assert(orig =~= Seq::<(Seq<char>, u64)>::empty());
        return;
    }
    let mut i: usize = 1;
    proof {
        let e = Seq::<(Seq<char>, u64)>::empty();
        assert(orig.take(1).drop_last() =~= e);
        assert(sort_by_key_desc(orig.take(1).drop_last(), path_bytes()) =~= e);
        assert(insert_by_key(e, orig[0], path_bytes()) == e.push(orig[0]));
        assert(targets(v@).take(1) =~= e.push(orig[0]));
    }
    while i < n
        invariant
            1 <= i <= n,
            v.len() == n,
            orig.len() == n,
            targets(v@).take(i as int) == sort_by_key_desc(orig.take(i as int), path_bytes()),
            targets(v@).skip(i as int) == orig.skip(i as int),
        decreases n - i,
    {
        let ghost before = v@;
        let x = v.remove(i);
        let xlen = x.0.as_str().as_bytes().len();
        let mut j: usize = i;
        while j > 0 && v[j - 1].0.as_str().as_bytes().len() < xlen
            invariant
                0 <= j <= i,
                i < n,
                before.len() == n,
                v.len() == n - 1,
                v@ == before.remove(i as int),
                xlen == (path_bytes())((x.0@, x.1)),
                forall|k: int| j <= k < i ==> (path_bytes())(#[trigger] targets(v@)[k]) < (path_bytes())((x.0@, x.1)),
            decreases j,
        {
            proof {
                assert(targets(v@)[j - 1] == (v@[j - 1].0@, v@[j - 1].1));
            }
            j = j - 1;
        }
        v.insert(j, x);
        proof {
            let p = targets(before).take(i as int);
            let xv = (x.0@, x.1);
            assert(xv == orig[i as int]) by {
                assert(targets(before).skip(i as int)[0] == orig.skip(i as int)[0]);
            }
            assert forall|k: int| j <= k < p.len() implies (path_bytes())(#[trigger] p[k]) < (path_bytes())(xv) by {
                assert(p[k] == targets(before.remove(i as int))[k]);
            }
            if j > 0 {
                assert(p[j - 1] == targets(before.remove(i as int))[j - 1]);
            }
            lemma_insert_at(p, xv, path_bytes(), j as int);
            assert(orig.take(i + 1).drop_last() =~= orig.take(i as int));
            assert(targets(v@).take(i + 1) =~= p.insert(j as int, xv));
            assert(targets(v@).skip(i + 1) =~= orig.skip(i + 1)) by {
                assert forall|k: int| 0 <= k < orig.skip(i + 1).len() implies
                    #[trigger] targets(v@).skip(i + 1)[k] == orig.skip(i + 1)[k] by {
                    assert(targets(before).skip(i as int)[k + 1] == orig.skip(i as int)[k + 1]);
                }
            }
        }
        i = i + 1;
    }
    proof {
        assert(targets(v@).take(n as int) =~= targets(v@));
        assert(orig.take(n as int) =~= orig);
    }
}

/// Law: expanding the same node twice is expanding it once.
pub proof fn lemma_expand_twice(t: FsTree, p: Seq<char>)
    ensures
        update_tree(update_tree(t, p, expand()), p, expand()) == update_tree(t, p, expand()),
{
    lemma_update_composed(t, p, expand(), expand());
    assert((|n: FsTree| (expand())((expand())(n))) =~= expand());
}

/// Law: `toggle_select` twice on the same node leaves the tree as it was.
pub proof fn lemma_toggle_select_twice_tree(t: FsTree, p: Seq<char>)
    ensures
        update_tree(update_tree(t, p, flip_selected()), p, flip_selected()) == t,
{
    assert forall|n: FsTree| #[trigger] (flip_selected())((flip_selected())(n)) == n by {
        assert(FsTree { selected: !!n.selected, ..n } == n);
    }
    lemma_update_undone(t, p, flip_selected(), flip_selected());
}

/// Law: expanding a directory a second time (two `toggle_expand` steps on
/// the same path) gives the tree and the rows of the first time.
pub proof fn lemma_expand_again(s0: AppState, s1: AppState, s2: AppState, p: Seq<char>)
    requires
        tree_updated(s0, s1, p, expand()),
        tree_updated(s1, s2, p, expand()),
    ensures
        s2.root matches Some(r2) ==> s1.root matches Some(r1) && r2@ == r1@,
        s0.root is None ==> s2.root is None && s2.flat_list == s1.flat_list,
        rows(s2.flat_list@) == rows(s1.flat_list@),
{
    if let Some(r0) = s0.root {
        lemma_expand_twice(r0@, p);
    }
}

/// Law: selecting an item and selecting it again (two `toggle_select` steps
/// on the same path) gives back the tree, the rows and the selected paths of
/// before (the same paths, as `Path`'s `==` tells), where each path was
/// selected once and `Path`'s `==` is an equivalence.
pub proof fn lemma_select_round_trip(s0: AppState, s1: AppState, s2: AppState, p: Seq<char>)
    requires
        s0.rows_match(),
        each_path_once(s0.selected_paths@),
        path_eq_is_equivalence(),
        tree_updated(s0, s1, p, flip_selected()),
        tree_updated(s1, s2, p, flip_selected()),
        s1.selected_paths@ == toggle_path(s0.selected_paths@, p),
        s2.selected_paths@ == toggle_path(s1.selected_paths@, p),
    ensures
        s2.root matches Some(r2) ==> s0.root matches Some(r0) && r2@ == r0@,
        rows(s2.flat_list@) == rows(s0.flat_list@),
        forall|x: Seq<char>| #[trigger] holds_path(s2.selected_paths@, x) == holds_path(s0.selected_paths@, x),
{
    if let Some(r0) = s0.root {
        lemma_toggle_select_twice_tree(r0@, p);
    }
    lemma_toggle_path_twice(s0.selected_paths@, p);
}

/// Law: after a top-level entry arrives, the root's children are ordered by
/// size, largest first, they are the old children with the entry placed
/// among them, and the root's size is their total.
pub proof fn lemma_merged_root(r: FsTree, node: FsTree)
    requires
        sum_sizes(place_child(r.children, node)) <= u64::MAX,
    ensures
        sorted_desc(merged_root(r, node).children),
        merged_root(r, node).children.to_multiset() == place_child(r.children, node).to_multiset(),
        merged_root(r, node).size == sum_sizes(merged_root(r, node).children),
{
    let pc = place_child(r.children, node);
    lemma_sort_by_key_sorted(pc, size_key());
    lemma_sum_sort(pc, size_key());
    let sc = sort_by_size(pc);
    assert forall|a: int, b: int| 0 <= a < b < sc.len() implies sc[a].size >= sc[b].size by {
        assert((size_key())(sc[a]) >= (size_key())(sc[b]));
    }
    assert(sum_sizes(pc) >= 0) by {
        lemma_sum_take(pc, 0, size_key());
        assert(pc.take(0) =~= Seq::<FsTree>::empty());
    }
}

/// No two trees of `s` have the same path (as `Path`'s `==` tells).
pub open spec fn distinct_paths(s: Seq<FsTree>) -> bool {
    forall|i: int, j: int|
        0 <= i < s.len() && 0 <= j < s.len() && i != j ==> !path_eq(#[trigger] s[i].path, #[trigger] s[j].path)
}

proof fn lemma_insert_distinct(s: Seq<FsTree>, x: FsTree)
    requires
        distinct_paths(s),
        forall|k: int| 0 <= k < s.len() ==> !path_eq(#[trigger] s[k].path, x.path) && !path_eq(x.path, s[k].path),
    ensures
        distinct_paths(insert_by_size(s, x)),
        insert_by_size(s, x).len() == s.len() + 1,
        forall|k: int| 0 <= k < insert_by_size(s, x).len() ==> #[trigger] insert_by_size(s, x)[k] == x
            || exists|m: int| 0 <= m < s.len() && insert_by_size(s, x)[k] == s[m],
    decreases s.len(),
{
    let r = insert_by_size(s, x);
    if s.len() == 0 || (size_key())(s.last()) >= (size_key())(x) {
        assert(r == s.push(x));
        assert forall|k: int| 0 <= k < r.len() implies #[trigger] r[k] == x
            || exists|m: int| 0 <= m < s.len() && r[k] == s[m] by {
            if k < s.len() {
                assert(r[k] == s[k]);
            }
        }
    } else {
        let d = s.drop_last();
        let y = s.last();
        assert forall|i: int, j: int| 0 <= i < d.len() && 0 <= j < d.len() && i != j implies !path_eq(
            #[trigger] d[i].path,
            #[trigger] d[j].path,
        ) by {
            assert(d[i] == s[i] && d[j] == s[j]);
        }
        assert forall|k: int| 0 <= k < d.len() implies !path_eq(#[trigger] d[k].path, x.path) && !path_eq(x.path, d[k].path) by {
            assert(d[k] == s[k]);
        }
        lemma_insert_distinct(d, x);
        let ri = insert_by_size(d, x);
        assert(r == ri.push(y));
        assert forall|k: int| 0 <= k < ri.len() implies !path_eq(#[trigger] ri[k].path, y.path) && !path_eq(y.path, ri[k].path) by {
            if ri[k] == x {
                assert(!path_eq(s[s.len() - 1].path, x.path) && !path_eq(x.path, s[s.len() - 1].path));
            } else {
                let m = choose|m: int| 0 <= m < d.len() && ri[k] == d[m];
                assert(d[m] == s[m]);
                assert(!path_eq(s[m].path, s[s.len() - 1].path));
                assert(!path_eq(s[s.len() - 1].path, s[m].path));
            }
        }
        assert forall|i: int, j: int| 0 <= i < r.len() && 0 <= j < r.len() && i != j implies !path_eq(
            #[trigger] r[i].path,
            #[trigger] r[j].path,
        ) by {
            if i < ri.len() && j < ri.len() {
                assert(r[i] == ri[i] && r[j] == ri[j]);
            } else if i < ri.len() {
                assert(r[i] == ri[i]);
            } else {
                assert(r[j] == ri[j]);
            }
        }
        assert forall|k: int| 0 <= k < r.len() implies #[trigger] r[k] == x
            || exists|m: int| 0 <= m < s.len() && r[k] == s[m] by {
            if k < ri.len() {
                assert(r[k] == ri[k]);
                if ri[k] != x {
                    let m = choose|m: int| 0 <= m < d.len() && ri[k] == d[m];
                    assert(s[m] == d[m]);
                }
            } else {
                assert(r[k] == s[s.len() - 1]);
            }
        }
    }
}

proof fn lemma_sort_distinct(s: Seq<FsTree>)
    requires
        distinct_paths(s),
    ensures
        distinct_paths(sort_by_size(s)),
        sort_by_size(s).len() == s.len(),
        forall|k: int| 0 <= k < sort_by_size(s).len() ==> exists|m: int| 0 <= m < s.len() && #[trigger] sort_by_size(s)[k] == s[m],
    decreases s.len(),
{
    if s.len() > 0 {
        let d = s.drop_last();
        let x = s.last();
        assert forall|i: int, j: int| 0 <= i < d.len() && 0 <= j < d.len() && i != j implies !path_eq(
            #[trigger] d[i].path,
            #[trigger] d[j].path,
        ) by {
            assert(d[i] == s[i] && d[j] == s[j]);
        }
        lemma_sort_distinct(d);
        let t = sort_by_size(d);
        assert(sort_by_size(s) == insert_by_size(t, x));
        assert forall|k: int| 0 <= k < t.len() implies !path_eq(#[trigger] t[k].path, x.path) && !path_eq(x.path, t[k].path) by {
            let m = choose|m: int| 0 <= m < d.len() && t[k] == d[m];
            assert(d[m] == s[m]);
            assert(!path_eq(s[m].path, s[s.len() - 1].path));
            assert(!path_eq(s[s.len() - 1].path, s[m].path));
        }
        lemma_insert_distinct(t, x);
        let r = sort_by_size(s);
        assert forall|k: int| 0 <= k < r.len() implies exists|m: int| 0 <= m < s.len() && #[trigger] r[k] == s[m] by {
            if r[k] == x {
                assert(r[k] == s[s.len() - 1]);
            } else {
                let m1 = choose|m: int| 0 <= m < t.len() && r[k] == t[m];
                let m2 = choose|m: int| 0 <= m < d.len() && t[m1] == d[m];
                assert(d[m2] == s[m2]);
            }
        }
    }
}

proof fn lemma_place_distinct(s: Seq<FsTree>, node: FsTree)
    requires
        path_eq_is_equivalence(),
        distinct_paths(s),
    ensures
        distinct_paths(place_child(s, node)),
{
    let ps = tree_paths(s);
    lemma_first_path_index(ps, node.path);
    let f = first_path_index(ps, node.path);
    let r = place_child(s, node);
    assert forall|k: int| 0 <= k < s.len() implies #[trigger] ps[k] == s[k].path by {}
    if f >= 0 {
        assert(path_eq(s[f].path, node.path));
        assert forall|i: int, j: int| 0 <= i < r.len() && 0 <= j < r.len() && i != j implies !path_eq(
            #[trigger] r[i].path,
            #[trigger] r[j].path,
        ) by {
            if i == f {
                assert(r[j] == s[j]);
                if path_eq(node.path, s[j].path) {
                    assert(path_eq(s[f].path, s[j].path));
                }
            } else if j == f {
                assert(r[i] == s[i]);
                if path_eq(s[i].path, node.path) {
                    assert(path_eq(node.path, s[f].path));
                    assert(path_eq(s[i].path, s[f].path));
                }
            } else {
                assert(r[i] == s[i] && r[j] == s[j]);
            }
        }
    } else {
        assert forall|i: int, j: int| 0 <= i < r.len() && 0 <= j < r.len() && i != j implies !path_eq(
            #[trigger] r[i].path,
            #[trigger] r[j].path,
        ) by {
            if i < s.len() && j < s.len() {
                assert(r[i] == s[i] && r[j] == s[j]);
            } else if i < s.len() {
                assert(r[i] == s[i]);
                assert(!path_eq(ps[i], node.path));
            } else {
                assert(r[j] == s[j]);
                assert(!path_eq(ps[j], node.path));
                if path_eq(node.path, s[j].path) {
                    assert(path_eq(s[j].path, node.path));
                }
            }
        }
    }
}

/// Law: where no two of the root's children are the same path, no two are
/// after a top-level entry arrives (an entry with the path of a child takes
/// its place), `Path`'s `==` being an equivalence.
pub proof fn lemma_merged_root_distinct(r: FsTree, node: FsTree)
    requires
        path_eq_is_equivalence(),
        distinct_paths(r.children),
    ensures
        distinct_paths(merged_root(r, node).children),
{
    lemma_place_distinct(r.children, node);
    lemma_sort_distinct(place_child(r.children, node));
}

/// `b` is `a` after `toggle_select`: the path of the row under the cursor
/// toggled in the selection and the mark of its node flipped, the rows
/// shown anew; with no row under the cursor, nothing changes.
pub open spec fn select_toggled(a: AppState, b: AppState) -> bool {
    match a.cursor_row() {
        Some(row) => {
            &&& b.selected_paths@ == toggle_path(a.selected_paths@, row.path)
            &&& tree_updated(a, b, row.path, flip_selected())
            &&& b == (AppState { selected_paths: b.selected_paths, root: b.root, flat_list: b.flat_list, ..a })
        },
        None => b == a,
    }
}

/// Law: `toggle_select` twice in a row, the cursor staying put, gives back
/// the tree, the rows and the selected paths (as a set of paths) of before,
/// in a state whose rows are those of its tree and whose selection holds
/// each path once (as every `PathSet` does), `Path`'s `==` being an
/// equivalence.
pub proof fn lemma_toggle_select_twice(s0: AppState, s1: AppState, s2: AppState)
    requires
        s0.rows_match(),
        each_path_once(s0.selected_paths@),
        path_eq_is_equivalence(),
        select_toggled(s0, s1),
        select_toggled(s1, s2),
    ensures
        s2.cursor == s0.cursor,
        s2.root matches Some(r2) ==> s0.root matches Some(r0) && r2@ == r0@,
        s0.root is None ==> s2.root is None,
        rows(s2.flat_list@) == rows(s0.flat_list@),
        forall|x: Seq<char>| #[trigger] holds_path(s2.selected_paths@, x) == holds_path(s0.selected_paths@, x),
{
    match s0.cursor_row() {
        Some(row) => {
            let p = row.path;
            assert(rows(s0.flat_list@)[s0.cursor as int] == row);
            if let Some(r0) = s0.root {
                assert forall|n: FsTree| #[trigger] (flip_selected())(n) == (FsTree {
                    selected: (flip_selected())(n).selected,
                    ..n
                }) by {}
                lemma_mark_keeps_rows(r0@, p, flip_selected());
            }
            assert(s1.cursor == s0.cursor);
            assert(rows(s1.flat_list@)[s1.cursor as int].path == p);
            assert(s1.cursor_row() == Some(rows(s1.flat_list@)[s1.cursor as int]));
            lemma_select_round_trip(s0, s1, s2, p);
        },
        None => {},
    }
}

/// The [x] marks of the tree are the selection: a node is marked exactly
/// where the selection holds its path.
pub open spec fn marks_follow(t: FsTree, sel: Seq<Seq<char>>) -> bool {
    forall|i: int| 0 <= i < marks(t).len() ==> (#[trigger] marks(t)[i]).1 == holds_path(sel, marks(t)[i].0)
}

/// No two nodes of the tree are the same path.
pub open spec fn paths_unique(t: FsTree) -> bool {
    forall|i: int, j: int|
        0 <= i < j < marks(t).len() ==> !path_eq(#[trigger] marks(t)[i].0, #[trigger] marks(t)[j].0)
}

/// Changing the mark of the node with path `p`, one of the tree's paths, by
/// `f` changes that node's mark alone, to `f`'s.
proof fn lemma_mark_at(t: FsTree, p: Seq<char>, f: spec_fn(FsTree) -> FsTree) -> (c: int)
    requires
        path_eq_is_equivalence(),
        paths_unique(t),
        mark_paths(marks(t)).contains(p),
        forall|n: FsTree| #[trigger] f(n) == (FsTree { selected: f(n).selected, ..n }),
    ensures
        0 <= c < marks(t).len(),
        marks(t)[c].0 == p,
        find_tree(t, p) matches Some(n) && marks(update_tree(t, p, f)) == marks(t).update(
            c,
            (p, f(n).selected),
        ) && n.selected == marks(t)[c].1,
{
    let ms = marks(t);
    let ps = mark_paths(ms);
    let c = choose|c: int| 0 <= c < ps.len() && ps[c] == p;
    assert(ms[c].0 == p);
    lemma_first_path_index(ps, p);
    lemma_marks_find(t, p);
    assert(path_eq(p, p));
    let k = first_path_index(ps, p);
    if k < 0 || k > c {
        assert(!path_eq(ps[c], p));
    }
    if k < c {
        assert(path_eq(ps[k], p));
        assert(ps[k] == ms[k].0);
        assert(!path_eq(ms[k].0, ms[c].0));
    }
    assert(k == c);
    let n = find_tree(t, p).unwrap();
    lemma_marks_replace(t, p, f(n));
    c
}

/// Law: toggling the selection of the node with path `p`, one of the tree's
/// paths, keeps the [x] marks and the selection in step: the node's mark
/// flips with its path's place in the selection. (The tree's paths are
/// each once, the selection's too, and `Path`'s `==` is an equivalence.)
pub proof fn lemma_marks_follow_toggle(t: FsTree, sel: Seq<Seq<char>>, p: Seq<char>)
    requires
        path_eq_is_equivalence(),
        paths_unique(t),
        each_path_once(sel),
        marks_follow(t, sel),
        mark_paths(marks(t)).contains(p),
    ensures
        marks_follow(update_tree(t, p, flip_selected()), toggle_path(sel, p)),
        paths_unique(update_tree(t, p, flip_selected())),
        marks(update_tree(t, p, flip_selected())).len() == marks(t).len(),
        forall|i: int| 0 <= i < marks(t).len() ==> #[trigger] marks(update_tree(t, p, flip_selected()))[i].0
            == marks(t)[i].0,
{
    let c = lemma_mark_at(t, p, flip_selected());
    let ms = marks(t);
    let m2 = marks(update_tree(t, p, flip_selected()));
    let sel2 = toggle_path(sel, p);
    lemma_toggle_self(sel, p);
    assert forall|i: int| 0 <= i < m2.len() implies (#[trigger] m2[i]).1 == holds_path(sel2, m2[i].0) by {
        if i != c {
            assert(m2[i] == ms[i]);
            if i < c {
                assert(!path_eq(ms[i].0, ms[c].0));
            } else {
                assert(!path_eq(ms[c].0, ms[i].0));
            }
            lemma_toggle_other(sel, p, ms[i].0);
        }
    }
    assert forall|i: int, j: int| 0 <= i < j < m2.len() implies !path_eq(#[trigger] m2[i].0, #[trigger] m2[j].0) by {
        assert(m2[i].0 == ms[i].0 && m2[j].0 == ms[j].0);
    }
}

/// Law: `toggle_select` keeps the [x] marks and the selection in step, in a
/// state whose rows are those of its tree, whose tree holds each path once,
/// whose selection holds each path once (as every `PathSet` does), and
/// where `Path`'s `==` is an equivalence.
pub proof fn lemma_toggle_select_keeps_marks(s0: AppState, s1: AppState)
    requires
        path_eq_is_equivalence(),
        s0.rows_match(),
        s0.root matches Some(r0) && paths_unique(r0@) && marks_follow(r0@, s0.selected_paths@),
        each_path_once(s0.selected_paths@),
        select_toggled(s0, s1),
    ensures
        s1.root matches Some(r1) && paths_unique(r1@) && marks_follow(r1@, s1.selected_paths@),
{
    let r0 = s0.root.unwrap();
    if let Some(row) = s0.cursor_row() {
        lemma_rows_are_nodes(r0@, 0, r0@.size);
        assert(rows(s0.flat_list@)[s0.cursor as int] == row);
        assert(flat_rows(r0@)[s0.cursor as int].path == row.path);
        lemma_marks_follow_toggle(r0@, s0.selected_paths@, row.path);
    }
}

proof fn lemma_marks_follow_add(t: FsTree, sel: Seq<Seq<char>>, p: Seq<char>)
    requires
        path_eq_is_equivalence(),
        paths_unique(t),
        marks_follow(t, sel),
        mark_paths(marks(t)).contains(p),
    ensures
        marks_follow(update_tree(t, p, mark_selected()), add_path(sel, p)),
        paths_unique(update_tree(t, p, mark_selected())),
        mark_paths(marks(update_tree(t, p, mark_selected()))) == mark_paths(marks(t)),
{
    let c = lemma_mark_at(t, p, mark_selected());
    let ms = marks(t);
    let m2 = marks(update_tree(t, p, mark_selected()));
    let sel2 = add_path(sel, p);
    lemma_add_marks(sel, p, p);
    assert forall|i: int| 0 <= i < m2.len() implies (#[trigger] m2[i]).1 == holds_path(sel2, m2[i].0) by {
        if i != c {
            assert(m2[i] == ms[i]);
            if i < c {
                assert(!path_eq(ms[i].0, ms[c].0));
            } else {
                assert(!path_eq(ms[c].0, ms[i].0));
            }
            lemma_add_marks(sel, p, ms[i].0);
        }
    }
    assert forall|i: int, j: int| 0 <= i < j < m2.len() implies !path_eq(#[trigger] m2[i].0, #[trigger] m2[j].0) by {
        assert(m2[i].0 == ms[i].0 && m2[j].0 == ms[j].0);
    }
    assert(mark_paths(m2) =~= mark_paths(ms));
}

/// Selecting each of `ps`, paths of the tree, keeps the marks and the
/// selection in step.
pub proof fn lemma_marks_follow_select_all(t: FsTree, sel: Seq<Seq<char>>, ps: Seq<Seq<char>>)
    requires
        path_eq_is_equivalence(),
        paths_unique(t),
        marks_follow(t, sel),
        forall|i: int| 0 <= i < ps.len() ==> mark_paths(marks(t)).contains(#[trigger] ps[i]),
    ensures
        marks_follow(select_paths(t, ps), add_paths(sel, ps)),
        paths_unique(select_paths(t, ps)),
        mark_paths(marks(select_paths(t, ps))) == mark_paths(marks(t)),
    decreases ps.len(),
{
    if ps.len() > 0 {
        let d = ps.drop_last();
        assert forall|i: int| 0 <= i < d.len() implies mark_paths(marks(t)).contains(#[trigger] d[i]) by {
            assert(d[i] == ps[i]);
        }
        lemma_marks_follow_select_all(t, sel, d);
        let t1 = select_paths(t, d);
        assert(mark_paths(marks(t1)).contains(ps[ps.len() - 1]));
        lemma_marks_follow_add(t1, add_paths(sel, d), ps.last());
    }
}

/// Law: `select_all` keeps the [x] marks and the selection in step, in a
/// state whose rows are those of its tree, whose tree holds each path once,
/// and where `Path`'s `==` is an equivalence.
pub proof fn lemma_select_all_keeps_marks(s0: AppState, t1: FsTree, sel1: Seq<Seq<char>>)
    requires
        path_eq_is_equivalence(),
        s0.rows_match(),
        s0.root matches Some(r0) && paths_unique(r0@) && marks_follow(r0@, s0.selected_paths@)
            && t1 == select_paths(r0@, row_paths(rows(s0.flat_list@))),
        sel1 == add_paths(s0.selected_paths@, row_paths(rows(s0.flat_list@))),
    ensures
        paths_unique(t1),
        marks_follow(t1, sel1),
{
    let r0 = s0.root.unwrap();
    let ps = row_paths(rows(s0.flat_list@));
    lemma_rows_are_nodes(r0@, 0, r0@.size);
    assert forall|i: int| 0 <= i < ps.len() implies mark_paths(marks(r0@)).contains(#[trigger] ps[i]) by {
        assert(ps[i] == flat_rows(r0@)[i].path);
    }
    lemma_marks_follow_select_all(r0@, s0.selected_paths@, ps);
}

impl AppState {
    /// The row under the cursor.
    pub open spec fn cursor_row(self) -> Option<FlatRow> {
        if self.cursor < self.flat_list.len() {
            Some(self.flat_list@[self.cursor as int]@)
        } else {
            None
        }
    }

    /// The cursor is among the `visible_height` rows in view.
    pub open spec fn in_view(self, visible_height: int) -> bool {
        self.scroll_offset <= self.cursor < self.scroll_offset + visible_height
    }

    /// The cursor is on a row.
    pub open spec fn on_a_row(self) -> bool {
        self.cursor < self.flat_list.len()
    }

    /// The shown rows are those of the tree.
    pub open spec fn rows_match(self) -> bool {
        self.root matches Some(r) ==> rows(self.flat_list@) == flat_rows(r@)
    }

    /// A fresh state for browsing `root_path` on `drive`, with a scan started.
    pub fn new(root_path: String, drive: DriveInfo) -> (r: AppState)
        ensures
            r.drive == drive,
            r.root_path@ == root_path@,
            r.scan_progress == (0usize, 0u64),
            r.root matches Some(t) && t@ == scan_root(root_path@),
            rows(r.flat_list@) == flat_rows(scan_root(root_path@)),
            r.cursor == 0,
            r.scroll_offset == 0,
            r.selected_paths@.len() == 0,
            r.mode == AppMode::Scanning,
            r.confirm_targets@.len() == 0,
            r.confirm_total_bytes == 0,
            r.confirm_focus_yes,
            r.status_msg is None,
            !r.should_quit,
            r.skipped_total == 0,
    {
        let mut state = AppState {
            drive,
            root_path,
            scan_progress: (0, 0),
            root: None,
            flat_list: Vec::new(),
            cursor: 0,
            scroll_offset: 0,
            selected_paths: PathSet::new(),
            mode: AppMode::Scanning,
            confirm_targets: Vec::new(),
            confirm_total_bytes: 0,
            confirm_focus_yes: true,
            status_msg: None,
            should_quit: false,
            skipped_total: 0,
        };
        state.start_scan();
        state
    }

    /// Starts over: an empty, expanded root for the scanned folder, no
    /// progress, no skipped paths, nothing selected (the fresh tree marks
    /// nothing), and the scanning screen.
    pub fn start_scan(&mut self)
        ensures
            final(self).mode == AppMode::Scanning,
            final(self).scan_progress == (0usize, 0u64),
            final(self).skipped_total == 0,
            final(self).root matches Some(t) && t@ == scan_root(old(self).root_path@),
            rows(final(self).flat_list@) == flat_rows(scan_root(old(self).root_path@)),
            final(self).selected_paths@.len() == 0,
            *final(self) == (AppState {
                mode: final(self).mode,
                scan_progress: final(self).scan_progress,
                skipped_total: final(self).skipped_total,
                root: final(self).root,
                flat_list: final(self).flat_list,
                selected_paths: final(self).selected_paths,
                ..*old(self)
            }),
    {
        self.mode = AppMode::Scanning;
        self.selected_paths = PathSet::new();
        self.scan_progress = (0, 0);
        self.skipped_total = 0;
        let mut root = FsNode::new_dir(self.root_path.clone());
        root.expanded = true;
        proof {
            assert(root@ == scan_root(old(self).root_path@));
        }
        self.root = Some(root);
        self.rebuild_flat();
    }

    /// Shows the rows of the current tree; with no tree, keeps the rows.
    pub fn rebuild_flat(&mut self)
        ensures
            final(self).rows_match(),
            old(self).root is None ==> final(self).flat_list == old(self).flat_list,
            *final(self) == (AppState { flat_list: final(self).flat_list, ..*old(self) }),
    {
        if let Some(root) = &self.root {
            self.flat_list = rebuild_flat_list(root);
        }
    }

    /// Moves the cursor one row up, scrolling to keep it in view.
    pub fn cursor_up(&mut self)
        ensures
            old(self).cursor > 0 ==> final(self).cursor == old(self).cursor - 1,
            old(self).cursor > 0 ==> final(self).scroll_offset == (if old(self).cursor - 1
                < old(self).scroll_offset {
                old(self).cursor - 1
            } else {
                old(self).scroll_offset as int
            }),
            old(self).cursor == 0 ==> *final(self) == *old(self),
            old(self).on_a_row() ==> final(self).on_a_row(),
            forall|h: int| h > 0 && #[trigger] old(self).in_view(h) ==> final(self).in_view(h),
            *final(self) == (AppState {
                cursor: final(self).cursor,
                scroll_offset: final(self).scroll_offset,
                ..*old(self)
            }),
    {
        if self.cursor > 0 {
            self.cursor -= 1;
            if self.cursor < self.scroll_offset {
                self.scroll_offset = self.cursor;
            }
        }
    }

    /// Moves the cursor one row down, if there is a row below, scrolling to
    /// keep it among the `visible_height` rows in view.
    pub fn cursor_down(&mut self, visible_height: usize)
        requires
            old(self).cursor < usize::MAX,
            old(self).cursor + 1 < old(self).flat_list.len() ==> old(self).scroll_offset
                + visible_height <= usize::MAX,
        ensures
            old(self).cursor + 1 < old(self).flat_list.len() ==> {
                &&& final(self).cursor == old(self).cursor + 1
                &&& final(self).scroll_offset == (if old(self).cursor + 1 >= old(self).scroll_offset
                    + visible_height {
                    old(self).cursor + 2 - visible_height
                } else {
                    old(self).scroll_offset as int
                })
            },
            old(self).cursor + 1 >= old(self).flat_list.len() ==> *final(self) == *old(self),
            old(self).on_a_row() ==> final(self).on_a_row(),
            visible_height > 0 && old(self).in_view(visible_height as int) ==> final(self).in_view(
                visible_height as int,
            ),
            *final(self) == (AppState {
                cursor: final(self).cursor,
                scroll_offset: final(self).scroll_offset,
                ..*old(self)
            }),
    {
        if self.cursor + 1 < self.flat_list.len() {
            self.cursor += 1;
            if self.cursor >= self.scroll_offset + visible_height {
                self.scroll_offset = self.cursor + 1 - visible_height;
            }
        }
    }

    /// Whether `cursor_down` can run without overflow: see its `requires`.
    pub fn cursor_down_fits(&self, visible_height: usize) -> (r: bool)
        ensures
            r == (self.cursor < usize::MAX && (self.cursor + 1 < self.flat_list.len()
                ==> self.scroll_offset + visible_height <= usize::MAX)),
    {
        if self.cursor == usize::MAX {
            return false;
        }
        if self.cursor + 1 < self.flat_list.len() {
            self.scroll_offset.checked_add(visible_height).is_some()
        } else {
            true
        }
    }

    /// Whether `page_down` can run without overflow: see its `requires`.
    pub fn page_down_fits(&self, visible_height: usize) -> (r: bool)
        ensures
            r == (self.cursor + half_page(visible_height) <= usize::MAX && self.scroll_offset
                + visible_height <= usize::MAX),
    {
        let half = if visible_height / 2 >= 1 {
            visible_height / 2
        } else {
            1
        };
        self.cursor.checked_add(half).is_some() && self.scroll_offset.checked_add(visible_height).is_some()
    }

    /// Moves the cursor half a page up, stopping at the first row.
    pub fn page_up(&mut self, visible_height: usize)
        ensures
            final(self).cursor == (if old(self).cursor >= half_page(visible_height) {
                old(self).cursor - half_page(visible_height)
            } else {
                0
            }),
            final(self).scroll_offset == (if final(self).cursor < old(self).scroll_offset {
                final(self).cursor
            } else {
                old(self).scroll_offset
            }),
            old(self).on_a_row() ==> final(self).on_a_row(),
            visible_height > 0 && old(self).in_view(visible_height as int) ==> final(self).in_view(
                visible_height as int,
            ),
            *final(self) == (AppState {
                cursor: final(self).cursor,
                scroll_offset: final(self).scroll_offset,
                ..*old(self)
            }),
    {
        let half = if visible_height / 2 >= 1 {
            visible_height / 2
        } else {
            1
        };
        self.cursor = self.cursor.saturating_sub(half);
        if self.cursor < self.scroll_offset {
            self.scroll_offset = self.cursor;
        }
    }

    /// Moves the cursor half a page down, stopping at the last row, scrolling
    /// to keep it among the `visible_height` rows in view.
    pub fn page_down(&mut self, visible_height: usize)
        requires
            old(self).cursor + half_page(visible_height) <= usize::MAX,
            old(self).scroll_offset + visible_height <= usize::MAX,
        ensures
            final(self).cursor == (if old(self).cursor + half_page(visible_height)
                <= old(self).flat_list.len() - 1 {
                old(self).cursor + half_page(visible_height)
            } else if old(self).flat_list.len() > 0 {
                old(self).flat_list.len() - 1
            } else {
                0
            }),
            final(self).scroll_offset == (if final(self).cursor >= old(self).scroll_offset
                + visible_height {
                final(self).cursor + 1 - visible_height
            } else {
                old(self).scroll_offset as int
            }),
            old(self).flat_list.len() > 0 ==> final(self).on_a_row(),
            visible_height > 0 && old(self).on_a_row() && old(self).in_view(visible_height as int)
                ==> final(self).in_view(
                visible_height as int,
            ),
            *final(self) == (AppState {
                cursor: final(self).cursor,
                scroll_offset: final(self).scroll_offset,
                ..*old(self)
            }),
    {
        let half = if visible_height / 2 >= 1 {
            visible_height / 2
        } else {
            1
        };
        let max = self.flat_list.len().saturating_sub(1);
        let down = self.cursor + half;
        self.cursor = if down < max {
            down
        } else {
            max
        };
        if self.cursor >= self.scroll_offset + visible_height {
            self.scroll_offset = self.cursor + 1 - visible_height;
        }
    }

    /// Expands the directory under the cursor (Enter, Right); files and
    /// empty directories stay.
    pub fn toggle_expand(&mut self)
        ensures
            match old(self).cursor_row() {
                Some(row) => if row.kind == NodeKind::Directory && row.has_children {
                    &&& tree_updated(*old(self), *final(self), row.path, expand())
                    &&& *final(self) == (AppState {
                        root: final(self).root,
                        flat_list: final(self).flat_list,
                        ..*old(self)
                    })
                } else {
                    *final(self) == *old(self)
                },
                None => *final(self) == *old(self),
            },
    {
        if self.cursor < self.flat_list.len() {
            let is_dir = self.flat_list[self.cursor].kind == NodeKind::Directory;
            let has_children = self.flat_list[self.cursor].has_children;
            if is_dir && has_children {
                let path = self.flat_list[self.cursor].path.clone();
                if let Some(root) = &mut self.root {
                    set_flag(root, &path, true, false, true);
                    proof {
                        assert((|n: FsTree| FsTree { expanded: true, ..n }) =~= expand());
                    }
                }
                self.rebuild_flat();
            }
        }
    }

    /// Collapses the expanded directory under the cursor; on any other row
    /// below the root, moves the cursor to the row of its parent, if shown.
    pub fn collapse_or_parent(&mut self)
        ensures
            match old(self).cursor_row() {
                Some(row) => if row.kind == NodeKind::Directory && row.expanded {
                    &&& tree_updated(*old(self), *final(self), row.path, collapse())
                    &&& *final(self) == (AppState {
                        root: final(self).root,
                        flat_list: final(self).flat_list,
                        ..*old(self)
                    })
                } else if row.depth > 0 {
                    &&& final(self).cursor == moved_cursor(*old(self), path_parent(row.path))
                    &&& *final(self) == (AppState { cursor: final(self).cursor, ..*old(self) })
                } else {
                    *final(self) == *old(self)
                },
                None => *final(self) == *old(self),
            },
    {
        if self.cursor < self.flat_list.len() {
            let is_expanded_dir = self.flat_list[self.cursor].kind == NodeKind::Directory
                && self.flat_list[self.cursor].expanded;
            let depth = self.flat_list[self.cursor].depth;
            if is_expanded_dir {
                let path = self.flat_list[self.cursor].path.clone();
                if let Some(root) = &mut self.root {
                    set_flag(root, &path, true, false, false);
                    proof {
                        assert((|n: FsTree| FsTree { expanded: false, ..n }) =~= collapse());
                    }
                }
                self.rebuild_flat();
            } else if depth > 0 {
                let parent = parent_of(&self.flat_list[self.cursor].path);
                self.move_cursor_to_path(parent);
            }
        }
    }

    /// Moves the cursor to the first row with path `target`, if there is one.
    pub fn move_cursor_to_path(&mut self, target: Option<String>)
        ensures
            final(self).cursor == moved_cursor(*old(self), target.deep_view()),
            *final(self) == (AppState { cursor: final(self).cursor, ..*old(self) }),
    {
        if let Some(t) = target {
            if let Some(idx) = row_index(&self.flat_list, &t) {
                self.cursor = idx;
            }
        }
    }

    /// Selects the item under the cursor where it is not selected, and
    /// unselects it where it is.
    pub fn toggle_select(&mut self)
        ensures
            select_toggled(*old(self), *final(self)),
            each_path_once(final(self).selected_paths@),
    {
        if self.cursor < self.flat_list.len() {
            let path = self.flat_list[self.cursor].path.clone();
            self.selected_paths.toggle(&path);
            if let Some(root) = &mut self.root {
                set_flag(root, &path, false, true, false);
            }
            self.rebuild_flat();
        } else {
            // The set's length call brings its invariant: each path once.
            let _ = self.selected_paths.len();
        }
    }

    /// Selects every shown item.
    pub fn select_all(&mut self)
        ensures
            final(self).selected_paths@ == add_paths(
                old(self).selected_paths@,
                row_paths(rows(old(self).flat_list@)),
            ),
            each_path_once(final(self).selected_paths@),
            match old(self).root {
                Some(r) => final(self).root matches Some(r2) && r2@ == select_paths(
                    r@,
                    row_paths(rows(old(self).flat_list@)),
                ),
                None => final(self).root is None && final(self).flat_list == old(self).flat_list,
            },
            final(self).rows_match(),
            *final(self) == (AppState {
                selected_paths: final(self).selected_paths,
                root: final(self).root,
                flat_list: final(self).flat_list,
                ..*old(self)
            }),
    {
        let ghost ps = row_paths(rows(self.flat_list@));
        let ghost sel0 = self.selected_paths@;
        let _ = self.selected_paths.len();
        proof {
            lemma_select_all_paths(sel0, ps);
        }
        let n = self.flat_list.len();
        let mut i: usize = 0;
        proof {
            assert(ps.take(0) =~= Seq::<Seq<char>>::empty());
        }
        while i < n
            invariant
                0 <= i <= n,
                n == self.flat_list.len(),
                self.flat_list == old(self).flat_list,
                ps == row_paths(rows(self.flat_list@)),
                ps.len() == n,
                sel0 == old(self).selected_paths@,
                self.selected_paths@ == add_paths(sel0, ps.take(i as int)),
                match old(self).root {
                    Some(r) => self.root matches Some(r2) && r2@ == select_paths(r@, ps.take(i as int)),
                    None => self.root is None,
                },
                *self == (AppState {
                    selected_paths: self.selected_paths,
                    root: self.root,
                    ..*old(self)
                }),
            decreases n - i,
        {
            let path = self.flat_list[i].path.clone();
            proof {
                assert(ps[i as int] == path@);
                assert(ps.take(i + 1).drop_last() =~= ps.take(i as int));
                assert(ps.take(i + 1).last() == path@);
            }
            self.selected_paths.add(&path);
            if let Some(root) = &mut self.root {
                set_flag(root, &path, false, false, true);
                proof {
                    assert((|n: FsTree| FsTree { selected: true, ..n }) =~= mark_selected());
                }
            }
            i = i + 1;
        }
        proof {
            assert(ps.take(n as int) =~= ps);
        }
        self.rebuild_flat();
    }

    /// The counters and the tree can take the message in: nothing that it
    /// adds up overflows.
    pub open spec fn scan_msg_fits(self, msg: ScanMsg) -> bool {
        match msg {
            ScanMsg::Update { node, skipped } => {
                &&& self.skipped_total + skipped <= usize::MAX
                &&& self.scan_progress.0 + 1 <= usize::MAX
                &&& self.scan_progress.1 + node.size <= u64::MAX
                &&& self.root matches Some(r) ==> sum_sizes(place_child(r@.children, node@))
                    <= u64::MAX
            },
            ScanMsg::Done { skipped } => self.skipped_total + skipped <= usize::MAX,
        }
    }

    /// Whether the state can take `msg` in: see `scan_msg_fits`.
    pub fn can_take(&self, msg: &ScanMsg) -> (r: bool)
        ensures
            r == self.scan_msg_fits(*msg),
    {
        match msg {
            ScanMsg::Update { node, skipped } => {
                if self.skipped_total.checked_add(*skipped).is_none() {
                    return false;
                }
                if self.scan_progress.0 == usize::MAX {
                    return false;
                }
                if self.scan_progress.1.checked_add(node.size).is_none() {
                    return false;
                }
                match &self.root {
                    Some(r) => placed_sizes_fit(r, node),
                    None => true,
                }
            },
            ScanMsg::Done { skipped } => self.skipped_total.checked_add(*skipped).is_some(),
        }
    }

    /// Takes in one message of the scan. A finished top-level entry joins
    /// the root, whose children stay ordered by size and whose size stays
    /// their sum; the first result ends the waiting screen. The end of the
    /// scan shows how many paths were skipped, if any. Returns whether the
    /// scan has ended.
    pub fn poll_scan(&mut self, msg: ScanMsg) -> (done: bool)
        requires
            old(self).scan_msg_fits(msg),
        ensures
            match msg {
                ScanMsg::Update { node, skipped } => {
                    &&& !done
                    &&& final(self).skipped_total == old(self).skipped_total + skipped
                    &&& final(self).scan_progress == (
                        (old(self).scan_progress.0 + 1) as usize,
                        (old(self).scan_progress.1 + node.size) as u64,
                    )
                    &&& match old(self).root {
                        Some(r) => final(self).root matches Some(r2) && r2@ == merged_root(
                            r@,
                            node@,
                        ),
                        None => final(self).root is None && final(self).flat_list
                            == old(self).flat_list,
                    }
                    &&& final(self).rows_match()
                    &&& final(self).mode == (if old(self).mode == AppMode::Scanning {
                        AppMode::Browsing
                    } else {
                        old(self).mode
                    })
                    &&& *final(self) == (AppState {
                        skipped_total: final(self).skipped_total,
                        scan_progress: final(self).scan_progress,
                        root: final(self).root,
                        flat_list: final(self).flat_list,
                        mode: final(self).mode,
                        ..*old(self)
                    })
                },
                ScanMsg::Done { skipped } => {
                    &&& done
                    &&& final(self).skipped_total == old(self).skipped_total + skipped
                    &&& final(self).mode == AppMode::Browsing
                    &&& match final(self).status_msg {
                        Some(m) => final(self).skipped_total > 0 && m@ == skipped_note(
                            final(self).skipped_total as nat,
                        ),
                        None => final(self).skipped_total == 0,
                    }
                    &&& *final(self) == (AppState {
                        skipped_total: final(self).skipped_total,
                        mode: final(self).mode,
                        status_msg: final(self).status_msg,
                        ..*old(self)
                    })
                },
            },
    {
        match msg {
            ScanMsg::Update { node, skipped } => {
                self.skipped_total = self.skipped_total + skipped;
                self.scan_progress.0 = self.scan_progress.0 + 1;
                self.scan_progress.1 = self.scan_progress.1 + node.size;
                if let Some(root) = &mut self.root {
                    merge_child(root, node);
                }
                self.rebuild_flat();
                if self.mode == AppMode::Scanning {
                    self.mode = AppMode::Browsing;
                }
                false
            },
            ScanMsg::Done { skipped } => {
                self.skipped_total = self.skipped_total + skipped;
                self.mode = AppMode::Browsing;
                if self.skipped_total > 0 {
                    let mut note = decimal_string(self.skipped_total as u64);
                    note.append(
                        " path(s) skipped (permission denied \u{2014} run as administrator to scan them)",
                    );
                    self.status_msg = Some(note);
                } else {
                    self.status_msg = None;
                }
                true
            },
        }
    }

    /// What a deletion would take: the selected paths found in the tree, or,
    /// with nothing selected, the item under the cursor.
    pub open spec fn confirm_candidates(self) -> Seq<(Seq<char>, u64)> {
        if self.selected_paths@.len() > 0 {
            match self.root {
                Some(r) => found_targets(r@, self.selected_paths@),
                None => Seq::empty(),
            }
        } else {
            match self.cursor_row() {
                Some(row) => seq![(row.path, row.size)],
                None => Seq::empty(),
            }
        }
    }

    fn collect_candidates(&self) -> (r: Vec<(String, u64)>)
        ensures
            targets(r@) == self.confirm_candidates(),
    {
        let mut r: Vec<(String, u64)> = Vec::new();
        if self.selected_paths.len() > 0 {
            if let Some(root) = &self.root {
                let ghost sel = self.selected_paths@;
                let n = self.selected_paths.len();
                let mut i: usize = 0;
                proof {
                    assert(sel.take(0) =~= Seq::<Seq<char>>::empty());
                    assert(targets(r@) =~= Seq::<(Seq<char>, u64)>::empty());
                }
                while i < n
                    invariant
                        0 <= i <= n,
                        n == self.selected_paths@.len(),
                        sel == self.selected_paths@,
                        sel.len() == n,
                        targets(r@) == found_targets(root@, sel.take(i as int)),
                    decreases n - i,
                {
                    proof {
                        assert(sel.take(i + 1).drop_last() =~= sel.take(i as int));
                        assert(sel.take(i + 1).last() == self.selected_paths@[i as int]);
                    }
                    match root.find(self.selected_paths.get(i)) {
                        Some(node) => {
                            let ghost before = targets(r@);
                            r.push((self.selected_paths.get(i).clone(), node.size));
                            proof {
                                assert(targets(r@) =~= before + seq![(sel[i as int], node@.size)]);
                            }
                        },
                        None => {
                            proof {
                                assert(targets(r@) =~= targets(r@) + Seq::<(Seq<char>, u64)>::empty());
                            }
                        },
                    }
                    i = i + 1;
                }
                proof {
                    assert(sel.take(n as int) =~= sel);
                }
            } else {
                proof {
                    assert(targets(r@) =~= Seq::<(Seq<char>, u64)>::empty());
                }
            }
        } else if self.cursor < self.flat_list.len() {
            r.push((self.flat_list[self.cursor].path.clone(), self.flat_list[self.cursor].size));
            proof {
                assert(targets(r@) =~= seq![(self.flat_list@[self.cursor as int].path@, self.flat_list@[self.cursor as int].size)]);
            }
        } else {
            proof {
                assert(targets(r@) =~= Seq::<(Seq<char>, u64)>::empty());
            }
        }
        r
    }

    /// Whether the space that a deletion would free fits in a `u64`.
    pub fn confirm_fits(&self) -> (r: bool)
        ensures
            r == (freed_total(self.confirm_candidates()) <= u64::MAX),
    {
        let c = self.collect_candidates();
        freed_bytes(&c).is_some()
    }

    /// Opens the deletion dialog for the selected items found in the tree,
    /// or, with nothing selected, for the item under the cursor, with the
    /// total space that deleting them frees (a target inside another one
    /// counted once) and "Yes" in focus; with nothing to delete, nothing
    /// changes.
    pub fn open_confirm(&mut self)
        requires
            freed_total(old(self).confirm_candidates()) <= u64::MAX,
        ensures
            old(self).confirm_candidates().len() > 0 ==> {
                &&& targets(final(self).confirm_targets@) == old(self).confirm_candidates()
                &&& final(self).confirm_total_bytes == freed_total(old(self).confirm_candidates())
                &&& final(self).confirm_focus_yes
                &&& final(self).mode == AppMode::Confirming
                &&& *final(self) == (AppState {
                    confirm_targets: final(self).confirm_targets,
                    confirm_total_bytes: final(self).confirm_total_bytes,
                    confirm_focus_yes: final(self).confirm_focus_yes,
                    mode: final(self).mode,
                    ..*old(self)
                })
            },
            old(self).confirm_candidates().len() == 0 ==> *final(self) == *old(self),
    {
        let c = self.collect_candidates();
        if c.len() == 0 {
            return;
        }
        let total = match freed_bytes(&c) {
            Some(x) => x,
            None => {
                return;
            },
        };
        self.confirm_total_bytes = total;
        self.confirm_targets = c;
        self.confirm_focus_yes = true;
        self.mode = AppMode::Confirming;
    }

    /// The order in which the targets are deleted: longest path first, so
    /// that what a folder holds goes before the folder.
    pub fn deletion_order(&self) -> (r: Vec<(String, u64)>)
        ensures
            targets(r@) == sort_by_key_desc(targets(self.confirm_targets@), path_bytes()),
            sorted_by_key_desc(targets(r@), path_bytes()),
            targets(r@).to_multiset() == targets(self.confirm_targets@).to_multiset(),
    {
        let mut v: Vec<(String, u64)> = Vec::new();
        let n = self.confirm_targets.len();
        let mut i: usize = 0;
        while i < n
            invariant
                0 <= i <= n,
                n == self.confirm_targets.len(),
                targets(v@) == targets(self.confirm_targets@).take(i as int),
            decreases n - i,
        {
            let ghost before = targets(v@);
            v.push((self.confirm_targets[i].0.clone(), self.confirm_targets[i].1));
            proof {
                let t = targets(self.confirm_targets@);
                assert(t[i as int] == (self.confirm_targets@[i as int].0@, self.confirm_targets@[i as int].1));
                assert(targets(v@) =~= before.push(t[i as int]));
                assert(t.take(i + 1) =~= t.take(i as int).push(t[i as int]));
            }
            i = i + 1;
        }
        proof {
            assert(targets(self.confirm_targets@).take(n as int) =~= targets(self.confirm_targets@));
        }
        sort_targets_by_path_len(&mut v);
        proof {
            lemma_sort_by_key_sorted(targets(self.confirm_targets@), path_bytes());
        }
        v
    }

    /// After the targets were deleted (`deleted` of them) or failed (with
    /// `errors`): reports it, clears the dialog and the selection, takes the
    /// drive's new figures, and starts a new scan.
    pub fn execute_delete(&mut self, deleted: usize, errors: Vec<String>, drive: DriveInfo)
        ensures
            final(self).status_msg matches Some(m) && m@ == delete_report_text(
                deleted as nat,
                strings(errors@),
                format_size_binary(old(self).confirm_total_bytes),
            ),
            final(self).confirm_targets@.len() == 0,
            final(self).confirm_total_bytes == 0,
            final(self).selected_paths@.len() == 0,
            final(self).drive == drive,
            final(self).mode == AppMode::Scanning,
            final(self).scan_progress == (0usize, 0u64),
            final(self).skipped_total == 0,
            final(self).root matches Some(t) && t@ == scan_root(old(self).root_path@),
            rows(final(self).flat_list@) == flat_rows(scan_root(old(self).root_path@)),
            *final(self) == (AppState {
                status_msg: final(self).status_msg,
                confirm_targets: final(self).confirm_targets,
                confirm_total_bytes: final(self).confirm_total_bytes,
                selected_paths: final(self).selected_paths,
                drive: final(self).drive,
                mode: final(self).mode,
                scan_progress: final(self).scan_progress,
                skipped_total: final(self).skipped_total,
                root: final(self).root,
                flat_list: final(self).flat_list,
                ..*old(self)
            }),
    {
        let freed = human_size(self.confirm_total_bytes);
        self.status_msg = Some(delete_report(deleted, &errors, freed));
        self.confirm_targets.clear();
        self.confirm_total_bytes = 0;
        self.selected_paths = PathSet::new();
        self.drive = drive;
        self.start_scan();
    }

    /// Closes the deletion dialog without deleting anything.
    pub fn cancel_confirm(&mut self)
        ensures
            final(self).confirm_targets@.len() == 0,
            final(self).mode == AppMode::Browsing,
            *final(self) == (AppState {
                confirm_targets: final(self).confirm_targets,
                mode: final(self).mode,
                ..*old(self)
            }),
    {
        self.confirm_targets.clear();
        self.mode = AppMode::Browsing;
    }
}

} // verus!
