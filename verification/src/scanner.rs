//! The results of a scan: how each finished top-level entry reaches the
//! browser, and how the tree of one entry is built from the file system's
//! listing of it. Paths are compared as `std::path::Path` compares them.
use vstd::prelude::*;

use crate::fs_tree::{
    display_name, lemma_sorted_forest, lemma_trees_of, size_key, sort_by_size, sorted_forest, sorted_tree, trees_of, views,
    FsNode, FsTree, NodeKind,
};
use crate::order::lemma_sort_by_key_sorted;
use crate::paths::{first_path_index, lemma_first_path_index, parent_of, path_eq, path_parent, same_path};

verus! {

/// A message from the scan to the browser.
pub enum ScanMsg {
    /// Sent each time a top-level child finishes scanning.
    Update { node: FsNode, skipped: usize },
    /// Sent once when all top-level children are done.
    Done { skipped: usize },
}

/// The model of one entry of a listing: its path, whether it is a directory,
/// and its size.
pub type StatView = (Seq<char>, bool, u64);

/// The models of the entries of a listing.
pub open spec fn stat_views(s: Seq<(String, bool, u64)>) -> Seq<StatView> {
    s.map_values(|e: (String, bool, u64)| (e.0@, e.1, e.2))
}

/// The directories that a file's size is added to, starting at `dir`: `dir`,
/// then its parents, up to and including the one that is the same path as
/// `root`, or up to a path with no parent.
pub open spec fn ancestors(dir: Seq<char>, root: Seq<char>) -> Seq<Seq<char>>
    decreases dir.len(),
{
    if path_eq(dir, root) {
        seq![dir]
    } else {
        match path_parent(dir) {
            // A parent is shorter than the path, as `parent_of` states.
            Some(up) => if up.len() < dir.len() {
                seq![dir] + ancestors(up, root)
            } else {
                seq![dir]
            },
            None => seq![dir],
        }
    }
}

/// One entry of the directory sizes: a directory and the bytes counted for it.
pub type SizeEntry = (Seq<char>, int);

/// The directories of a list of sizes, in order.
pub open spec fn size_keys(l: Seq<SizeEntry>) -> Seq<Seq<char>> {
    l.map_values(|e: SizeEntry| e.0)
}

/// The index of the entry for `d`: the first whose directory is the same path
/// as `d`; -1 where there is none.
pub open spec fn size_index(l: Seq<SizeEntry>, d: Seq<char>) -> int {
    first_path_index(size_keys(l), d)
}

/// `l` with `size` added to the entry for `d`, or with a new entry `(d, size)`
/// at the end where there is none (the entry keeps its own spelling of the
/// path, as a map keyed by `PathBuf` does).
pub open spec fn add_size(l: Seq<SizeEntry>, d: Seq<char>, size: int) -> Seq<SizeEntry> {
    let i = size_index(l, d);
    if i >= 0 {
        l.update(i, (l[i].0, l[i].1 + size))
    } else {
        l.push((d, size))
    }
}

/// `l` with `size` added for each of `dirs`, in order.
pub open spec fn add_to_dirs(l: Seq<SizeEntry>, dirs: Seq<Seq<char>>, size: int) -> Seq<SizeEntry>
    decreases dirs.len(),
{
    if dirs.len() == 0 {
        l
    } else {
        add_to_dirs(add_size(l, dirs[0], size), dirs.drop_first(), size)
    }
}

/// The size of each directory, after the entries of `stats`, in order: a
/// directory is listed with size 0 where it has no entry yet, and a file adds
/// its size to each directory from its parent up to `root`.
pub open spec fn dir_sizes_of(stats: Seq<StatView>, root: Seq<char>) -> Seq<SizeEntry>
    decreases stats.len(),
{
    if stats.len() == 0 {
        Seq::empty()
    } else {
        let l = dir_sizes_of(stats.drop_last(), root);
        let (p, is_dir, size) = stats.last();
        if is_dir {
            if size_index(l, p) >= 0 {
                l
            } else {
                l.push((p, 0))
            }
        } else {
            match path_parent(p) {
                Some(d) => add_to_dirs(l, ancestors(d, root), size as int),
                None => l,
            }
        }
    }
}

/// No directory's size exceeds `u64::MAX`.
pub open spec fn sizes_fit(l: Seq<SizeEntry>) -> bool {
    forall|i: int| 0 <= i < l.len() ==> (#[trigger] l[i]).1 <= u64::MAX
}

/// The model of a list of (directory, size) entries.
pub open spec fn size_list(v: Seq<(String, u64)>) -> Seq<SizeEntry> {
    v.map_values(|e: (String, u64)| (e.0@, e.1 as int))
}

/// `b` starts with the entries of `a`, with the same directories and sizes at
/// least as large.
pub open spec fn grows(a: Seq<SizeEntry>, b: Seq<SizeEntry>) -> bool {
    &&& a.len() <= b.len()
    &&& forall|i: int| 0 <= i < a.len() ==> (#[trigger] b[i]).0 == a[i].0 && b[i].1 >= a[i].1
}

proof fn lemma_grows_keys(a: Seq<SizeEntry>, b: Seq<SizeEntry>)
    requires
        grows(a, b),
    ensures
        size_keys(b).take(a.len() as int) == size_keys(a),
{
    assert(size_keys(b).take(a.len() as int) =~= size_keys(a));
}

/// Where `k1` starts `k2`, a path found in `k1` is found at the same place in
/// `k2`, and one not found in `k1` is not found before its end in `k2`.
pub proof fn lemma_prefix_index(k1: Seq<Seq<char>>, k2: Seq<Seq<char>>, x: Seq<char>)
    requires
        k1.len() <= k2.len(),
        k2.take(k1.len() as int) == k1,
    ensures
        first_path_index(k1, x) >= 0 ==> first_path_index(k2, x) == first_path_index(k1, x),
        first_path_index(k1, x) < 0 ==> first_path_index(k2, x) < 0 || first_path_index(k2, x) >= k1.len(),
{
    lemma_first_path_index(k1, x);
    lemma_first_path_index(k2, x);
    let f1 = first_path_index(k1, x);
    let f2 = first_path_index(k2, x);
    if f1 >= 0 {
        assert(k2[f1] == k1[f1]);
        if f2 >= 0 && f2 < f1 {
            assert(k2[f2] == k1[f2]);
        }
    } else {
        if f2 >= 0 && f2 < k1.len() {
            assert(k2[f2] == k1[f2]);
        }
    }
}

proof fn lemma_add_size_grows(l: Seq<SizeEntry>, d: Seq<char>, size: int)
    requires
        size >= 0,
    ensures
        grows(l, add_size(l, d, size)),
{
    lemma_first_path_index(size_keys(l), d);
}

proof fn lemma_add_to_dirs_grows(l: Seq<SizeEntry>, dirs: Seq<Seq<char>>, size: int)
    requires
        size >= 0,
    ensures
        grows(l, add_to_dirs(l, dirs, size)),
    decreases dirs.len(),
{
    if dirs.len() > 0 {
        let l1 = add_size(l, dirs[0], size);
        lemma_add_size_grows(l, dirs[0], size);
        lemma_add_to_dirs_grows(l1, dirs.drop_first(), size);
    }
}

proof fn lemma_sizes_step(stats: Seq<StatView>, root: Seq<char>)
    requires
        stats.len() > 0,
    ensures
        grows(dir_sizes_of(stats.drop_last(), root), dir_sizes_of(stats, root)),
{
    let l = dir_sizes_of(stats.drop_last(), root);
    let (p, is_dir, size) = stats.last();
    if !is_dir {
        if let Some(d) = path_parent(p) {
            lemma_add_to_dirs_grows(l, ancestors(d, root), size as int);
        }
    }
}

proof fn lemma_sizes_mono(stats: Seq<StatView>, root: Seq<char>, i: int)
    requires
        0 <= i <= stats.len(),
    ensures
        grows(dir_sizes_of(stats.take(i), root), dir_sizes_of(stats, root)),
    decreases stats.len() - i,
{
    if i == stats.len() {
        assert(stats.take(i) =~= stats);
    } else {
        lemma_sizes_mono(stats, root, i + 1);
        lemma_sizes_step(stats.take(i + 1), root);
        assert(stats.take(i + 1).drop_last() =~= stats.take(i));
    }
}

/// The index of the entry for `key`.
fn find_key(v: &Vec<(String, u64)>, key: &String) -> (r: Option<usize>)
    ensures
        match r {
            Some(i) => i < v.len() && i == size_index(size_list(v@), key@),
            None => size_index(size_list(v@), key@) < 0,
        },
{
    let ghost ks = size_keys(size_list(v@));
    proof {
        lemma_first_path_index(ks, key@);
    }
    let n = v.len();
    let mut i: usize = 0;
    while i < n
        invariant
            0 <= i <= n,
            n == v.len(),
            ks == size_keys(size_list(v@)),
            ks.len() == n,
            forall|j: int| 0 <= j < i ==> !path_eq(#[trigger] ks[j], key@),
            -1 <= first_path_index(ks, key@) < n,
            first_path_index(ks, key@) >= 0 ==> path_eq(ks[first_path_index(ks, key@)], key@),
            forall|j: int| 0 <= j < n && (first_path_index(ks, key@) < 0 || j < first_path_index(ks, key@))
                ==> !path_eq(#[trigger] ks[j], key@),
        decreases n - i,
    {
        proof {
            assert(ks[i as int] == v@[i as int].0@);
        }
        if same_path(&v[i].0, key) {
            proof {
                let f = first_path_index(ks, key@);
                if f >= 0 && f < i {
                    assert(!path_eq(ks[f], key@));
                }
                if f < 0 || f > i {
                    assert(!path_eq(ks[i as int], key@));
                }
            }
            return Some(i);
        }
        i = i + 1;
    }
    proof {
        let f = first_path_index(ks, key@);
        if f >= 0 {
            assert(!path_eq(ks[f], key@));
        }
    }
    None
}

/// Adds `size` to the entry for `dir`, creating it where there is none;
/// `false` where the sum overflows.
fn add_to_dir(v: &mut Vec<(String, u64)>, dir: &String, size: u64) -> (ok: bool)
    ensures
        ok ==> size_list(final(v)@) == add_size(size_list(old(v)@), dir@, size as int),
        !ok ==> add_size(size_list(old(v)@), dir@, size as int)[size_index(size_list(old(v)@), dir@)].1
            > u64::MAX && size_index(size_list(old(v)@), dir@) >= 0,
{
    let ghost l0 = size_list(v@);
    match find_key(v, dir) {
        Some(i) => {
            let cur = v[i].1;
            match cur.checked_add(size) {
                Some(t) => {
                    let key = v[i].0.clone();
                    v.set(i, (key, t));
                    proof {
                        assert(size_list(v@) =~= l0.update(i as int, (l0[i as int].0, l0[i as int].1 + size)));
                    }
                    true
                },
                None => false,
            }
        },
        None => {
            v.push((dir.clone(), size));
            proof {
                assert(size_list(v@) =~= l0.push((dir@, size as int)));
            }
            true
        },
    }
}

/// The size of each directory, as `dir_sizes_of` gives it; `None` where one
/// of them exceeds `u64::MAX`.
fn accumulate_sizes(root: &String, stats: &[(String, bool, u64)]) -> (r: Option<Vec<(String, u64)>>)
    ensures
        match r {
            Some(v) => size_list(v@) == dir_sizes_of(stat_views(stats@), root@)
                && sizes_fit(dir_sizes_of(stat_views(stats@), root@)),
            None => !sizes_fit(dir_sizes_of(stat_views(stats@), root@)),
        },
{
    let ghost sv = stat_views(stats@);
    let mut v: Vec<(String, u64)> = Vec::new();
    let n = stats.len();
    let mut i: usize = 0;
    proof {
        assert(sv.take(0) =~= Seq::<StatView>::empty());
        assert(size_list(v@) =~= Seq::<SizeEntry>::empty());
    }
    while i < n
        invariant
            0 <= i <= n,
            n == stats.len(),
            sv == stat_views(stats@),
            sv.len() == n,
            size_list(v@) == dir_sizes_of(sv.take(i as int), root@),
        decreases n - i,
    {
        let ghost l_i = size_list(v@);
        let ghost target = dir_sizes_of(sv.take(i + 1), root@);
        proof {
            assert(sv.take(i + 1).drop_last() =~= sv.take(i as int));
            assert(sv.take(i + 1).last() == sv[i as int]);
            assert(sv[i as int] == (stats@[i as int].0@, stats@[i as int].1, stats@[i as int].2));
            lemma_sizes_mono(sv, root@, i + 1);
        }
        let size = stats[i].2;
        if stats[i].1 {
            if find_key(&v, &stats[i].0).is_none() {
                v.push((stats[i].0.clone(), 0));
                proof {
                    assert(size_list(v@) =~= l_i.push((stats@[i as int].0@, 0)));
                }
            }
        } else {
            let mut cur = parent_of(&stats[i].0);
            proof {
                match path_parent(sv[i as int].0) {
                    Some(d) => {
                        assert(target == add_to_dirs(l_i, ancestors(d, root@), size as int));
                    },
                    None => {
                        assert(target == l_i);
                    },
                }
            }
            while cur.is_some()
                invariant
                    sv == stat_views(stats@),
                    match cur {
                        Some(x) => add_to_dirs(size_list(v@), ancestors(x@, root@), size as int)
                            == target,
                        None => size_list(v@) == target,
                    },
                    grows(target, dir_sizes_of(sv, root@)),
                decreases match cur {
                    Some(x) => x@.len() + 1,
                    None => 0,
                },
            {
                let x = cur.unwrap();
                let ghost l_cur = size_list(v@);
                let ghost rest = ancestors(x@, root@).drop_first();
                proof {
                    assert(ancestors(x@, root@)[0] == x@);
                    assert(add_to_dirs(l_cur, ancestors(x@, root@), size as int) == add_to_dirs(
                        add_size(l_cur, x@, size as int),
                        rest,
                        size as int,
                    ));
                    lemma_first_path_index(size_keys(l_cur), x@);
                }
                if !add_to_dir(&mut v, &x, size) {
                    proof {
                        let l1 = add_size(l_cur, x@, size as int);
                        let k = size_index(l_cur, x@);
                        lemma_add_to_dirs_grows(l1, rest, size as int);
                        assert(target == add_to_dirs(l1, rest, size as int));
                        assert(target[k].1 >= l1[k].1);
                        assert(dir_sizes_of(sv, root@)[k].1 >= target[k].1);
                        assert(!sizes_fit(dir_sizes_of(sv, root@))) by {
                            assert(dir_sizes_of(sv, root@)[k].1 > u64::MAX);
                        }
                    }
                    return None;
                }
                if same_path(&x, root) {
                    proof {
                        assert(rest =~= Seq::<Seq<char>>::empty());
                    }
                    cur = None;
                } else {
                    cur = parent_of(&x);
                    proof {
                        match &cur {
                            Some(up) => {
                                assert(rest == ancestors(up@, root@));
                            },
                            None => {
                                assert(rest =~= Seq::<Seq<char>>::empty());
                            },
                        }
                    }
                }
            }
        }
        i = i + 1;
    }
    proof {
        assert(sv.take(n as int) =~= sv);
        assert forall|k: int| 0 <= k < size_list(v@).len() implies (#[trigger] size_list(v@)[k]).1 <= u64::MAX by {
            assert(size_list(v@)[k] == (v@[k].0@, v@[k].1 as int));
        }
    }
    Some(v)
}

/// The bytes that one file of `size` gives to entry `i` of the sizes whose
/// directories are `keys`: `size` for each directory of `chain` whose entry
/// (the first with the same path) is at `i`.
pub open spec fn chain_share(chain: Seq<Seq<char>>, keys: Seq<Seq<char>>, i: int, size: int) -> int
    decreases chain.len(),
{
    if chain.len() == 0 {
        0
    } else {
        (if first_path_index(keys, chain[0]) == i {
            size
        } else {
            0
        }) + chain_share(chain.drop_first(), keys, i, size)
    }
}

/// The total size of the files of the listing that reach entry `i` of the
/// sizes whose directories are `keys`, through the chain of directories from
/// each file's parent up to `root`.
pub open spec fn files_total(stats: Seq<StatView>, root: Seq<char>, keys: Seq<Seq<char>>, i: int) -> int
    decreases stats.len(),
{
    if stats.len() == 0 {
        0
    } else {
        let (p, is_dir, size) = stats.last();
        files_total(stats.drop_last(), root, keys, i) + if !is_dir {
            match path_parent(p) {
                Some(q) => chain_share(ancestors(q, root), keys, i, size as int),
                None => 0,
            }
        } else {
            0
        }
    }
}

proof fn lemma_chain_share_prefix(chain: Seq<Seq<char>>, k1: Seq<Seq<char>>, k2: Seq<Seq<char>>, i: int, size: int)
    requires
        k1.len() <= k2.len(),
        k2.take(k1.len() as int) == k1,
    ensures
        0 <= i < k1.len() ==> chain_share(chain, k2, i, size) == chain_share(chain, k1, i, size),
        (forall|j: int| 0 <= j < chain.len() ==> first_path_index(k1, #[trigger] chain[j]) >= 0) && i >= k1.len()
            ==> chain_share(chain, k2, i, size) == 0,
    decreases chain.len(),
{
    if chain.len() > 0 {
        lemma_prefix_index(k1, k2, chain[0]);
        lemma_first_path_index(k1, chain[0]);
        lemma_chain_share_prefix(chain.drop_first(), k1, k2, i, size);
        if forall|j: int| 0 <= j < chain.len() ==> first_path_index(k1, #[trigger] chain[j]) >= 0 {
            assert forall|j: int| 0 <= j < chain.drop_first().len() implies first_path_index(k1, #[trigger] chain.drop_first()[j]) >= 0 by {
                assert(chain.drop_first()[j] == chain[j + 1]);
            }
            assert(first_path_index(k1, chain[0]) >= 0);
        }
    }
}

proof fn lemma_files_total_prefix(stats: Seq<StatView>, root: Seq<char>, k1: Seq<Seq<char>>, k2: Seq<Seq<char>>, i: int)
    requires
        k1.len() <= k2.len(),
        k2.take(k1.len() as int) == k1,
        0 <= i < k1.len(),
    ensures
        files_total(stats, root, k2, i) == files_total(stats, root, k1, i),
    decreases stats.len(),
{
    if stats.len() > 0 {
        lemma_files_total_prefix(stats.drop_last(), root, k1, k2, i);
        let (p, is_dir, size) = stats.last();
        if let Some(q) = path_parent(p) {
            lemma_chain_share_prefix(ancestors(q, root), k1, k2, i, size as int);
        }
    }
}

/// Adding `size` for each of `dirs` adds, to each entry, `size` for each of
/// `dirs` whose entry it is, and every one of `dirs` then has an entry.
proof fn lemma_add_to_dirs_share(l: Seq<SizeEntry>, dirs: Seq<Seq<char>>, size: int)
    requires
        size >= 0,
        forall|x: Seq<char>| #[trigger] path_eq(x, x),
    ensures
        forall|i: int| 0 <= i < add_to_dirs(l, dirs, size).len() ==> (#[trigger] add_to_dirs(l, dirs, size)[i]).1
            == (if i < l.len() { l[i].1 } else { 0 }) + chain_share(dirs, size_keys(add_to_dirs(l, dirs, size)), i, size),
        forall|j: int| 0 <= j < dirs.len() ==> first_path_index(size_keys(add_to_dirs(l, dirs, size)), #[trigger] dirs[j]) >= 0,
    decreases dirs.len(),
{
    let l2 = add_to_dirs(l, dirs, size);
    let k2 = size_keys(l2);
    if dirs.len() > 0 {
        let d0 = dirs[0];
        let rest = dirs.drop_first();
        let l1 = add_size(l, d0, size);
        lemma_add_size_grows(l, d0, size);
        lemma_add_to_dirs_grows(l1, rest, size);
        lemma_add_to_dirs_share(l1, rest, size);
        lemma_grows_keys(l1, l2);
        lemma_first_path_index(size_keys(l), d0);
        let f0 = size_index(l, d0);
        // the entry of d0 in l1, and so in l2
        let e0 = if f0 >= 0 { f0 } else { l.len() as int };
        assert(first_path_index(size_keys(l1), d0) == e0) by {
            if f0 < 0 {
                assert(size_keys(l1) =~= size_keys(l).push(d0));
                assert(size_keys(l1).drop_last() =~= size_keys(l));
                assert(path_eq(d0, d0));
            } else {
                lemma_grows_keys(l, l1);
                assert(l1.len() == l.len());
                assert(size_keys(l1) =~= size_keys(l));
            }
        }
        lemma_prefix_index(size_keys(l1), k2, d0);
        assert forall|i: int| 0 <= i < l2.len() implies (#[trigger] l2[i]).1
            == (if i < l.len() { l[i].1 } else { 0 }) + chain_share(dirs, k2, i, size) by {
            assert(chain_share(dirs, k2, i, size) == (if e0 == i { size } else { 0 }) + chain_share(rest, k2, i, size));
        }
        assert forall|j: int| 0 <= j < dirs.len() implies first_path_index(k2, #[trigger] dirs[j]) >= 0 by {
            if j > 0 {
                assert(dirs[j] == rest[j - 1]);
            }
        }
    }
}

/// Law: each directory's size is the total size of the files that reach its
/// entry through their chain of directories, from their parent up to `root`
/// (a directory that no file reaches has size 0). Paths are compared as
/// `Path`'s `==` compares them, which is reflexive.
pub proof fn lemma_dir_size_is_files_total(stats: Seq<StatView>, root: Seq<char>)
    requires
        forall|x: Seq<char>| #[trigger] path_eq(x, x),
    ensures
        forall|i: int| 0 <= i < dir_sizes_of(stats, root).len() ==> (#[trigger] dir_sizes_of(stats, root)[i]).1
            == files_total(stats, root, size_keys(dir_sizes_of(stats, root)), i),
        forall|k: Seq<Seq<char>>, i: int|
            k.len() >= dir_sizes_of(stats, root).len() && k.take(dir_sizes_of(stats, root).len() as int)
                == size_keys(dir_sizes_of(stats, root)) && i >= dir_sizes_of(stats, root).len()
                ==> #[trigger] files_total(stats, root, k, i) == 0,
    decreases stats.len(),
{
    let l = dir_sizes_of(stats, root);
    let kl = size_keys(l);
    if stats.len() == 0 {
    } else {
        let s1 = stats.drop_last();
        lemma_dir_size_is_files_total(s1, root);
        let l1 = dir_sizes_of(s1, root);
        let k1 = size_keys(l1);
        lemma_sizes_step(stats, root);
        lemma_grows_keys(l1, l);
        let (p, is_dir, size) = stats.last();
        assert forall|k: Seq<Seq<char>>, i: int|
            k.len() >= l.len() && k.take(l.len() as int) == kl && i >= l.len()
                implies #[trigger] files_total(stats, root, k, i) == 0 by {
            assert(k.take(l1.len() as int) =~= k1) by {
                assert(kl.take(l1.len() as int) == k1);
            }
            assert(files_total(s1, root, k, i) == 0);
            if !is_dir {
                if let Some(q) = path_parent(p) {
                    let chain = ancestors(q, root);
                    lemma_add_to_dirs_share(l1, chain, size as int);
                    lemma_chain_share_prefix(chain, kl, k, i, size as int);
                }
            }
        }
        assert forall|i: int| 0 <= i < l.len() implies (#[trigger] l[i]).1 == files_total(stats, root, kl, i) by {
            if i < l1.len() {
                lemma_files_total_prefix(s1, root, k1, kl, i);
            } else {
                assert(files_total(s1, root, kl, i) == 0);
            }
            if is_dir {
                if size_index(l1, p) < 0 {
                    assert(l == l1.push((p, 0)));
                }
            } else {
                match path_parent(p) {
                    Some(q) => {
                        lemma_add_to_dirs_share(l1, ancestors(q, root), size as int);
                    },
                    None => {},
                }
            }
        }
    }
}

/// The size recorded for directory `p` (that of its entry), or 0.
pub open spec fn dir_size_at(l: Seq<SizeEntry>, p: Seq<char>) -> u64 {
    if size_index(l, p) >= 0 {
        l[size_index(l, p)].1 as u64
    } else {
        0
    }
}

/// The node for a file entry.
pub open spec fn file_tree(p: Seq<char>, size: u64) -> FsTree {
    FsTree {
        path: p,
        name: display_name(p),
        kind: NodeKind::File,
        size: size,
        children: Seq::empty(),
        expanded: false,
        selected: false,
    }
}

/// Whether the parent of `e` is the same path as `p`.
pub open spec fn is_child_of(e: Seq<char>, p: Seq<char>) -> bool {
    match path_parent(e) {
        Some(q) => path_eq(q, p),
        None => false,
    }
}

/// The tree built for directory `p` from the listing `stats` and the sizes
/// `l`: its children are the entries whose parent is the same path as `p`,
/// in the order of the listing, a directory built in the same way and a file
/// as it is; then every list of children is ordered by size. `depth` bounds
/// the nesting: below it no directory gets children. A listing of a real
/// tree never reaches a depth of its own length, where each level is a
/// directory entry of its own.
pub open spec fn built_tree(p: Seq<char>, stats: Seq<StatView>, l: Seq<SizeEntry>, depth: nat) -> FsTree
    decreases depth, 1int, 0int,
{
    sorted_tree(
        FsTree {
            path: p,
            name: display_name(p),
            kind: NodeKind::Directory,
            size: dir_size_at(l, p),
            children: built_children(p, stats, l, depth, stats.len() as int),
            expanded: false,
            selected: false,
        },
    )
}

/// The children of `p` among the first `k` entries of the listing.
pub open spec fn built_children(p: Seq<char>, stats: Seq<StatView>, l: Seq<SizeEntry>, depth: nat, k: int) -> Seq<FsTree>
    decreases depth, 0int, k,
{
    if k <= 0 || k > stats.len() {
        Seq::empty()
    } else {
        let e = stats[k - 1];
        let rest = built_children(p, stats, l, depth, k - 1);
        if is_child_of(e.0, p) {
            if !e.1 {
                rest.push(file_tree(e.0, e.2))
            } else if depth > 0 {
                rest.push(built_tree(e.0, stats, l, (depth - 1) as nat))
            } else {
                rest
            }
        } else {
            rest
        }
    }
}

/// The parent of each entry's path.
fn parents_of(stats: &[(String, bool, u64)]) -> (r: Vec<Option<String>>)
    ensures
        r@.len() == stats@.len(),
        forall|i: int| 0 <= i < r@.len() ==> (#[trigger] r@[i]).deep_view() == path_parent(stats@[i].0@),
{
    let mut r: Vec<Option<String>> = Vec::new();
    let n = stats.len();
    let mut i: usize = 0;
    while i < n
        invariant
            0 <= i <= n,
            n == stats.len(),
            r@.len() == i,
            forall|j: int| 0 <= j < i ==> (#[trigger] r@[j]).deep_view() == path_parent(stats@[j].0@),
        decreases n - i,
    {
        r.push(parent_of(&stats[i].0));
        i = i + 1;
    }
    r
}

fn build_node(
    path: &String,
    stats: &[(String, bool, u64)],
    parents: &Vec<Option<String>>,
    sizes: &Vec<(String, u64)>,
    depth: usize,
) -> (r: FsNode)
    requires
        parents@.len() == stats@.len(),
        forall|i: int| 0 <= i < parents@.len() ==> (#[trigger] parents@[i]).deep_view() == path_parent(stats@[i].0@),
    ensures
        r@ == built_tree(path@, stat_views(stats@), size_list(sizes@), depth as nat),
    decreases depth,
{
    broadcast use lemma_trees_of;
    let ghost sv = stat_views(stats@);
    let ghost l = size_list(sizes@);
    let mut node = FsNode::new_dir(path.clone());
    node.size = match find_key(sizes, path) {
        Some(i) => sizes[i].1,
        None => 0,
    };
    let n = stats.len();
    let mut i: usize = 0;
    proof {
        assert(views(node.children@) =~= Seq::<FsTree>::empty());
    }
    while i < n
        invariant
            0 <= i <= n,
            n == stats.len(),
            sv == stat_views(stats@),
            l == size_list(sizes@),
            parents@.len() == stats@.len(),
            forall|j: int| 0 <= j < parents@.len() ==> (#[trigger] parents@[j]).deep_view() == path_parent(stats@[j].0@),
            node.path@ == path@,
            node.name@ == display_name(path@),
            node.kind == NodeKind::Directory,
            node.size == dir_size_at(l, path@),
            !node.expanded,
            !node.selected,
            views(node.children@) == built_children(path@, sv, l, depth as nat, i as int),
        decreases n - i,
    {
        let ghost before = views(node.children@);
        proof {
            assert(sv[i as int] == (stats@[i as int].0@, stats@[i as int].1, stats@[i as int].2));
        }
        let is_child = match &parents[i] {
            Some(q) => same_path(q, path),
            None => false,
        };
        if is_child {
            if stats[i].1 {
                if depth > 0 {
                    let child = build_node(&stats[i].0, stats, parents, sizes, depth - 1);
                    node.children.push(child);
                    proof {
                        assert(views(node.children@) =~= before.push(node.children@.last()@));
                    }
                }
            } else {
                let child = FsNode::new_file(stats[i].0.clone(), stats[i].2);
                node.children.push(child);
                proof {
                    assert(views(node.children@) =~= before.push(node.children@.last()@));
                }
            }
        }
        i = i + 1;
    }
    proof {
        assert(node@.children == trees_of(node.children@));
        assert(node@ == FsTree {
            path: path@,
            name: display_name(path@),
            kind: NodeKind::Directory,
            size: dir_size_at(l, path@),
            children: built_children(path@, sv, l, depth as nat, sv.len() as int),
            expanded: false,
            selected: false,
        });
    }
    node.sort_by_size_desc();
    node
}

/// The tree of the folder `root` built from its listing: each directory
/// holds the entries whose parent is the same path, and has as size the
/// total of the files below it (as `dir_sizes_of` adds them up); every list
/// of children is ordered by size, largest first.
pub fn build_tree(root: &String, stats: &[(String, bool, u64)]) -> (r: FsNode)
    requires
        sizes_fit(dir_sizes_of(stat_views(stats@), root@)),
    ensures
        r@ == built_tree(
            root@,
            stat_views(stats@),
            dir_sizes_of(stat_views(stats@), root@),
            stats@.len() as nat,
        ),
{
    match try_build_tree(root, stats) {
        Some(t) => t,
        None => {
            proof {
                assert(false);
            }
            FsNode::new_dir(root.clone())
        },
    }
}

/// The tree of the folder `root` built from its listing, as `build_tree`
/// builds it; `None` where the size of a directory would exceed `u64::MAX`.
pub fn try_build_tree(root: &String, stats: &[(String, bool, u64)]) -> (r: Option<FsNode>)
    ensures
        match r {
            Some(t) => sizes_fit(dir_sizes_of(stat_views(stats@), root@)) && t@ == built_tree(
                root@,
                stat_views(stats@),
                dir_sizes_of(stat_views(stats@), root@),
                stats@.len() as nat,
            ),
            None => !sizes_fit(dir_sizes_of(stat_views(stats@), root@)),
        },
{
    match accumulate_sizes(root, stats) {
        Some(sizes) => {
            let parents = parents_of(stats);
            Some(build_node(root, stats, &parents, &sizes, stats.len()))
        },
        None => None,
    }
}

/// The node of a top-level entry that needs no walk, from what reading its
/// metadata gave (`None` where it could not be read; else whether it is a
/// file, and its length): an empty directory with one skipped path where it
/// could not be read, a file of its length where it is one; `None` for a
/// directory, which is walked.
pub fn entry_node(path: String, stat: Option<(bool, u64)>) -> (r: Option<(FsNode, usize)>)
    ensures
        match stat {
            None => r matches Some((n, k)) && k == 1 && n@ == (FsTree {
                path: path@,
                name: display_name(path@),
                kind: NodeKind::Directory,
                size: 0,
                children: Seq::empty(),
                expanded: false,
                selected: false,
            }),
            Some((true, len)) => r matches Some((n, k)) && k == 0 && n@ == file_tree(path@, len),
            Some((false, _)) => r is None,
        },
{
    match stat {
        None => Some((FsNode::new_dir(path), 1)),
        Some((is_file, len)) => if is_file {
            Some((FsNode::new_file(path, len), 0))
        } else {
            None
        },
    }
}

/// The path, kind and size of each tree of `cs`.
pub open spec fn child_keys(cs: Seq<FsTree>) -> Seq<(Seq<char>, NodeKind, u64)> {
    cs.map_values(|c: FsTree| (c.path, c.kind, c.size))
}

/// Whether the parent of entry `e` is the same path as `p`.
pub open spec fn parent_is(e: Seq<char>, p: Seq<char>) -> bool {
    path_parent(e) matches Some(q) && path_eq(q, p)
}

/// The paths of the entries of the listing whose parent is `p`.
pub open spec fn entries_under(stats: Seq<StatView>, p: Seq<char>) -> Seq<Seq<char>> {
    stats.filter(|e: StatView| parent_is(e.0, p)).map_values(|e: StatView| e.0)
}

proof fn lemma_children_prefix(p: Seq<char>, stats: Seq<StatView>, l: Seq<SizeEntry>, depth: nat, k: int)
    requires
        0 <= k <= stats.len(),
    ensures
        ({
            let cs = built_children(p, stats, l, depth, k);
            &&& forall|i: int| 0 <= i < k && parent_is(stats[i].0, p) && !stats[i].1 ==> child_keys(cs).contains(
                (#[trigger] stats[i].0, NodeKind::File, stats[i].2),
            )
            &&& forall|i: int| 0 <= i < k && parent_is(stats[i].0, p) && stats[i].1 && depth > 0 ==> child_keys(
                cs,
            ).contains((#[trigger] stats[i].0, NodeKind::Directory, dir_size_at(l, stats[i].0)))
            &&& forall|c: int| #![trigger cs[c]] 0 <= c < cs.len() ==> exists|i: int|
                0 <= i < k && parent_is(stats[i].0, p) && #[trigger] stats[i].0 == cs[c].path
        }),
    decreases k,
{
    let cs = built_children(p, stats, l, depth, k);
    if k > 0 {
        lemma_children_prefix(p, stats, l, depth, k - 1);
        let rest = built_children(p, stats, l, depth, k - 1);
        let e = stats[k - 1];
        assert(is_child_of(e.0, p) == parent_is(e.0, p));
        if cs != rest {
            let x = cs.last();
            assert(cs == rest.push(x));
            assert(child_keys(cs) =~= child_keys(rest).push((x.path, x.kind, x.size)));
            if !e.1 {
                assert(x == file_tree(e.0, e.2));
            } else {
                assert(depth > 0);
                let bt = built_tree(e.0, stats, l, (depth - 1) as nat);
                assert(x == bt);
                assert(bt.path == e.0 && bt.kind == NodeKind::Directory && bt.size == dir_size_at(l, e.0));
            }
            assert(x.path == e.0);
            assert forall|i: int| 0 <= i < k && parent_is(stats[i].0, p) && !stats[i].1 implies child_keys(cs).contains(
                (#[trigger] stats[i].0, NodeKind::File, stats[i].2),
            ) by {
                if i < k - 1 {
                    let j = choose|j: int| 0 <= j < child_keys(rest).len() && child_keys(rest)[j] == (stats[i].0, NodeKind::File, stats[i].2);
                    assert(child_keys(cs)[j] == child_keys(rest)[j]);
                } else {
                    assert(child_keys(cs)[rest.len() as int] == (x.path, x.kind, x.size));
                }
            }
            assert forall|i: int| 0 <= i < k && parent_is(stats[i].0, p) && stats[i].1 && depth > 0 implies child_keys(
                cs,
            ).contains((#[trigger] stats[i].0, NodeKind::Directory, dir_size_at(l, stats[i].0))) by {
                if i < k - 1 {
                    let j = choose|j: int| 0 <= j < child_keys(rest).len() && child_keys(rest)[j] == (stats[i].0, NodeKind::Directory, dir_size_at(l, stats[i].0));
                    assert(child_keys(cs)[j] == child_keys(rest)[j]);
                } else {
                    assert(child_keys(cs)[rest.len() as int] == (x.path, x.kind, x.size));
                }
            }
            assert forall|c: int| #![trigger cs[c]] 0 <= c < cs.len() implies exists|i: int|
                0 <= i < k && parent_is(stats[i].0, p) && #[trigger] stats[i].0 == cs[c].path by {
                if c < rest.len() {
                    assert(cs[c] == rest[c]);
                    let i = choose|i: int| 0 <= i < k - 1 && parent_is(stats[i].0, p) && #[trigger] stats[i].0 == rest[c].path;
                } else {
                    assert(stats[k - 1].0 == cs[c].path);
                }
            }
        } else {
            assert forall|i: int| 0 <= i < k && parent_is(stats[i].0, p) && !stats[i].1 implies child_keys(cs).contains(
                (#[trigger] stats[i].0, NodeKind::File, stats[i].2),
            ) by {
                if i == k - 1 {
                    assert(false);
                }
            }
            assert forall|c: int| #![trigger cs[c]] 0 <= c < cs.len() implies exists|i: int|
                0 <= i < k && parent_is(stats[i].0, p) && #[trigger] stats[i].0 == cs[c].path by {
                let i = choose|i: int| 0 <= i < k - 1 && parent_is(stats[i].0, p) && #[trigger] stats[i].0 == rest[c].path;
            }
        }
    }
}

/// Law: the children of a directory built from a listing are exactly its
/// entries in the listing. Each file entry whose parent is the directory is
/// a child, a file of that path and that size, whatever the size (0
/// included); each directory entry whose parent is the directory is a child
/// directory of that path (within the depth the tree is built to), sized as
/// its files add up; and every child is such an entry. Their order, largest
/// first, does not take any out or in.
pub proof fn lemma_built_children(p: Seq<char>, stats: Seq<StatView>, l: Seq<SizeEntry>, depth: nat)
    ensures
        ({
            let cs = built_tree(p, stats, l, depth).children;
            &&& forall|i: int| 0 <= i < stats.len() && parent_is(stats[i].0, p) && !stats[i].1 ==> child_keys(cs).contains(
                (#[trigger] stats[i].0, NodeKind::File, stats[i].2),
            )
            &&& forall|i: int| 0 <= i < stats.len() && parent_is(stats[i].0, p) && stats[i].1 && depth > 0 ==> child_keys(
                cs,
            ).contains((#[trigger] stats[i].0, NodeKind::Directory, dir_size_at(l, stats[i].0)))
            &&& forall|c: int| 0 <= c < cs.len() ==> entries_under(stats, p).contains(#[trigger] cs[c].path)
        }),
{
    let bc = built_children(p, stats, l, depth, stats.len() as int);
    lemma_children_prefix(p, stats, l, depth, stats.len() as int);
    let y = sorted_forest(bc);
    lemma_sorted_forest(bc);
    let cs = sort_by_size(y);
    lemma_sort_by_key_sorted(y, size_key());
    assert(built_tree(p, stats, l, depth).children == cs);
    assert(child_keys(y) =~= child_keys(bc)) by {
        assert forall|j: int| 0 <= j < y.len() implies child_keys(y)[j] == child_keys(bc)[j] by {
            assert(y[j] == sorted_tree(bc[j]));
        }
    }
    broadcast use vstd::seq_lib::to_multiset_contains;
    // Each key of `y` is a key of the sorted `cs`, and each tree of `cs` one of `y`.
    assert forall|v: (Seq<char>, NodeKind, u64)| child_keys(y).contains(v) implies #[trigger] child_keys(cs).contains(v) by {
        let j = choose|j: int| 0 <= j < child_keys(y).len() && child_keys(y)[j] == v;
        let w = y[j];
        assert(y.contains(w));
        assert(y.to_multiset().count(w) > 0);
        assert(cs.to_multiset().count(w) > 0);
        assert(cs.contains(w));
        let m = choose|m: int| 0 <= m < cs.len() && cs[m] == w;
        assert(child_keys(cs)[m] == v);
    }
    let stats_child = |e: StatView| parent_is(e.0, p);
    assert forall|c: int| 0 <= c < cs.len() implies entries_under(stats, p).contains(#[trigger] cs[c].path) by {
        let w = cs[c];
        assert(cs.contains(w));
        assert(cs.to_multiset().count(w) > 0);
        assert(y.to_multiset().count(w) > 0);
        assert(y.contains(w));
        let m = choose|m: int| 0 <= m < y.len() && y[m] == w;
        assert(y[m] == sorted_tree(bc[m]));
        let i = choose|i: int| 0 <= i < stats.len() && parent_is(stats[i].0, p) && #[trigger] stats[i].0 == bc[m].path;
        lemma_filter_keeps(stats, stats_child, i);
        let f = stats.filter(stats_child);
        let fi = choose|fi: int| 0 <= fi < f.len() && f[fi] == stats[i];
        assert(entries_under(stats, p)[fi] == stats[i].0);
    }
}

proof fn lemma_children_count(p: Seq<char>, stats: Seq<StatView>, l: Seq<SizeEntry>, depth: nat, k: int)
    requires
        0 <= k <= stats.len(),
        depth > 0,
    ensures
        built_children(p, stats, l, depth, k).len() == stats.take(k).filter(|e: StatView| parent_is(e.0, p)).len(),
    decreases k,
{
    let pred = |e: StatView| parent_is(e.0, p);
    if k == 0 {
        assert(stats.take(0) =~= Seq::<StatView>::empty());
        reveal(Seq::filter);
    } else {
        lemma_children_count(p, stats, l, depth, k - 1);
        assert(stats.take(k) =~= stats.take(k - 1).push(stats[k - 1]));
        stats.take(k - 1).lemma_filter_push(stats[k - 1], pred);
        assert(is_child_of(stats[k - 1].0, p) == parent_is(stats[k - 1].0, p));
    }
}

/// Law: a directory built within the depth the tree is built to has as many
/// children as the listing has entries whose parent is that directory; none
/// is left out, none is added twice.
pub proof fn lemma_built_children_count(p: Seq<char>, stats: Seq<StatView>, l: Seq<SizeEntry>, depth: nat)
    requires
        depth > 0,
    ensures
        built_tree(p, stats, l, depth).children.len() == entries_under(stats, p).len(),
{
    let bc = built_children(p, stats, l, depth, stats.len() as int);
    lemma_children_count(p, stats, l, depth, stats.len() as int);
    assert(stats.take(stats.len() as int) =~= stats);
    lemma_sorted_forest(bc);
    lemma_sort_by_key_sorted(sorted_forest(bc), size_key());
}

/// An element that `keep` keeps is in the filtered sequence.
proof fn lemma_filter_keeps<A>(s: Seq<A>, keep: spec_fn(A) -> bool, i: int)
    requires
        0 <= i < s.len(),
        keep(s[i]),
    ensures
        s.filter(keep).contains(s[i]),
    decreases s.len(),
{
    broadcast use vstd::seq_lib::group_filter_ensures;
    assert(s.filter(keep).contains(s[i]));
}

} // verus!
