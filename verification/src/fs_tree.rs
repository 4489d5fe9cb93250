//! The scanned tree: its nodes, their model, the order of children by size,
//! the search for a path, and the rows that the tree shows.
use vstd::prelude::*;

use crate::order::{
    insert_by_key, key_is, lemma_insert_at, lemma_sort_by_key_sorted, lemma_sort_by_key_stable,
    lemma_sort_sorted_id, sort_by_key_desc,
};
use crate::paths::{file_name_of, first_path_index, lemma_first_path_index, path_eq, path_file_name, same_path};

verus! {

/// Whether a node stands for a directory or a file.
#[derive(Debug, Clone, Copy, PartialEq, Eq, Structural)]
pub enum NodeKind {
    Directory,
    File,
}

/// A node of the scanned tree: a directory with its children, or a file.
#[derive(Debug)]
pub struct FsNode {
    pub path: String,
    pub name: String,
    pub kind: NodeKind,
    pub size: u64,
    pub children: Vec<FsNode>,
    pub expanded: bool,
    pub selected: bool,
}

/// The mathematical model of an `FsNode`.
pub struct FsTree {
    pub path: Seq<char>,
    pub name: Seq<char>,
    pub kind: NodeKind,
    pub size: u64,
    pub children: Seq<FsTree>,
    pub expanded: bool,
    pub selected: bool,
}

/// The model of one node.
pub open spec fn tree_of(n: FsNode) -> FsTree
    decreases n,
{
    FsTree {
        path: n.path@,
        name: n.name@,
        kind: n.kind,
        size: n.size,
        children: trees_of(n.children@),
        expanded: n.expanded,
        selected: n.selected,
    }
}

/// The models of a sequence of nodes, element by element.
pub open spec fn trees_of(s: Seq<FsNode>) -> Seq<FsTree>
    decreases s,
{
    if s.len() == 0 {
        Seq::empty()
    } else {
        trees_of(s.drop_last()).push(tree_of(s.last()))
    }
}

impl View for FsNode {
    type V = FsTree;

    open spec fn view(&self) -> FsTree {
        tree_of(*self)
    }
}

impl Clone for FsNode {
    /// A deep copy: the copy has the same model as the node.
    fn clone(&self) -> (r: Self)
        ensures
            r@ == self@,
        decreases self,
    {
        let mut children: Vec<FsNode> = Vec::new();
        let mut i: usize = 0;
        while i < self.children.len()
            invariant
                i <= self.children.len(),
                children@.len() == i,
                forall|k: int| 0 <= k < i ==> (#[trigger] children@[k])@ == self.children@[k]@,
            decreases self.children.len() - i,
        {
            let c = self.children[i].clone();
            children.push(c);
            i = i + 1;
        }
        proof {
            lemma_trees_of(children@);
            lemma_trees_of(self.children@);
            assert(trees_of(children@) =~= trees_of(self.children@));
        }
        FsNode {
            path: self.path.clone(),
            name: self.name.clone(),
            kind: self.kind,
            size: self.size,
            children,
            expanded: self.expanded,
            selected: self.selected,
        }
    }
}

/// The models of a sequence of nodes are the model of each node.
pub broadcast proof fn lemma_trees_of(s: Seq<FsNode>)
    ensures
        #[trigger] trees_of(s).len() == s.len(),
        forall|i: int| 0 <= i < s.len() ==> #[trigger] trees_of(s)[i] == s[i]@,
        trees_of(s) == s.map_values(|n: FsNode| n@),
    decreases s.len(),
{
    if s.len() > 0 {
        lemma_trees_of(s.drop_last());
    }
    assert(trees_of(s) =~= s.map_values(|n: FsNode| n@));
}


/// The models of the nodes of a vector.
pub open spec fn views(v: Seq<FsNode>) -> Seq<FsTree> {
    v.map_values(|n: FsNode| n@)
}

/// The size of a node, as the ordering key.
pub open spec fn size_key() -> spec_fn(FsTree) -> int {
    |t: FsTree| t.size as int
}

/// Inserts `x` into a sequence ordered largest first, after the nodes of its
/// own size.
pub open spec fn insert_by_size(s: Seq<FsTree>, x: FsTree) -> Seq<FsTree> {
    insert_by_key(s, x, size_key())
}

/// The stable ordering of `s` by size, largest first.
pub open spec fn sort_by_size(s: Seq<FsTree>) -> Seq<FsTree> {
    sort_by_key_desc(s, size_key())
}

/// `s` is ordered by size, largest first.
pub open spec fn sorted_desc(s: Seq<FsTree>) -> bool {
    forall|i: int, j: int| 0 <= i < j < s.len() ==> s[i].size >= s[j].size
}

/// The tree with every list of children ordered by size, largest first.
pub open spec fn sorted_tree(t: FsTree) -> FsTree
    decreases t,
{
    FsTree { children: sort_by_size(sorted_forest(t.children)), ..t }
}

/// Each tree of `s`, sorted.
pub open spec fn sorted_forest(s: Seq<FsTree>) -> Seq<FsTree>
    decreases s,
{
    if s.len() == 0 {
        s
    } else {
        sorted_forest(s.drop_last()).push(sorted_tree(s.last()))
    }
}

/// Orders the nodes of `v` by size, largest first, keeping the order of nodes
/// of equal size.
pub(crate) fn sort_nodes_by_size(v: &mut Vec<FsNode>)
    ensures
        views(final(v)@) == sort_by_size(views(old(v)@)),
        final(v)@.to_multiset() == old(v)@.to_multiset(),
{
    let ghost orig = views(v@);
    let n = v.len();
    if n == 0 {
        assert(orig =~= Seq::<FsTree>::empty());
        return;
    }
    let mut i: usize = 1;
    proof {
        assert(orig.take(1) =~= Seq::<FsTree>::empty().push(orig[0]));
        assert(orig.take(1).drop_last() =~= Seq::<FsTree>::empty());
        assert(sort_by_size(orig.take(1).drop_last()) =~= Seq::<FsTree>::empty());
        assert(orig.take(1).last() == orig[0]);
        assert(insert_by_size(Seq::<FsTree>::empty(), orig[0]) == Seq::<FsTree>::empty().push(orig[0]));
        assert(sort_by_size(orig.take(1)) == Seq::<FsTree>::empty().push(orig[0]));
        assert(views(v@).take(1) =~= Seq::<FsTree>::empty().push(orig[0]));
    }
    while i < n
        invariant
            1 <= i <= n,
            v.len() == n,
            orig.len() == n,
            views(v@).take(i as int) == sort_by_size(orig.take(i as int)),
            views(v@).skip(i as int) == orig.skip(i as int),
            v@.to_multiset() == old(v)@.to_multiset(),
        decreases n - i,
    {
        let ghost before = v@;
        let x = v.remove(i);
        let mut j: usize = i;
        while j > 0 && v[j - 1].size < x.size
            invariant
                0 <= j <= i,
                i < n,
                before.len() == n,
                v.len() == n - 1,
                v@ == before.remove(i as int),
                forall|k: int| j <= k < i ==> #[trigger] v@[k].size < x.size,
            decreases j,
        {
            j = j - 1;
        }
        v.insert(j, x);
        proof {
            let p = views(before).take(i as int);
            let xv = x@;
            assert(xv == orig[i as int]) by {
                assert(views(before).skip(i as int)[0] == orig.skip(i as int)[0]);
            }
            assert forall|k: int| j <= k < p.len() implies #[trigger] p[k].size < xv.size by {
                assert(p[k] == before.remove(i as int)[k]@);
            }
            if j > 0 {
                assert(p[j - 1] == before.remove(i as int)[j - 1]@);
            }
            lemma_insert_at(p, xv, size_key(), j as int);
            assert(orig.take(i + 1).drop_last() =~= orig.take(i as int));
            assert(views(v@).take(i + 1) =~= p.insert(j as int, xv));
            assert(views(v@).skip(i + 1) =~= orig.skip(i + 1)) by {
                assert forall|k: int| 0 <= k < orig.skip(i + 1).len() implies
                    #[trigger] views(v@).skip(i + 1)[k] == orig.skip(i + 1)[k] by {
                    assert(views(before).skip(i as int)[k + 1] == orig.skip(i as int)[k + 1]);
                }
            }
            broadcast use vstd::multiset::group_multiset_axioms;
            vstd::seq_lib::to_multiset_remove(before, i as int);
            vstd::seq_lib::to_multiset_insert(before.remove(i as int), j as int, x);
            vstd::seq_lib::to_multiset_contains(before, x);
            assert(before.contains(x)) by {
                assert(before[i as int] == x);
            }
            assert(before.to_multiset().remove(x).insert(x) =~= before.to_multiset());
        }
        i = i + 1;
    }
    proof {
        assert(views(v@).take(n as int) =~= views(v@));
        assert(orig.take(n as int) =~= orig);
    }
}


/// Sorting a forest sorts each of its trees, in place.
pub proof fn lemma_sorted_forest(s: Seq<FsTree>)
    ensures
        sorted_forest(s).len() == s.len(),
        forall|i: int| 0 <= i < s.len() ==> #[trigger] sorted_forest(s)[i] == sorted_tree(s[i]),
    decreases s.len(),
{
    if s.len() > 0 {
        lemma_sorted_forest(s.drop_last());
    }
}

proof fn lemma_insert_commutes(s: Seq<FsTree>, x: FsTree)
    ensures
        insert_by_size(sorted_forest(s), sorted_tree(x)) == sorted_forest(insert_by_size(s, x)),
    decreases s.len(),
{
    lemma_sorted_forest(s);
    if s.len() == 0 || s.last().size >= x.size {
        assert(s.push(x).drop_last() =~= s);
    } else {
        lemma_insert_commutes(s.drop_last(), x);
        let r = insert_by_size(s.drop_last(), x);
        assert(r.push(s.last()).drop_last() =~= r);
        assert(sorted_forest(s).drop_last() =~= sorted_forest(s.drop_last()));
    }
}

/// Sorting the subtrees and ordering by size commute.
proof fn lemma_sort_commutes(s: Seq<FsTree>)
    ensures
        sort_by_size(sorted_forest(s)) == sorted_forest(sort_by_size(s)),
    decreases s.len(),
{
    lemma_sorted_forest(s);
    if s.len() > 0 {
        lemma_sort_commutes(s.drop_last());
        assert(sorted_forest(s).drop_last() =~= sorted_forest(s.drop_last()));
        lemma_insert_commutes(sort_by_size(s.drop_last()), s.last());
    }
}

/// Every list of children of the tree is ordered by size, largest first.
pub open spec fn sorted_everywhere(t: FsTree) -> bool
    decreases t,
{
    &&& sorted_desc(t.children)
    &&& forall|i: int| 0 <= i < t.children.len() ==> sorted_everywhere(#[trigger] t.children[i])
}

/// Law: after `sort_by_size_desc`, every list of children in the tree is
/// ordered by size, largest first; each list holds the (sorted) nodes it
/// held before, and nodes of equal size keep their order.
pub proof fn lemma_sorted_tree_ordered(t: FsTree)
    ensures
        sorted_everywhere(sorted_tree(t)),
        sorted_tree(t).children.to_multiset() == sorted_forest(t.children).to_multiset(),
        forall|k: int| #[trigger] sorted_tree(t).children.filter(key_is(size_key(), k))
            == sorted_forest(t.children).filter(key_is(size_key(), k)),
    decreases t,
{
    let sf = sorted_forest(t.children);
    lemma_sorted_forest(t.children);
    lemma_sort_by_key_sorted(sf, size_key());
    assert forall|k: int| #[trigger] sorted_tree(t).children.filter(key_is(size_key(), k))
        == sf.filter(key_is(size_key(), k)) by {
        lemma_sort_by_key_stable(sf, size_key(), k);
    }
    let sc = sort_by_size(sf);
    assert forall|i: int| 0 <= i < sc.len() implies sorted_everywhere(#[trigger] sc[i]) by {
        vstd::seq_lib::to_multiset_contains(sc, sc[i]);
        vstd::seq_lib::to_multiset_contains(sf, sc[i]);
        assert(sc.contains(sc[i]));
        let k = choose|k: int| 0 <= k < sf.len() && sf[k] == sc[i];
        assert(sf[k] == sorted_tree(t.children[k]));
        lemma_sorted_tree_ordered(t.children[k]);
    }
    assert(sorted_desc(sc)) by {
        assert forall|a: int, b: int| 0 <= a < b < sc.len() implies sc[a].size >= sc[b].size by {
            assert((size_key())(sc[a]) >= (size_key())(sc[b]));
        }
    }
}

/// Law: sorting a sorted tree changes nothing.
pub proof fn lemma_sorted_tree_idempotent(t: FsTree)
    ensures
        sorted_tree(sorted_tree(t)) == sorted_tree(t),
    decreases t,
{
    let sf = sorted_forest(t.children);
    lemma_sorted_forest(t.children);
    lemma_sort_by_key_sorted(sf, size_key());
    let sc = sort_by_size(sf);
    lemma_sorted_forest(sc);
    assert forall|i: int| 0 <= i < sc.len() implies #[trigger] sorted_forest(sc)[i] == sc[i] by {
        vstd::seq_lib::to_multiset_contains(sc, sc[i]);
        vstd::seq_lib::to_multiset_contains(sf, sc[i]);
        assert(sc.contains(sc[i]));
        let k = choose|k: int| 0 <= k < sf.len() && sf[k] == sc[i];
        assert(sf[k] == sorted_tree(t.children[k]));
        lemma_sorted_tree_idempotent(t.children[k]);
    }
    assert(sorted_forest(sc) =~= sc);
    lemma_sort_sorted_id(sc, size_key());
}

impl FsNode {
    /// Orders the children of every directory of the tree by size, largest
    /// first; children of equal size keep their order.
    pub fn sort_by_size_desc(&mut self)
        ensures
            final(self)@ == sorted_tree(old(self)@),
        decreases *old(self),
    {
        sort_nodes_by_size(&mut self.children);
        let ghost mid = self.children@;
        let n = self.children.len();
        let mut i: usize = 0;
        while i < n
            invariant
                0 <= i <= n,
                n == self.children.len(),
                mid.len() == n,
                mid.to_multiset() == old(self).children@.to_multiset(),
                forall|k: int| 0 <= k < i ==> #[trigger] views(self.children@)[k] == sorted_tree(mid[k]@),
                forall|k: int| i <= k < n ==> #[trigger] self.children@[k] == mid[k],
                self.path == old(self).path,
                self.name == old(self).name,
                self.kind == old(self).kind,
                self.size == old(self).size,
                self.expanded == old(self).expanded,
                self.selected == old(self).selected,
            decreases n - i,
        {
            proof {
                vstd::seq_lib::to_multiset_contains(mid, mid[i as int]);
                vstd::seq_lib::to_multiset_contains(old(self).children@, mid[i as int]);
                assert(mid.contains(mid[i as int]));
                let k = choose|k: int| 0 <= k < old(self).children@.len() && old(self).children@[k] == mid[i as int];
                assert(decreases_to!(*old(self) => old(self).children@[k]));
            }
            let ghost prev = self.children@;
            self.children[i].sort_by_size_desc();
            proof {
                assert forall|k: int| 0 <= k < i + 1 implies #[trigger] views(self.children@)[k] == sorted_tree(mid[k]@) by {
                    if k < i {
                        assert(self.children@[k] == prev[k]);
                        assert(views(prev)[k] == prev[k]@);
                    }
                }
            }
            i = i + 1;
        }
        proof {
            lemma_trees_of(old(self).children@);
            lemma_trees_of(self.children@);
            lemma_sorted_forest(views(mid));
            assert(views(self.children@) =~= sorted_forest(views(mid)));
            lemma_sort_commutes(views(old(self).children@));
        }
    }
}


/// The first node of the tree, in pre-order, whose path is the same path as
/// `p`, as `Path`'s `==` compares paths.
pub open spec fn find_tree(t: FsTree, p: Seq<char>) -> Option<FsTree>
    decreases t,
{
    if path_eq(t.path, p) {
        Some(t)
    } else {
        find_in(t.children, p)
    }
}

/// The first node of the forest, in pre-order, whose path is the same path
/// as `p`.
pub open spec fn find_in(s: Seq<FsTree>, p: Seq<char>) -> Option<FsTree>
    decreases s,
{
    if s.len() == 0 {
        None
    } else {
        match find_tree(s[0], p) {
            Some(t) => Some(t),
            None => find_in(s.drop_first(), p),
        }
    }
}

/// The tree with its first node, in pre-order, whose path is `p` replaced by
/// `new`; the tree itself where no node has that path.
pub open spec fn replace_tree(t: FsTree, p: Seq<char>, new: FsTree) -> FsTree
    decreases t,
{
    if path_eq(t.path, p) {
        new
    } else {
        FsTree { children: replace_in(t.children, p, new), ..t }
    }
}

/// The forest with its first node, in pre-order, whose path is `p` replaced
/// by `new`.
pub open spec fn replace_in(s: Seq<FsTree>, p: Seq<char>, new: FsTree) -> Seq<FsTree>
    decreases s,
{
    if s.len() == 0 {
        s
    } else if find_tree(s[0], p) is Some {
        s.update(0, replace_tree(s[0], p, new))
    } else {
        seq![s[0]] + replace_in(s.drop_first(), p, new)
    }
}

/// Where the first `i` trees hold no node with path `p`, the search and the
/// replacement in the forest go to the tree at `i`.
proof fn lemma_first_match(s: Seq<FsTree>, p: Seq<char>, i: int)
    requires
        0 <= i < s.len(),
        forall|k: int| 0 <= k < i ==> #[trigger] find_tree(s[k], p) is None,
    ensures
        find_in(s, p) == (match find_tree(s[i], p) {
            Some(t) => Some(t),
            None => find_in(s.skip(i + 1), p),
        }),
        find_tree(s[i], p) is Some ==> forall|new: FsTree| #[trigger] replace_in(s, p, new) == s.update(
            i,
            replace_tree(s[i], p, new),
        ),
    decreases i,
{
    if i > 0 {
        assert(find_tree(s[0], p) is None);
        let d = s.drop_first();
        assert forall|k: int| 0 <= k < i - 1 implies #[trigger] find_tree(d[k], p) is None by {
            assert(d[k] == s[k + 1]);
        }
        lemma_first_match(d, p, i - 1);
        assert(d[i - 1] == s[i]);
        assert(d.skip(i) =~= s.skip(i + 1));
        if find_tree(s[i], p) is Some {
            assert forall|new: FsTree| #[trigger] replace_in(s, p, new) == s.update(
                i,
                replace_tree(s[i], p, new),
            ) by {
                assert(replace_in(d, p, new) == d.update(i - 1, replace_tree(s[i], p, new)));
                assert(seq![s[0]] + d.update(i - 1, replace_tree(s[i], p, new)) =~= s.update(
                    i,
                    replace_tree(s[i], p, new),
                ));
            }
        }
    } else {
        assert(s.drop_first() =~= s.skip(1));
    }
}

/// Where no tree of the forest holds a node with path `p`, the search finds
/// nothing.
proof fn lemma_no_match(s: Seq<FsTree>, p: Seq<char>)
    requires
        forall|k: int| 0 <= k < s.len() ==> #[trigger] find_tree(s[k], p) is None,
    ensures
        find_in(s, p) is None,
    decreases s.len(),
{
    if s.len() > 0 {
        assert(find_tree(s[0], p) is None);
        let d = s.drop_first();
        assert forall|k: int| 0 <= k < d.len() implies #[trigger] find_tree(d[k], p) is None by {
            assert(d[k] == s[k + 1]);
        }
        lemma_no_match(d, p);
    }
}

/// A node whose child `i` is replaced by one in which the first node with
/// path `p` is replaced by `new`, is the node with its first node with path
/// `p` replaced by `new`.
proof fn lemma_replace_child(old: FsNode, i: int, p: Seq<char>)
    requires
        0 <= i < old.children@.len(),
        !path_eq(old.path@, p),
        forall|k: int| 0 <= k < i ==> #[trigger] find_tree(old.children@[k]@, p) is None,
        find_tree(old.children@[i]@, p) is Some,
    ensures
        forall|after: FsNode, new: FsTree|
            #![trigger tree_of(after), replace_tree(tree_of(old), p, new)]
            after.path == old.path && after.name == old.name && after.kind == old.kind
                && after.size == old.size && after.expanded == old.expanded
                && after.selected == old.selected
                && after.children@ == old.children@.update(i, after.children@[i])
                && tree_of(after.children@[i]) == replace_tree(tree_of(old.children@[i]), p, new)
                ==> tree_of(after) == replace_tree(tree_of(old), p, new),
{
    broadcast use lemma_trees_of;
    let s = tree_of(old).children;
    assert(s == trees_of(old.children@));
    assert(s.len() == old.children@.len());
    assert forall|k: int| 0 <= k < i implies #[trigger] find_tree(s[k], p) is None by {
        assert(s[k] == old.children@[k]@);
    }
    assert(s[i] == old.children@[i]@);
    lemma_first_match(s, p, i);
    assert forall|after: FsNode, new: FsTree|
        #![trigger tree_of(after), replace_tree(tree_of(old), p, new)]
        after.path == old.path && after.name == old.name && after.kind == old.kind
            && after.size == old.size && after.expanded == old.expanded
            && after.selected == old.selected
            && after.children@ == old.children@.update(i, after.children@[i])
            && tree_of(after.children@[i]) == replace_tree(tree_of(old.children@[i]), p, new)
            implies tree_of(after) == replace_tree(tree_of(old), p, new) by {
        assert(replace_in(s, p, new) == s.update(i, replace_tree(s[i], p, new)));
        assert(trees_of(after.children@) =~= s.update(i, replace_tree(s[i], p, new))) by {
            assert forall|k: int| 0 <= k < s.len() implies #[trigger] trees_of(after.children@)[k] == s.update(i, replace_tree(s[i], p, new))[k] by {
                assert(after.children@.len() == old.children@.len());
                lemma_trees_of(after.children@);
                if k != i {
                    assert(after.children@[k] == old.children@[k]);
                    assert(s[k] == tree_of(old.children@[k]));
                }
            }
        }
    }
}

/// Law: the node that the search finds has the same path as the one searched
/// for.
pub proof fn lemma_find_path(t: FsTree, p: Seq<char>)
    ensures
        find_tree(t, p) matches Some(n) ==> path_eq(n.path, p),
    decreases t,
{
    if !path_eq(t.path, p) {
        lemma_find_in_path(t.children, p);
    }
}

proof fn lemma_find_in_path(s: Seq<FsTree>, p: Seq<char>)
    ensures
        find_in(s, p) matches Some(n) ==> path_eq(n.path, p),
    decreases s,
{
    if s.len() > 0 {
        lemma_find_path(s[0], p);
        lemma_find_in_path(s.drop_first(), p);
    }
}

/// After the first node with path `p` is replaced by a node with that path,
/// the search for `p` finds the new node.
proof fn lemma_find_replaced(t: FsTree, p: Seq<char>, new: FsTree)
    requires
        find_tree(t, p) is Some,
        path_eq(new.path, p),
    ensures
        find_tree(replace_tree(t, p, new), p) == Some(new),
    decreases t,
{
    if !path_eq(t.path, p) {
        lemma_find_in_replaced(t.children, p, new);
    }
}

proof fn lemma_find_in_replaced(s: Seq<FsTree>, p: Seq<char>, new: FsTree)
    requires
        find_in(s, p) is Some,
        path_eq(new.path, p),
    ensures
        find_in(replace_in(s, p, new), p) == Some(new),
    decreases s,
{
    if find_tree(s[0], p) is Some {
        lemma_find_replaced(s[0], p, new);
    } else {
        lemma_find_in_replaced(s.drop_first(), p, new);
        let r = replace_in(s, p, new);
        assert(r[0] == s[0]);
        assert(r.drop_first() =~= replace_in(s.drop_first(), p, new));
    }
}

/// Replacing the same node twice is replacing it once with the second node.
proof fn lemma_replace_twice(t: FsTree, p: Seq<char>, a: FsTree, b: FsTree)
    requires
        find_tree(t, p) is Some,
        path_eq(a.path, p),
    ensures
        replace_tree(replace_tree(t, p, a), p, b) == replace_tree(t, p, b),
    decreases t,
{
    if !path_eq(t.path, p) {
        lemma_replace_in_twice(t.children, p, a, b);
    }
}

proof fn lemma_replace_in_twice(s: Seq<FsTree>, p: Seq<char>, a: FsTree, b: FsTree)
    requires
        find_in(s, p) is Some,
        path_eq(a.path, p),
    ensures
        replace_in(replace_in(s, p, a), p, b) == replace_in(s, p, b),
    decreases s,
{
    if find_tree(s[0], p) is Some {
        lemma_find_replaced(s[0], p, a);
        lemma_replace_twice(s[0], p, a, b);
        let r = s.update(0, replace_tree(s[0], p, a));
        assert(r[0] == replace_tree(s[0], p, a));
        assert(r.update(0, replace_tree(r[0], p, b)) =~= s.update(0, replace_tree(s[0], p, b)));
    } else {
        lemma_replace_in_twice(s.drop_first(), p, a, b);
        let r = replace_in(s, p, a);
        assert(r[0] == s[0]);
        assert(r.drop_first() =~= replace_in(s.drop_first(), p, a));
        assert(seq![s[0]] + replace_in(replace_in(s.drop_first(), p, a), p, b) =~= seq![s[0]]
            + replace_in(s.drop_first(), p, b));
    }
}

/// Replacing the first node with path `p` by itself changes nothing.
proof fn lemma_replace_same(t: FsTree, p: Seq<char>)
    requires
        find_tree(t, p) is Some,
    ensures
        replace_tree(t, p, find_tree(t, p).unwrap()) == t,
    decreases t,
{
    if !path_eq(t.path, p) {
        lemma_replace_in_same(t.children, p);
        assert(FsTree { children: t.children, ..t } == t);
    }
}

proof fn lemma_replace_in_same(s: Seq<FsTree>, p: Seq<char>)
    requires
        find_in(s, p) is Some,
    ensures
        replace_in(s, p, find_in(s, p).unwrap()) == s,
    decreases s,
{
    if find_tree(s[0], p) is Some {
        lemma_replace_same(s[0], p);
        assert(s.update(0, s[0]) =~= s);
    } else {
        lemma_replace_in_same(s.drop_first(), p);
        assert(seq![s[0]] + s.drop_first() =~= s);
    }
}

/// Law: changing the first node with path `p` by `f` and then by `g`, where
/// `f` keeps the path and `g` undoes `f`, leaves the tree as it was.
pub proof fn lemma_update_undone(
    t: FsTree,
    p: Seq<char>,
    f: spec_fn(FsTree) -> FsTree,
    g: spec_fn(FsTree) -> FsTree,
)
    requires
        forall|n: FsTree| #[trigger] f(n).path == n.path,
        forall|n: FsTree| #[trigger] g(f(n)) == n,
    ensures
        update_tree(update_tree(t, p, f), p, g) == t,
{
    lemma_find_path(t, p);
    if let Some(n) = find_tree(t, p) {
        lemma_find_replaced(t, p, f(n));
        lemma_replace_twice(t, p, f(n), g(f(n)));
        lemma_replace_same(t, p);
    }
}

/// Law: changing the first node with path `p` by `f` and then by `g`, where
/// `f` keeps the path, is changing it once by `g` after `f`.
pub proof fn lemma_update_composed(
    t: FsTree,
    p: Seq<char>,
    f: spec_fn(FsTree) -> FsTree,
    g: spec_fn(FsTree) -> FsTree,
)
    requires
        forall|n: FsTree| #[trigger] f(n).path == n.path,
    ensures
        update_tree(update_tree(t, p, f), p, g) == update_tree(t, p, |n: FsTree| g(f(n))),
{
    lemma_find_path(t, p);
    if let Some(n) = find_tree(t, p) {
        lemma_find_replaced(t, p, f(n));
        lemma_replace_twice(t, p, f(n), g(f(n)));
    }
}

/// Law: `find_mut` changes nothing by itself: putting back the node it found,
/// unchanged, gives the tree as it was.
pub proof fn lemma_find_mut_unchanged(t: FsTree, p: Seq<char>)
    ensures
        find_tree(t, p) matches Some(n) ==> replace_tree(t, p, n) == t,
{
    if find_tree(t, p) is Some {
        lemma_replace_same(t, p);
    }
}

/// The tree with its first node with path `p` changed by `f`.
pub open spec fn update_tree(t: FsTree, p: Seq<char>, f: spec_fn(FsTree) -> FsTree) -> FsTree {
    match find_tree(t, p) {
        Some(n) => replace_tree(t, p, f(n)),
        None => t,
    }
}

impl FsNode {
    /// The first node of the tree, in pre-order, with the same path as `path`.
    pub fn find(&self, path: &String) -> (r: Option<&FsNode>)
        ensures
            match r {
                Some(n) => find_tree(self@, path@) == Some(n@),
                None => find_tree(self@, path@) is None,
            },
        decreases self,
    {
        if same_path(&self.path, path) {
            return Some(self);
        }
        proof {
            lemma_trees_of(self.children@);
        }
        let n = self.children.len();
        let mut i: usize = 0;
        while i < n
            invariant
                0 <= i <= n,
                n == self.children.len(),
                !path_eq(self@.path, path@),
                forall|k: int| 0 <= k < i ==> #[trigger] find_tree(self.children@[k]@, path@) is None,
                trees_of(self.children@) == views(self.children@),
            decreases n - i,
        {
            proof {
                assert(decreases_to!(self => self.children@[i as int]));
            }
            let found = self.children[i].find(path);
            proof {
                lemma_first_match(self@.children, path@, i as int);
            }
            if found.is_some() {
                return found;
            }
            i = i + 1;
        }
        proof {
            lemma_no_match(self@.children, path@);
        }
        None
    }

    /// The first node of the tree, in pre-order, with the same path as `path`, to be
    /// changed in place.
    pub fn find_mut(&mut self, path: &String) -> (r: Option<&mut FsNode>)
        ensures
            match r {
                Some(m) => {
                    &&& find_tree(old(self)@, path@) == Some((*m)@)
                    &&& final(self)@ == replace_tree(old(self)@, path@, (*final(m))@)
                },
                None => {
                    &&& find_tree(old(self)@, path@) is None
                    &&& *final(self) == *old(self)
                },
            },
        decreases *old(self),
    {
        broadcast use lemma_trees_of;
        if same_path(&self.path, path) {
            return Some(self);
        }
        let n = self.children.len();
        let mut i: usize = 0;
        while i < n
            invariant
                0 <= i <= n,
                n == self.children.len(),
                *self == *old(self),
                !path_eq(self@.path, path@),
                forall|k: int| 0 <= k < i ==> #[trigger] find_tree(self.children@[k]@, path@) is None,
                trees_of(self.children@) == views(self.children@),
            decreases n - i,
        {
            let found = self.children[i].find(path).is_some();
            proof {
                lemma_first_match(self@.children, path@, i as int);
            }
            if found {
                proof {
                    assert(decreases_to!(*old(self) => old(self).children@[i as int]));
                }
                proof {
                    lemma_replace_child(*old(self), i as int, path@);
                }
                let r = self.children[i].find_mut(path);
                return r;
            }
            i = i + 1;
        }
        proof {
            lemma_no_match(self@.children, path@);
        }
        None
    }
}


/// The name shown for a path: its final component, or the whole path where it
/// has none.
pub open spec fn display_name(path: Seq<char>) -> Seq<char> {
    match path_file_name(path) {
        Some(n) => n,
        None => path,
    }
}

/// The name shown for `path`, given what `Path::file_name` returned for it.
pub fn node_name(path: &String, file_name: Option<String>) -> (r: String)
    ensures
        r@ == (match file_name {
            Some(n) => n@,
            None => path@,
        }),
{
    match file_name {
        Some(n) => n,
        None => path.clone(),
    }
}

impl FsNode {
    /// A collapsed, unselected, empty directory of size 0.
    pub fn new_dir(path: String) -> (r: FsNode)
        ensures
            r@ == (FsTree {
                path: path@,
                name: display_name(path@),
                kind: NodeKind::Directory,
                size: 0,
                children: Seq::empty(),
                expanded: false,
                selected: false,
            }),
    {
        let name = node_name(&path, file_name_of(&path));
        let r = FsNode {
            path,
            name,
            kind: NodeKind::Directory,
            size: 0,
            children: Vec::new(),
            expanded: false,
            selected: false,
        };
        proof {
            assert(trees_of(r.children@) =~= Seq::<FsTree>::empty());
        }
        r
    }

    /// An unselected file of the given size.
    pub fn new_file(path: String, size: u64) -> (r: FsNode)
        ensures
            r@ == (FsTree {
                path: path@,
                name: display_name(path@),
                kind: NodeKind::File,
                size: size,
                children: Seq::empty(),
                expanded: false,
                selected: false,
            }),
    {
        let name = node_name(&path, file_name_of(&path));
        let r = FsNode {
            path,
            name,
            kind: NodeKind::File,
            size,
            children: Vec::new(),
            expanded: false,
            selected: false,
        };
        proof {
            assert(trees_of(r.children@) =~= Seq::<FsTree>::empty());
        }
        r
    }
}

/// One row of the tree as it is shown: a node with its depth and the size of
/// its parent.
#[derive(Debug, Clone)]
pub struct FlatItem {
    pub path: String,
    pub depth: usize,
    pub name: String,
    pub kind: NodeKind,
    pub size: u64,
    pub parent_size: u64,
    pub expanded: bool,
    pub selected: bool,
    pub has_children: bool,
}

/// The model of a `FlatItem`.
pub struct FlatRow {
    pub path: Seq<char>,
    pub depth: int,
    pub name: Seq<char>,
    pub kind: NodeKind,
    pub size: u64,
    pub parent_size: u64,
    pub expanded: bool,
    pub selected: bool,
    pub has_children: bool,
}

impl View for FlatItem {
    type V = FlatRow;

    open spec fn view(&self) -> FlatRow {
        FlatRow {
            path: self.path@,
            depth: self.depth as int,
            name: self.name@,
            kind: self.kind,
            size: self.size,
            parent_size: self.parent_size,
            expanded: self.expanded,
            selected: self.selected,
            has_children: self.has_children,
        }
    }
}

/// The models of the items of a vector.
pub open spec fn rows(v: Seq<FlatItem>) -> Seq<FlatRow> {
    v.map_values(|it: FlatItem| it@)
}

/// The row shown for `t` at `depth` under a parent of size `parent_size`.
pub open spec fn row_of(t: FsTree, depth: int, parent_size: u64) -> FlatRow {
    FlatRow {
        path: t.path,
        depth: depth,
        name: t.name,
        kind: t.kind,
        size: t.size,
        parent_size: parent_size,
        expanded: t.expanded,
        selected: t.selected,
        has_children: t.children.len() > 0,
    }
}

/// The rows shown for `t`: its own row, then, where it is expanded, those of
/// its children, one level deeper, each under `t`'s size.
pub open spec fn flatten_tree(t: FsTree, depth: int, parent_size: u64) -> Seq<FlatRow>
    decreases t,
{
    seq![row_of(t, depth, parent_size)] + if t.expanded {
        flatten_forest(t.children, depth + 1, t.size)
    } else {
        Seq::empty()
    }
}

/// The rows shown for the trees of `s`, one after the other.
pub open spec fn flatten_forest(s: Seq<FsTree>, depth: int, parent_size: u64) -> Seq<FlatRow>
    decreases s,
{
    if s.len() == 0 {
        Seq::empty()
    } else {
        flatten_forest(s.drop_last(), depth, parent_size) + flatten_tree(s.last(), depth, parent_size)
    }
}

/// The rows shown for the tree rooted at `t`: the root at depth 0, under its
/// own size.
pub open spec fn flat_rows(t: FsTree) -> Seq<FlatRow> {
    flatten_tree(t, 0, t.size)
}

/// Law: the rows of a node start with the node's own row at its depth, and
/// every row after it, one of a shown descendant, is deeper; a collapsed node
/// shows only its own row.
pub proof fn lemma_flatten_tree(t: FsTree, depth: int, parent_size: u64)
    ensures
        flatten_tree(t, depth, parent_size).len() >= 1,
        flatten_tree(t, depth, parent_size)[0] == row_of(t, depth, parent_size),
        forall|i: int| 1 <= i < flatten_tree(t, depth, parent_size).len() ==> (#[trigger] flatten_tree(
            t,
            depth,
            parent_size,
        )[i]).depth > depth,
        !t.expanded ==> flatten_tree(t, depth, parent_size).len() == 1,
    decreases t,
{
    if t.expanded {
        lemma_flatten_forest(t.children, depth + 1, t.size);
    }
}

/// The rows `rs` with every depth `d` deeper.
pub open spec fn shifted(rs: Seq<FlatRow>, d: int) -> Seq<FlatRow> {
    rs.map_values(|r: FlatRow| FlatRow { depth: r.depth + d, ..r })
}

proof fn lemma_flatten_tree_shift(t: FsTree, e: int, d: int, parent_size: u64)
    ensures
        flatten_tree(t, e + d, parent_size) == shifted(flatten_tree(t, e, parent_size), d),
    decreases t,
{
    if t.expanded {
        lemma_flatten_forest_shift(t.children, e + 1, d, t.size);
        assert(e + 1 + d == e + d + 1);
    }
    let a = seq![row_of(t, e, parent_size)];
    let b = if t.expanded { flatten_forest(t.children, e + 1, t.size) } else { Seq::empty() };
    assert(shifted(a + b, d) =~= shifted(a, d) + shifted(b, d));
    assert(shifted(a, d) =~= seq![row_of(t, e + d, parent_size)]);
    if !t.expanded {
        assert(shifted(b, d) =~= Seq::<FlatRow>::empty());
    }
}

proof fn lemma_flatten_forest_shift(s: Seq<FsTree>, e: int, d: int, parent_size: u64)
    ensures
        flatten_forest(s, e + d, parent_size) == shifted(flatten_forest(s, e, parent_size), d),
    decreases s,
{
    if s.len() > 0 {
        lemma_flatten_forest_shift(s.drop_last(), e, d, parent_size);
        lemma_flatten_tree_shift(s.last(), e, d, parent_size);
        let a = flatten_forest(s.drop_last(), e, parent_size);
        let b = flatten_tree(s.last(), e, parent_size);
        assert(shifted(a + b, d) =~= shifted(a, d) + shifted(b, d));
    }
}

/// Law: the rows that a node adds to the list at depth `depth`, under a
/// parent of size `parent_size`, are the node's own rows (`flat_rows`), each
/// `depth` levels deeper, its first row under `parent_size`.
pub proof fn lemma_rows_at_depth(t: FsTree, depth: int, parent_size: u64)
    ensures
        flatten_tree(t, depth, parent_size) == shifted(flat_rows(t), depth).update(
            0,
            row_of(t, depth, parent_size),
        ),
{
    lemma_flatten_tree_shift(t, 0, depth, parent_size);
    lemma_flatten_tree_shift(t, 0, depth, t.size);
    assert(0 + depth == depth);
    let a = flatten_tree(t, 0, parent_size);
    let b = flat_rows(t);
    lemma_flatten_tree(t, 0, parent_size);
    lemma_flatten_tree(t, 0, t.size);
    assert(a.len() == b.len());
    assert forall|i: int| 1 <= i < a.len() implies a[i] == b[i] by {
        assert(a.drop_first() =~= if t.expanded { flatten_forest(t.children, 1, t.size) } else { Seq::empty() });
        assert(b.drop_first() =~= if t.expanded { flatten_forest(t.children, 1, t.size) } else { Seq::empty() });
        assert(a[i] == a.drop_first()[i - 1]);
        assert(b[i] == b.drop_first()[i - 1]);
    }
    assert(shifted(a, depth) =~= shifted(b, depth).update(0, row_of(t, depth, parent_size)));
}

/// `a` is `b` with, at most, other selection marks.
pub open spec fn rows_like(a: Seq<FlatRow>, b: Seq<FlatRow>) -> bool {
    &&& a.len() == b.len()
    &&& forall|i: int| 0 <= i < a.len() ==> (#[trigger] a[i]) == FlatRow { selected: a[i].selected, ..b[i] }
}

proof fn lemma_rows_like_concat(a1: Seq<FlatRow>, b1: Seq<FlatRow>, a2: Seq<FlatRow>, b2: Seq<FlatRow>)
    requires
        rows_like(a1, b1),
        rows_like(a2, b2),
    ensures
        rows_like(a1 + a2, b1 + b2),
{
    assert forall|i: int| 0 <= i < (a1 + a2).len() implies (#[trigger] (a1 + a2)[i]) == FlatRow {
        selected: (a1 + a2)[i].selected,
        ..(b1 + b2)[i]
    } by {
        if i < a1.len() {
            assert((a1 + a2)[i] == a1[i] && (b1 + b2)[i] == b1[i]);
        } else {
            assert((a1 + a2)[i] == a2[i - a1.len()] && (b1 + b2)[i] == b2[i - b1.len()]);
        }
    }
}

proof fn lemma_flatten_forest_cons(x: FsTree, s: Seq<FsTree>, depth: int, parent_size: u64)
    ensures
        flatten_forest(seq![x] + s, depth, parent_size) == flatten_tree(x, depth, parent_size) + flatten_forest(
            s,
            depth,
            parent_size,
        ),
    decreases s.len(),
{
    if s.len() == 0 {
        assert((seq![x] + s).drop_last() =~= Seq::<FsTree>::empty());
        assert(flatten_forest(Seq::<FsTree>::empty(), depth, parent_size) =~= Seq::<FlatRow>::empty());
        assert(flatten_tree(x, depth, parent_size) + Seq::<FlatRow>::empty() =~= flatten_tree(x, depth, parent_size));
    } else {
        lemma_flatten_forest_cons(x, s.drop_last(), depth, parent_size);
        assert((seq![x] + s).drop_last() =~= seq![x] + s.drop_last());
        assert((seq![x] + s).last() == s.last());
    }
}

proof fn lemma_replace_tree_rows(t: FsTree, p: Seq<char>, new: FsTree, depth: int, parent_size: u64)
    requires
        find_tree(t, p) matches Some(n) && new == (FsTree { selected: new.selected, ..n }),
    ensures
        rows_like(flatten_tree(replace_tree(t, p, new), depth, parent_size), flatten_tree(t, depth, parent_size)),
    decreases t,
{
    let a = flatten_tree(replace_tree(t, p, new), depth, parent_size);
    let b = flatten_tree(t, depth, parent_size);
    if path_eq(t.path, p) {
        assert(new == FsTree { selected: new.selected, ..t });
        assert(a.drop_first() =~= b.drop_first());
        assert forall|i: int| 0 <= i < a.len() implies (#[trigger] a[i]) == FlatRow { selected: a[i].selected, ..b[i] } by {
            if i > 0 {
                assert(a[i] == a.drop_first()[i - 1] && b[i] == b.drop_first()[i - 1]);
            }
        }
    } else {
        lemma_replace_in_rows(t.children, p, new, depth + 1, t.size);
        let r = replace_tree(t, p, new);
        assert(r == FsTree { children: replace_in(t.children, p, new), ..t });
        let a1 = seq![row_of(r, depth, parent_size)];
        let b1 = seq![row_of(t, depth, parent_size)];
        lemma_replace_in_len(t.children, p, new);
        assert(rows_like(a1, b1));
        if t.expanded {
            lemma_rows_like_concat(a1, b1, flatten_forest(r.children, depth + 1, t.size), flatten_forest(t.children, depth + 1, t.size));
        } else {
            assert(a =~= a1 + Seq::<FlatRow>::empty());
            assert(b =~= b1 + Seq::<FlatRow>::empty());
            lemma_rows_like_concat(a1, b1, Seq::<FlatRow>::empty(), Seq::<FlatRow>::empty());
        }
    }
}

proof fn lemma_replace_in_len(s: Seq<FsTree>, p: Seq<char>, new: FsTree)
    ensures
        replace_in(s, p, new).len() == s.len(),
    decreases s,
{
    if s.len() > 0 && find_tree(s[0], p) is None {
        lemma_replace_in_len(s.drop_first(), p, new);
    }
}

proof fn lemma_replace_in_rows(s: Seq<FsTree>, p: Seq<char>, new: FsTree, depth: int, parent_size: u64)
    requires
        find_in(s, p) matches Some(n) && new == (FsTree { selected: new.selected, ..n }),
    ensures
        rows_like(flatten_forest(replace_in(s, p, new), depth, parent_size), flatten_forest(s, depth, parent_size)),
    decreases s,
{
    let rest = s.drop_first();
    assert(s =~= seq![s[0]] + rest);
    lemma_flatten_forest_cons(s[0], rest, depth, parent_size);
    if find_tree(s[0], p) is Some {
        lemma_replace_tree_rows(s[0], p, new, depth, parent_size);
        let r = s.update(0, replace_tree(s[0], p, new));
        assert(r =~= seq![replace_tree(s[0], p, new)] + rest);
        lemma_flatten_forest_cons(replace_tree(s[0], p, new), rest, depth, parent_size);
        let fr = flatten_forest(rest, depth, parent_size);
        assert(rows_like(fr, fr));
        lemma_rows_like_concat(
            flatten_tree(replace_tree(s[0], p, new), depth, parent_size),
            flatten_tree(s[0], depth, parent_size),
            fr,
            fr,
        );
    } else {
        lemma_replace_in_rows(rest, p, new, depth, parent_size);
        lemma_flatten_forest_cons(s[0], replace_in(rest, p, new), depth, parent_size);
        let f0 = flatten_tree(s[0], depth, parent_size);
        assert(rows_like(f0, f0));
        lemma_rows_like_concat(
            f0,
            f0,
            flatten_forest(replace_in(rest, p, new), depth, parent_size),
            flatten_forest(rest, depth, parent_size),
        );
    }
}

/// Law: changing a node's selection mark changes no row but, at most, its
/// mark: the rows keep their number, paths, depths and the rest.
pub proof fn lemma_mark_keeps_rows(t: FsTree, p: Seq<char>, f: spec_fn(FsTree) -> FsTree)
    requires
        forall|n: FsTree| #[trigger] f(n) == (FsTree { selected: f(n).selected, ..n }),
    ensures
        rows_like(flat_rows(update_tree(t, p, f)), flat_rows(t)),
{
    match find_tree(t, p) {
        Some(n) => {
            lemma_find_path(t, p);
            let u = update_tree(t, p, f);
            lemma_replace_tree_rows(t, p, f(n), 0, t.size);
            assert(u.size == t.size) by {
                if path_eq(t.path, p) {
                    assert(n == t);
                }
            }
        },
        None => {
            let b = flat_rows(t);
            assert(rows_like(b, b));
        },
    }
}

/// `b` is `a` with row `i`, a collapsed node's row, shown expanded and the
/// rows `extra` of its children right after it.
pub open spec fn opened_at(a: Seq<FlatRow>, b: Seq<FlatRow>, i: int, extra: Seq<FlatRow>) -> bool {
    &&& 0 <= i < a.len()
    &&& b == a.take(i) + seq![FlatRow { expanded: true, ..a[i] }] + extra + a.skip(i + 1)
}

/// The rows after expanding `n`, where `n`'s row is shown: the rows `a` with
/// `n`'s row, at some `i`, opened onto the rows of its children.
pub open spec fn opens_node(a: Seq<FlatRow>, b: Seq<FlatRow>, n: FsTree) -> bool {
    exists|i: int|
        0 <= i < a.len() && #[trigger] a[i] == row_of(n, a[i].depth, a[i].parent_size) && opened_at(
            a,
            b,
            i,
            flatten_forest(n.children, a[i].depth + 1, n.size),
        )
}

#[verifier::spinoff_prover]
#[verifier::rlimit(60)]
proof fn lemma_expand_tree_rows(t: FsTree, p: Seq<char>, n: FsTree, depth: int, parent_size: u64)
    requires
        find_tree(t, p) == Some(n),
        !n.expanded,
    ensures
        ({
            let a = flatten_tree(t, depth, parent_size);
            let b = flatten_tree(replace_tree(t, p, FsTree { expanded: true, ..n }), depth, parent_size);
            b == a || opens_node(a, b, n)
        }),
    decreases t,
{
    let new = FsTree { expanded: true, ..n };
    let a = flatten_tree(t, depth, parent_size);
    let b = flatten_tree(replace_tree(t, p, new), depth, parent_size);
    if path_eq(t.path, p) {
        assert(n == t);
        assert(a =~= seq![row_of(t, depth, parent_size)]);
        let extra = flatten_forest(t.children, depth + 1, t.size);
        assert(a[0] == row_of(n, a[0].depth, a[0].parent_size));
        assert(b =~= a.take(0) + seq![FlatRow { expanded: true, ..a[0] }] + extra + a.skip(1));
        assert(opened_at(a, b, 0, flatten_forest(n.children, a[0].depth + 1, n.size)));
    } else {
        let r = replace_tree(t, p, new);
        assert(r == FsTree { children: replace_in(t.children, p, new), ..t });
        lemma_replace_in_len(t.children, p, new);
        assert(row_of(r, depth, parent_size) == row_of(t, depth, parent_size));
        if t.expanded {
            lemma_expand_forest_rows(t.children, p, n, depth + 1, t.size);
            let fa = flatten_forest(t.children, depth + 1, t.size);
            let fb = flatten_forest(r.children, depth + 1, t.size);
            let head = seq![row_of(t, depth, parent_size)];
            assert(a == head + fa);
            assert(b == head + fb);
            if fb != fa {
                let j = choose|j: int|
                    0 <= j < fa.len() && #[trigger] fa[j] == row_of(n, fa[j].depth, fa[j].parent_size) && opened_at(
                        fa,
                        fb,
                        j,
                        flatten_forest(n.children, fa[j].depth + 1, n.size),
                    );
                let i = j + 1;
                assert(a[i] == fa[j]);
                let extra = flatten_forest(n.children, fa[j].depth + 1, n.size);
                assert(a.take(i) =~= head + fa.take(j));
                assert(a.skip(i + 1) =~= fa.skip(j + 1));
                assert(b =~= a.take(i) + seq![FlatRow { expanded: true, ..a[i] }] + extra + a.skip(i + 1));
                assert(opened_at(a, b, i, extra));
            }
        } else {
            assert(a =~= seq![row_of(t, depth, parent_size)]);
            assert(b =~= seq![row_of(r, depth, parent_size)]);
        }
    }
}

#[verifier::spinoff_prover]
#[verifier::rlimit(60)]
proof fn lemma_expand_forest_rows(s: Seq<FsTree>, p: Seq<char>, n: FsTree, depth: int, parent_size: u64)
    requires
        find_in(s, p) == Some(n),
        !n.expanded,
    ensures
        ({
            let a = flatten_forest(s, depth, parent_size);
            let b = flatten_forest(replace_in(s, p, FsTree { expanded: true, ..n }), depth, parent_size);
            b == a || opens_node(a, b, n)
        }),
    decreases s,
{
    let new = FsTree { expanded: true, ..n };
    let rest = s.drop_first();
    assert(s =~= seq![s[0]] + rest);
    lemma_flatten_forest_cons(s[0], rest, depth, parent_size);
    let a = flatten_forest(s, depth, parent_size);
    let b = flatten_forest(replace_in(s, p, new), depth, parent_size);
    let a0 = flatten_tree(s[0], depth, parent_size);
    let ar = flatten_forest(rest, depth, parent_size);
    assert(a == a0 + ar);
    if find_tree(s[0], p) is Some {
        lemma_expand_tree_rows(s[0], p, n, depth, parent_size);
        let x = replace_tree(s[0], p, new);
        assert(replace_in(s, p, new) =~= seq![x] + rest);
        lemma_flatten_forest_cons(x, rest, depth, parent_size);
        let b0 = flatten_tree(x, depth, parent_size);
        assert(b == b0 + ar);
        if b0 != a0 {
            let i = choose|i: int|
                0 <= i < a0.len() && #[trigger] a0[i] == row_of(n, a0[i].depth, a0[i].parent_size) && opened_at(
                    a0,
                    b0,
                    i,
                    flatten_forest(n.children, a0[i].depth + 1, n.size),
                );
            let extra = flatten_forest(n.children, a0[i].depth + 1, n.size);
            assert(a[i] == a0[i]);
            assert(a.take(i) =~= a0.take(i));
            assert(a.skip(i + 1) =~= a0.skip(i + 1) + ar);
            assert(b =~= a.take(i) + seq![FlatRow { expanded: true, ..a[i] }] + extra + a.skip(i + 1));
            assert(opened_at(a, b, i, extra));
        }
    } else {
        lemma_expand_forest_rows(rest, p, n, depth, parent_size);
        let y = replace_in(rest, p, new);
        lemma_flatten_forest_cons(s[0], y, depth, parent_size);
        let br = flatten_forest(y, depth, parent_size);
        assert(b == a0 + br);
        if br != ar {
            let j = choose|j: int|
                0 <= j < ar.len() && #[trigger] ar[j] == row_of(n, ar[j].depth, ar[j].parent_size) && opened_at(
                    ar,
                    br,
                    j,
                    flatten_forest(n.children, ar[j].depth + 1, n.size),
                );
            let i = a0.len() + j;
            let extra = flatten_forest(n.children, ar[j].depth + 1, n.size);
            assert(a[i] == ar[j]);
            assert(a.take(i) =~= a0 + ar.take(j));
            assert(a.skip(i + 1) =~= ar.skip(j + 1));
            assert(b =~= a.take(i) + seq![FlatRow { expanded: true, ..a[i] }] + extra + a.skip(i + 1));
            assert(opened_at(a, b, i, extra));
        }
    }
}

/// Law: expanding a collapsed node leaves the rows as they were where the
/// node is not shown (a collapsed ancestor hides it), and otherwise opens
/// its row: the rows before it stay, its row shows it expanded, the rows of
/// its children follow it one level deeper, and the rows after it stay.
pub proof fn lemma_expand_rows(t: FsTree, p: Seq<char>)
    requires
        find_tree(t, p) matches Some(n) && !n.expanded,
    ensures
        ({
            let n = find_tree(t, p).unwrap();
            let a = flat_rows(t);
            let b = flat_rows(update_tree(t, p, |m: FsTree| FsTree { expanded: true, ..m }));
            b == a || opens_node(a, b, n)
        }),
{
    let n = find_tree(t, p).unwrap();
    lemma_expand_tree_rows(t, p, n, 0, t.size);
    assert(update_tree(t, p, |m: FsTree| FsTree { expanded: true, ..m }) == replace_tree(t, p, FsTree { expanded: true, ..n }));
    assert(replace_tree(t, p, FsTree { expanded: true, ..n }).size == t.size) by {
        if path_eq(t.path, p) {
            assert(n == t);
        }
    }
}

proof fn lemma_flatten_forest(s: Seq<FsTree>, depth: int, parent_size: u64)
    ensures
        forall|i: int| 0 <= i < flatten_forest(s, depth, parent_size).len() ==> (#[trigger] flatten_forest(
            s,
            depth,
            parent_size,
        )[i]).depth >= depth,
    decreases s,
{
    if s.len() > 0 {
        lemma_flatten_forest(s.drop_last(), depth, parent_size);
        lemma_flatten_tree(s.last(), depth, parent_size);
        let a = flatten_forest(s.drop_last(), depth, parent_size);
        let b = flatten_tree(s.last(), depth, parent_size);
        assert forall|i: int| 0 <= i < (a + b).len() implies (#[trigger] (a + b)[i]).depth >= depth by {
            if i < a.len() {
                assert((a + b)[i] == a[i]);
            } else {
                assert((a + b)[i] == b[i - a.len()]);
            }
        }
    }
}

/// The shown rows of `root`, in order: the root at depth 0, then, below each
/// expanded node, its children.
pub fn rebuild_flat_list(root: &FsNode) -> (r: Vec<FlatItem>)
    ensures
        rows(r@) == flat_rows(root@),
{
    let mut list: Vec<FlatItem> = Vec::new();
    let root_size = root.size;
    collect_flat(root, 0, root_size, &mut list);
    proof {
        assert(rows(Seq::<FlatItem>::empty()) =~= Seq::<FlatRow>::empty());
        assert(Seq::<FlatRow>::empty() + flat_rows(root@) =~= flat_rows(root@));
    }
    list
}

fn collect_flat(node: &FsNode, depth: usize, parent_size: u64, out: &mut Vec<FlatItem>)
    requires
        depth <= old(out).len(),
    ensures
        rows(final(out)@) == rows(old(out)@) + flatten_tree(node@, depth as int, parent_size),
    decreases node,
{
    broadcast use lemma_trees_of;
    let ghost start = rows(out@);
    let item = FlatItem {
        path: node.path.clone(),
        depth,
        name: node.name.clone(),
        kind: node.kind,
        size: node.size,
        parent_size,
        expanded: node.expanded,
        selected: node.selected,
        has_children: node.children.len() > 0,
    };
    out.push(item);
    proof {
        assert(rows(out@) =~= start.push(row_of(node@, depth as int, parent_size)));
    }
    if node.expanded {
        let ghost kids = node@.children;
        proof {
            assert(kids == trees_of(node.children@));
            lemma_trees_of(node.children@);
        }
        let n = node.children.len();
        let mut i: usize = 0;
        proof {
            assert(kids.take(0) =~= Seq::<FsTree>::empty());
            assert(rows(out@) =~= start + seq![row_of(node@, depth as int, parent_size)] + flatten_forest(kids.take(0), depth + 1, node.size));
        }
        while i < n
            invariant
                0 <= i <= n,
                n == node.children.len(),
                kids == node@.children,
                kids.len() == n,
                kids == trees_of(node.children@),
                depth + 1 <= out.len(),
                rows(out@) == start + seq![row_of(node@, depth as int, parent_size)] + flatten_forest(kids.take(i as int), depth + 1, node.size),
            decreases n - i,
        {
            proof {
                assert(decreases_to!(node => node.children@[i as int]));
            }
            collect_flat(&node.children[i], depth + 1, node.size, out);
            proof {
                assert(kids.take(i + 1).drop_last() =~= kids.take(i as int));
                lemma_trees_of(node.children@);
                assert(kids[i as int] == node.children@[i as int]@);
                assert(rows(out@) =~= start + seq![row_of(node@, depth as int, parent_size)] + flatten_forest(kids.take(i + 1), depth + 1, node.size));
            }
            i = i + 1;
        }
        proof {
            assert(kids.take(n as int) =~= kids);
            assert(rows(out@) =~= start + flatten_tree(node@, depth as int, parent_size));
        }
    } else {
        proof {
            assert(rows(out@) =~= start + flatten_tree(node@, depth as int, parent_size));
        }
    }
}

/// The marks of the nodes of `t`, in pre-order: each node's path and
/// whether it is selected; `t`'s first, then those of its children.
pub open spec fn marks(t: FsTree) -> Seq<(Seq<char>, bool)>
    decreases t,
{
    seq![(t.path, t.selected)] + marks_in(t.children)
}

/// The marks of the nodes of the trees of `s`, one tree after the other.
pub open spec fn marks_in(s: Seq<FsTree>) -> Seq<(Seq<char>, bool)>
    decreases s,
{
    if s.len() == 0 {
        Seq::empty()
    } else {
        marks(s[0]) + marks_in(s.drop_first())
    }
}

/// The paths of a list of marks.
pub open spec fn mark_paths(s: Seq<(Seq<char>, bool)>) -> Seq<Seq<char>> {
    s.map_values(|m: (Seq<char>, bool)| m.0)
}

proof fn lemma_fpi_is(s: Seq<Seq<char>>, x: Seq<char>, k: int)
    requires
        (k == -1 && forall|j: int| 0 <= j < s.len() ==> !path_eq(#[trigger] s[j], x)) || (0 <= k < s.len()
            && path_eq(s[k], x) && forall|j: int| 0 <= j < k ==> !path_eq(#[trigger] s[j], x)),
    ensures
        first_path_index(s, x) == k,
{
    lemma_first_path_index(s, x);
    let f = first_path_index(s, x);
    if f >= 0 && k >= 0 && f < k {
        assert(!path_eq(s[f], x));
    }
    if f >= 0 && k == -1 {
        assert(!path_eq(s[f], x));
    }
    if k >= 0 && (f < 0 || f > k) {
        assert(!path_eq(s[k], x));
    }
}

/// Where the first path that is the same as `x` lies in `a + b`.
pub proof fn lemma_fpi_concat(a: Seq<Seq<char>>, b: Seq<Seq<char>>, x: Seq<char>)
    ensures
        first_path_index(a + b, x) == (if first_path_index(a, x) >= 0 {
            first_path_index(a, x)
        } else if first_path_index(b, x) >= 0 {
            a.len() + first_path_index(b, x)
        } else {
            -1
        }),
{
    lemma_first_path_index(a, x);
    lemma_first_path_index(b, x);
    let s = a + b;
    let fa = first_path_index(a, x);
    let fb = first_path_index(b, x);
    if fa >= 0 {
        assert forall|j: int| 0 <= j < fa implies !path_eq(#[trigger] s[j], x) by {
            assert(s[j] == a[j]);
        }
        assert(s[fa] == a[fa]);
        lemma_fpi_is(s, x, fa);
    } else if fb >= 0 {
        assert forall|j: int| 0 <= j < a.len() + fb implies !path_eq(#[trigger] s[j], x) by {
            if j < a.len() {
                assert(s[j] == a[j]);
            } else {
                assert(s[j] == b[j - a.len()]);
            }
        }
        assert(s[a.len() + fb] == b[fb]);
        lemma_fpi_is(s, x, a.len() + fb);
    } else {
        assert forall|j: int| 0 <= j < s.len() implies !path_eq(#[trigger] s[j], x) by {
            if j < a.len() {
                assert(s[j] == a[j]);
            } else {
                assert(s[j] == b[j - a.len()]);
            }
        }
        lemma_fpi_is(s, x, -1);
    }
}

proof fn lemma_marks_in_cons(x: FsTree, rest: Seq<FsTree>)
    ensures
        marks_in(seq![x] + rest) == marks(x) + marks_in(rest),
{
    let s = seq![x] + rest;
    assert(s[0] == x);
    assert(s.drop_first() =~= rest);
}

/// The node that the search for `p` finds is the first node, in pre-order,
/// with the same path: its mark is the first such mark.
pub proof fn lemma_marks_find(t: FsTree, p: Seq<char>)
    ensures
        ({
            let k = first_path_index(mark_paths(marks(t)), p);
            &&& -1 <= k < marks(t).len()
            &&& find_tree(t, p) is Some <==> k >= 0
            &&& find_tree(t, p) matches Some(n) ==> marks(t)[k] == (n.path, n.selected)
        }),
    decreases t,
{
    lemma_marks_find_in(t.children, p);
    let a = seq![(t.path, t.selected)];
    let b = marks_in(t.children);
    assert(mark_paths(a + b) =~= mark_paths(a) + mark_paths(b));
    lemma_fpi_concat(mark_paths(a), mark_paths(b), p);
    lemma_first_path_index(mark_paths(a), p);
    lemma_first_path_index(mark_paths(b), p);
    lemma_first_path_index(mark_paths(a + b), p);
    assert(mark_paths(a)[0] == t.path);
    let j = first_path_index(mark_paths(b), p);
    if !path_eq(t.path, p) && j >= 0 {
        assert((a + b)[1 + j] == b[j]);
    }
}

proof fn lemma_marks_find_in(s: Seq<FsTree>, p: Seq<char>)
    ensures
        ({
            let k = first_path_index(mark_paths(marks_in(s)), p);
            &&& -1 <= k < marks_in(s).len()
            &&& find_in(s, p) is Some <==> k >= 0
            &&& find_in(s, p) matches Some(n) ==> marks_in(s)[k] == (n.path, n.selected)
        }),
    decreases s,
{
    lemma_first_path_index(mark_paths(marks_in(s)), p);
    if s.len() == 0 {
        assert(mark_paths(marks_in(s)) =~= Seq::<Seq<char>>::empty());
    } else {
        lemma_marks_find(s[0], p);
        lemma_marks_find_in(s.drop_first(), p);
        let a = marks(s[0]);
        let b = marks_in(s.drop_first());
        assert(mark_paths(a + b) =~= mark_paths(a) + mark_paths(b));
        lemma_fpi_concat(mark_paths(a), mark_paths(b), p);
        let i = first_path_index(mark_paths(a), p);
        let j = first_path_index(mark_paths(b), p);
        if i >= 0 {
            assert((a + b)[i] == a[i]);
        } else if j >= 0 {
            assert((a + b)[a.len() + j] == b[j]);
        }
    }
}

/// Replacing the found node by one with the same children changes its mark
/// alone in the list of marks.
pub proof fn lemma_marks_replace(t: FsTree, p: Seq<char>, new: FsTree)
    requires
        find_tree(t, p) matches Some(n) && new.children == n.children,
    ensures
        marks(replace_tree(t, p, new)) == marks(t).update(
            first_path_index(mark_paths(marks(t)), p),
            (new.path, new.selected),
        ),
    decreases t,
{
    lemma_marks_find(t, p);
    let a = seq![(t.path, t.selected)];
    let b = marks_in(t.children);
    assert(mark_paths(a + b) =~= mark_paths(a) + mark_paths(b));
    lemma_fpi_concat(mark_paths(a), mark_paths(b), p);
    lemma_first_path_index(mark_paths(a), p);
    assert(mark_paths(a)[0] == t.path);
    if path_eq(t.path, p) {
        assert(marks(new) =~= marks(t).update(0, (new.path, new.selected)));
    } else {
        lemma_marks_find_in(t.children, p);
        lemma_marks_replace_in(t.children, p, new);
        let r = replace_tree(t, p, new);
        assert(r == FsTree { children: replace_in(t.children, p, new), ..t });
        let j = first_path_index(mark_paths(b), p);
        assert(marks(r) == a + b.update(j, (new.path, new.selected)));
        assert(a + b.update(j, (new.path, new.selected)) =~= (a + b).update(1 + j, (new.path, new.selected)));
    }
}

proof fn lemma_marks_replace_in(s: Seq<FsTree>, p: Seq<char>, new: FsTree)
    requires
        find_in(s, p) matches Some(n) && new.children == n.children,
    ensures
        marks_in(replace_in(s, p, new)) == marks_in(s).update(
            first_path_index(mark_paths(marks_in(s)), p),
            (new.path, new.selected),
        ),
    decreases s,
{
    let rest = s.drop_first();
    let a = marks(s[0]);
    let b = marks_in(rest);
    let m = (new.path, new.selected);
    assert(mark_paths(a + b) =~= mark_paths(a) + mark_paths(b));
    lemma_fpi_concat(mark_paths(a), mark_paths(b), p);
    lemma_marks_find(s[0], p);
    lemma_marks_find_in(rest, p);
    if find_tree(s[0], p) is Some {
        lemma_marks_replace(s[0], p, new);
        let x = replace_tree(s[0], p, new);
        assert(replace_in(s, p, new) =~= seq![x] + rest);
        lemma_marks_in_cons(x, rest);
        let i = first_path_index(mark_paths(a), p);
        assert(a.update(i, m) + b =~= (a + b).update(i, m));
    } else {
        lemma_marks_replace_in(rest, p, new);
        assert(replace_in(s, p, new) =~= seq![s[0]] + replace_in(rest, p, new));
        lemma_marks_in_cons(s[0], replace_in(rest, p, new));
        let j = first_path_index(mark_paths(b), p);
        assert(a + b.update(j, m) =~= (a + b).update(a.len() + j, m));
    }
}

/// Every row of `rs` has the path of one of the marks `ms`.
pub open spec fn rows_in_marks(rs: Seq<FlatRow>, ms: Seq<(Seq<char>, bool)>) -> bool {
    forall|i: int| 0 <= i < rs.len() ==> mark_paths(ms).contains(#[trigger] rs[i].path)
}

/// Every row shown for `t` is the row of one of its nodes.
pub proof fn lemma_rows_are_nodes(t: FsTree, depth: int, parent_size: u64)
    ensures
        rows_in_marks(flatten_tree(t, depth, parent_size), marks(t)),
    decreases t,
{
    let f = flatten_tree(t, depth, parent_size);
    let ms = marks(t);
    let a = seq![(t.path, t.selected)];
    let b = marks_in(t.children);
    assert(mark_paths(ms) =~= mark_paths(a) + mark_paths(b));
    assert(mark_paths(ms)[0] == t.path);
    let g = if t.expanded { flatten_forest(t.children, depth + 1, t.size) } else { Seq::empty() };
    assert(f =~= seq![row_of(t, depth, parent_size)] + g);
    if t.expanded {
        lemma_forest_rows_are_nodes(t.children, depth + 1, t.size);
    }
    assert forall|i: int| 0 <= i < f.len() implies mark_paths(ms).contains(#[trigger] f[i].path) by {
        if i == 0 {
            assert(mark_paths(ms)[0] == f[0].path);
        } else {
            assert(f[i] == g[i - 1]);
            assert(mark_paths(b).contains(g[i - 1].path));
            let c = choose|c: int| 0 <= c < mark_paths(b).len() && mark_paths(b)[c] == g[i - 1].path;
            assert(mark_paths(ms)[c + 1] == mark_paths(b)[c]);
        }
    }
}

proof fn lemma_forest_rows_are_nodes(s: Seq<FsTree>, depth: int, parent_size: u64)
    ensures
        rows_in_marks(flatten_forest(s, depth, parent_size), marks_in(s)),
    decreases s,
{
    if s.len() > 0 {
        let rest = s.drop_first();
        assert(s =~= seq![s[0]] + rest);
        lemma_flatten_forest_cons(s[0], rest, depth, parent_size);
        lemma_rows_are_nodes(s[0], depth, parent_size);
        lemma_forest_rows_are_nodes(rest, depth, parent_size);
        let f0 = flatten_tree(s[0], depth, parent_size);
        let fr = flatten_forest(rest, depth, parent_size);
        let a = mark_paths(marks(s[0]));
        let b = mark_paths(marks_in(rest));
        let f = flatten_forest(s, depth, parent_size);
        let ms = mark_paths(marks_in(s));
        assert(ms =~= a + b);
        assert(f == f0 + fr);
        assert forall|i: int| 0 <= i < f.len() implies ms.contains(#[trigger] f[i].path) by {
            if i < f0.len() {
                assert(f[i] == f0[i]);
                assert(a.contains(f0[i].path));
                let c = choose|c: int| 0 <= c < a.len() && a[c] == f0[i].path;
                assert(ms[c] == a[c]);
            } else {
                assert(f[i] == fr[i - f0.len()]);
                assert(b.contains(fr[i - f0.len()].path));
                let c = choose|c: int| 0 <= c < b.len() && b[c] == fr[i - f0.len()].path;
                assert(ms[a.len() + c] == b[c]);
            }
        }
    }
}

/// The nodes of `t`, in pre-order: `t` itself, then the nodes of its
/// children, each with its own subtree.
pub open spec fn subtrees(t: FsTree) -> Seq<FsTree>
    decreases t,
{
    seq![t] + subtrees_in(t.children)
}

/// The nodes of the trees of `s`, one tree after the other.
pub open spec fn subtrees_in(s: Seq<FsTree>) -> Seq<FsTree>
    decreases s,
{
    if s.len() == 0 {
        Seq::empty()
    } else {
        subtrees(s[0]) + subtrees_in(s.drop_first())
    }
}

/// What a node shows: its path, name, kind, size, whether it is expanded,
/// whether it is selected, and whether it has children.
pub type NodeFacts = (Seq<char>, Seq<char>, NodeKind, u64, bool, bool, bool);

/// The facts of a node.
pub open spec fn node_facts(n: FsTree) -> NodeFacts {
    (n.path, n.name, n.kind, n.size, n.expanded, n.selected, n.children.len() > 0)
}

/// The facts a row tells of its node.
pub open spec fn row_facts(r: FlatRow) -> NodeFacts {
    (r.path, r.name, r.kind, r.size, r.expanded, r.selected, r.has_children)
}

/// The facts of the nodes `s`.
pub open spec fn facts_of(s: Seq<FsTree>) -> Seq<NodeFacts> {
    s.map_values(|n: FsTree| node_facts(n))
}

/// Every row of `rs` tells the facts of one of the nodes `ns`.
pub open spec fn rows_show_nodes(rs: Seq<FlatRow>, ns: Seq<FsTree>) -> bool {
    forall|i: int| 0 <= i < rs.len() ==> facts_of(ns).contains(#[trigger] row_facts(rs[i]))
}

/// Law: every row shown for `t` tells the path, name, kind, size, marks and
/// whether it has children of one of `t`'s nodes; the first row is `t`'s
/// own, at the depth given, under the parent size given.
pub proof fn lemma_rows_show_nodes(t: FsTree, depth: int, parent_size: u64)
    ensures
        rows_show_nodes(flatten_tree(t, depth, parent_size), subtrees(t)),
        row_facts(flatten_tree(t, depth, parent_size)[0]) == node_facts(t),
        flatten_tree(t, depth, parent_size)[0].depth == depth,
        flatten_tree(t, depth, parent_size)[0].parent_size == parent_size,
    decreases t,
{
    let f = flatten_tree(t, depth, parent_size);
    let ns = facts_of(subtrees(t));
    let b = facts_of(subtrees_in(t.children));
    assert(ns =~= seq![node_facts(t)] + b);
    let g = if t.expanded { flatten_forest(t.children, depth + 1, t.size) } else { Seq::empty() };
    assert(f =~= seq![row_of(t, depth, parent_size)] + g);
    if t.expanded {
        lemma_forest_rows_show_nodes(t.children, depth + 1, t.size);
    }
    assert forall|i: int| 0 <= i < f.len() implies ns.contains(#[trigger] row_facts(f[i])) by {
        if i == 0 {
            assert(ns[0] == row_facts(f[0]));
        } else {
            assert(f[i] == g[i - 1]);
            assert(b.contains(row_facts(g[i - 1])));
            let c = choose|c: int| 0 <= c < b.len() && b[c] == row_facts(g[i - 1]);
            assert(ns[c + 1] == b[c]);
        }
    }
}

proof fn lemma_forest_rows_show_nodes(s: Seq<FsTree>, depth: int, parent_size: u64)
    ensures
        rows_show_nodes(flatten_forest(s, depth, parent_size), subtrees_in(s)),
    decreases s,
{
    if s.len() > 0 {
        let rest = s.drop_first();
        assert(s =~= seq![s[0]] + rest);
        lemma_flatten_forest_cons(s[0], rest, depth, parent_size);
        lemma_rows_show_nodes(s[0], depth, parent_size);
        lemma_forest_rows_show_nodes(rest, depth, parent_size);
        let f0 = flatten_tree(s[0], depth, parent_size);
        let fr = flatten_forest(rest, depth, parent_size);
        let a = facts_of(subtrees(s[0]));
        let b = facts_of(subtrees_in(rest));
        let f = flatten_forest(s, depth, parent_size);
        let ns = facts_of(subtrees_in(s));
        assert(ns =~= a + b);
        assert(f == f0 + fr);
        assert forall|i: int| 0 <= i < f.len() implies ns.contains(#[trigger] row_facts(f[i])) by {
            if i < f0.len() {
                assert(f[i] == f0[i]);
                assert(a.contains(row_facts(f0[i])));
                let c = choose|c: int| 0 <= c < a.len() && a[c] == row_facts(f0[i]);
                assert(ns[c] == a[c]);
            } else {
                assert(f[i] == fr[i - f0.len()]);
                assert(b.contains(row_facts(fr[i - f0.len()])));
                let c = choose|c: int| 0 <= c < b.len() && b[c] == row_facts(fr[i - f0.len()]);
                assert(ns[a.len() + c] == b[c]);
            }
        }
    }
}

/// Each node below `t`, by path, with the size of its parent.
pub open spec fn child_links(t: FsTree) -> Seq<(Seq<char>, u64)>
    decreases t,
{
    child_links_in(t.children, t.size)
}

/// Each tree of `s` and each node below them, by path, with the size of its
/// parent; the trees of `s` have a parent of size `parent_size`.
pub open spec fn child_links_in(s: Seq<FsTree>, parent_size: u64) -> Seq<(Seq<char>, u64)>
    decreases s,
{
    if s.len() == 0 {
        Seq::empty()
    } else {
        seq![(s[0].path, parent_size)] + child_links(s[0]) + child_links_in(s.drop_first(), parent_size)
    }
}

/// Law: every row shown below a node's own row is that of a node below it,
/// and carries as parent size the size of that node's parent.
pub proof fn lemma_rows_parent_sizes(t: FsTree, depth: int, parent_size: u64)
    ensures
        forall|i: int| 1 <= i < flatten_tree(t, depth, parent_size).len() ==> child_links(t).contains(
            (#[trigger] flatten_tree(t, depth, parent_size)[i].path, flatten_tree(t, depth, parent_size)[i].parent_size),
        ),
    decreases t,
{
    let f = flatten_tree(t, depth, parent_size);
    if t.expanded {
        lemma_forest_parent_sizes(t.children, depth + 1, t.size);
        let g = flatten_forest(t.children, depth + 1, t.size);
        assert(f =~= seq![row_of(t, depth, parent_size)] + g);
        assert forall|i: int| 1 <= i < f.len() implies child_links(t).contains((#[trigger] f[i].path, f[i].parent_size)) by {
            assert(f[i] == g[i - 1]);
        }
    }
}

proof fn lemma_forest_parent_sizes(s: Seq<FsTree>, depth: int, parent_size: u64)
    ensures
        forall|i: int| 0 <= i < flatten_forest(s, depth, parent_size).len() ==> child_links_in(s, parent_size).contains(
            (#[trigger] flatten_forest(s, depth, parent_size)[i].path, flatten_forest(s, depth, parent_size)[i].parent_size),
        ),
    decreases s,
{
    if s.len() > 0 {
        let rest = s.drop_first();
        assert(s =~= seq![s[0]] + rest);
        lemma_flatten_forest_cons(s[0], rest, depth, parent_size);
        lemma_rows_parent_sizes(s[0], depth, parent_size);
        lemma_forest_parent_sizes(rest, depth, parent_size);
        lemma_flatten_tree(s[0], depth, parent_size);
        let f0 = flatten_tree(s[0], depth, parent_size);
        let fr = flatten_forest(rest, depth, parent_size);
        let f = flatten_forest(s, depth, parent_size);
        let a = seq![(s[0].path, parent_size)];
        let b = child_links(s[0]);
        let c = child_links_in(rest, parent_size);
        let ls = child_links_in(s, parent_size);
        assert(ls == a + b + c);
        assert(f == f0 + fr);
        assert forall|i: int| 0 <= i < f.len() implies ls.contains((#[trigger] f[i].path, f[i].parent_size)) by {
            if i == 0 {
                assert(f[0] == f0[0]);
                assert(ls[0] == a[0]);
            } else if i < f0.len() {
                assert(f[i] == f0[i]);
                let k = choose|k: int| 0 <= k < b.len() && b[k] == (f0[i].path, f0[i].parent_size);
                assert(ls[1 + k] == b[k]);
            } else {
                assert(f[i] == fr[i - f0.len()]);
                let k = choose|k: int| 0 <= k < c.len() && c[k] == (fr[i - f0.len()].path, fr[i - f0.len()].parent_size);
                assert(ls[1 + b.len() + k] == c[k]);
            }
        }
    }
}

} // verus!
