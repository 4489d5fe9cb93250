//! The selected paths: a set, in the order the paths were selected, that
//! holds each path once, paths being compared as `std::path::Path` compares
//! them.
use vstd::prelude::*;

use crate::paths::{first_path_index, lemma_first_path_index, path_eq, path_eq_is_equivalence, same_path};
use crate::text::strings;

verus! {

/// Whether `s` holds a path that is the same path as `x`.
pub open spec fn holds_path(s: Seq<Seq<char>>, x: Seq<char>) -> bool {
    first_path_index(s, x) >= 0
}

/// No two paths of `s` are the same path.
pub open spec fn each_path_once(s: Seq<Seq<char>>) -> bool {
    forall|i: int, j: int| 0 <= i < j < s.len() ==> !path_eq(#[trigger] s[i], #[trigger] s[j])
}

/// `s` with the path that is the same path as `p` taken out where there is
/// one, and `p` added at the end where there is none.
pub open spec fn toggle_path(s: Seq<Seq<char>>, p: Seq<char>) -> Seq<Seq<char>> {
    if holds_path(s, p) {
        s.remove(first_path_index(s, p))
    } else {
        s.push(p)
    }
}

/// `s` with `p` added at the end where it holds no path that is the same.
pub open spec fn add_path(s: Seq<Seq<char>>, p: Seq<char>) -> Seq<Seq<char>> {
    if holds_path(s, p) {
        s
    } else {
        s.push(p)
    }
}

/// `s` with each of `ps` added, in order.
pub open spec fn add_paths(s: Seq<Seq<char>>, ps: Seq<Seq<char>>) -> Seq<Seq<char>>
    decreases ps.len(),
{
    if ps.len() == 0 {
        s
    } else {
        add_path(add_paths(s, ps.drop_last()), ps.last())
    }
}

/// `s` holds the same path as `x` exactly where one of its paths is.
pub proof fn lemma_holds_path(s: Seq<Seq<char>>, x: Seq<char>)
    ensures
        holds_path(s, x) <==> exists|i: int| 0 <= i < s.len() && path_eq(#[trigger] s[i], x),
{
    lemma_first_path_index(s, x);
    if exists|i: int| 0 <= i < s.len() && path_eq(#[trigger] s[i], x) {
        let i = choose|i: int| 0 <= i < s.len() && path_eq(#[trigger] s[i], x);
        assert(!(first_path_index(s, x) < 0) || !path_eq(s[i], x));
    }
}

/// Toggling a path keeps each path once.
pub proof fn lemma_toggle_path_unique(s: Seq<Seq<char>>, p: Seq<char>)
    requires
        each_path_once(s),
    ensures
        each_path_once(toggle_path(s, p)),
{
    lemma_first_path_index(s, p);
    if holds_path(s, p) {
        let k = first_path_index(s, p);
        let t = s.remove(k);
        assert forall|a: int, b: int| 0 <= a < b < t.len() implies !path_eq(#[trigger] t[a], #[trigger] t[b]) by {
            let a2 = if a < k { a } else { a + 1 };
            let b2 = if b < k { b } else { b + 1 };
            assert(t[a] == s[a2] && t[b] == s[b2]);
        }
    } else {
        let t = s.push(p);
        assert forall|a: int, b: int| 0 <= a < b < t.len() implies !path_eq(#[trigger] t[a], #[trigger] t[b]) by {
            assert(t[a] == s[a]);
            if b < s.len() {
                assert(t[b] == s[b]);
            }
        }
    }
}

/// Adding a path keeps each path once.
pub proof fn lemma_add_path_unique(s: Seq<Seq<char>>, p: Seq<char>)
    requires
        each_path_once(s),
    ensures
        each_path_once(add_path(s, p)),
{
    lemma_first_path_index(s, p);
    if !holds_path(s, p) {
        let t = s.push(p);
        assert forall|a: int, b: int| 0 <= a < b < t.len() implies !path_eq(#[trigger] t[a], #[trigger] t[b]) by {
            assert(t[a] == s[a]);
            if b < s.len() {
                assert(t[b] == s[b]);
            }
        }
    }
}

/// Law: toggling the same path twice leaves the same paths selected (as
/// `Path`'s `==` tells), where each path is selected once and `Path`'s `==`
/// is an equivalence.
pub proof fn lemma_toggle_path_twice(s: Seq<Seq<char>>, p: Seq<char>)
    requires
        each_path_once(s),
        path_eq_is_equivalence(),
    ensures
        each_path_once(toggle_path(toggle_path(s, p), p)),
        forall|x: Seq<char>| #[trigger] holds_path(toggle_path(toggle_path(s, p), p), x) == holds_path(s, x),
{
    lemma_toggle_path_unique(s, p);
    lemma_toggle_path_unique(toggle_path(s, p), p);
    lemma_first_path_index(s, p);
    if holds_path(s, p) {
        let k = first_path_index(s, p);
        let t1 = s.remove(k);
        lemma_first_path_index(t1, p);
        assert(!holds_path(t1, p)) by {
            let f = first_path_index(t1, p);
            if f >= 0 {
                if f < k {
                    assert(t1[f] == s[f]);
                } else {
                    assert(t1[f] == s[f + 1]);
                    assert(path_eq(s[k], p));
                    assert(path_eq(p, s[f + 1]));
                    assert(path_eq(s[k], s[f + 1]));
                }
            }
        }
        let t2 = t1.push(p);
        assert(toggle_path(t1, p) == t2);
        assert forall|x: Seq<char>| #[trigger] holds_path(t2, x) == holds_path(s, x) by {
            lemma_holds_path(t2, x);
            lemma_holds_path(s, x);
            if holds_path(s, x) {
                let j = choose|j: int| 0 <= j < s.len() && path_eq(#[trigger] s[j], x);
                if j < k {
                    assert(t2[j] == s[j]);
                } else if j > k {
                    assert(t2[j - 1] == s[j]);
                } else {
                    assert(path_eq(p, s[k]));
                    assert(path_eq(p, x));
                    assert(t2[t1.len() as int] == p);
                }
            }
            if holds_path(t2, x) {
                let j = choose|j: int| 0 <= j < t2.len() && path_eq(#[trigger] t2[j], x);
                if j < t1.len() {
                    if j < k {
                        assert(t1[j] == s[j]);
                        assert(path_eq(s[j], x));
                    } else {
                        assert(t1[j] == s[j + 1]);
                        assert(path_eq(s[j + 1], x));
                    }
                } else {
                    assert(t2[j] == p);
                    assert(path_eq(s[k], x));
                }
            }
        }
    } else {
        let t1 = s.push(p);
        lemma_first_path_index(t1, p);
        assert(path_eq(t1[s.len() as int], p));
        assert(first_path_index(t1, p) == s.len()) by {
            let f = first_path_index(t1, p);
            if 0 <= f < s.len() {
                assert(t1[f] == s[f]);
            }
        }
        assert(t1.remove(s.len() as int) =~= s);
    }
}

/// Law: after adding the paths `ps`, the paths selected before stay, in
/// their places; each path is selected once; and, `Path`'s `==` being
/// reflexive, each of `ps` is selected.
pub proof fn lemma_select_all_paths(s: Seq<Seq<char>>, ps: Seq<Seq<char>>)
    requires
        each_path_once(s),
    ensures
        each_path_once(add_paths(s, ps)),
        s.len() <= add_paths(s, ps).len(),
        forall|i: int| 0 <= i < s.len() ==> add_paths(s, ps)[i] == s[i],
        (forall|x: Seq<char>| #[trigger] path_eq(x, x)) ==> forall|i: int| 0 <= i < ps.len() ==> holds_path(
            add_paths(s, ps),
            #[trigger] ps[i],
        ),
    decreases ps.len(),
{
    if ps.len() > 0 {
        let d = ps.drop_last();
        lemma_select_all_paths(s, d);
        let a = add_paths(s, d);
        let x0 = ps.last();
        lemma_add_path_unique(a, x0);
        let r = add_paths(s, ps);
        assert(r == add_path(a, x0));
        assert forall|i: int| 0 <= i < s.len() implies r[i] == s[i] by {
            assert(a[i] == s[i]);
        }
        if forall|x: Seq<char>| #[trigger] path_eq(x, x) {
            assert forall|i: int| 0 <= i < ps.len() implies holds_path(r, #[trigger] ps[i]) by {
                lemma_holds_path(r, ps[i]);
                if i < ps.len() - 1 {
                    assert(d[i] == ps[i]);
                    assert(holds_path(a, d[i]));
                    lemma_holds_path(a, ps[i]);
                    let j = choose|j: int| 0 <= j < a.len() && path_eq(#[trigger] a[j], ps[i]);
                    if !holds_path(a, x0) {
                        assert(r[j] == a[j]);
                    }
                } else {
                    lemma_holds_path(a, x0);
                    if holds_path(a, x0) {
                        let j = choose|j: int| 0 <= j < a.len() && path_eq(#[trigger] a[j], x0);
                    } else {
                        assert(r[a.len() as int] == x0);
                        assert(path_eq(x0, x0));
                    }
                }
            }
        }
    }
}

/// Toggling `p` leaves alone whether a path that is not the same as `p` is
/// held.
pub proof fn lemma_toggle_other(s: Seq<Seq<char>>, p: Seq<char>, x: Seq<char>)
    requires
        path_eq_is_equivalence(),
        !path_eq(x, p),
    ensures
        holds_path(toggle_path(s, p), x) == holds_path(s, x),
{
    lemma_first_path_index(s, p);
    lemma_holds_path(s, x);
    let t = toggle_path(s, p);
    lemma_holds_path(t, x);
    if holds_path(s, p) {
        let k = first_path_index(s, p);
        if holds_path(s, x) {
            let j = choose|j: int| 0 <= j < s.len() && path_eq(#[trigger] s[j], x);
            if j == k {
                assert(path_eq(x, s[k]));
                assert(path_eq(x, p));
            } else if j < k {
                assert(t[j] == s[j]);
            } else {
                assert(t[j - 1] == s[j]);
            }
        }
        if holds_path(t, x) {
            let j = choose|j: int| 0 <= j < t.len() && path_eq(#[trigger] t[j], x);
            if j < k {
                assert(t[j] == s[j]);
            } else {
                assert(t[j] == s[j + 1]);
            }
        }
    } else {
        if holds_path(s, x) {
            let j = choose|j: int| 0 <= j < s.len() && path_eq(#[trigger] s[j], x);
            assert(t[j] == s[j]);
        }
        if holds_path(t, x) {
            let j = choose|j: int| 0 <= j < t.len() && path_eq(#[trigger] t[j], x);
            if j < s.len() {
                assert(t[j] == s[j]);
            } else {
                assert(t[j] == p);
                assert(path_eq(x, p));
            }
        }
    }
}

/// Toggling `p` flips whether `p` is held.
pub proof fn lemma_toggle_self(s: Seq<Seq<char>>, p: Seq<char>)
    requires
        each_path_once(s),
        path_eq_is_equivalence(),
    ensures
        holds_path(toggle_path(s, p), p) == !holds_path(s, p),
{
    lemma_first_path_index(s, p);
    let t = toggle_path(s, p);
    lemma_first_path_index(t, p);
    if holds_path(s, p) {
        let k = first_path_index(s, p);
        let f = first_path_index(t, p);
        if f >= 0 {
            if f < k {
                assert(t[f] == s[f]);
            } else {
                assert(t[f] == s[f + 1]);
                assert(path_eq(p, s[f + 1]));
                assert(path_eq(s[k], s[f + 1]));
            }
        }
    } else {
        assert(path_eq(t[s.len() as int], p));
        let f = first_path_index(t, p);
        if f < 0 {
            assert(!path_eq(t[s.len() as int], p));
        }
    }
}

/// Adding `p` makes `p` held, and leaves alone whether a path that is not
/// the same as `p` is held.
pub proof fn lemma_add_marks(s: Seq<Seq<char>>, p: Seq<char>, x: Seq<char>)
    requires
        path_eq_is_equivalence(),
    ensures
        holds_path(add_path(s, p), p),
        !path_eq(x, p) ==> holds_path(add_path(s, p), x) == holds_path(s, x),
{
    lemma_first_path_index(s, p);
    let t = add_path(s, p);
    lemma_holds_path(t, p);
    lemma_holds_path(t, x);
    lemma_holds_path(s, x);
    if !holds_path(s, p) {
        assert(t[s.len() as int] == p);
        assert(path_eq(t[s.len() as int], p));
        if holds_path(s, x) {
            let j = choose|j: int| 0 <= j < s.len() && path_eq(#[trigger] s[j], x);
            assert(t[j] == s[j]);
        }
        if holds_path(t, x) && !path_eq(x, p) {
            let j = choose|j: int| 0 <= j < t.len() && path_eq(#[trigger] t[j], x);
            if j < s.len() {
                assert(t[j] == s[j]);
            } else {
                assert(path_eq(x, p));
            }
        }
    }
}

/// The selected paths, each once, in the order they were selected.
#[derive(Debug)]
pub struct PathSet {
    paths: Vec<String>,
}

impl PathSet {
    /// The paths, in order.
    pub closed spec fn view(&self) -> Seq<Seq<char>> {
        strings(self.paths@)
    }

    #[verifier::type_invariant]
    spec fn each_once(self) -> bool {
        each_path_once(strings(self.paths@))
    }

    /// The empty set.
    pub fn new() -> (r: PathSet)
        ensures
            r@ == Seq::<Seq<char>>::empty(),
    {
        let r = PathSet { paths: Vec::new() };
        proof {
            assert(strings(r.paths@) =~= Seq::<Seq<char>>::empty());
        }
        r
    }

    /// The number of paths; no two of them are the same path.
    pub fn len(&self) -> (r: usize)
        ensures
            r == self@.len(),
            each_path_once(self@),
    {
        proof {
            use_type_invariant(self);
        }
        self.paths.len()
    }

    /// Whether the set is empty.
    pub fn is_empty(&self) -> (r: bool)
        ensures
            r == (self@.len() == 0),
    {
        self.paths.len() == 0
    }

    /// The path at `i`.
    pub fn get(&self, i: usize) -> (r: &String)
        requires
            i < self@.len(),
        ensures
            r@ == self@[i as int],
    {
        &self.paths[i]
    }

    /// The paths, in order.
    pub fn to_vec(&self) -> (r: Vec<String>)
        ensures
            strings(r@) == self@,
    {
        self.paths.clone()
    }

    /// The index of the first path that is the same path as `p`.
    fn index_of(&self, p: &String) -> (r: Option<usize>)
        ensures
            match r {
                Some(i) => first_path_index(self@, p@) == i,
                None => !holds_path(self@, p@),
            },
    {
        let ghost ps = self@;
        proof {
            lemma_first_path_index(ps, p@);
        }
        let n = self.paths.len();
        let mut i: usize = 0;
        while i < n
            invariant
                0 <= i <= n,
                n == self.paths.len(),
                ps == strings(self.paths@),
                ps.len() == n,
                forall|j: int| 0 <= j < i ==> !path_eq(#[trigger] ps[j], p@),
                -1 <= first_path_index(ps, p@) < n,
                first_path_index(ps, p@) >= 0 ==> path_eq(ps[first_path_index(ps, p@)], p@),
                forall|j: int| 0 <= j < n && (first_path_index(ps, p@) < 0 || j < first_path_index(ps, p@))
                    ==> !path_eq(#[trigger] ps[j], p@),
            decreases n - i,
        {
            proof {
                assert(ps[i as int] == self.paths@[i as int]@);
            }
            if same_path(&self.paths[i], p) {
                proof {
                    let f = first_path_index(ps, p@);
                    if f >= 0 && f < i {
                        assert(!path_eq(ps[f], p@));
                    }
                    if f < 0 || f > i {
                        assert(!path_eq(ps[i as int], p@));
                    }
                }
                return Some(i);
            }
            i = i + 1;
        }
        proof {
            let f = first_path_index(ps, p@);
            if f >= 0 {
                assert(!path_eq(ps[f], p@));
            }
        }
        None
    }

    /// Takes out the path that is the same path as `p` where there is one,
    /// and adds `p` at the end where there is none.
    pub fn toggle(&mut self, p: &String)
        ensures
            final(self)@ == toggle_path(old(self)@, p@),
            each_path_once(final(self)@),
    {
        proof {
            use_type_invariant(&*self);
            lemma_toggle_path_unique(self@, p@);
            lemma_first_path_index(self@, p@);
        }
        match self.index_of(p) {
            Some(k) => {
                let ghost before = self@;
                let mut v = Vec::new();
                std::mem::swap(&mut v, &mut self.paths);
                v.remove(k);
                proof {
                    assert(strings(v@) =~= before.remove(k as int));
                }
                self.paths = v;
            },
            None => {
                let ghost before = self@;
                let mut v = Vec::new();
                std::mem::swap(&mut v, &mut self.paths);
                v.push(p.clone());
                proof {
                    assert(strings(v@) =~= before.push(p@));
                }
                self.paths = v;
            },
        }
    }

    /// Adds `p` at the end where the set holds no path that is the same.
    pub fn add(&mut self, p: &String)
        ensures
            final(self)@ == add_path(old(self)@, p@),
            each_path_once(final(self)@),
    {
        proof {
            use_type_invariant(&*self);
            lemma_add_path_unique(self@, p@);
        }
        if self.index_of(p).is_none() {
            let ghost before = self@;
            let mut v = Vec::new();
            std::mem::swap(&mut v, &mut self.paths);
            v.push(p.clone());
            proof {
                assert(strings(v@) =~= before.push(p@));
            }
            self.paths = v;
        }
    }

    /// The set of `paths`, each kept where no earlier one is the same path.
    pub fn from_paths(paths: &Vec<String>) -> (r: PathSet)
        ensures
            r@ == add_paths(Seq::<Seq<char>>::empty(), strings(paths@)),
    {
        let mut r = PathSet::new();
        let ghost ps = strings(paths@);
        let n = paths.len();
        let mut i: usize = 0;
        proof {
            assert(ps.take(0) =~= Seq::<Seq<char>>::empty());
        }
        while i < n
            invariant
                0 <= i <= n,
                n == paths.len(),
                ps == strings(paths@),
                ps.len() == n,
                r@ == add_paths(Seq::<Seq<char>>::empty(), ps.take(i as int)),
            decreases n - i,
        {
            proof {
                assert(ps.take(i + 1).drop_last() =~= ps.take(i as int));
                assert(ps.take(i + 1).last() == paths@[i as int]@);
            }
            r.add(&paths[i]);
            i = i + 1;
        }
        proof {
            assert(ps.take(n as int) =~= ps);
        }
        r
    }
}

} // verus!
