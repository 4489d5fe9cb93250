//! The calls into `std::path` that the tree logic makes. A path is held as the
//! string that `Path::to_string_lossy` gives for it.
use vstd::prelude::*;

verus! {

/// What `std::path::Path::file_name` returns for the path, converted lossily
/// to a string: the final component, if there is one.
pub uninterp spec fn path_file_name(path: Seq<char>) -> Option<Seq<char>>;

/// What `std::path::Path::parent` returns for the path, converted lossily to
/// a string: the path without its final component, if there is one.
pub uninterp spec fn path_parent(path: Seq<char>) -> Option<Seq<char>>;

/// What `std::path::Path`'s `==` returns for the two paths: whether they
/// have the same components (so `/r/` and `/r` are the same path).
pub uninterp spec fn path_eq(a: Seq<char>, b: Seq<char>) -> bool;

/// Compares two paths with `std::path::Path`'s `==`. Claimed: the result is
/// the (named) comparison of `a` and `b`, a function of the two alone; two
/// equal strings are the same path, and the comparison does not depend on
/// the order of the two (`Path` is `Eq`, so `==` is reflexive and
/// symmetric; it compares the paths' components). Transitivity, which `Eq`
/// promises too, cannot be put as a clause on one call.
#[verifier::external_body]
pub(crate) fn same_path(a: &String, b: &String) -> (r: bool)
    ensures
        r == path_eq(a@, b@),
        r == path_eq(b@, a@),
        a@ == b@ ==> r,
{
    std::path::Path::new(a.as_str()) == std::path::Path::new(b.as_str())
}

/// The index of the first path of `s` that is the same path as `p` (as
/// `Path`'s `==` tells); -1 where there is none.
pub open spec fn first_path_index(s: Seq<Seq<char>>, p: Seq<char>) -> int
    decreases s.len(),
{
    if s.len() == 0 {
        -1
    } else if first_path_index(s.drop_last(), p) >= 0 {
        first_path_index(s.drop_last(), p)
    } else if path_eq(s.last(), p) {
        s.len() - 1
    } else {
        -1
    }
}

/// `first_path_index` is -1 or a position holding the same path as `p`, and
/// no earlier position does.
pub proof fn lemma_first_path_index(s: Seq<Seq<char>>, p: Seq<char>)
    ensures
        -1 <= first_path_index(s, p) < s.len(),
        first_path_index(s, p) >= 0 ==> path_eq(s[first_path_index(s, p)], p),
        forall|j: int| 0 <= j < s.len() && (first_path_index(s, p) < 0 || j < first_path_index(s, p))
            ==> !path_eq(#[trigger] s[j], p),
    decreases s.len(),
{
    if s.len() > 0 {
        lemma_first_path_index(s.drop_last(), p);
        assert forall|j: int| 0 <= j < s.len() && (first_path_index(s, p) < 0 || j < first_path_index(s, p))
            implies !path_eq(#[trigger] s[j], p) by {
            if j < s.len() - 1 {
                assert(s.drop_last()[j] == s[j]);
            }
        }
        if first_path_index(s.drop_last(), p) >= 0 {
            assert(s[first_path_index(s, p)] == s.drop_last()[first_path_index(s, p)]);
        }
    }
}

/// Calls `std::path::Path::file_name` on `path`. Claimed: the result is the
/// (named) final component of `path`, a function of `path` alone.
#[verifier::external_body]
pub(crate) fn file_name_of(path: &String) -> (r: Option<String>)
    ensures
        r.deep_view() == path_file_name(path@),
{
    std::path::Path::new(path.as_str()).file_name().map(|n| n.to_string_lossy().into_owned())
}

/// Calls `std::path::Path::parent` on `path`. Claimed: the result is the
/// (named) parent of `path`, a function of `path` alone; a parent is `path`
/// without its final component, so it is shorter than `path`.
#[verifier::external_body]
pub(crate) fn parent_of(path: &String) -> (r: Option<String>)
    ensures
        r.deep_view() == path_parent(path@),
        r matches Some(q) ==> q@.len() < path@.len(),
{
    std::path::Path::new(path.as_str()).parent().map(|p| p.to_string_lossy().into_owned())
}

/// `Path`'s `==` is an equivalence, as its `Eq` promises.
pub open spec fn path_eq_is_equivalence() -> bool {
    &&& forall|x: Seq<char>| #[trigger] path_eq(x, x)
    &&& forall|x: Seq<char>, y: Seq<char>| #[trigger] path_eq(x, y) ==> path_eq(y, x)
    &&& forall|x: Seq<char>, y: Seq<char>, z: Seq<char>|
        #[trigger] path_eq(x, y) && #[trigger] path_eq(y, z) ==> path_eq(x, z)
}

} // verus!
