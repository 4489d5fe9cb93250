//! Which drive holds the scanned folder: the one whose mount point is the
//! longest prefix of the folder's path, compared without regard to case.
use vstd::prelude::*;

use crate::app::DriveInfo;
use crate::text::strings;

verus! {

/// What `str::to_lowercase` returns for the text.
pub uninterp spec fn lowercase(s: Seq<char>) -> Seq<char>;

/// Calls `str::to_lowercase`. Claimed: the result is the (named) lowercase
/// form of `s`, a function of `s` alone.
#[verifier::external_body]
pub(crate) fn to_lower(s: &String) -> (r: String)
    ensures
        r@ == lowercase(s@),
{
    s.to_lowercase()
}

/// Whether `s` starts with `prefix`, as `str::starts_with` tells.
pub fn starts_with(s: &str, prefix: &str) -> (r: bool)
    ensures
        r == prefix@.is_prefix_of(s@),
{
    let n = prefix.unicode_len();
    let m = s.unicode_len();
    if n > m {
        return false;
    }
    let mut i: usize = 0;
    while i < n
        invariant
            0 <= i <= n,
            n == prefix@.len(),
            m == s@.len(),
            n <= m,
            forall|j: int| 0 <= j < i ==> prefix@[j] == s@[j],
        decreases n - i,
    {
        if prefix.get_char(i) != s.get_char(i) {
            return false;
        }
        i = i + 1;
    }
    true
}

/// The length of a text in bytes, as `str::len` gives it.
pub open spec fn byte_len(s: Seq<char>) -> int {
    vstd::utf8::encode_utf8(s).len() as int
}

/// The index of the disk whose (lowercase) mount point is the longest prefix,
/// in bytes, of the (lowercase) path, among the first disks; the earliest of
/// equally long ones; with the length of that mount point. `(-1, 0)` where no
/// mount point of positive length is a prefix.
pub open spec fn best_match(path_lower: Seq<char>, mounts_lower: Seq<Seq<char>>) -> (int, int)
    decreases mounts_lower.len(),
{
    if mounts_lower.len() == 0 {
        (-1, 0)
    } else {
        let (i, l) = best_match(path_lower, mounts_lower.drop_last());
        let m = mounts_lower.last();
        if m.is_prefix_of(path_lower) && byte_len(m) > l {
            (mounts_lower.len() - 1, byte_len(m))
        } else {
            (i, l)
        }
    }
}

/// The figures of a disk: total, used (total less available, at least 0) and
/// free (available) space.
pub open spec fn drive_of(mount: Seq<char>, total: u64, available: u64) -> (Seq<char>, u64, u64, u64) {
    (mount, total, if total >= available {
        (total - available) as u64
    } else {
        0
    }, available)
}

/// The model of a `DriveInfo`: mount point, total, used and free bytes.
pub open spec fn drive_view(d: DriveInfo) -> (Seq<char>, u64, u64, u64) {
    (d.mount@, d.total_bytes, d.used_bytes, d.free_bytes)
}

/// The drive chosen among `disks` (mount point, total and available bytes),
/// given the lowercase path and the lowercase mount points; no drive where
/// no mount point matches.
pub fn best_drive(path_lower: &String, disks: &Vec<(String, u64, u64)>, mounts_lower: &Vec<String>) -> (r: DriveInfo)
    requires
        mounts_lower.len() == disks.len(),
    ensures
        drive_view(r) == (if best_match(path_lower@, strings(mounts_lower@)).0 >= 0 {
            let k = best_match(path_lower@, strings(mounts_lower@)).0;
            drive_of(disks@[k].0@, disks@[k].1, disks@[k].2)
        } else {
            (Seq::<char>::empty(), 0u64, 0u64, 0u64)
        }),
{
    broadcast use vstd::slice::group_slice_axioms;
    let ghost ms = strings(mounts_lower@);
    let n = disks.len();
    let mut best: Option<usize> = None;
    let mut best_len: usize = 0;
    let mut i: usize = 0;
    proof {
        assert(ms.take(0) =~= Seq::<Seq<char>>::empty());
    }
    while i < n
        invariant
            0 <= i <= n,
            n == disks.len(),
            n == mounts_lower.len(),
            ms == strings(mounts_lower@),
            ms.len() == n,
            match best {
                Some(k) => best_match(path_lower@, ms.take(i as int)) == (k as int, best_len as int)
                    && k < i,
                None => best_match(path_lower@, ms.take(i as int)) == (-1int, 0int) && best_len == 0,
            },
        decreases n - i,
    {
        proof {
            assert(ms.take(i + 1).drop_last() =~= ms.take(i as int));
            assert(ms.take(i + 1).last() == mounts_lower@[i as int]@);
        }
        let lower = mounts_lower[i].as_str();
        let len = lower.as_bytes().len();
        if starts_with(path_lower.as_str(), lower) && len > best_len {
            best = Some(i);
            best_len = len;
        }
        i = i + 1;
    }
    proof {
        assert(ms.take(n as int) =~= ms);
    }
    match best {
        Some(k) => {
            let total = disks[k].1;
            let available = disks[k].2;
            DriveInfo {
                mount: disks[k].0.clone(),
                total_bytes: total,
                free_bytes: available,
                used_bytes: total.saturating_sub(available),
            }
        },
        None => DriveInfo { mount: String::new(), total_bytes: 0, used_bytes: 0, free_bytes: 0 },
    }
}

/// The lowercase mount points of `disks`.
pub open spec fn lower_mounts(disks: Seq<(String, u64, u64)>) -> Seq<Seq<char>> {
    disks.map_values(|d: (String, u64, u64)| lowercase(d.0@))
}

/// The figures of the drive that holds `path` among `disks`: the one whose
/// mount point is the longest prefix of the path, compared in lowercase; no
/// drive where none matches.
pub open spec fn drive_for(path: Seq<char>, disks: Seq<(String, u64, u64)>) -> (Seq<char>, u64, u64, u64) {
    let k = best_match(lowercase(path), lower_mounts(disks)).0;
    if k >= 0 {
        drive_of(disks[k].0@, disks[k].1, disks[k].2)
    } else {
        (Seq::<char>::empty(), 0u64, 0u64, 0u64)
    }
}

/// Law: the drive found for a path depends on the path only up to case: two
/// paths with the same lowercase form get the same drive. Where a disk's
/// mount point, in lowercase, is a non-empty prefix of the lowercase path
/// (the path itself included), a drive is found, and it is a disk whose
/// lowercase mount point is such a prefix, as long as any.
pub proof fn lemma_drive_for(p1: Seq<char>, p2: Seq<char>, disks: Seq<(String, u64, u64)>)
    ensures
        lowercase(p1) == lowercase(p2) ==> drive_for(p1, disks) == drive_for(p2, disks),
        (exists|j: int| 0 <= j < disks.len() && (#[trigger] lower_mounts(disks)[j]).is_prefix_of(lowercase(p1))
            && byte_len(lower_mounts(disks)[j]) > 0) ==> exists|k: int|
            0 <= k < disks.len() && drive_for(p1, disks) == drive_of(disks[k].0@, disks[k].1, disks[k].2)
                && #[trigger] lower_mounts(disks)[k].is_prefix_of(lowercase(p1)) && forall|j: int|
                0 <= j < disks.len() && lower_mounts(disks)[j].is_prefix_of(lowercase(p1)) ==> byte_len(
                    lower_mounts(disks)[j],
                ) <= byte_len(lower_mounts(disks)[k]),
{
    let ms = lower_mounts(disks);
    lemma_best_match_longest(lowercase(p1), ms);
    if exists|j: int| 0 <= j < disks.len() && (#[trigger] ms[j]).is_prefix_of(lowercase(p1)) && byte_len(ms[j]) > 0 {
        let j = choose|j: int| 0 <= j < disks.len() && (#[trigger] ms[j]).is_prefix_of(lowercase(p1)) && byte_len(ms[j]) > 0;
        assert(ms[j].is_prefix_of(lowercase(p1)) && byte_len(ms[j]) > 0);
        let k = best_match(lowercase(p1), ms).0;
        assert(k >= 0);
        assert(ms[k].is_prefix_of(lowercase(p1)));
    }
}

/// The drive that holds `path` among `disks` (mount point, total and
/// available bytes): the one whose mount point is the longest prefix of the
/// path, compared in lowercase; no drive where none matches.
pub fn query_drive_info(path: &String, disks: &Vec<(String, u64, u64)>) -> (r: DriveInfo)
    ensures
        drive_view(r) == drive_for(path@, disks@),
{
    let path_lower = to_lower(path);
    let mut mounts_lower: Vec<String> = Vec::new();
    let n = disks.len();
    let mut i: usize = 0;
    while i < n
        invariant
            0 <= i <= n,
            n == disks.len(),
            mounts_lower.len() == i,
            forall|j: int| 0 <= j < i ==> (#[trigger] mounts_lower@[j])@ == lowercase(disks@[j].0@),
        decreases n - i,
    {
        mounts_lower.push(to_lower(&disks[i].0));
        i = i + 1;
    }
    proof {
        assert(strings(mounts_lower@) =~= lower_mounts(disks@));
    }
    best_drive(&path_lower, disks, &mounts_lower)
}

/// Law: the drive chosen for a path is a longest match. Where some mount
/// point (non-empty) is a prefix of the path, equal to it included, a
/// drive is chosen: one whose mount point is such a prefix, at least as long
/// in bytes as any other, and the first of the equally long ones. Where
/// none is, no drive is chosen.
pub proof fn lemma_best_match_longest(path: Seq<char>, ms: Seq<Seq<char>>)
    ensures
        ({
            let (k, l) = best_match(path, ms);
            &&& (k < 0) <==> (forall|j: int| 0 <= j < ms.len() ==> !(#[trigger] ms[j].is_prefix_of(path)
                && byte_len(ms[j]) > 0))
            &&& k >= 0 ==> {
                &&& 0 <= k < ms.len()
                &&& ms[k].is_prefix_of(path)
                &&& l == byte_len(ms[k]) && l > 0
                &&& forall|j: int| 0 <= j < ms.len() && #[trigger] ms[j].is_prefix_of(path) ==> byte_len(ms[j]) <= l
                &&& forall|j: int| 0 <= j < k && #[trigger] ms[j].is_prefix_of(path) ==> byte_len(ms[j]) < l
            }
            &&& k < 0 ==> l == 0
        }),
    decreases ms.len(),
{
    if ms.len() > 0 {
        let d = ms.drop_last();
        lemma_best_match_longest(path, d);
        assert forall|j: int| 0 <= j < d.len() implies d[j] == ms[j] by {}
        let (k0, l0) = best_match(path, d);
        let m = ms.last();
        assert(ms[ms.len() - 1] == m);
        if k0 >= 0 {
            assert(d[k0] == ms[k0]);
        }
        if !(m.is_prefix_of(path) && byte_len(m) > l0) && k0 < 0 {
            assert forall|j: int| 0 <= j < ms.len() implies !(#[trigger] ms[j].is_prefix_of(path) && byte_len(ms[j]) > 0) by {
                if j < d.len() {
                    assert(d[j] == ms[j]);
                }
            }
        }
        if k0 < 0 && !(forall|j: int| 0 <= j < ms.len() ==> !(#[trigger] ms[j].is_prefix_of(path) && byte_len(ms[j]) > 0)) {
            let j = choose|j: int| 0 <= j < ms.len() && #[trigger] ms[j].is_prefix_of(path) && byte_len(ms[j]) > 0;
            if j < d.len() {
                assert(d[j] == ms[j]);
            }
        }
    }
}

/// Law: a drive's figures add up: what is used and what is free make the
/// total, where the free space is no more than the total; the used space is
/// never negative.
pub proof fn lemma_drive_figures(mount: Seq<char>, total: u64, available: u64)
    ensures
        drive_of(mount, total, available).0 == mount,
        drive_of(mount, total, available).1 == total,
        drive_of(mount, total, available).3 == available,
        available <= total ==> drive_of(mount, total, available).2 + drive_of(mount, total, available).3 == total,
        available > total ==> drive_of(mount, total, available).2 == 0,
{
}

} // verus!
