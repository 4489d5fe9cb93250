//! Stable ordering by a key, largest first, as the tree's children and the
//! deletion targets are ordered.
use vstd::prelude::*;

verus! {

/// Inserts `x` into `s` behind the elements at the back of `s` whose key is
/// smaller: into a sequence ordered largest first, `x` lands after the
/// elements with its own key.
pub open spec fn insert_by_key<A>(s: Seq<A>, x: A, key: spec_fn(A) -> int) -> Seq<A>
    decreases s.len(),
{
    if s.len() == 0 || key(s.last()) >= key(x) {
        s.push(x)
    } else {
        insert_by_key(s.drop_last(), x, key).push(s.last())
    }
}

/// The stable ordering of `s` by `key`, largest first: what a stable sort
/// that compares `key(b)` with `key(a)` yields.
pub open spec fn sort_by_key_desc<A>(s: Seq<A>, key: spec_fn(A) -> int) -> Seq<A>
    decreases s.len(),
{
    if s.len() == 0 {
        s
    } else {
        insert_by_key(sort_by_key_desc(s.drop_last(), key), s.last(), key)
    }
}

/// `s` is ordered by `key`, largest first.
pub open spec fn sorted_by_key_desc<A>(s: Seq<A>, key: spec_fn(A) -> int) -> bool {
    forall|i: int, j: int| 0 <= i < j < s.len() ==> key(s[i]) >= key(s[j])
}

/// The elements whose key is `k`.
pub open spec fn key_is<A>(key: spec_fn(A) -> int, k: int) -> spec_fn(A) -> bool {
    |x: A| key(x) == k
}

/// Where `insert_by_key` puts `x`: at `j`, behind which every key is smaller
/// than `x`'s, and before which the last key is not.
pub proof fn lemma_insert_at<A>(s: Seq<A>, x: A, key: spec_fn(A) -> int, j: int)
    requires
        0 <= j <= s.len(),
        forall|k: int| j <= k < s.len() ==> #[trigger] key(s[k]) < key(x),
        j == 0 || key(s[j - 1]) >= key(x),
    ensures
        insert_by_key(s, x, key) == s.insert(j, x),
    decreases s.len(),
{
    if s.len() == 0 {
        assert(s.insert(j, x) =~= s.push(x));
    } else if key(s.last()) >= key(x) {
        assert(j == s.len());
        assert(s.insert(j, x) =~= s.push(x));
    } else {
        lemma_insert_at(s.drop_last(), x, key, j);
        assert(s.insert(j, x) =~= s.drop_last().insert(j, x).push(s.last()));
    }
}

/// Inserting by key adds exactly one element.
pub proof fn lemma_insert_len<A>(s: Seq<A>, x: A, key: spec_fn(A) -> int)
    ensures
        insert_by_key(s, x, key).len() == s.len() + 1,
    decreases s.len(),
{
    if s.len() > 0 && key(s.last()) < key(x) {
        lemma_insert_len(s.drop_last(), x, key);
    }
}

/// The position at which `insert_by_key` puts `x`.
spec fn insert_pos<A>(s: Seq<A>, x: A, key: spec_fn(A) -> int) -> int
    decreases s.len(),
{
    if s.len() == 0 || key(s.last()) >= key(x) {
        s.len() as int
    } else {
        insert_pos(s.drop_last(), x, key)
    }
}

proof fn lemma_insert_pos<A>(s: Seq<A>, x: A, key: spec_fn(A) -> int)
    ensures
        0 <= insert_pos(s, x, key) <= s.len(),
        forall|k: int| insert_pos(s, x, key) <= k < s.len() ==> #[trigger] key(s[k]) < key(x),
        insert_pos(s, x, key) == 0 || key(s[insert_pos(s, x, key) - 1]) >= key(x),
        insert_by_key(s, x, key) == s.insert(insert_pos(s, x, key), x),
    decreases s.len(),
{
    if s.len() > 0 && key(s.last()) < key(x) {
        lemma_insert_pos(s.drop_last(), x, key);
        assert forall|k: int| insert_pos(s, x, key) <= k < s.len() implies #[trigger] key(s[k])
            < key(x) by {
            if k < s.len() - 1 {
                assert(s.drop_last()[k] == s[k]);
            }
        }
    }
    lemma_insert_at(s, x, key, insert_pos(s, x, key));
}

proof fn lemma_insert_sorted<A>(s: Seq<A>, x: A, key: spec_fn(A) -> int)
    requires
        sorted_by_key_desc(s, key),
    ensures
        sorted_by_key_desc(insert_by_key(s, x, key), key),
        insert_by_key(s, x, key).to_multiset() == s.to_multiset().insert(x),
{
    lemma_insert_pos(s, x, key);
    let j = insert_pos(s, x, key);
    let r = s.insert(j, x);
    assert forall|a: int, b: int| 0 <= a < b < r.len() implies key(r[a]) >= key(r[b]) by {
        if b < j {
        } else if b == j {
            assert(r[a] == s[a]);
            assert(key(s[a]) >= key(s[j - 1]));
        } else if a < j {
            assert(r[b] == s[b - 1]);
            assert(key(s[a]) >= key(s[b - 1]));
        } else if a == j {
            assert(r[b] == s[b - 1]);
        } else {
            assert(r[a] == s[a - 1] && r[b] == s[b - 1]);
        }
    }
    vstd::seq_lib::to_multiset_insert(s, j, x);
}

/// The stable ordering by key is ordered largest first and holds the same
/// elements.
pub proof fn lemma_sort_by_key_sorted<A>(s: Seq<A>, key: spec_fn(A) -> int)
    ensures
        sorted_by_key_desc(sort_by_key_desc(s, key), key),
        sort_by_key_desc(s, key).to_multiset() == s.to_multiset(),
        sort_by_key_desc(s, key).len() == s.len(),
    decreases s.len(),
{
    broadcast use vstd::multiset::group_multiset_axioms;

    if s.len() == 0 {
        assert(s.to_multiset() =~= vstd::multiset::Multiset::empty()) by {
            vstd::seq_lib::to_multiset_len(s);
        }
    } else {
        lemma_sort_by_key_sorted(s.drop_last(), key);
        lemma_insert_sorted(sort_by_key_desc(s.drop_last(), key), s.last(), key);
        lemma_insert_len(sort_by_key_desc(s.drop_last(), key), s.last(), key);
        vstd::seq_lib::to_multiset_build(s.drop_last(), s.last());
        assert(s.drop_last().push(s.last()) =~= s);
    }
}

proof fn lemma_insert_filter<A>(s: Seq<A>, x: A, key: spec_fn(A) -> int, k: int)
    ensures
        insert_by_key(s, x, key).filter(key_is(key, k)) == (if key(x) == k {
            s.filter(key_is(key, k)).push(x)
        } else {
            s.filter(key_is(key, k))
        }),
    decreases s.len(),
{
    reveal_with_fuel(Seq::<_>::filter, 1);
    if s.len() == 0 || key(s.last()) >= key(x) {
        assert(s.push(x).drop_last() =~= s);
    } else {
        lemma_insert_filter(s.drop_last(), x, key, k);
        let r = insert_by_key(s.drop_last(), x, key);
        assert(r.push(s.last()).drop_last() =~= r);
    }
}

/// The stable ordering by key keeps the elements with equal keys in their
/// order of the input.
pub proof fn lemma_sort_by_key_stable<A>(s: Seq<A>, key: spec_fn(A) -> int, k: int)
    ensures
        sort_by_key_desc(s, key).filter(key_is(key, k)) == s.filter(key_is(key, k)),
    decreases s.len(),
{
    reveal_with_fuel(Seq::<_>::filter, 1);
    if s.len() > 0 {
        lemma_sort_by_key_stable(s.drop_last(), key, k);
        lemma_insert_filter(sort_by_key_desc(s.drop_last(), key), s.last(), key, k);
    }
}

/// Ordering a sequence that is already ordered leaves it as it is.
pub proof fn lemma_sort_sorted_id<A>(s: Seq<A>, key: spec_fn(A) -> int)
    requires
        sorted_by_key_desc(s, key),
    ensures
        sort_by_key_desc(s, key) == s,
    decreases s.len(),
{
    if s.len() > 0 {
        let d = s.drop_last();
        assert(sorted_by_key_desc(d, key)) by {
            assert forall|i: int, j: int| 0 <= i < j < d.len() implies key(d[i]) >= key(d[j]) by {
                assert(d[i] == s[i] && d[j] == s[j]);
            }
        }
        lemma_sort_sorted_id(d, key);
        if d.len() > 0 {
            assert(d.last() == s[s.len() - 2]);
        }
        assert(d.push(s.last()) =~= s);
    }
}


/// The sum of the keys of `s`.
pub open spec fn sum_by_key<A>(s: Seq<A>, key: spec_fn(A) -> int) -> int
    decreases s.len(),
{
    if s.len() == 0 {
        0
    } else {
        sum_by_key(s.drop_last(), key) + key(s.last())
    }
}

/// Inserting an element adds its key to the sum of keys.
pub proof fn lemma_sum_insert<A>(s: Seq<A>, j: int, x: A, key: spec_fn(A) -> int)
    requires
        0 <= j <= s.len(),
    ensures
        sum_by_key(s.insert(j, x), key) == sum_by_key(s, key) + key(x),
    decreases s.len(),
{
    if j == s.len() {
        assert(s.insert(j, x) =~= s.push(x));
        assert(s.push(x).drop_last() =~= s);
    } else {
        lemma_sum_insert(s.drop_last(), j, x, key);
        assert(s.insert(j, x).drop_last() =~= s.drop_last().insert(j, x));
    }
}

/// Replacing an element changes the sum of keys by the difference of the two keys.
pub proof fn lemma_sum_update<A>(s: Seq<A>, k: int, x: A, key: spec_fn(A) -> int)
    requires
        0 <= k < s.len(),
    ensures
        sum_by_key(s.update(k, x), key) == sum_by_key(s, key) - key(s[k]) + key(x),
    decreases s.len(),
{
    if k < s.len() - 1 {
        lemma_sum_update(s.drop_last(), k, x, key);
        assert(s.update(k, x).drop_last() =~= s.drop_last().update(k, x));
    } else {
        assert(s.update(k, x).drop_last() =~= s.drop_last());
    }
}

/// Ordering keeps the sum of the keys.
pub proof fn lemma_sum_sort<A>(s: Seq<A>, key: spec_fn(A) -> int)
    ensures
        sum_by_key(sort_by_key_desc(s, key), key) == sum_by_key(s, key),
    decreases s.len(),
{
    if s.len() > 0 {
        lemma_sum_sort(s.drop_last(), key);
        let t = sort_by_key_desc(s.drop_last(), key);
        lemma_insert_pos(t, s.last(), key);
        lemma_sum_insert(t, insert_pos(t, s.last(), key), s.last(), key);
    }
}

/// With keys that are not negative, a prefix sums to no more than the whole.
pub proof fn lemma_sum_take<A>(s: Seq<A>, i: int, key: spec_fn(A) -> int)
    requires
        0 <= i <= s.len(),
        forall|k: int| 0 <= k < s.len() ==> key(#[trigger] s[k]) >= 0,
    ensures
        sum_by_key(s.take(i), key) <= sum_by_key(s, key),
        i < s.len() ==> sum_by_key(s.take(i + 1), key) == sum_by_key(s.take(i), key) + key(s[i]),
    decreases s.len() - i,
{
    if i < s.len() {
        assert(s.take(i + 1).drop_last() =~= s.take(i));
        lemma_sum_take(s, i + 1, key);
    } else {
        assert(s.take(i) =~= s);
    }
}

} // verus!
