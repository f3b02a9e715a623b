//! Ordering of (length, index) pairs by length, through itertools.

use itertools::Itertools;
use vstd::prelude::*;

verus! {

/// Relies on itertools' `sorted_by_key` (it collects the items and runs the
/// stable `slice::sort_by_key` on them): the same items, ordered by their
/// first field.
#[verifier::external_body]
pub(crate) fn sorted_by_first(items: Vec<(usize, usize)>) -> (r: Vec<(usize, usize)>)
    ensures
        r@.to_multiset() == items@.to_multiset(),
        forall|i: int, j: int| 0 <= i < j < r@.len() ==> (#[trigger] r@[i]).0 <= (#[trigger] r@[j]).0,
{
    items.into_iter().sorted_by_key(|p| p.0).collect()
}

/// Pairs `(length, i)` for `i` below `n`, one for each `i`.
pub open spec fn indexed(items: Seq<(usize, usize)>, n: int) -> bool {
    &&& items.len() == n
    &&& forall|t: int| 0 <= t < n ==> (#[trigger] items[t]).1 == t
}

/// Some entry of `r` carries index `m`.
pub open spec fn has_index(r: Seq<(usize, usize)>, m: int) -> bool {
    exists|t: int| 0 <= t < r.len() && (#[trigger] r[t]).1 == m
}

/// A reordering of indexed pairs holds each index once: each entry is the
/// pair of its own index, each index has an entry, no index has two.
pub proof fn lemma_reordered_indices(items: Seq<(usize, usize)>, r: Seq<(usize, usize)>, n: int)
    requires
        indexed(items, n),
        r.to_multiset() == items.to_multiset(),
    ensures
        r.len() == n,
        forall|t: int| 0 <= t < n ==> (#[trigger] r[t]).1 < n && r[t] == items[r[t].1 as int],
        forall|m: int| 0 <= m < n ==> #[trigger] has_index(r, m),
        forall|a: int, b: int| 0 <= a < n && 0 <= b < n && a != b ==> (#[trigger] r[a]).1 != (#[trigger] r[b]).1,
{
    broadcast use vstd::seq_lib::group_to_multiset_ensures;

    assert(r.len() == r.to_multiset().len());
    assert forall|t: int| 0 <= t < n implies (#[trigger] r[t]).1 < n && r[t] == items[r[t].1 as int] by {
        assert(r.contains(r[t]));
        assert(r.to_multiset().count(r[t]) > 0);
        assert(items.contains(r[t]));
        let m = choose|m: int| 0 <= m < items.len() && items[m] == r[t];
        assert(items[m].1 == m);
    }
    assert forall|m: int| 0 <= m < n implies #[trigger] has_index(r, m) by {
        assert(items.contains(items[m]));
        assert(items.to_multiset().count(items[m]) > 0);
        assert(r.contains(items[m]));
        let t = choose|t: int| 0 <= t < r.len() && r[t] == items[m];
        assert(r[t].1 == m);
    }
    assert(items.no_duplicates()) by {
        assert forall|a: int, b: int| 0 <= a < items.len() && 0 <= b < items.len() && a != b implies items[a] != items[b] by {
            assert(items[a].1 == a);
            assert(items[b].1 == b);
        }
    }
    items.lemma_multiset_has_no_duplicates();
    r.lemma_multiset_has_no_duplicates_conv();
    assert forall|a: int, b: int| 0 <= a < n && 0 <= b < n && a != b implies (#[trigger] r[a]).1 != (#[trigger] r[b]).1 by {
        assert(r[a] != r[b]);
    }
}

} // verus!
