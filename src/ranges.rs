//! Half-open byte ranges `(start, end)` and the free list built from them.

use crate::registry::AddressId;
use vstd::prelude::*;

verus! {

/// A half-open byte range `[start, end)`.
pub type AddressRange = (usize, usize);

/// The number of bytes in a range.
pub open spec fn rlen(r: AddressRange) -> int {
    r.1 - r.0
}

/// Two ranges share no byte (an empty range shares none with anything).
pub open spec fn disjoint(a: AddressRange, b: AddressRange) -> bool {
    rlen(a) == 0 || rlen(b) == 0 || a.1 <= b.0 || b.1 <= a.0
}

/// A free list is sorted by start offset, holds no empty entry, lies inside
/// `[0, n)`, and no two of its entries overlap or touch.
pub open spec fn free_list_coalesced(f: Seq<AddressRange>, n: int) -> bool {
    &&& forall|i: int| 0 <= i < f.len() ==> (#[trigger] f[i]).0 < f[i].1 <= n
    &&& forall|i: int, j: int| 0 <= i < j < f.len() ==> (#[trigger] f[i]).1 < (#[trigger] f[j]).0
}

/// The sum of the lengths of the ranges of a map.
pub open spec fn total_len(m: Map<AddressId, AddressRange>) -> int
    decreases m.dom().len(),
{
    if m.dom().finite() && m.dom().len() > 0 {
        let k = m.dom().choose();
        rlen(m[k]) + total_len(m.remove(k))
    } else {
        0
    }
}

/// Taking one entry out of a map takes its length out of the total.
pub proof fn lemma_total_len_remove(m: Map<AddressId, AddressRange>, k: AddressId)
    requires
        m.dom().finite(),
        m.contains_key(k),
    ensures
        total_len(m) == rlen(m[k]) + total_len(m.remove(k)),
    decreases m.dom().len(),
{
    let j = m.dom().choose();
    assert(m.dom().contains(j));
    if j != k {
        lemma_total_len_remove(m.remove(j), k);
        lemma_total_len_remove(m.remove(k), j);
        assert(m.remove(j).remove(k) =~= m.remove(k).remove(j));
    } else {
        assert(m.remove(j) =~= m.remove(k));
    }
}

/// Adding an entry under a new key adds its length to the total.
pub proof fn lemma_total_len_insert(m: Map<AddressId, AddressRange>, k: AddressId, v: AddressRange)
    requires
        m.dom().finite(),
        !m.contains_key(k),
    ensures
        total_len(m.insert(k, v)) == total_len(m) + rlen(v),
{
    lemma_total_len_remove(m.insert(k, v), k);
    assert(m.insert(k, v).remove(k) =~= m);
}

/// Replacing the entry of a key replaces its length in the total.
pub proof fn lemma_total_len_update(m: Map<AddressId, AddressRange>, k: AddressId, v: AddressRange)
    requires
        m.dom().finite(),
        m.contains_key(k),
    ensures
        total_len(m.insert(k, v)) == total_len(m) - rlen(m[k]) + rlen(v),
{
    lemma_total_len_remove(m.insert(k, v), k);
    lemma_total_len_remove(m, k);
    assert(m.insert(k, v).remove(k) =~= m.remove(k));
}

/// Whether `i` is the last entry of the free list that can hold `size` bytes.
pub open spec fn is_last_fit(f: Seq<AddressRange>, size: int, i: int) -> bool {
    &&& 0 <= i < f.len()
    &&& rlen(f[i]) >= size
    &&& forall|j: int| i < j < f.len() ==> rlen(#[trigger] f[j]) < size
}

/// The index of the last free range that can hold `size` bytes, or -1.
pub open spec fn last_fit(f: Seq<AddressRange>, size: int) -> int {
    if exists|i: int| is_last_fit(f, size, i) {
        choose|i: int| is_last_fit(f, size, i)
    } else {
        -1
    }
}

/// Where an allocation of `size` bytes goes, in a buffer of `n` bytes with
/// free list `f`: the tail of the last free range that can hold it, else a
/// new range appended at the end of the buffer.
pub open spec fn placement(f: Seq<AddressRange>, n: int, size: int) -> AddressRange {
    let i = last_fit(f, size);
    if i >= 0 {
        ((f[i].1 - size) as usize, f[i].1)
    } else {
        (n as usize, (n + size) as usize)
    }
}

/// The free list after `size` bytes were taken from it by `placement`.
pub open spec fn free_after_take(f: Seq<AddressRange>, size: int) -> Seq<AddressRange> {
    let i = last_fit(f, size);
    if i < 0 {
        f
    } else if rlen(f[i]) == size {
        f.remove(i)
    } else {
        f.update(i, (f[i].0, (f[i].1 - size) as usize))
    }
}

/// Whether `p` is the first index of `f` whose range starts at or after `e`.
pub open spec fn is_insert_pos(f: Seq<AddressRange>, e: int, p: int) -> bool {
    &&& 0 <= p <= f.len()
    &&& forall|j: int| 0 <= j < p ==> (#[trigger] f[j]).0 < e
    &&& p < f.len() ==> f[p].0 >= e
}

/// The index before which a range ending at `e` goes in the free list.
pub open spec fn insert_pos(f: Seq<AddressRange>, e: int) -> int {
    choose|p: int| is_insert_pos(f, e, p)
}

/// The free list after the range `r` was returned to it: `r` goes in at its
/// place in start order and is merged with a neighbour that it touches.
pub open spec fn coalesce_insert(f: Seq<AddressRange>, r: AddressRange) -> Seq<AddressRange> {
    let p = insert_pos(f, r.1 as int);
    let left = p > 0 && f[p - 1].1 == r.0;
    let right = p < f.len() && f[p].0 == r.1;
    if rlen(r) == 0 {
        f
    } else if left && right {
        f.subrange(0, p - 1).push((f[p - 1].0, f[p].1)) + f.subrange(p + 1, f.len() as int)
    } else if left {
        f.update(p - 1, (f[p - 1].0, r.1))
    } else if right {
        f.update(p, (r.0, f[p].1))
    } else {
        f.insert(p, r)
    }
}

/// The first index is unique.
pub proof fn lemma_insert_pos_unique(f: Seq<AddressRange>, e: int, p: int)
    requires
        is_insert_pos(f, e, p),
    ensures
        insert_pos(f, e) == p,
{
    let c = choose|c: int| is_insert_pos(f, e, c);
    if c < p {
        assert(f[c].0 < e);
    } else if c > p {
        assert(f[p].0 < e);
    }
}

/// Returning a range that overlaps no free range keeps the list coalesced,
/// and a range `u` that overlaps neither `r` nor any free range overlaps no
/// entry of the new list.
pub proof fn lemma_coalesce_insert(f: Seq<AddressRange>, n: int, r: AddressRange, u: AddressRange, p: int)
    requires
        is_insert_pos(f, r.1 as int, p),
        free_list_coalesced(f, n),
        r.0 <= r.1 <= n,
        forall|i: int| 0 <= i < f.len() ==> disjoint(r, #[trigger] f[i]),
        u.0 <= u.1,
        disjoint(u, r),
        forall|i: int| 0 <= i < f.len() ==> disjoint(u, #[trigger] f[i]),
    ensures
        free_list_coalesced(coalesce_insert(f, r), n),
        forall|i: int| 0 <= i < coalesce_insert(f, r).len() ==> disjoint(u, #[trigger] coalesce_insert(f, r)[i]),
{
    if rlen(r) > 0 {
        let e = r.1 as int;
        lemma_insert_pos_unique(f, e, p);
        assert(is_insert_pos(f, e, p));
        assert forall|j: int| 0 <= j < p implies (#[trigger] f[j]).1 <= r.0 by {
            assert(disjoint(r, f[j]));
        }
        assert forall|j: int| p <= j < f.len() implies (#[trigger] f[j]).0 >= r.1 by {
            if j > p {
                assert(f[p].1 < f[j].0);
            }
        }
        let g = coalesce_insert(f, r);
        let left = p > 0 && f[p - 1].1 == r.0;
        let right = p < f.len() && f[p].0 == r.1;
        if left && right {
            assert forall|i: int| 0 <= i < g.len() implies (#[trigger] g[i]).0 < g[i].1 <= n by {
                if i >= p {
                    assert(g[i] == f[i + 1]);
                }
            }
            assert forall|i: int, j: int| 0 <= i < j < g.len() implies (#[trigger] g[i]).1 < (#[trigger] g[j]).0 by {
                if j >= p {
                    assert(g[j] == f[j + 1]);
                }
                if i >= p {
                    assert(g[i] == f[i + 1]);
                }
                if i < p - 1 {
                    assert(f[i].1 < f[p - 1].0);
                }
            }
            assert forall|i: int| 0 <= i < g.len() implies disjoint(u, #[trigger] g[i]) by {
                if i >= p {
                    assert(g[i] == f[i + 1]);
                }
                if i == p - 1 {
                    assert(disjoint(u, f[p - 1]));
                    assert(disjoint(u, f[p]));
                }
            }
        } else if left {
            assert forall|i: int, j: int| 0 <= i < j < g.len() implies (#[trigger] g[i]).1 < (#[trigger] g[j]).0 by {
                if i == p - 1 && j == p {
                    assert(f[p].0 >= r.1);
                }
                if j == p - 1 {
                    assert(f[i].1 < f[p - 1].0);
                }
            }
            assert forall|i: int| 0 <= i < g.len() implies disjoint(u, #[trigger] g[i]) by {
                assert(disjoint(u, f[i]));
                if i == p - 1 {
                    assert(disjoint(u, r));
                }
            }
        } else if right {
            assert forall|i: int, j: int| 0 <= i < j < g.len() implies (#[trigger] g[i]).1 < (#[trigger] g[j]).0 by {
                if j == p && i == p - 1 {
                    assert(f[p - 1].1 <= r.0);
                }
                if j == p && i < p {
                    assert(f[i].1 <= r.0);
                }
                if i == p {
                    assert(f[p].1 < f[j].0);
                }
            }
            assert forall|i: int| 0 <= i < g.len() implies disjoint(u, #[trigger] g[i]) by {
                assert(disjoint(u, f[i]));
                if i == p {
                    assert(disjoint(u, r));
                }
            }
        } else {
            assert forall|i: int| 0 <= i < g.len() implies (#[trigger] g[i]).0 < g[i].1 <= n by {
                if i > p {
                    assert(g[i] == f[i - 1]);
                }
            }
            assert forall|i: int, j: int| 0 <= i < j < g.len() implies (#[trigger] g[i]).1 < (#[trigger] g[j]).0 by {
                if i > p {
                    assert(g[i] == f[i - 1]);
                }
                if j > p {
                    assert(g[j] == f[j - 1]);
                }
                if i == p && j > p {
                    assert(f[j - 1].0 >= r.1);
                    if p > 0 || j - 1 > p {
                    }
                    if f[j - 1].0 == r.1 {
                        assert(j - 1 == p || f[p].1 < f[j - 1].0);
                    }
                }
                if i < p && j == p {
                    assert(f[i].1 <= r.0);
                    if i < p - 1 {
                        assert(f[i].1 < f[p - 1].0);
                    }
                }
            }
            assert forall|i: int| 0 <= i < g.len() implies disjoint(u, #[trigger] g[i]) by {
                if i > p {
                    assert(g[i] == f[i - 1]);
                }
            }
        }
    }
}

/// A map of ordered ranges has a total of at least zero.
pub proof fn lemma_total_len_nonneg(m: Map<AddressId, AddressRange>)
    requires
        m.dom().finite(),
        forall|k: AddressId| #[trigger] m.contains_key(k) ==> m[k].0 <= m[k].1,
    ensures
        total_len(m) >= 0,
    decreases m.dom().len(),
{
    if m.dom().len() > 0 {
        let k = m.dom().choose();
        assert(m.contains_key(k));
        lemma_total_len_nonneg(m.remove(k));
    }
}

/// `d` with the bytes from `at` on replaced by `b`.
pub open spec fn write_at(d: Seq<u8>, at: int, b: Seq<u8>) -> Seq<u8> {
    Seq::new(d.len(), |i: int| if at <= i < at + b.len() { b[i - at] } else { d[i] })
}

/// Sums over two maps with the same keys and the same range lengths agree.
pub proof fn lemma_total_len_same_lengths(a: Map<AddressId, AddressRange>, b: Map<AddressId, AddressRange>)
    requires
        a.dom().finite(),
        a.dom() == b.dom(),
        forall|k: AddressId| #[trigger] a.contains_key(k) ==> rlen(a[k]) == rlen(b[k]),
    ensures
        total_len(a) == total_len(b),
    decreases a.dom().len(),
{
    if a.dom().len() > 0 {
        let k = a.dom().choose();
        assert(a.contains_key(k));
        assert(a.remove(k).dom() == b.remove(k).dom());
        lemma_total_len_same_lengths(a.remove(k), b.remove(k));
    }
}

/// The sum over a map of the number of `e`-byte elements in each range.
pub open spec fn total_elems(m: Map<AddressId, AddressRange>, e: int) -> int
    decreases m.dom().len(),
{
    if m.dom().finite() && m.dom().len() > 0 {
        let k = m.dom().choose();
        rlen(m[k]) / e + total_elems(m.remove(k), e)
    } else {
        0
    }
}

/// Where every range holds whole elements, the bytes are `e` times the
/// elements.
pub proof fn lemma_total_elems(m: Map<AddressId, AddressRange>, e: int)
    requires
        m.dom().finite(),
        e > 0,
        forall|k: AddressId| #[trigger] m.contains_key(k) ==> rlen(m[k]) % e == 0,
    ensures
        total_len(m) == e * total_elems(m, e),
    decreases m.dom().len(),
{
    if m.dom().len() > 0 {
        let k = m.dom().choose();
        assert(m.contains_key(k));
        lemma_total_elems(m.remove(k), e);
        vstd::arithmetic::div_mod::lemma_fundamental_div_mod(rlen(m[k]), e);
        vstd::arithmetic::mul::lemma_mul_is_distributive_add(e, rlen(m[k]) / e, total_elems(m.remove(k), e));
    }
}

/// What orders the blocks when the buffer is rebuilt: the start offset,
/// or the length.
pub open spec fn layout_key(r: AddressRange, by_start: bool) -> int {
    if by_start {
        r.0 as int
    } else {
        rlen(r)
    }
}

} // verus!
