//! The free-list allocator: a byte buffer, the ranges of its live
//! allocations, and a coalesced list of the ranges it has reclaimed.

use crate::ranges::{
    coalesce_insert, disjoint, free_after_take, free_list_coalesced, insert_pos,
    is_insert_pos, is_last_fit, last_fit, layout_key, lemma_coalesce_insert,
    lemma_insert_pos_unique, lemma_total_elems, lemma_total_len_insert, lemma_total_len_nonneg,
    lemma_total_len_remove, lemma_total_len_same_lengths, lemma_total_len_update, placement, rlen,
    total_elems, total_len, write_at, AddressRange,
};
use crate::order::{has_index, lemma_reordered_indices, sorted_by_first};
use crate::registry::{
    slot_contents, slot_count, table_capacity, table_get, table_insert, table_keys, table_new, table_remove,
    table_set, AddressId, Table,
};
use std::marker::PhantomData;
use vstd::layout::size_of;
use vstd::prelude::*;

verus! {

/// Manages blocks of `T` elements inside one byte buffer, which the caller
/// hands to the device in one transfer whenever `upload` says it changed.
pub struct SimpleGpuMemory<T> {
    data: Vec<u8>,
    available_ranges: Vec<AddressRange>,
    used_ranges: Table,
    allocated_count: usize,
    elem_size: usize,
    mutated: bool,
    _phantom: PhantomData<T>,
}

/// How `optimize` reorganizes the buffer.
/// - `Truncate`: drop the unused bytes and fit the buffer to the live ones.
/// - `SortSizeDescending`: lay the blocks out from longest to shortest.
/// - `SortSizeAscending`: lay the blocks out from shortest to longest.
#[derive(Debug, Clone, Copy, Default, PartialEq, Eq, Structural)]
pub enum Strategy {
    #[default]
    Truncate,
    SortSizeDescending,
    SortSizeAscending,
}

impl Strategy {
    /// The name of the strategy.
    pub fn name(&self) -> (r: &'static str)
        ensures
            r@ == match *self {
                Strategy::Truncate => "Truncate"@,
                Strategy::SortSizeDescending => "SortSizeDescending"@,
                Strategy::SortSizeAscending => "SortSizeAscending"@,
            },
    {
        match self {
            Strategy::Truncate => "Truncate",
            Strategy::SortSizeDescending => "SortSizeDescending",
            Strategy::SortSizeAscending => "SortSizeAscending",
        }
    }
}

/// Relies on `Vec::shrink_to_fit`: the capacity may drop, the contents stay.
#[verifier::external_body]
fn shrink_bytes(v: &mut Vec<u8>)
    ensures
        final(v)@ == old(v)@,
{
    v.shrink_to_fit();
}

impl<T> SimpleGpuMemory<T> {
    /// The bytes of the buffer.
    pub closed spec fn bytes(&self) -> Seq<u8> {
        self.data@
    }

    /// The reclaimed ranges, in list order.
    pub closed spec fn free_list(&self) -> Seq<AddressRange> {
        self.available_ranges@
    }

    /// Each live handle to its byte range.
    pub closed spec fn ranges(&self) -> Map<AddressId, AddressRange> {
        slot_contents(self.used_ranges)
    }

    /// The number of live elements over all handles.
    pub closed spec fn count(&self) -> nat {
        self.allocated_count as nat
    }

    /// Whether the buffer changed since the last upload.
    pub closed spec fn is_mutated(&self) -> bool {
        self.mutated
    }

    /// The size of one element in bytes.
    pub open spec fn elem() -> int {
        size_of::<T>() as int
    }

    /// How many slots the handle table has made; it can make `u32::MAX - 1`.
    pub closed spec fn slots_made(&self) -> nat {
        slot_count(self.used_ranges)
    }

    /// The bytes that a live handle addresses.
    pub open spec fn content(&self, k: AddressId) -> Seq<u8> {
        self.bytes().subrange(self.ranges()[k].0 as int, self.ranges()[k].1 as int)
    }

    /// The internal invariant: live ranges lie in the buffer, hold whole
    /// elements and do not overlap each other nor any free range; the free
    /// list is coalesced; the element count matches the live bytes.
    pub closed spec fn wf(&self) -> bool {
        &&& self.elem_size as int == Self::elem()
        &&& self.elem_size > 0
        &&& free_list_coalesced(self.free_list(), self.bytes().len() as int)
        &&& self.ranges().dom().finite()
        &&& forall|k: AddressId| #[trigger] self.ranges().contains_key(k) ==> {
            &&& self.ranges()[k].0 <= self.ranges()[k].1 <= self.bytes().len()
            &&& rlen(self.ranges()[k]) % self.elem_size as int == 0
        }
        &&& forall|k: AddressId, j: AddressId|
            #![trigger self.ranges()[k], self.ranges()[j]]
            self.ranges().contains_key(k) && self.ranges().contains_key(j) && k != j
                ==> disjoint(self.ranges()[k], self.ranges()[j])
        &&& forall|k: AddressId, i: int|
            #![trigger self.ranges()[k], self.free_list()[i]]
            self.ranges().contains_key(k) && 0 <= i < self.free_list().len()
                ==> disjoint(self.ranges()[k], self.free_list()[i])
        &&& self.allocated_count * self.elem_size == total_len(self.ranges())
        &&& self.allocated_count * self.elem_size <= usize::MAX
    }

    /// An empty allocator.
    pub fn new() -> (r: Self)
        requires
            Self::elem() > 0,
        ensures
            r.wf(),
            r.bytes().len() == 0,
            r.free_list().len() == 0,
            r.ranges().dom().is_empty(),
            r.count() == 0,
            !r.is_mutated(),
            r.slots_made() == 0,
    {
        let r = SimpleGpuMemory {
            data: Vec::new(),
            available_ranges: Vec::new(),
            used_ranges: table_new(),
            allocated_count: 0,
            elem_size: core::mem::size_of::<T>(),
            mutated: false,
            _phantom: PhantomData,
        };
        proof {
            assert(r.ranges().dom() =~= Set::empty());
            assert(total_len(r.ranges()) == 0);
        }
        r
    }

    /// Whether the buffer changed since the last upload.
    pub fn mutated(&self) -> (r: bool)
        ensures
            r == self.is_mutated(),
    {
        self.mutated
    }

    /// The number of live elements over all handles.
    pub fn len(&self) -> (r: usize)
        ensures
            r == self.count(),
    {
        self.allocated_count
    }

    /// Whether no element is live.
    pub fn is_empty(&self) -> (r: bool)
        ensures
            r == (self.count() == 0),
    {
        self.allocated_count == 0
    }

    /// The number of live bytes: `len()` times the element size.
    pub fn size(&self) -> (r: usize)
        requires
            self.wf(),
        ensures
            r == self.count() * Self::elem(),
    {
        self.allocated_count * self.elem_size
    }

    /// What `allocate(count)` does: a fresh handle gets the range that
    /// `placement` picks, taken from the free list or appended as zeros.
    pub open spec fn allocate_post(pre: Self, count: nat, id: AddressId, post: Self) -> bool {
        let size = count * Self::elem();
        let n = pre.bytes().len() as int;
        &&& !pre.ranges().contains_key(id)
        &&& post.ranges() == pre.ranges().insert(id, placement(pre.free_list(), n, size))
        &&& post.free_list() == free_after_take(pre.free_list(), size)
        &&& post.bytes() == if last_fit(pre.free_list(), size) >= 0 {
            pre.bytes()
        } else {
            pre.bytes() + Seq::new(size as nat, |i: int| 0u8)
        }
        &&& post.count() == pre.count() + count
        &&& post.is_mutated()
        &&& post.slots_made() <= pre.slots_made() + 1
    }

    /// The index of the last free range that holds `size` bytes.
    fn find_last_fit(&self, size: usize) -> (r: Option<usize>)
        requires
            self.wf(),
        ensures
            r matches Some(i) ==> is_last_fit(self.free_list(), size as int, i as int),
            r is None ==> last_fit(self.free_list(), size as int) == -1,
    {
        let mut i: usize = self.available_ranges.len();
        while i > 0
            invariant
                self.wf(),
                i <= self.free_list().len(),
                forall|j: int| i <= j < self.free_list().len() ==> rlen(#[trigger] self.free_list()[j]) < size,
            decreases i,
        {
            let r = self.available_ranges[i - 1];
            assert(r == self.free_list()[i - 1]);
            if r.1 - r.0 >= size {
                return Some(i - 1);
            }
            i = i - 1;
        }
        proof {
            if exists|j: int| is_last_fit(self.free_list(), size as int, j) {
                let j = choose|j: int| is_last_fit(self.free_list(), size as int, j);
                assert(rlen(self.free_list()[j]) < size);
            }
        }
        None
    }

    /// Finds room for a block of `size` bytes, as `placement` says: the tail
    /// of the last free range that holds it, else zeroed bytes appended to
    /// the buffer. The block is not yet given to any handle.
    fn place(&mut self, size: usize) -> (range: AddressRange)
        requires
            old(self).wf(),
            old(self).bytes().len() + size <= usize::MAX,
        ensures
            range == placement(old(self).free_list(), old(self).bytes().len() as int, size as int),
            rlen(range) == size,
            range.0 <= range.1 <= final(self).bytes().len(),
            final(self).free_list() == free_after_take(old(self).free_list(), size as int),
            final(self).bytes() == if last_fit(old(self).free_list(), size as int) >= 0 {
                old(self).bytes()
            } else {
                old(self).bytes() + Seq::new(size as nat, |i: int| 0u8)
            },
            final(self).used_ranges == old(self).used_ranges,
            final(self).allocated_count == old(self).allocated_count,
            final(self).elem_size == old(self).elem_size,
            final(self).mutated == old(self).mutated,
            free_list_coalesced(final(self).free_list(), final(self).bytes().len() as int),
            forall|i: int| 0 <= i < final(self).free_list().len() ==> disjoint(range, #[trigger] final(self).free_list()[i]),
            forall|k: AddressId| #[trigger] old(self).ranges().contains_key(k) ==> {
                &&& old(self).ranges()[k].1 <= final(self).bytes().len()
                &&& disjoint(old(self).ranges()[k], range)
                &&& forall|i: int| 0 <= i < final(self).free_list().len() ==> disjoint(old(self).ranges()[k], #[trigger] final(self).free_list()[i])
            },
    {
        let ghost pre = *self;
        let range: AddressRange = match self.find_last_fit(size) {
            Some(i) => {
                proof {
                    lemma_last_fit_unique(pre.free_list(), size as int, i as int);
                }
                let fr = self.available_ranges[i];
                if fr.1 - fr.0 != size {
                    self.available_ranges.set(i, (fr.0, fr.1 - size));
                    proof {
                        assert(self.free_list() =~= free_after_take(pre.free_list(), size as int));
                    }
                } else {
                    self.available_ranges.remove(i);
                    proof {
                        assert(self.free_list() =~= free_after_take(pre.free_list(), size as int));
                    }
                }
                (fr.1 - size, fr.1)
            },
            None => {
                let start = self.data.len();
                let mut j: usize = 0;
                while j < size
                    invariant
                        j <= size,
                        start == pre.bytes().len(),
                        start + size <= usize::MAX,
                        self.used_ranges == pre.used_ranges,
                        self.allocated_count == pre.allocated_count,
                        self.available_ranges == pre.available_ranges,
                        self.elem_size == pre.elem_size,
                        self.mutated == pre.mutated,
                        self.data@ =~= pre.bytes() + Seq::new(j as nat, |i: int| 0u8),
                    decreases size - j,
                {
                    self.data.push(0u8);
                    j = j + 1;
                }
                (start, start + size)
            },
        };
        proof {
            assert(range == placement(pre.free_list(), pre.bytes().len() as int, size as int));
        }
        proof {
            let f = pre.free_list();
            let i = last_fit(f, size as int);
            if i >= 0 {
                assert(is_last_fit(f, size as int, i)) by {
                    let c = choose|c: int| is_last_fit(f, size as int, c);
                }
                assert forall|j: int| 0 <= j < self.free_list().len() implies disjoint(range, #[trigger] self.free_list()[j]) by {
                    if rlen(f[i]) == size {
                        if j >= i {
                            assert(self.free_list()[j] == f[j + 1]);
                            assert(f[i].1 < f[j + 1].0);
                        } else {
                            assert(f[j].1 < f[i].0);
                        }
                    } else if j < i {
                        assert(f[j].1 < f[i].0);
                    } else if j > i {
                        assert(f[i].1 < f[j].0);
                    }
                }
                assert forall|k: AddressId| #[trigger] pre.ranges().contains_key(k) implies {
                    &&& pre.ranges()[k].1 <= self.bytes().len()
                    &&& disjoint(pre.ranges()[k], range)
                    &&& forall|j: int| 0 <= j < self.free_list().len() ==> disjoint(pre.ranges()[k], #[trigger] self.free_list()[j])
                } by {
                    assert(disjoint(pre.ranges()[k], f[i]));
                    assert forall|j: int| 0 <= j < self.free_list().len() implies disjoint(pre.ranges()[k], #[trigger] self.free_list()[j]) by {
                        if rlen(f[i]) == size && j >= i {
                            assert(self.free_list()[j] == f[j + 1]);
                            assert(disjoint(pre.ranges()[k], f[j + 1]));
                        } else {
                            assert(disjoint(pre.ranges()[k], f[j]));
                        }
                    }
                }
            }
        }
        range
    }

    /// Allocates `count` elements and returns their handle. The block is cut
    /// from the tail of the last free range that is large enough; with none,
    /// the buffer grows by zeroed bytes at its end.
    pub fn allocate(&mut self, count: usize) -> (id: AddressId)
        requires
            old(self).wf(),
            old(self).slots_made() < u32::MAX - 1,
            old(self).bytes().len() + count * Self::elem() <= usize::MAX,
            (old(self).count() + count) * Self::elem() <= usize::MAX,
        ensures
            final(self).wf(),
            Self::allocate_post(*old(self), count as nat, id, *final(self)),
    {
        let ghost pre = *self;
        self.mutated = true;
        proof {
            vstd::arithmetic::mul::lemma_mul_is_distributive_add_other_way(
                self.elem_size as int, self.allocated_count as int, count as int);
            vstd::arithmetic::mul::lemma_mul_nonnegative(count as int, self.elem_size as int);
            vstd::arithmetic::div_mod::lemma_mod_multiples_basic(count as int, self.elem_size as int);
            if self.allocated_count + count > 0 {
                vstd::arithmetic::mul::lemma_mul_increases(
                    self.elem_size as int, (self.allocated_count + count) as int);
            }
        }
        let size: usize = count * self.elem_size;
        let range = self.place(size);
        let id = table_insert(&mut self.used_ranges, range);
        self.allocated_count = self.allocated_count + count;
        proof {
            lemma_total_len_insert(pre.ranges(), id, range);
        }
        id
    }

    /// Returns `r` to the free list, merged with the free ranges it touches.
    fn make_range_available(&mut self, r: AddressRange)
        requires
            free_list_coalesced(old(self).free_list(), old(self).bytes().len() as int),
            r.0 <= r.1 <= old(self).bytes().len(),
            forall|i: int| 0 <= i < old(self).free_list().len() ==> disjoint(r, #[trigger] old(self).free_list()[i]),
        ensures
            is_insert_pos(old(self).free_list(), r.1 as int, insert_pos(old(self).free_list(), r.1 as int)),
            final(self).free_list() == coalesce_insert(old(self).free_list(), r),
            final(self).data == old(self).data,
            final(self).used_ranges == old(self).used_ranges,
            final(self).allocated_count == old(self).allocated_count,
            final(self).elem_size == old(self).elem_size,
            final(self).mutated == old(self).mutated,
    {
        let ghost f = self.free_list();
        let mut p: usize = 0;
        while p < self.available_ranges.len() && self.available_ranges[p].0 < r.1
            invariant
                self.free_list() == f,
                p <= f.len(),
                forall|j: int| 0 <= j < p ==> (#[trigger] f[j]).0 < r.1,
            decreases f.len() - p,
        {
            p = p + 1;
        }
        proof {
            lemma_insert_pos_unique(f, r.1 as int, p as int);
        }
        if r.0 == r.1 {
            return;
        }
        let left = p > 0 && self.available_ranges[p - 1].1 == r.0;
        let right = p < self.available_ranges.len() && self.available_ranges[p].0 == r.1;
        if left && right {
            let merged = (self.available_ranges[p - 1].0, self.available_ranges[p].1);
            self.available_ranges.set(p - 1, merged);
            self.available_ranges.remove(p);
            proof {
                assert(self.free_list() =~= coalesce_insert(f, r));
            }
        } else if left {
            let merged = (self.available_ranges[p - 1].0, r.1);
            self.available_ranges.set(p - 1, merged);
        } else if right {
            let merged = (r.0, self.available_ranges[p].1);
            self.available_ranges.set(p, merged);
        } else {
            self.available_ranges.insert(p, r);
        }
    }

    /// What `free(k)` does: the handle's range goes back to the free list and
    /// its elements leave the count; the bytes stay as they are. An unknown
    /// or stale handle changes nothing but the mutated flag.
    pub open spec fn free_post(pre: Self, k: AddressId, post: Self) -> bool {
        &&& post.bytes() == pre.bytes()
        &&& post.ranges() == pre.ranges().remove(k)
        &&& post.is_mutated()
        &&& post.slots_made() == pre.slots_made()
        &&& pre.ranges().contains_key(k) ==> {
            &&& post.free_list() == coalesce_insert(pre.free_list(), pre.ranges()[k])
            &&& post.count() == pre.count() - rlen(pre.ranges()[k]) / Self::elem()
        }
        &&& !pre.ranges().contains_key(k) ==> {
            &&& post.free_list() == pre.free_list()
            &&& post.count() == pre.count()
        }
    }

    /// Frees the block of a handle.
    pub fn free(&mut self, index: AddressId)
        requires
            old(self).wf(),
        ensures
            final(self).wf(),
            Self::free_post(*old(self), index, *final(self)),
            free_list_coalesced(final(self).free_list(), final(self).bytes().len() as int),
    {
        let ghost pre = *self;
        self.mutated = true;
        match table_remove(&mut self.used_ranges, index) {
            Some(range) => {
                proof {
                    lemma_total_len_remove(pre.ranges(), index);
                    lemma_total_len_nonneg(self.ranges());
                    lemma_release_count(
                        self.allocated_count as int, self.elem_size as int, rlen(range),
                        total_len(self.ranges()));
                }
                self.allocated_count = self.allocated_count - (range.1 - range.0) / self.elem_size;
                assert(self.allocated_count * self.elem_size == total_len(self.ranges()));
                self.make_range_available(range);
                proof {
                    self.lemma_returned_range_keeps_wf(pre, range);
                }
            },
            None => {
                proof {
                    assert(self.ranges() =~= pre.ranges());
                }
            },
        }
    }

    /// After a range that overlapped no live nor free range was put into the
    /// free list, the live ranges still overlap no free range.
    proof fn lemma_returned_range_keeps_wf(&self, pre: Self, range: AddressRange)
        requires
            free_list_coalesced(pre.free_list(), pre.bytes().len() as int),
            range.0 <= range.1 <= pre.bytes().len(),
            forall|i: int| 0 <= i < pre.free_list().len() ==> disjoint(range, #[trigger] pre.free_list()[i]),
            is_insert_pos(pre.free_list(), range.1 as int, insert_pos(pre.free_list(), range.1 as int)),
            self.free_list() == coalesce_insert(pre.free_list(), range),
            self.bytes() == pre.bytes(),
            forall|k: AddressId| #[trigger] self.ranges().contains_key(k) ==> {
                &&& self.ranges()[k].0 <= self.ranges()[k].1
                &&& disjoint(self.ranges()[k], range)
                &&& forall|i: int| 0 <= i < pre.free_list().len() ==> disjoint(self.ranges()[k], #[trigger] pre.free_list()[i])
            },
        ensures
            free_list_coalesced(self.free_list(), self.bytes().len() as int),
            forall|k: AddressId, i: int|
                #![trigger self.ranges()[k], self.free_list()[i]]
                self.ranges().contains_key(k) && 0 <= i < self.free_list().len()
                    ==> disjoint(self.ranges()[k], self.free_list()[i]),
    {
        let f = pre.free_list();
        let n = pre.bytes().len() as int;
        let p = insert_pos(f, range.1 as int);
        lemma_coalesce_insert(f, n, range, (0, 0), p);
        assert forall|k: AddressId, i: int|
            self.ranges().contains_key(k) && 0 <= i < self.free_list().len()
                implies disjoint(#[trigger] self.ranges()[k], #[trigger] self.free_list()[i]) by {
            lemma_coalesce_insert(f, n, range, self.ranges()[k], p);
        }
    }

    /// The number of elements of a live handle.
    pub fn len_of(&self, index: &AddressId) -> (r: usize)
        requires
            self.wf(),
            self.ranges().contains_key(*index),
        ensures
            r == rlen(self.ranges()[*index]) / Self::elem(),
    {
        let range = table_get(&self.used_ranges, *index).unwrap();
        (range.1 - range.0) / self.elem_size
    }

    /// A copy of the bytes of a live handle.
    pub fn get(&self, index: &AddressId) -> (r: Vec<u8>)
        requires
            self.wf(),
            self.ranges().contains_key(*index),
        ensures
            r@ == self.content(*index),
    {
        let range = table_get(&self.used_ranges, *index).unwrap();
        let mut out: Vec<u8> = Vec::new();
        let mut i: usize = range.0;
        while i < range.1
            invariant
                range == self.ranges()[*index],
                range.0 <= i <= range.1 <= self.data@.len(),
                out@ =~= self.bytes().subrange(range.0 as int, i as int),
            decreases range.1 - i,
        {
            out.push(self.data[i]);
            i = i + 1;
        }
        out
    }

    /// Writes `bytes` into the block of a live handle, from byte `offset` of
    /// the block on.
    pub fn set(&mut self, index: &AddressId, offset: usize, bytes: &[u8])
        requires
            old(self).wf(),
            old(self).ranges().contains_key(*index),
            offset + bytes@.len() <= rlen(old(self).ranges()[*index]),
        ensures
            final(self).wf(),
            final(self).bytes() == write_at(
                old(self).bytes(), old(self).ranges()[*index].0 + offset, bytes@),
            final(self).ranges() == old(self).ranges(),
            final(self).free_list() == old(self).free_list(),
            final(self).count() == old(self).count(),
            final(self).slots_made() == old(self).slots_made(),
            final(self).is_mutated(),
    {
        let ghost pre = *self;
        self.mutated = true;
        let range = table_get(&self.used_ranges, *index).unwrap();
        let at = range.0 + offset;
        let mut j: usize = 0;
        while j < bytes.len()
            invariant
                self.wf(),
                at + bytes@.len() <= range.1 <= self.data@.len(),
                self.data@.len() == pre.bytes().len(),
                self.used_ranges == pre.used_ranges,
                self.available_ranges == pre.available_ranges,
                self.allocated_count == pre.allocated_count,
                self.mutated,
                j <= bytes@.len(),
                forall|i: int| 0 <= i < self.data@.len() ==> #[trigger] self.data@[i] == if at <= i < at + j {
                    bytes@[i - at]
                } else {
                    pre.bytes()[i]
                },
            decreases bytes@.len() - j,
        {
            self.data.set(at + j, bytes[j]);
            j = j + 1;
        }
        proof {
            assert(self.bytes() =~= write_at(pre.bytes(), at as int, bytes@));
        }
    }

    /// What `resize(k, len)` does. Growing frees the block and gives the
    /// handle a new block of `len` elements, placed as `allocate` would
    /// place it (the old bytes are not carried over); shrinking frees the leading bytes and keeps the last
    /// `len` elements; the same length changes nothing.
    pub open spec fn resize_post(pre: Self, k: AddressId, len: nat, k2: AddressId, post: Self) -> bool {
        let r = pre.ranges()[k];
        let size = len * Self::elem();
        if size > rlen(r) {
            let f = coalesce_insert(pre.free_list(), r);
            let n = pre.bytes().len() as int;
            &&& k2 == k
            &&& post.ranges() == pre.ranges().insert(k, placement(f, n, size))
            &&& post.free_list() == free_after_take(f, size)
            &&& post.bytes() == if last_fit(f, size) >= 0 {
                pre.bytes()
            } else {
                pre.bytes() + Seq::new(size as nat, |i: int| 0u8)
            }
            &&& post.count() == pre.count() - rlen(r) / Self::elem() + len
            &&& post.is_mutated()
            &&& post.slots_made() == pre.slots_made()
        } else if size == rlen(r) {
            &&& k2 == k
            &&& post == pre
        } else {
            &&& k2 == k
            &&& post.ranges() == pre.ranges().insert(k, ((r.1 - size) as usize, r.1))
            &&& post.free_list() == coalesce_insert(pre.free_list(), (r.0, (r.1 - size) as usize))
            &&& post.bytes() == pre.bytes()
            &&& post.count() == pre.count() - (rlen(r) - size) / Self::elem()
            &&& post.is_mutated()
            &&& post.slots_made() == pre.slots_made()
        }
    }

    /// Changes the number of elements of a live handle, which keeps its
    /// value.
    pub fn resize(&mut self, index: &mut AddressId, len: usize)
        requires
            old(self).wf(),
            old(self).ranges().contains_key(*old(index)),
            old(self).bytes().len() + len * Self::elem() <= usize::MAX,
            (old(self).count() + len) * Self::elem() <= usize::MAX,
        ensures
            final(self).wf(),
            Self::resize_post(*old(self), *old(index), len as nat, *final(index), *final(self)),
    {
        let ghost pre = *self;
        proof {
            vstd::arithmetic::mul::lemma_mul_nonnegative(len as int, self.elem_size as int);
            vstd::arithmetic::div_mod::lemma_mod_multiples_basic(len as int, self.elem_size as int);
        }
        let size: usize = len * self.elem_size;
        let range = table_get(&self.used_ranges, *index).unwrap();
        if range.1 - range.0 < size {
            if range.1 - range.0 > 0 {
                proof {
                    vstd::arithmetic::div_mod::lemma_mod_multiples_basic(0, self.elem_size as int);
                }
                self.release_front(*index, 0, 0);
            }
            let ghost mid = *self;
            proof {
                assert(mid.free_list() == coalesce_insert(pre.free_list(), range));
                assert(mid.ranges()[*index] == (range.1, range.1) || mid.ranges()[*index] == range);
                assert(rlen(mid.ranges()[*index]) == 0);
                vstd::arithmetic::div_mod::lemma_div_pos_is_pos(rlen(range), self.elem_size as int);
                assert(mid.count() <= pre.count());
                vstd::arithmetic::mul::lemma_mul_inequality(
                    (mid.count() + len) as int, (pre.count() + len) as int, self.elem_size as int);
                vstd::arithmetic::mul::lemma_mul_is_distributive_add_other_way(
                    self.elem_size as int, mid.count() as int, len as int);
                assert((mid.count() + len) * self.elem_size <= usize::MAX);
                vstd::arithmetic::mul::lemma_mul_is_commutative((mid.count() + len) as int, self.elem_size as int);
                if mid.count() + len > 0 {
                    vstd::arithmetic::mul::lemma_mul_increases(
                        self.elem_size as int, (mid.count() + len) as int);
                }
            }
            let block = self.place(size);
            table_set(&mut self.used_ranges, *index, block);
            self.allocated_count = self.allocated_count + len;
            self.mutated = true;
            proof {
                assert(self.ranges() == mid.ranges().insert(*index, block));
                assert(self.ranges() =~= pre.ranges().insert(*index, block));
                assert(self.free_list() == free_after_take(coalesce_insert(pre.free_list(), range), size as int));
                assert(self.count() == pre.count() - rlen(range) / Self::elem() + len);
                lemma_total_len_update(mid.ranges(), *index, block);
                assert forall|k: AddressId, j: AddressId|
                    #![trigger self.ranges()[k], self.ranges()[j]]
                    self.ranges().contains_key(k) && self.ranges().contains_key(j) && k != j
                        implies disjoint(self.ranges()[k], self.ranges()[j]) by {
                    if k != *index && j != *index {
                        assert(disjoint(mid.ranges()[k], mid.ranges()[j]));
                    } else if k == *index {
                        assert(mid.ranges().contains_key(j));
                    } else {
                        assert(mid.ranges().contains_key(k));
                    }
                }
                assert forall|k: AddressId, i: int|
                    #![trigger self.ranges()[k], self.free_list()[i]]
                    self.ranges().contains_key(k) && 0 <= i < self.free_list().len()
                        implies disjoint(self.ranges()[k], self.free_list()[i]) by {
                    assert(mid.ranges().contains_key(k));
                }
                assert forall|k: AddressId| #[trigger] self.ranges().contains_key(k) implies {
                    &&& self.ranges()[k].0 <= self.ranges()[k].1 <= self.bytes().len()
                    &&& rlen(self.ranges()[k]) % self.elem_size as int == 0
                } by {
                    assert(mid.ranges().contains_key(k));
                }
            }
        } else if range.1 - range.0 > size {
            self.release_front(*index, size, len);
        }
    }

    /// Frees the leading bytes of a live block and keeps its last `size`
    /// bytes (`len` elements).
    fn release_front(&mut self, index: AddressId, size: usize, len: usize)
        requires
            old(self).wf(),
            old(self).ranges().contains_key(index),
            size == len * Self::elem(),
            size as int % Self::elem() == 0,
            size < rlen(old(self).ranges()[index]),
        ensures
            final(self).wf(),
            ({
                let r = old(self).ranges()[index];
                &&& final(self).ranges() == old(self).ranges().insert(index, ((r.1 - size) as usize, r.1))
                &&& final(self).free_list() == coalesce_insert(old(self).free_list(), (r.0, (r.1 - size) as usize))
                &&& final(self).bytes() == old(self).bytes()
                &&& final(self).count() == old(self).count() - (rlen(r) - size) / Self::elem()
                &&& final(self).is_mutated()
                &&& final(self).slots_made() == old(self).slots_made()
            }),
    {
        let ghost pre = *self;
        let range = table_get(&self.used_ranges, index).unwrap();
        self.mutated = true;
        let keep: AddressRange = (range.1 - size, range.1);
        let released: AddressRange = (range.0, range.1 - size);
        proof {
            let rest = pre.ranges().remove(index);
            lemma_total_len_update(pre.ranges(), index, keep);
            lemma_total_len_remove(pre.ranges(), index);
            lemma_total_len_nonneg(rest);
            lemma_mul_mod_sub(rlen(range), size as int, len as int, self.elem_size as int);
            lemma_release_count(
                self.allocated_count as int, self.elem_size as int, rlen(released),
                total_len(rest) + size);
        }
        self.allocated_count = self.allocated_count - (released.1 - released.0) / self.elem_size;
        table_set(&mut self.used_ranges, index, keep);
        let ghost before_return = *self;
        self.make_range_available(released);
        proof {
            assert forall|k: AddressId| #[trigger] before_return.ranges().contains_key(k) implies disjoint(
                before_return.ranges()[k], released) by {
                if k != index {
                    assert(disjoint(pre.ranges()[k], pre.ranges()[index]));
                }
            }
            self.lemma_returned_range_keeps_wf(before_return, released);
        }
    }

    /// What compaction gives: the same handles with the same lengths and
    /// bytes, the same count, an empty free list, and a buffer that holds
    /// the live bytes and nothing else.
    pub open spec fn compacted(pre: Self, post: Self) -> bool {
        &&& post.free_list().len() == 0
        &&& post.ranges().dom() == pre.ranges().dom()
        &&& forall|k: AddressId| #[trigger] pre.ranges().contains_key(k) ==> {
            &&& rlen(post.ranges()[k]) == rlen(pre.ranges()[k])
            &&& post.content(k) == pre.content(k)
        }
        &&& post.bytes().len() == total_len(pre.ranges())
        &&& post.count() == pre.count()
        &&& post.slots_made() == pre.slots_made()
    }

    /// Removes every hole from the buffer: the live blocks are laid out
    /// one after the other, in the order of their start offsets.
    fn fix_sequence(&mut self)
        requires
            old(self).wf(),
        ensures
            final(self).wf(),
            Self::compacted(*old(self), *final(self)),
            Self::laid_out_by(*old(self), *final(self), true, false),
            final(self).is_mutated() == old(self).is_mutated(),
    {
        self.relayout(true, false);
    }

    /// What `upload` does: nothing when the buffer has not changed since the
    /// last upload; else it compacts the buffer, clears the flag and says
    /// that `data()` must be sent to the device.
    pub open spec fn upload_post(pre: Self, send: bool, post: Self) -> bool {
        &&& send == pre.is_mutated()
        &&& !send ==> post == pre
        &&& send ==> Self::compacted(pre, post) && Self::laid_out_by(pre, post, true, false) && !post.is_mutated()
    }

    /// Prepares an upload: returns whether the bytes of `data()` must be
    /// written to the device buffer.
    pub fn upload(&mut self) -> (send: bool)
        requires
            old(self).wf(),
        ensures
            final(self).wf(),
            Self::upload_post(*old(self), send, *final(self)),
    {
        if !self.mutated {
            return false;
        }
        self.fix_sequence();
        self.mutated = false;
        true
    }

    /// The reclaimed ranges, in list order.
    pub fn free_ranges(&self) -> (r: &[AddressRange])
        ensures
            r@ == self.free_list(),
    {
        self.available_ranges.as_slice()
    }

    /// Whether a handle is live.
    pub fn contains(&self, index: &AddressId) -> (r: bool)
        ensures
            r == self.ranges().contains_key(*index),
    {
        table_get(&self.used_ranges, *index).is_some()
    }

    /// A bound on the slots that the handle table has made; `allocate`
    /// may be called while `slots_made() < u32::MAX - 1`.
    pub fn slots_made_bound(&self) -> (r: usize)
        ensures
            r as int >= self.slots_made(),
    {
        table_capacity(&self.used_ranges)
    }

    /// The byte range of a live handle.
    pub fn range_of(&self, index: &AddressId) -> (r: AddressRange)
        requires
            self.ranges().contains_key(*index),
        ensures
            r == self.ranges()[*index],
    {
        table_get(&self.used_ranges, *index).unwrap()
    }

    /// The bytes of the buffer, as the device should hold them.
    pub fn data(&self) -> (r: &[u8])
        ensures
            r@ == self.bytes(),
    {
        self.data.as_slice()
    }

    /// Whether the block of `a` now lies before the block of `b` wherever
    /// the order puts it first: by old start offset or by length, rising or
    /// (with `descending`) falling.
    pub open spec fn laid_out_by(pre: Self, post: Self, by_start: bool, descending: bool) -> bool {
        forall|a: AddressId, b: AddressId|
            #![trigger post.ranges()[a], post.ranges()[b]]
            pre.ranges().contains_key(a) && pre.ranges().contains_key(b) && (if descending {
                layout_key(pre.ranges()[a], by_start) > layout_key(pre.ranges()[b], by_start)
            } else {
                layout_key(pre.ranges()[a], by_start) < layout_key(pre.ranges()[b], by_start)
            }) ==> post.ranges()[a].1 <= post.ranges()[b].0
    }

    /// Rebuilds the buffer from the live blocks alone, one after the other,
    /// ordered by `layout_key`.
    fn relayout(&mut self, by_start: bool, descending: bool)
        requires
            old(self).wf(),
        ensures
            final(self).wf(),
            Self::compacted(*old(self), *final(self)),
            Self::laid_out_by(*old(self), *final(self), by_start, descending),
            final(self).is_mutated() == old(self).is_mutated(),
    {
        let ghost pre = *self;
        let keys = table_keys(&self.used_ranges);
        let n = keys.len();
        let mut items: Vec<(usize, usize)> = Vec::new();
        let mut m: usize = 0;
        while m < n
            invariant
                *self == pre,
                pre.wf(),
                n == keys@.len(),
                forall|k: AddressId| keys@.contains(k) <==> pre.ranges().contains_key(k),
                m <= n,
                items@.len() == m,
                forall|t: int| 0 <= t < m ==> (#[trigger] items@[t]) == (layout_key(pre.ranges()[keys@[t]], by_start) as usize, t as usize),
            decreases n - m,
        {
            assert(keys@.contains(keys@[m as int]));
            let r = table_get(&self.used_ranges, keys[m]).unwrap();
            let key = if by_start { r.0 } else { r.1 - r.0 };
            items.push((key, m));
            m = m + 1;
        }
        let ghost items_seq = items@;
        let ascending = sorted_by_first(items);
        proof {
            lemma_reordered_indices(items_seq, ascending@, n as int);
        }
        let mut order: Vec<(usize, usize)> = Vec::new();
        if descending {
            let mut t: usize = 0;
            while t < n
                invariant
                    t <= n == ascending@.len(),
                    order@ =~= Seq::new(t as nat, |a: int| ascending@[n - 1 - a]),
                decreases n - t,
            {
                order.push(ascending[n - 1 - t]);
                t = t + 1;
            }
        } else {
            order = ascending;
        }
        proof {
            assert forall|m2: int| 0 <= m2 < n implies #[trigger] has_index(order@, m2) by {
                assert(has_index(ascending@, m2));
                let t = choose|t: int| 0 <= t < ascending@.len() && (#[trigger] ascending@[t]).1 == m2;
                if descending {
                    assert(order@[n - 1 - t] == ascending@[t]);
                }
            }
            assert forall|a: int, b: int| 0 <= a < n && 0 <= b < n && a != b implies (#[trigger] order@[a]).1 != (#[trigger] order@[b]).1 by {
                if descending {
                    assert(ascending@[n - 1 - a].1 != ascending@[n - 1 - b].1);
                }
            }
            assert forall|t: int| 0 <= t < n implies (#[trigger] order@[t]).1 < n && order@[t] == items_seq[order@[t].1 as int] by {
                if descending {
                    assert(order@[t] == ascending@[n - 1 - t]);
                }
            }
            assert forall|a: int, b: int| 0 <= a < b < n implies (if descending {
                (#[trigger] order@[a]).0 >= (#[trigger] order@[b]).0
            } else {
                order@[a].0 <= order@[b].0
            }) by {
                if descending {
                    assert(ascending@[n - 1 - b].0 <= ascending@[n - 1 - a].0);
                }
            }
        }
        let mut new_data: Vec<u8> = Vec::new();
        let mut placed: Vec<AddressRange> = Vec::new();
        let mut z: usize = 0;
        while z < n
            invariant
                z <= n,
                placed@.len() == z,
            decreases n - z,
        {
            placed.push((0, 0));
            z = z + 1;
        }
        let ghost mut segs: Seq<AddressRange> = Seq::empty();
        let ghost mut done: Map<AddressId, AddressRange> = Map::empty();
        proof {
            assert(total_len(done) == 0);
        }
        let mut t: usize = 0;
        while t < n
            invariant
                self.wf(),
                *self == pre,
                n == keys@.len() == order@.len(),
                keys@.no_duplicates(),
                forall|k: AddressId| keys@.contains(k) <==> pre.ranges().contains_key(k),
                forall|a: int| 0 <= a < n ==> (#[trigger] order@[a]).1 < n && order@[a] == items_seq[order@[a].1 as int],
                forall|a: int| 0 <= a < n ==> (#[trigger] items_seq[a]) == (layout_key(pre.ranges()[keys@[a]], by_start) as usize, a as usize),
                done.dom().finite(),
                forall|k: AddressId| #[trigger] done.contains_key(k) ==> pre.ranges().contains_key(k) && done[k] == pre.ranges()[k]
                    && exists|a: int| 0 <= a < t && keys@[order@[a].1 as int] == k,
                forall|a: int| 0 <= a < t ==> done.contains_key(#[trigger] keys@[order@[a].1 as int]),
                new_data@.len() == total_len(done),
                forall|a: int, b: int| 0 <= a < n && 0 <= b < n && a != b ==> (#[trigger] order@[a]).1 != (#[trigger] order@[b]).1,
                t <= n,
                placed@.len() == n,
                segs.len() == t,
                new_data@.len() == if t == 0 { 0 } else { segs[t - 1].1 as int },
                forall|a: int| 0 <= a < t ==> {
                    &&& (#[trigger] segs[a]).0 <= segs[a].1 <= new_data@.len()
                    &&& rlen(segs[a]) == rlen(pre.ranges()[keys@[order@[a].1 as int]])
                    &&& new_data@.subrange(segs[a].0 as int, segs[a].1 as int) == pre.content(keys@[order@[a].1 as int])
                    &&& placed@[order@[a].1 as int] == segs[a]
                },
                forall|a: int, b: int| 0 <= a < b < t ==> (#[trigger] segs[a]).1 <= (#[trigger] segs[b]).0,
            decreases n - t,
        {
            let i = order[t].1;
            let k = keys[i];
            assert(keys@.contains(k));
            let r = table_get(&self.used_ranges, k).unwrap();
            let start = new_data.len();
            let ghost before = new_data@;
            let mut q: usize = r.0;
            while q < r.1
                invariant
                    *self == pre,
                    r == pre.ranges()[k],
                    r.0 <= q <= r.1 <= self.data@.len(),
                    start == before.len(),
                    new_data@ =~= before + self.data@.subrange(r.0 as int, q as int),
                decreases r.1 - q,
            {
                new_data.push(self.data[q]);
                q = q + 1;
            }
            let seg: AddressRange = (start, new_data.len());
            placed.set(i, seg);
            proof {
                assert forall|a: int| 0 <= a < t implies new_data@.subrange((#[trigger] segs[a]).0 as int, segs[a].1 as int) == pre.content(keys@[order@[a].1 as int]) by {
                    assert(new_data@.subrange(segs[a].0 as int, segs[a].1 as int) =~= before.subrange(segs[a].0 as int, segs[a].1 as int));
                    assert(order@[a].1 != order@[t as int].1);
                }
                assert(new_data@.subrange(start as int, new_data@.len() as int) =~= pre.content(k));
                segs = segs.push(seg);
                if done.contains_key(k) {
                    let a = choose|a: int| 0 <= a < t && keys@[order@[a].1 as int] == k;
                    assert(order@[a].1 != order@[t as int].1);
                }
                lemma_total_len_insert(done, k, pre.ranges()[k]);
                done = done.insert(k, pre.ranges()[k]);
            }
            t = t + 1;
        }
        let mut w: usize = 0;
        while w < n
            invariant
                w <= n == keys@.len(),
                keys@.no_duplicates(),
                forall|k: AddressId| keys@.contains(k) <==> pre.ranges().contains_key(k),
                self.ranges().dom() == pre.ranges().dom(),
                self.data == pre.data,
                self.available_ranges == pre.available_ranges,
                self.allocated_count == pre.allocated_count,
                self.elem_size == pre.elem_size,
                self.mutated == pre.mutated,
                self.slots_made() == pre.slots_made(),
                placed@.len() == n,
                forall|a: int| 0 <= a < n ==> #[trigger] self.ranges()[keys@[a]] == if a < w {
                    placed@[a]
                } else {
                    pre.ranges()[keys@[a]]
                },
            decreases n - w,
        {
            assert(keys@.contains(keys@[w as int]));
            table_set(&mut self.used_ranges, keys[w], placed[w]);
            proof {
                assert forall|a: int| 0 <= a < n implies #[trigger] self.ranges()[keys@[a]] == if a < w + 1 {
                    placed@[a]
                } else {
                    pre.ranges()[keys@[a]]
                } by {
                    if a != w {
                        assert(keys@[a] != keys@[w as int]);
                    }
                }
            }
            w = w + 1;
        }
        proof {
            assert forall|k: AddressId| #[trigger] pre.ranges().contains_key(k) implies done.contains_key(k) by {
                assert(keys@.contains(k));
                let m2 = choose|m2: int| 0 <= m2 < n && keys@[m2] == k;
                assert(has_index(order@, m2));
                let a = choose|a: int| 0 <= a < order@.len() && (#[trigger] order@[a]).1 == m2;
                assert(done.contains_key(keys@[order@[a].1 as int]));
            }
            assert(done =~= pre.ranges());
        }
        self.data = new_data;
        self.available_ranges.clear();
        proof {
            assert forall|a: int| 0 <= a < n implies (#[trigger] order@[a]).1 < n
                && order@[a].0 == layout_key(pre.ranges()[keys@[order@[a].1 as int]], by_start) by {
                let m2 = order@[a].1 as int;
                assert(keys@.contains(keys@[m2]));
                assert(items_seq[m2] == (layout_key(pre.ranges()[keys@[m2]], by_start) as usize, m2 as usize));
            }
            self.lemma_sorted_layout(pre, keys@, order@, segs, placed@, by_start, descending);
        }
    }

    /// The layout that `relayout` builds is a compacted, well-formed buffer with
    /// the blocks in the order of their lengths.
    proof fn lemma_sorted_layout(
        &self,
        pre: Self,
        keys: Seq<AddressId>,
        order: Seq<(usize, usize)>,
        segs: Seq<AddressRange>,
        placed: Seq<AddressRange>,
        by_start: bool,
        descending: bool,
    )
        requires
            pre.wf(),
            keys.no_duplicates(),
            forall|k: AddressId| keys.contains(k) <==> pre.ranges().contains_key(k),
            order.len() == keys.len() == segs.len() == placed.len(),
            forall|a: int| 0 <= a < keys.len() ==> (#[trigger] order[a]).1 < keys.len()
                && order[a].0 == layout_key(pre.ranges()[keys[order[a].1 as int]], by_start),
            forall|m: int| 0 <= m < keys.len() ==> #[trigger] has_index(order, m),
            forall|a: int, b: int| 0 <= a < b < keys.len() ==> (if descending {
                (#[trigger] order[a]).0 >= (#[trigger] order[b]).0
            } else {
                order[a].0 <= order[b].0
            }),
            forall|a: int| 0 <= a < keys.len() ==> {
                &&& (#[trigger] segs[a]).0 <= segs[a].1 <= self.bytes().len()
                &&& rlen(segs[a]) == rlen(pre.ranges()[keys[order[a].1 as int]])
                &&& self.bytes().subrange(segs[a].0 as int, segs[a].1 as int) == pre.content(keys[order[a].1 as int])
                &&& placed[order[a].1 as int] == segs[a]
            },
            forall|a: int, b: int| 0 <= a < b < keys.len() ==> (#[trigger] segs[a]).1 <= (#[trigger] segs[b]).0,
            self.ranges().dom() == pre.ranges().dom(),
            forall|a: int| 0 <= a < keys.len() ==> #[trigger] self.ranges()[keys[a]] == placed[a],
            self.free_list().len() == 0,
            self.allocated_count == pre.allocated_count,
            self.elem_size == pre.elem_size,
            self.slots_made() == pre.slots_made(),
            self.bytes().len() == total_len(pre.ranges()),
        ensures
            self.wf(),
            Self::compacted(pre, *self),
            Self::laid_out_by(pre, *self, by_start, descending),
    {
        let n = keys.len() as int;
        assert forall|k: AddressId| #[trigger] pre.ranges().contains_key(k) implies exists|t: int|
            0 <= t < n && keys[order[t].1 as int] == k && self.ranges()[k] == segs[t] by {
            assert(keys.contains(k));
            let m = choose|m: int| 0 <= m < n && keys[m] == k;
            assert(has_index(order, m));
            let t = choose|t: int| 0 <= t < order.len() && (#[trigger] order[t]).1 == m;
            assert(self.ranges()[keys[m]] == placed[m]);
            assert(placed[order[t].1 as int] == segs[t]);
            assert(0 <= t < n && keys[order[t].1 as int] == k && self.ranges()[k] == segs[t]);
        }
        assert forall|k: AddressId| #[trigger] self.ranges().contains_key(k) implies {
            &&& self.ranges()[k].0 <= self.ranges()[k].1 <= self.bytes().len()
            &&& rlen(self.ranges()[k]) == rlen(pre.ranges()[k])
            &&& self.content(k) == pre.content(k)
        } by {
            assert(pre.ranges().contains_key(k));
            let t = choose|t: int| 0 <= t < n && keys[order[t].1 as int] == k && self.ranges()[k] == segs[t];
        }
        assert forall|k: AddressId, j: AddressId|
            self.ranges().contains_key(k) && self.ranges().contains_key(j) && k != j
                implies disjoint(#[trigger] self.ranges()[k], #[trigger] self.ranges()[j]) by {
            assert(pre.ranges().contains_key(k));
            assert(pre.ranges().contains_key(j));
            let t = choose|t: int| 0 <= t < n && keys[order[t].1 as int] == k && self.ranges()[k] == segs[t];
            let u = choose|u: int| 0 <= u < n && keys[order[u].1 as int] == j && self.ranges()[j] == segs[u];
            if t < u {
                assert(segs[t].1 <= segs[u].0);
            } else if u < t {
                assert(segs[u].1 <= segs[t].0);
            }
        }
        assert forall|a: AddressId, b: AddressId|
            #![trigger self.ranges()[a], self.ranges()[b]]
            pre.ranges().contains_key(a) && pre.ranges().contains_key(b) && (if descending {
                layout_key(pre.ranges()[a], by_start) > layout_key(pre.ranges()[b], by_start)
            } else {
                layout_key(pre.ranges()[a], by_start) < layout_key(pre.ranges()[b], by_start)
            }) implies self.ranges()[a].1 <= self.ranges()[b].0 by {
            let t = choose|t: int| 0 <= t < n && keys[order[t].1 as int] == a && self.ranges()[a] == segs[t];
            let u = choose|u: int| 0 <= u < n && keys[order[u].1 as int] == b && self.ranges()[b] == segs[u];
            if u < t {
                assert(order[u].0 == layout_key(pre.ranges()[b], by_start));
                assert(order[t].0 == layout_key(pre.ranges()[a], by_start));
            } else if t < u {
                assert(segs[t].1 <= segs[u].0);
            }
        }
        lemma_total_len_same_lengths(pre.ranges(), self.ranges());
        assert forall|k: AddressId| #[trigger] self.ranges().contains_key(k) implies rlen(self.ranges()[k]) % self.elem_size as int == 0 by {
            assert(pre.ranges().contains_key(k));
        }
    }

    /// Optimizes the layout of the buffer. `Truncate` compacts it and trims
    /// its spare capacity, and returns `true`: the device buffer is then to
    /// be replaced by one made from `data()`. The sorting strategies rebuild
    /// the buffer with the blocks ordered by length, and return `false`.
    pub fn optimize(&mut self, strategy: Strategy) -> (rebuild: bool)
        requires
            old(self).wf(),
        ensures
            final(self).wf(),
            Self::compacted(*old(self), *final(self)),
            rebuild == (strategy == Strategy::Truncate),
            strategy == Strategy::Truncate ==> final(self).is_mutated() == old(self).is_mutated(),
            strategy == Strategy::Truncate ==> Self::laid_out_by(*old(self), *final(self), true, false),
            strategy == Strategy::SortSizeDescending ==> Self::laid_out_by(*old(self), *final(self), false, true)
                && final(self).is_mutated(),
            strategy == Strategy::SortSizeAscending ==> Self::laid_out_by(*old(self), *final(self), false, false)
                && final(self).is_mutated(),
    {
        match strategy {
            Strategy::Truncate => {
                self.fix_sequence();
                shrink_bytes(&mut self.data);
                true
            },
            Strategy::SortSizeDescending => {
                self.relayout(false, true);
                self.mutated = true;
                false
            },
            Strategy::SortSizeAscending => {
                self.relayout(false, false);
                self.mutated = true;
                false
            },
        }
    }

    /// In every state that the operations reach, the count of live elements
    /// times the element size is the sum of the lengths of the live blocks,
    /// and the count is the sum of the element counts of the live handles.
    pub proof fn lemma_size_is_live_bytes(m: Self)
        requires
            m.wf(),
        ensures
            m.count() * Self::elem() == total_len(m.ranges()),
            m.count() == total_elems(m.ranges(), Self::elem()),
            forall|k: AddressId| #[trigger] m.ranges().contains_key(k) ==> rlen(m.ranges()[k]) % Self::elem() == 0,
    {
        lemma_total_elems(m.ranges(), Self::elem());
        vstd::arithmetic::mul::lemma_mul_is_commutative(m.count() as int, Self::elem());
        vstd::arithmetic::mul::lemma_mul_equality_converse(
            Self::elem(), m.count() as int, total_elems(m.ranges(), Self::elem()));
    }

    /// In every state that the operations reach, the element size is
    /// positive, every live block lies inside the buffer and holds whole
    /// elements, and no live block overlaps another live block or a free
    /// range.
    pub proof fn lemma_blocks_apart(m: Self)
        requires
            m.wf(),
        ensures
            Self::elem() > 0,
            m.ranges().dom().finite(),
            forall|k: AddressId| #[trigger] m.ranges().contains_key(k) ==> {
                &&& m.ranges()[k].0 <= m.ranges()[k].1 <= m.bytes().len()
                &&& rlen(m.ranges()[k]) % Self::elem() == 0
            },
            forall|k: AddressId, j: AddressId|
                #![trigger m.ranges()[k], m.ranges()[j]]
                m.ranges().contains_key(k) && m.ranges().contains_key(j) && k != j
                    ==> disjoint(m.ranges()[k], m.ranges()[j]),
            forall|k: AddressId, i: int|
                #![trigger m.ranges()[k], m.free_list()[i]]
                m.ranges().contains_key(k) && 0 <= i < m.free_list().len()
                    ==> disjoint(m.ranges()[k], m.free_list()[i]),
    {
    }

    /// A new block overlaps no other live block, and the bytes of every
    /// other live block are as they were.
    pub proof fn lemma_allocation_keeps_other_blocks(a: Self, count: nat, id: AddressId, b: Self, k: AddressId)
        requires
            a.wf(),
            b.wf(),
            Self::allocate_post(a, count, id, b),
            a.ranges().contains_key(k),
        ensures
            k != id,
            disjoint(b.ranges()[id], b.ranges()[k]),
            b.ranges()[k] == a.ranges()[k],
            b.content(k) == a.content(k),
    {
        assert(b.ranges().contains_key(id));
        assert(b.content(k) =~= a.content(k));
    }

    /// In every state that the operations reach, the free list is sorted by
    /// start offset and no two of its entries overlap or touch.
    pub proof fn lemma_free_list_stays_coalesced(m: Self)
        requires
            m.wf(),
        ensures
            free_list_coalesced(m.free_list(), m.bytes().len() as int),
    {
    }

    /// An upload right after an upload sends nothing and changes nothing.
    pub proof fn lemma_second_upload_skipped(a: Self, s1: bool, b: Self, s2: bool, c: Self)
        requires
            Self::upload_post(a, s1, b),
            Self::upload_post(b, s2, c),
        ensures
            !s2,
            c == b,
    {
    }

    /// Freeing one handle leaves the bytes of every other live handle as
    /// they were.
    pub proof fn lemma_free_keeps_other_blocks(a: Self, h: AddressId, b: Self, k: AddressId)
        requires
            Self::free_post(a, h, b),
            a.ranges().contains_key(k),
            k != h,
        ensures
            b.ranges().contains_key(k),
            b.content(k) == a.content(k),
    {
    }

    /// Shrinking a block keeps its last elements: the trailing bytes of the
    /// old block.
    pub proof fn lemma_shrink_keeps_suffix(a: Self, h: AddressId, len: nat, h2: AddressId, b: Self)
        requires
            a.wf(),
            a.ranges().contains_key(h),
            len * Self::elem() < rlen(a.ranges()[h]),
            Self::resize_post(a, h, len, h2, b),
        ensures
            h2 == h,
            b.content(h) == a.content(h).subrange(
                rlen(a.ranges()[h]) - len * Self::elem(), rlen(a.ranges()[h])),
    {
        let r = a.ranges()[h];
        let size = len * Self::elem();
        assert(b.content(h) =~= a.content(h).subrange(rlen(r) - size, rlen(r)));
    }

    /// Resizing one handle leaves the block and the bytes of every other
    /// live handle as they were.
    pub proof fn lemma_resize_keeps_other_blocks(a: Self, h: AddressId, len: nat, h2: AddressId, b: Self, k: AddressId)
        requires
            a.wf(),
            a.ranges().contains_key(h),
            Self::resize_post(a, h, len, h2, b),
            a.ranges().contains_key(k),
            k != h,
        ensures
            h2 == h,
            b.ranges().contains_key(k),
            b.ranges()[k] == a.ranges()[k],
            b.content(k) == a.content(k),
    {
        assert(a.ranges()[k].1 <= a.bytes().len());
        assert(b.content(k) =~= a.content(k));
    }

    /// After compaction the same handles hold the same bytes, the free list
    /// is empty, and the size is the sum of the lengths of the live blocks.
    pub proof fn lemma_compaction_round_trip(a: Self, b: Self)
        requires
            a.wf(),
            b.wf(),
            Self::compacted(a, b),
        ensures
            b.bytes().len() == b.count() * Self::elem(),
            b.ranges().dom() == a.ranges().dom(),
            forall|k: AddressId| #[trigger] a.ranges().contains_key(k) ==> b.content(k) == a.content(k),
            b.free_list().len() == 0,
            b.count() * Self::elem() == total_len(b.ranges()),
            total_len(b.ranges()) == total_len(a.ranges()),
    {
    }
}

/// Taking `len` whole elements out of `count` of them, whose bytes make
/// `len` plus `rest`, leaves `rest` bytes.
proof fn lemma_release_count(count: int, e: int, len: int, rest: int)
    requires
        e > 0,
        len >= 0,
        rest >= 0,
        len % e == 0,
        count * e == len + rest,
    ensures
        0 <= len / e <= count,
        (count - len / e) * e == rest,
{
    vstd::arithmetic::div_mod::lemma_fundamental_div_mod(len, e);
    vstd::arithmetic::div_mod::lemma_div_pos_is_pos(len, e);
    vstd::arithmetic::mul::lemma_mul_is_commutative(e, len / e);
    vstd::arithmetic::mul::lemma_mul_inequality_converse(len / e, count, e);
    vstd::arithmetic::mul::lemma_mul_is_distributive_sub_other_way(e, count, len / e);
}

/// There is at most one last fit.
proof fn lemma_last_fit_unique(f: Seq<AddressRange>, size: int, i: int)
    requires
        is_last_fit(f, size, i),
    ensures
        last_fit(f, size) == i,
{
    let c = choose|c: int| is_last_fit(f, size, c);
    if c < i {
        assert(rlen(f[i]) < size);
    } else if c > i {
        assert(rlen(f[c]) < size);
    }
}

/// The part of a block of whole elements that a shrink releases holds
/// whole elements too.
proof fn lemma_mul_mod_sub(total: int, size: int, len: int, e: int)
    requires
        e > 0,
        size == len * e,
        total % e == 0,
        total >= size,
    ensures
        (total - size) % e == 0,
{
    vstd::arithmetic::div_mod::lemma_fundamental_div_mod(total, e);
    vstd::arithmetic::mul::lemma_mul_is_distributive_sub(e, total / e, len);
    vstd::arithmetic::mul::lemma_mul_is_commutative(len, e);
    vstd::arithmetic::div_mod::lemma_mod_multiples_basic(total / e - len, e);
    vstd::arithmetic::mul::lemma_mul_is_commutative(total / e - len, e);
}

} // verus!
