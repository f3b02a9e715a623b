//! The table of live allocations: a `slotmap::SlotMap` from generation-tagged
//! keys to byte ranges, with its contents modelled as a `Map`.

use slotmap::{DefaultKey, SlotMap};
use vstd::prelude::*;

verus! {

/// An index into the table of live allocations.
pub type AddressId = DefaultKey;

#[verifier::external_type_specification]
#[verifier::external_body]
pub struct ExDefaultKey(DefaultKey);

/// The table itself. Verus does not take a declaration of `SlotMap` (its key
/// parameter is bound by slotmap's own `Key` trait), so the map is held in a
/// private field and reached only through the functions below.
#[verifier::external_body]
pub struct Table {
    slots: SlotMap<DefaultKey, (usize, usize)>,
}

/// The live entries of a table: each key to its half-open byte range.
pub uninterp spec fn slot_contents(m: Table) -> Map<DefaultKey, (usize, usize)>;

/// How many slots the insertions into a table have created, live or
/// vacant (besides the reserved slot that a new table starts with).
pub uninterp spec fn slot_count(m: Table) -> nat;

/// Relies on `SlotMap::new`: a new table is empty and has no slots.
#[verifier::external_body]
pub(crate) fn table_new() -> (r: Table)
    ensures
        slot_contents(r) =~= Map::empty(),
        slot_count(r) == 0,
{
    Table { slots: SlotMap::new() }
}

/// Relies on `SlotMap::insert`: the value is stored under a key that no live
/// entry has, creating at most one slot; it panics only when no slot is
/// vacant and `u32::MAX` slots exist, the reserved one included.
#[verifier::external_body]
pub(crate) fn table_insert(m: &mut Table, v: (usize, usize)) -> (k: DefaultKey)
    requires
        slot_count(*old(m)) < u32::MAX - 1,
    ensures
        !slot_contents(*old(m)).contains_key(k),
        slot_contents(*final(m)) == slot_contents(*old(m)).insert(k, v),
        slot_count(*final(m)) <= slot_count(*old(m)) + 1,
{
    m.slots.insert(v)
}

/// Relies on `SlotMap::remove`: the entry of a live key is taken out and
/// returned; an unknown or stale key leaves the table as it was.
#[verifier::external_body]
pub(crate) fn table_remove(m: &mut Table, k: DefaultKey) -> (r: Option<(usize, usize)>)
    ensures
        slot_contents(*old(m)).contains_key(k) ==> r == Some(slot_contents(*old(m))[k]),
        !slot_contents(*old(m)).contains_key(k) ==> r.is_none(),
        slot_contents(*final(m)) == slot_contents(*old(m)).remove(k),
        slot_count(*final(m)) == slot_count(*old(m)),
{
    m.slots.remove(k)
}

/// Relies on `SlotMap::get`: the entry of a live key, `None` for any other.
#[verifier::external_body]
pub(crate) fn table_get(m: &Table, k: DefaultKey) -> (r: Option<(usize, usize)>)
    ensures
        slot_contents(*m).contains_key(k) ==> r == Some(slot_contents(*m)[k]),
        !slot_contents(*m).contains_key(k) ==> r.is_none(),
{
    m.slots.get(k).copied()
}

/// Relies on `IndexMut` of `SlotMap`: overwrites the entry of a live key
/// (it panics on any other key).
#[verifier::external_body]
pub(crate) fn table_set(m: &mut Table, k: DefaultKey, v: (usize, usize))
    requires
        slot_contents(*old(m)).contains_key(k),
    ensures
        slot_contents(*final(m)) == slot_contents(*old(m)).insert(k, v),
        slot_count(*final(m)) == slot_count(*old(m)),
{
    m.slots[k] = v;
}

/// Relies on `SlotMap::keys`: every live key, each once, in slot order.
#[verifier::external_body]
pub(crate) fn table_keys(m: &Table) -> (r: Vec<DefaultKey>)
    ensures
        r@.no_duplicates(),
        forall|k: DefaultKey| r@.contains(k) <==> slot_contents(*m).contains_key(k),
{
    m.slots.keys().collect()
}

/// Relies on `SlotMap::capacity`: the slot vector's capacity less the
/// reserved slot, so never below the slots that insertions have created.
#[verifier::external_body]
pub(crate) fn table_capacity(m: &Table) -> (r: usize)
    ensures
        r as int >= slot_count(*m),
{
    m.slots.capacity()
}

} // verus!
