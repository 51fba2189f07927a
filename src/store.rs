//! The slot table of allocations, kept in a `slab::Slab`.
use vstd::prelude::*;
use slab::Slab;
use crate::allocation::Allocation;

verus! {

#[verifier::external_type_specification]
#[verifier::external_body]
#[verifier::reject_recursive_types(T)]
pub struct ExSlab<T>(Slab<T>);

/// An allocation with the key it was uploaded under.
pub type Entry = (Allocation, String);

/// A slab of allocations with their keys.
pub type EntrySlab = Slab<Entry>;

/// The occupied slots of a slab, by key.
pub uninterp spec fn slab_entries(s: EntrySlab) -> Map<usize, Entry>;

/// The key that the next insertion takes (`Slab::vacant_key`).
pub uninterp spec fn slab_next(s: EntrySlab) -> usize;

/// The number of slots, occupied or vacant, that the slab has laid out.
pub uninterp spec fn slab_slots(s: EntrySlab) -> nat;

/// What holds of every slab: occupied keys lie below the slot count, the next
/// key is vacant, and a slab with no vacant slot appends at its end.
pub open spec fn slab_ok(s: EntrySlab) -> bool {
    &&& slab_entries(s).dom().finite()
    &&& forall|k: usize| #[trigger] slab_entries(s).contains_key(k) ==> k < slab_slots(s)
    &&& slab_next(s) <= slab_slots(s)
    &&& !slab_entries(s).contains_key(slab_next(s))
    &&& slab_entries(s).len() == slab_slots(s) ==> slab_next(s) == slab_slots(s)
}

/// Relies on `Slab::with_capacity`: an empty slab whose first key is 0.
#[verifier::external_body]
pub(crate) fn slab_with_capacity(capacity: usize) -> (r: EntrySlab)
    ensures
        slab_ok(r),
        slab_entries(r).dom().is_empty(),
        slab_next(r) == 0,
        slab_slots(r) == 0,
{
    Slab::with_capacity(capacity)
}

/// Relies on `Slab::insert`: the value goes to the vacant key `next`, which
/// is returned; a slab with no vacant slot grows by one slot.
#[verifier::external_body]
pub(crate) fn slab_insert(s: &mut EntrySlab, v: Entry) -> (r: usize)
    requires
        slab_ok(*old(s)),
    ensures
        slab_ok(*final(s)),
        r == slab_next(*old(s)),
        slab_entries(*final(s)) == slab_entries(*old(s)).insert(r, v),
        slab_next(*old(s)) == slab_slots(*old(s)) ==> slab_slots(*final(s)) == slab_slots(*old(s)) + 1,
        slab_next(*old(s)) < slab_slots(*old(s)) ==> slab_slots(*final(s)) == slab_slots(*old(s)),
{
    s.insert(v)
}

/// Relies on `Slab::get`: the value at `key`, if that slot is occupied.
#[verifier::external_body]
pub(crate) fn slab_get(s: &EntrySlab, key: usize) -> (r: Option<&Entry>)
    ensures
        slab_entries(*s).contains_key(key) ==> r == Some(&slab_entries(*s)[key]),
        !slab_entries(*s).contains_key(key) ==> r is None,
{
    s.get(key)
}

/// Relies on `Slab::contains`: whether the slot at `key` is occupied.
#[verifier::external_body]
pub(crate) fn slab_contains(s: &EntrySlab, key: usize) -> (r: bool)
    ensures
        r == slab_entries(*s).contains_key(key),
{
    s.contains(key)
}

/// Relies on `Slab::remove`: takes the value out of the occupied slot `key`,
/// which becomes the next key handed out. It panics on a vacant slot, which
/// `requires` leaves out.
#[verifier::external_body]
pub(crate) fn slab_remove(s: &mut EntrySlab, key: usize) -> (r: Entry)
    requires
        slab_ok(*old(s)),
        slab_entries(*old(s)).contains_key(key),
    ensures
        slab_ok(*final(s)),
        r == slab_entries(*old(s))[key],
        slab_entries(*final(s)) == slab_entries(*old(s)).remove(key),
        slab_next(*final(s)) == key,
        slab_slots(*final(s)) == slab_slots(*old(s)),
{
    s.remove(key)
}

/// Relies on `Slab::clear`: every slot goes, and the next key is 0 again.
#[verifier::external_body]
pub(crate) fn slab_clear(s: &mut EntrySlab)
    ensures
        slab_ok(*final(s)),
        slab_entries(*final(s)).dom().is_empty(),
        slab_next(*final(s)) == 0,
        slab_slots(*final(s)) == 0,
{
    s.clear()
}

} // verus!
