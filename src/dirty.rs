//! The set of element ids waiting to be redrawn, kept in a `hashbrown`
//! hash set.
use vstd::prelude::*;
use hashbrown::HashSet;

verus! {

/// The ids of elements waiting to be redrawn. The hash set inside is
/// hidden from verification; the functions below are its only accessors.
#[verifier::external_body]
pub struct DirtySet {
    ids: HashSet<usize>,
}

/// The ids held by a set.
pub uninterp spec fn ids_of(s: DirtySet) -> Set<usize>;

/// Relies on `hashbrown::HashSet::with_capacity`: a new set holds nothing.
#[verifier::external_body]
pub(crate) fn new_id_set(capacity: usize) -> (r: DirtySet)
    ensures
        ids_of(r) == Set::<usize>::empty(),
{
    DirtySet { ids: HashSet::with_capacity(capacity) }
}

/// Relies on `hashbrown::HashSet::insert`: afterwards the set holds `id`
/// besides what it held.
#[verifier::external_body]
pub(crate) fn insert_id(s: &mut DirtySet, id: usize)
    ensures
        ids_of(*final(s)) == ids_of(*old(s)).insert(id),
{
    s.ids.insert(id);
}

/// Relies on `hashbrown::HashSet::contains`: whether the set holds `id`.
#[verifier::external_body]
pub(crate) fn contains_id(s: &DirtySet, id: usize) -> (r: bool)
    ensures
        r == ids_of(*s).contains(id),
{
    s.ids.contains(&id)
}

/// Relies on `hashbrown::HashSet::len`: the number of ids held.
#[verifier::external_body]
pub(crate) fn id_count(s: &DirtySet) -> (r: usize)
    ensures
        r == ids_of(*s).len(),
{
    s.ids.len()
}

/// Relies on `hashbrown::HashSet::clear`: afterwards the set holds nothing.
#[verifier::external_body]
pub(crate) fn clear_ids(s: &mut DirtySet)
    ensures
        ids_of(*final(s)) == Set::<usize>::empty(),
{
    s.ids.clear();
}

} // verus!
