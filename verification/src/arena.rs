//! Trusted interface to the id-map crate, which backs the entity arenas:
//! containers that give each inserted region or item a unique id.
//!
//! The id-map container keeps the smallest empty slot as the next id, so in
//! a program that never removes entities the ids are handed out contiguously
//! from zero; each wrapper states where the next id stands afterwards.

use vstd::prelude::*;

verus! {

#[verifier::external_type_specification]
#[verifier::external_body]
#[verifier::reject_recursive_types(T)]
pub struct ExIdMap<T>(id_map::IdMap<T>);

/// What the region arena holds: each id, mapped to its region.
pub uninterp spec fn region_arena_of(m: id_map::IdMap<crate::Region>) -> Map<
    usize,
    crate::Region,
>;

/// The smallest id the region arena has free: the id its next insert gets.
pub uninterp spec fn region_next_of(m: id_map::IdMap<crate::Region>) -> usize;

/// What the item arena holds: each id, mapped to its item.
pub uninterp spec fn item_arena_of(m: id_map::IdMap<crate::Item>) -> Map<usize, crate::Item>;

/// The smallest id the item arena has free: the id its next insert gets.
pub uninterp spec fn item_next_of(m: id_map::IdMap<crate::Item>) -> usize;

/// The next-id bookkeeping id-map maintains: the next id is not held, and
/// every id below it is.
pub open spec fn region_arena_inv(m: id_map::IdMap<crate::Region>) -> bool {
    &&& !region_arena_of(m).dom().contains(region_next_of(m))
    &&& forall|j: usize| j < region_next_of(m) ==> region_arena_of(m).dom().contains(j)
}

/// The next-id bookkeeping id-map maintains, for the item arena.
pub open spec fn item_arena_inv(m: id_map::IdMap<crate::Item>) -> bool {
    &&& !item_arena_of(m).dom().contains(item_next_of(m))
    &&& forall|j: usize| j < item_next_of(m) ==> item_arena_of(m).dom().contains(j)
}

/// Whether the region arena map holds nothing.
pub open spec fn region_arena_empty(m: Map<usize, crate::Region>) -> bool {
    m == Map::<usize, crate::Region>::empty()
}

/// Whether the item arena map holds nothing.
pub open spec fn item_arena_empty(m: Map<usize, crate::Item>) -> bool {
    m == Map::<usize, crate::Item>::empty()
}

/// Relies on IdMap::new (id-map): a new arena holds nothing, and its next
/// id is zero.
#[verifier::external_body]
pub fn region_arena_new() -> (m: id_map::IdMap<crate::Region>)
    ensures
        region_arena_empty(region_arena_of(m)),
        region_next_of(m) == 0usize,
{
    id_map::IdMap::new()
}

/// Relies on IdMap::insert (id-map): the value goes into the smallest empty
/// slot, whose id is returned; the crate keeps that next-id as its `space`
/// field and moves it to the next empty slot.
#[verifier::external_body]
pub fn region_arena_insert(m: &mut id_map::IdMap<crate::Region>, v: crate::Region) -> (r: usize)
    ensures
        r == region_next_of(*old(m)),
        region_arena_of(*final(m)) == region_arena_of(*old(m)).insert(r, v),
        region_arena_inv(*final(m)),
{
    m.insert(v)
}

/// Relies on IdMap::get (id-map): the value at an id that is held, nothing
/// at one that is not.
#[verifier::external_body]
pub fn region_arena_get<'a>(m: &'a id_map::IdMap<crate::Region>, id: usize) -> (r: Option<
    &'a crate::Region,
>)
    ensures
        match r {
            Some(x) => region_arena_of(*m).dom().contains(id) && *x == region_arena_of(*m)[id],
            None => !region_arena_of(*m).dom().contains(id),
        },
{
    m.get(id)
}

/// Relies on IdMap::insert_at (id-map): the value replaces whatever the id
/// held, which is returned; inserting at an id already held leaves every
/// other slot and the next-id bookkeeping unchanged.
#[verifier::external_body]
pub fn region_arena_replace(m: &mut id_map::IdMap<crate::Region>, id: usize, v: crate::Region) -> (r:
    Option<crate::Region>)
    requires
        region_arena_of(*old(m)).dom().contains(id),
    ensures
        region_arena_of(*final(m)) == region_arena_of(*old(m)).insert(id, v),
        region_next_of(*final(m)) == region_next_of(*old(m)),
        r == Some(region_arena_of(*old(m))[id]),
{
    m.insert_at(id, v)
}

/// Relies on IdMap::next_id (id-map): the id the next insert will produce,
/// the crate's `space` field.
#[verifier::external_body]
pub fn region_arena_next(m: &id_map::IdMap<crate::Region>) -> (r: usize)
    ensures
        r == region_next_of(*m),
{
    m.next_id()
}

/// Relies on IdMap::new (id-map): a new arena holds nothing, and its next
/// id is zero.
#[verifier::external_body]
pub fn item_arena_new() -> (m: id_map::IdMap<crate::Item>)
    ensures
        item_arena_empty(item_arena_of(m)),
        item_next_of(m) == 0usize,
{
    id_map::IdMap::new()
}

/// Relies on IdMap::insert (id-map): the value goes into the smallest empty
/// slot, whose id is returned.
#[verifier::external_body]
pub fn item_arena_insert(m: &mut id_map::IdMap<crate::Item>, v: crate::Item) -> (r: usize)
    ensures
        r == item_next_of(*old(m)),
        item_arena_of(*final(m)) == item_arena_of(*old(m)).insert(r, v),
        item_arena_inv(*final(m)),
{
    m.insert(v)
}

/// Relies on IdMap::get (id-map): the value at an id that is held, nothing
/// at one that is not.
#[verifier::external_body]
pub fn item_arena_get<'a>(m: &'a id_map::IdMap<crate::Item>, id: usize) -> (r: Option<
    &'a crate::Item,
>)
    ensures
        match r {
            Some(x) => item_arena_of(*m).dom().contains(id) && *x == item_arena_of(*m)[id],
            None => !item_arena_of(*m).dom().contains(id),
        },
{
    m.get(id)
}

/// Relies on IdMap::insert_at (id-map): the value replaces whatever the id
/// held, which is returned.
#[verifier::external_body]
pub fn item_arena_replace(m: &mut id_map::IdMap<crate::Item>, id: usize, v: crate::Item) -> (r:
    Option<crate::Item>)
    requires
        item_arena_of(*old(m)).dom().contains(id),
    ensures
        item_arena_of(*final(m)) == item_arena_of(*old(m)).insert(id, v),
        item_next_of(*final(m)) == item_next_of(*old(m)),
        r == Some(item_arena_of(*old(m))[id]),
{
    m.insert_at(id, v)
}

} // verus!
