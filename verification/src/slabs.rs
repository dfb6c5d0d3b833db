//! Contracts for the slabs of the `slab` crate that the entity store is built
//! from.
//!
//! A slab is modelled by two values. Its slots are the map from each occupied
//! key to the value stored there. Its vacancies are the keys that coming
//! insertions will be given, in that order: first the keys that were vacated,
//! the most recently vacated first, and last the key one past all slots the
//! slab has ever had. Nothing here is proved: each contract restates what the
//! crate's source does.

use vstd::prelude::*;
use slab::Slab;
use crate::game_loop::entity::Entity;

verus! {

/// `slab::Slab`, whose inside is not looked into.
#[verifier::external_type_specification]
#[verifier::external_body]
#[verifier::reject_recursive_types(T)]
pub struct ExSlab<T>(Slab<T>);

/// The occupied keys of a slab of handles, each with its value.
pub uninterp spec fn handle_slots(slab: Slab<usize>) -> Map<usize, usize>;

/// The keys that a slab of handles will give to coming insertions, in order.
pub uninterp spec fn handle_vacancies(slab: Slab<usize>) -> Seq<usize>;

/// The occupied keys of a slab of entities, each with its entity.
pub uninterp spec fn entity_slots(slab: Slab<Entity>) -> Map<usize, Entity>;

/// The keys that a slab of entities will give to coming insertions, in order.
pub uninterp spec fn entity_vacancies(slab: Slab<Entity>) -> Seq<usize>;

/// The vacancies after the first of them was filled.
pub open spec fn vacancies_after_insert(vacancies: Seq<usize>) -> Seq<usize> {
    if vacancies.len() > 1 {
        vacancies.skip(1)
    } else {
        seq![(vacancies[0] + 1) as usize]
    }
}

/// Whether `entries` lists every slot with its value, by increasing key.
pub open spec fn lists_slots(entries: Seq<(usize, usize)>, slots: Map<usize, usize>) -> bool {
    &&& forall|i: int|
        0 <= i < entries.len() ==> {
            &&& slots.contains_key((#[trigger] entries[i]).0)
            &&& slots[entries[i].0] == entries[i].1
        }
    &&& forall|i: int, j: int|
        0 <= i < j < entries.len() ==> (#[trigger] entries[i]).0 < (#[trigger] entries[j]).0
    &&& forall|key: usize| #[trigger]
        slots.contains_key(key) ==> exists|i: int|
            0 <= i < entries.len() && (#[trigger] entries[i]).0 == key
}

/// `Slab::new`: a slab without slots, whose first key will be 0.
#[verifier::external_body]
pub(crate) fn handles_new() -> (slab: Slab<usize>)
    ensures
        handle_slots(slab) == (Map::<usize, usize>::empty()),
        handle_vacancies(slab) == seq![0usize],
{
    Slab::new()
}

/// `Slab::insert`: stores `value` under the first vacancy, which was not
/// occupied, and returns that key. Memory exhaustion aside, it always returns.
#[verifier::external_body]
pub(crate) fn handles_insert(slab: &mut Slab<usize>, value: usize) -> (key: usize)
    ensures
        key == handle_vacancies(*old(slab))[0],
        !handle_slots(*old(slab)).contains_key(key),
        handle_slots(*final(slab)) == handle_slots(*old(slab)).insert(key, value),
        handle_vacancies(*final(slab)) == vacancies_after_insert(handle_vacancies(*old(slab))),
{
    slab.insert(value)
}

/// `Slab::remove`: takes the value out of an occupied slot, whose key becomes
/// the first vacancy. The crate panics on a vacant key, which `requires`
/// leaves out.
#[verifier::external_body]
pub(crate) fn handles_remove(slab: &mut Slab<usize>, key: usize) -> (value: usize)
    requires
        handle_slots(*old(slab)).contains_key(key),
    ensures
        value == handle_slots(*old(slab))[key],
        handle_slots(*final(slab)) == handle_slots(*old(slab)).remove(key),
        handle_vacancies(*final(slab)) == seq![key] + handle_vacancies(*old(slab)),
{
    slab.remove(key)
}

/// `Slab::iter`: every occupied slot with its value, by increasing key.
#[verifier::external_body]
pub(crate) fn handles_entries(slab: &Slab<usize>) -> (entries: Vec<(usize, usize)>)
    ensures
        lists_slots(entries@, handle_slots(*slab)),
{
    slab.iter().map(|(key, value)| (key, *value)).collect()
}

/// `Slab::new`: a slab without slots, whose first key will be 0.
#[verifier::external_body]
pub(crate) fn entities_new() -> (slab: Slab<Entity>)
    ensures
        entity_slots(slab) == (Map::<usize, Entity>::empty()),
        entity_vacancies(slab) == seq![0usize],
{
    Slab::new()
}

/// `Slab::vacant_key`: the key that the next insertion will be given, which
/// is not occupied.
#[verifier::external_body]
pub(crate) fn entities_vacant_key(slab: &Slab<Entity>) -> (key: usize)
    ensures
        key == entity_vacancies(*slab)[0],
        !entity_slots(*slab).contains_key(key),
{
    slab.vacant_key()
}

/// `Slab::insert`: stores `entity` under the first vacancy, which was not
/// occupied, and returns that key. Memory exhaustion aside, it always returns.
#[verifier::external_body]
pub(crate) fn entities_insert(slab: &mut Slab<Entity>, entity: Entity) -> (key: usize)
    ensures
        key == entity_vacancies(*old(slab))[0],
        !entity_slots(*old(slab)).contains_key(key),
        entity_slots(*final(slab)) == entity_slots(*old(slab)).insert(key, entity),
        entity_vacancies(*final(slab)) == vacancies_after_insert(entity_vacancies(*old(slab))),
{
    slab.insert(entity)
}

/// `Slab::try_remove`: takes the entity out of the slot `key` if it is
/// occupied; the key then becomes the first vacancy. On a vacant key the slab
/// stays as it is.
#[verifier::external_body]
pub(crate) fn entities_try_remove(slab: &mut Slab<Entity>, key: usize) -> (removed: Option<Entity>)
    ensures
        removed == (if entity_slots(*old(slab)).contains_key(key) {
            Some(entity_slots(*old(slab))[key])
        } else {
            None
        }),
        entity_slots(*final(slab)) == entity_slots(*old(slab)).remove(key),
        entity_vacancies(*final(slab)) == (if removed is Some {
            seq![key] + entity_vacancies(*old(slab))
        } else {
            entity_vacancies(*old(slab))
        }),
{
    slab.try_remove(key)
}

/// `Slab::get`: the entity in the slot `key`, if it is occupied.
#[verifier::external_body]
pub(crate) fn entities_get(slab: &Slab<Entity>, key: usize) -> (entity: Option<&Entity>)
    ensures
        entity == (if entity_slots(*slab).contains_key(key) {
            Some(&entity_slots(*slab)[key])
        } else {
            None
        }),
{
    slab.get(key)
}

/// Indexing a slab: the entity in an occupied slot. The crate panics on a
/// vacant key, which `requires` leaves out.
#[verifier::external_body]
pub(crate) fn entities_index(slab: &Slab<Entity>, key: usize) -> (entity: &Entity)
    requires
        entity_slots(*slab).contains_key(key),
    ensures
        *entity == entity_slots(*slab)[key],
{
    &slab[key]
}

} // verus!
