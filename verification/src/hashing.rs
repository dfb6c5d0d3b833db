//! Contracts for the hash maps and the hash set that run on the hasher of
//! the `ahash` crate, and the integer keys that buckets and chunks are
//! addressed by.
//!
//! The map of buckets and the set of flags are containers of the standard
//! library; only their hasher comes from outside. The map of units is the
//! `AHashMap` of the crate, which holds such a map and hands its methods on.
//! The contracts state the documented behaviour of a map and a set, which
//! holds for any hasher that hashes equal keys alike, as the `RandomState`
//! of `ahash` does. vstd states the same of these methods, but only for a
//! hasher that it knows to be valid, which it knows of the standard one
//! alone. Nothing of this is proved.

use vstd::prelude::*;
use ahash::AHashMap;
use ahash::RandomState;
use slab::Slab;
use std::collections::HashMap;
use std::collections::HashSet;
use crate::geometry::IVec2;
use crate::model::unit::Unit;

verus! {

/// `ahash::RandomState`, the maker of hashers, whose inside is not looked
/// into.
#[verifier::external_type_specification]
#[verifier::external_body]
pub struct ExRandomState(RandomState);

/// `ahash::AHashMap`, whose inside is not looked into.
#[verifier::external_type_specification]
#[verifier::external_body]
#[verifier::reject_recursive_types(K)]
#[verifier::reject_recursive_types(V)]
#[verifier::reject_recursive_types(S)]
pub struct ExAHashMap<K, V, S>(AHashMap<K, V, S>);

/// The units that a map of units holds, each under its key.
pub uninterp spec fn unit_entries(units: AHashMap<String, Unit, RandomState>) -> Map<
    Seq<char>,
    Unit,
>;

/// Whether `values` lists the units of `entries`, each once, in some order.
pub open spec fn lists_units(values: Seq<&Unit>, entries: Map<Seq<char>, Unit>) -> bool {
    exists|keys: Seq<Seq<char>>|
        {
            &&& keys.len() == values.len()
            &&& keys.no_duplicates()
            &&& forall|i: int|
                0 <= i < keys.len() ==> entries.contains_key(#[trigger] keys[i])
                    && entries[keys[i]] == *values[i]
            &&& forall|key: Seq<char>| #[trigger]
                entries.contains_key(key) ==> keys.contains(key)
        }
}

/// The key of a grid point: its two coordinates, each moved into the
/// non-negative range, side by side.
pub open spec fn point_key(point: IVec2) -> u64 {
    ((point.x + 0x8000_0000) * 0x1_0000_0000 + (point.y + 0x8000_0000)) as u64
}

/// The key of a bucket: the key of its cell, then the layer.
pub open spec fn bucket_key(cell: IVec2, layer_id: usize) -> u128 {
    (point_key(cell) * 0x1_0000_0000_0000_0000 + layer_id) as u128
}

/// Computes `point_key`.
pub fn point_key_of(point: IVec2) -> (key: u64)
    ensures
        key == point_key(point),
{
    let x: u64 = (point.x as i64 + 0x8000_0000) as u64;
    let y: u64 = (point.y as i64 + 0x8000_0000) as u64;
    x * 0x1_0000_0000 + y
}

/// Computes `bucket_key`.
pub fn bucket_key_of(cell: IVec2, layer_id: usize) -> (key: u128)
    ensures
        key == bucket_key(cell, layer_id),
{
    point_key_of(cell) as u128 * 0x1_0000_0000_0000_0000 + layer_id as u128
}

/// Distinct grid points have distinct keys.
pub proof fn lemma_point_key_is_injective(a: IVec2, b: IVec2)
    requires
        point_key(a) == point_key(b),
    ensures
        a == b,
{
}

/// Distinct pairs of cell and layer have distinct keys.
pub proof fn lemma_bucket_key_is_injective(a: IVec2, layer_a: usize, b: IVec2, layer_b: usize)
    requires
        bucket_key(a, layer_a) == bucket_key(b, layer_b),
    ensures
        a == b,
        layer_a == layer_b,
{
    lemma_point_key_is_injective(a, b);
}

/// `HashMap::remove`: takes the bucket under `key` out of the map, if there
/// is one.
#[verifier::external_body]
pub(crate) fn buckets_take(
    buckets: &mut HashMap<u128, Slab<usize>, RandomState>,
    key: u128,
) -> (bucket: Option<Slab<usize>>)
    ensures
        bucket == (if old(buckets)@.contains_key(key) {
            Some(old(buckets)@[key])
        } else {
            None
        }),
        final(buckets)@ == old(buckets)@.remove(key),
{
    buckets.remove(&key)
}

/// `HashMap::insert`: puts `bucket` under `key`, in place of any bucket that
/// was there.
#[verifier::external_body]
pub(crate) fn buckets_put(
    buckets: &mut HashMap<u128, Slab<usize>, RandomState>,
    key: u128,
    bucket: Slab<usize>,
)
    ensures
        final(buckets)@ == old(buckets)@.insert(key, bucket),
{
    buckets.insert(key, bucket);
}

/// `HashMap::get`: the bucket under `key`, if there is one.
#[verifier::external_body]
pub(crate) fn buckets_get(buckets: &HashMap<u128, Slab<usize>, RandomState>, key: u128) -> (bucket:
    Option<&Slab<usize>>)
    ensures
        bucket == (if buckets@.contains_key(key) {
            Some(&buckets@[key])
        } else {
            None
        }),
{
    buckets.get(&key)
}

/// `HashSet::contains`: whether `key` is in the set.
#[verifier::external_body]
pub(crate) fn flags_contain(flags: &HashSet<u64, RandomState>, key: u64) -> (found: bool)
    ensures
        found == flags@.contains(key),
{
    flags.contains(&key)
}

/// `HashSet::insert`: adds `key` to the set.
#[verifier::external_body]
pub(crate) fn flags_insert(flags: &mut HashSet<u64, RandomState>, key: u64)
    ensures
        final(flags)@ == old(flags)@.insert(key),
{
    flags.insert(key);
}

/// `AHashMap::default`: a map without units.
#[verifier::external_body]
pub(crate) fn units_new() -> (units: AHashMap<String, Unit, RandomState>)
    ensures
        unit_entries(units) == (Map::<Seq<char>, Unit>::empty()),
{
    AHashMap::default()
}

/// `HashMap::contains_key`, on the map inside: whether a unit is under `id`.
#[verifier::external_body]
pub(crate) fn units_contain(units: &AHashMap<String, Unit, RandomState>, id: &str) -> (found: bool)
    ensures
        found == unit_entries(*units).contains_key(id@),
{
    units.contains_key(id)
}

/// `AHashMap::insert`: puts `unit` under `id`, in place of any unit that was
/// there.
#[verifier::external_body]
pub(crate) fn units_insert(units: &mut AHashMap<String, Unit, RandomState>, id: String, unit: Unit)
    ensures
        unit_entries(*final(units)) == unit_entries(*old(units)).insert(id@, unit),
{
    units.insert(id, unit);
}

/// `AHashMap::remove`: takes the unit under `id` out of the map, if there is
/// one.
#[verifier::external_body]
pub(crate) fn units_remove(units: &mut AHashMap<String, Unit, RandomState>, id: &str)
    ensures
        unit_entries(*final(units)) == unit_entries(*old(units)).remove(id@),
{
    units.remove(id);
}

/// `AHashMap::get`: the unit under `id`, if there is one.
#[verifier::external_body]
pub(crate) fn units_get<'a>(units: &'a AHashMap<String, Unit, RandomState>, id: &str) -> (unit:
    Option<&'a Unit>)
    ensures
        unit == (if unit_entries(*units).contains_key(id@) {
            Some(&unit_entries(*units)[id@])
        } else {
            None
        }),
{
    units.get(id)
}

/// `HashMap::values`, on the map inside: all units, each once. Their order
/// is that of the hash table, of which nothing is promised.
#[verifier::external_body]
pub(crate) fn units_values(units: &AHashMap<String, Unit, RandomState>) -> (values: Vec<&Unit>)
    ensures
        lists_units(values@, unit_entries(*units)),
{
    units.values().collect()
}

} // verus!
