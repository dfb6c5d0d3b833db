//! The units by their id.

use vstd::prelude::*;
use ahash::AHashMap;
use ahash::RandomState;
use crate::geometry::Bounds;
use crate::hashing::{
    unit_entries, units_contain, units_get, units_insert, units_new, units_remove, units_values,
};
use crate::model::unit::Unit;

verus! {

/// The units, each under its id.
#[derive(Debug)]
pub struct UnitService {
    units: AHashMap<String, Unit, RandomState>,
}

impl View for UnitService {
    type V = Map<Seq<char>, Unit>;

    /// The units, each under the characters of its id.
    closed spec fn view(&self) -> Map<Seq<char>, Unit> {
        unit_entries(self.units)
    }
}

impl Default for UnitService {
    fn default() -> (service: UnitService)
        ensures
            service.wf(),
            service@ == Map::<Seq<char>, Unit>::empty(),
    {
        UnitService { units: units_new() }
    }
}

impl UnitService {
    /// The invariant of the service: every unit is held under its own id.
    pub open spec fn wf(&self) -> bool {
        forall|id: Seq<char>| #[trigger] self@.contains_key(id) ==> self@[id].id@ == id
    }

    /// Whether `found` lists the units inside `bounds`, each once, in some
    /// order.
    pub open spec fn answers(&self, bounds: Bounds, found: Seq<&Unit>) -> bool {
        &&& forall|i: int|
            0 <= i < found.len() ==> {
                &&& self@.contains_key((#[trigger] found[i]).id@)
                &&& self@[found[i].id@] == *found[i]
                &&& bounds.contains(found[i].position)
            }
        &&& forall|id: Seq<char>| #[trigger]
            self@.contains_key(id) && bounds.contains(self@[id].position) ==> exists|i: int|
                0 <= i < found.len() && (#[trigger] found[i]).id@ == id
        &&& forall|i: int, j: int|
            0 <= i < j < found.len() ==> (#[trigger] found[i]).id@ != (#[trigger] found[j]).id@
    }

    /// Adds a unit, unless a unit with its id is there already.
    pub fn add_unit(&mut self, unit: Unit) -> (added: Option<()>)
        requires
            old(self).wf(),
        ensures
            final(self).wf(),
            added == (if old(self)@.contains_key(unit.id@) {
                None
            } else {
                Some(())
            }),
            final(self)@ == (if old(self)@.contains_key(unit.id@) {
                old(self)@
            } else {
                old(self)@.insert(unit.id@, unit)
            }),
    {
        if units_contain(&self.units, unit.id.as_str()) {
            return None;
        }
        let id = unit.id.clone();
        units_insert(&mut self.units, id, unit);
        Some(())
    }

    /// Removes the unit with the id `id`, if there is one.
    pub fn remove_unit(&mut self, id: &str) -> (removed: Option<()>)
        requires
            old(self).wf(),
        ensures
            final(self).wf(),
            removed == (if old(self)@.contains_key(id@) {
                Some(())
            } else {
                None
            }),
            final(self)@ == old(self)@.remove(id@),
    {
        if !units_contain(&self.units, id) {
            assert(self@.remove(id@) =~= self@);
            return None;
        }
        units_remove(&mut self.units, id);
        Some(())
    }

    /// The unit with the id `id`, if there is one.
    pub fn get_unit(&self, id: &str) -> (unit: Option<&Unit>)
        ensures
            unit == (if self@.contains_key(id@) {
                Some(&self@[id@])
            } else {
                None
            }),
    {
        units_get(&self.units, id)
    }

    /// The units inside `bounds`, its faces included.
    pub fn get_units(&self, bounds: Bounds) -> (found: Vec<&Unit>)
        requires
            self.wf(),
        ensures
            self.answers(bounds, found@),
    {
        let mut units: Vec<&Unit> = Vec::new();
        let values = units_values(&self.units);
        let ghost keys: Seq<Seq<char>> = choose|keys: Seq<Seq<char>>|
            {
                &&& keys.len() == values@.len()
                &&& keys.no_duplicates()
                &&& forall|i: int|
                    0 <= i < keys.len() ==> self@.contains_key(#[trigger] keys[i]) && self@[keys[i]]
                        == *values@[i]
                &&& forall|key: Seq<char>| #[trigger] self@.contains_key(key) ==> keys.contains(key)
            };
        let ghost picked: Seq<int> = Seq::empty();
        let mut n: usize = 0;
        while n < values.len()
            invariant
                self.wf(),
                n <= values.len(),
                keys.len() == values@.len(),
                keys.no_duplicates(),
                forall|i: int|
                    0 <= i < keys.len() ==> self@.contains_key(#[trigger] keys[i]) && self@[keys[i]]
                        == *values@[i],
                picked.len() == units@.len(),
                forall|i: int|
                    0 <= i < picked.len() ==> 0 <= #[trigger] picked[i] < n && units@[i]
                        == values@[picked[i]] && bounds.contains(units@[i].position),
                forall|i: int, j: int|
                    0 <= i < j < picked.len() ==> #[trigger] picked[i] < #[trigger] picked[j],
                forall|m: int|
                    0 <= m < n && bounds.contains((#[trigger] values@[m]).position) ==> exists|
                        i: int,
                    | 0 <= i < picked.len() && #[trigger] picked[i] == m,
            decreases values.len() - n,
        {
            let unit = values[n];
            if bounds.inclusive_contains(&unit.position) {
                units.push(unit);
                proof {
                    let ghost before = picked;
                    picked = picked.push(n as int);
                    assert forall|m: int|
                        0 <= m < n + 1 && bounds.contains(
                            (#[trigger] values@[m]).position,
                        ) implies exists|i: int|
                        0 <= i < picked.len() && #[trigger] picked[i] == m by {
                        if m < n {
                            let i = choose|i: int|
                                0 <= i < before.len() && #[trigger] before[i] == m;
                            assert(picked[i] == m);
                        } else {
                            assert(picked[picked.len() - 1] == m);
                        }
                    }
                }
            }
            n = n + 1;
        }
        proof {
            assert forall|i: int| 0 <= i < units@.len() implies {
                &&& self@.contains_key((#[trigger] units@[i]).id@)
                &&& self@[units@[i].id@] == *units@[i]
                &&& bounds.contains(units@[i].position)
            } by {
                assert(self@.contains_key(keys[picked[i]]));
            }
            assert forall|id: Seq<char>| #[trigger]
                self@.contains_key(id) && bounds.contains(self@[id].position) implies exists|
                i: int,
            | 0 <= i < units@.len() && (#[trigger] units@[i]).id@ == id by {
                assert(keys.contains(id));
                let m = choose|m: int| 0 <= m < keys.len() && keys[m] == id;
                assert(self@.contains_key(keys[m]));
                assert(bounds.contains(values@[m].position));
                let i = choose|i: int| 0 <= i < picked.len() && #[trigger] picked[i] == m;
                assert(units@[i].id@ == id);
            }
            assert forall|i: int, j: int| 0 <= i < j < units@.len() implies (
            #[trigger] units@[i]).id@ != (#[trigger] units@[j]).id@ by {
                assert(self@.contains_key(keys[picked[i]]));
                assert(self@.contains_key(keys[picked[j]]));
                assert(picked[i] < picked[j]);
            }
        }
        units
    }
}

} // verus!
