//! The entity store: entities under stable handles, with a spatial index.

use vstd::prelude::*;
use ahash::RandomState;
use slab::Slab;
use std::collections::HashMap;
use crate::assets::Assets;
use crate::geometry::{lemma_contained_point_is_in_grid_cells, Aabb2, IAabb2, IVec2, Vec2};
use crate::hashing::{
    bucket_key, bucket_key_of, buckets_get, buckets_put, buckets_take,
    lemma_bucket_key_is_injective,
};
use crate::scalar::GRID_SIZE;
use crate::slabs::{
    entities_get, entities_index, entities_insert, entities_new, entities_try_remove,
    entities_vacant_key, entity_slots, entity_vacancies, handle_slots, handle_vacancies,
    handles_entries, handles_insert, handles_new, handles_remove, lists_slots,
    vacancies_after_insert,
};

verus! {

/// A positioned object of the world.
#[derive(Clone, Copy, Debug, PartialEq, Eq, Structural)]
pub struct Entity {
    pub spec_id: usize,
    pub position: Vec2,
}

impl Entity {
    pub fn new(spec_id: usize, position: Vec2) -> (entity: Entity)
        ensures
            entity.spec_id == spec_id,
            entity.position == position,
    {
        Entity { spec_id, position }
    }
}

/// The entities under their handles, with the spatial index over them.
///
/// The index maps each pair of grid cell and layer to a bucket, which holds
/// the handles of the entities there, each in a slot of its own. The reverse
/// index maps each handle to its slot. A handle is indexed under the cell of
/// its position and under the layer that the catalog gave for its kind when
/// it was inserted.
pub struct EntitySystem {
    entities: Slab<Entity>,
    index: HashMap<u128, Slab<usize>, RandomState>,
    rev_index: Slab<usize>,
    layers: Ghost<Map<usize, usize>>,
}

impl View for EntitySystem {
    type V = Map<usize, Entity>;

    /// The live entities, each under its handle.
    closed spec fn view(&self) -> Map<usize, Entity> {
        entity_slots(self.entities)
    }
}

/// Whether cell `a` comes before cell `b` in the order in which a query
/// walks the cells: by `x`, then by `y`.
pub open spec fn cell_order(a: IVec2, b: IVec2) -> bool {
    a.x < b.x || (a.x == b.x && a.y < b.y)
}

/// Whether `cell` comes before the cell `(x, y)` in the order of a query.
spec fn cell_before(cell: IVec2, x: int, y: int) -> bool {
    cell.x < x || (cell.x == x && cell.y < y)
}

impl EntitySystem {
    /// Side length of a cell of the spatial index, in world units.
    pub const GRID_SIZE: u32 = GRID_SIZE;

    /// The layer under which each live handle is indexed.
    pub closed spec fn layers(&self) -> Map<usize, usize> {
        self.layers@
    }

    /// The handles that coming insertions return, in order: the handles of
    /// removed entities, the most recently removed first, and last the
    /// handle one past all that were ever given out.
    pub closed spec fn vacancies(&self) -> Seq<usize> {
        entity_vacancies(self.entities)
    }

    /// The slot that each live handle has in its bucket.
    pub closed spec fn slots(&self) -> Map<usize, usize> {
        handle_slots(self.rev_index)
    }

    /// The slots that the bucket of a cell and a layer gives to coming
    /// insertions, in order: the slots of removed entities, the most
    /// recently removed first, and last the slot one past all that the
    /// bucket ever gave out.
    pub closed spec fn bucket_vacancies(&self, cell: IVec2, layer_id: usize) -> Seq<usize> {
        if self.index@.contains_key(bucket_key(cell, layer_id)) {
            handle_vacancies(self.index@[bucket_key(cell, layer_id)])
        } else {
            seq![0usize]
        }
    }

    /// Whether `first` comes before `second` in the answer to a query: its
    /// cell comes first, or the two share a cell and its slot is the lower.
    pub open spec fn precedes(&self, first: usize, second: usize) -> bool {
        let a = self@[first].position.grid_cell();
        let b = self@[second].position.grid_cell();
        cell_order(a, b) || (a == b && self.slots()[first] < self.slots()[second])
    }

    /// The key of the bucket that a live handle belongs to.
    spec fn key_of(&self, handle: usize) -> u128 {
        bucket_key(self@[handle].position.grid_cell(), self.layers@[handle])
    }

    /// A live handle stands in its bucket, in the slot that the reverse index
    /// names.
    spec fn indexed(&self, handle: usize) -> bool {
        let key = self.key_of(handle);
        let slot = handle_slots(self.rev_index)[handle];
        &&& self.index@.contains_key(key)
        &&& handle_slots(self.index@[key]).contains_key(slot)
        &&& handle_slots(self.index@[key])[slot] == handle
    }

    /// A slot of a bucket holds a live handle that belongs there.
    spec fn backed(&self, key: u128, slot: usize) -> bool {
        let handle = handle_slots(self.index@[key])[slot];
        &&& self@.contains_key(handle)
        &&& handle_slots(self.rev_index)[handle] == slot
        &&& self.key_of(handle) == key
    }

    /// The invariant of the store: the reverse index and the recorded layers
    /// cover exactly the live handles, the reverse index gives out handles in
    /// step with the entity storage, every live handle has its one entry in
    /// the index, and the index has no other entries.
    pub closed spec fn wf(&self) -> bool {
        &&& self@.dom() =~= handle_slots(self.rev_index).dom()
        &&& self@.dom() =~= self.layers@.dom()
        &&& entity_vacancies(self.entities) == handle_vacancies(self.rev_index)
        &&& entity_vacancies(self.entities).len() > 0
        &&& forall|handle: usize| #[trigger] self@.contains_key(handle) ==> self.indexed(handle)
        &&& forall|key: u128, slot: usize|
            self.index@.contains_key(key) && #[trigger] handle_slots(self.index@[key]).contains_key(
                slot,
            ) ==> self.backed(key, slot)
    }

    /// A store that is well formed records a layer for exactly the live
    /// handles.
    pub proof fn lemma_layers_cover_live(&self)
        requires
            self.wf(),
        ensures
            self.layers().dom() == self@.dom(),
    {
    }

    /// A store that is well formed always has a handle to give out.
    pub proof fn lemma_vacancies_never_run_out(&self)
        requires
            self.wf(),
        ensures
            self.vacancies().len() > 0,
    {
    }

    /// Whether the catalog knows the kind of every live entity and gives
    /// for it the layer that the entity is indexed under. This is so while
    /// all entities are inserted with one catalog.
    pub open spec fn agrees_with(&self, assets: &Assets) -> bool {
        forall|handle: usize| #[trigger]
            self@.contains_key(handle) ==> {
                &&& self@[handle].spec_id < assets.entity_specs.len()
                &&& assets.layer_of(self@[handle].spec_id) == self.layers()[handle]
            }
    }

    /// Whether `handle` is live, indexed under `layer_id`, and in a cell of
    /// `cells`.
    pub open spec fn in_area(&self, handle: usize, cells: IAabb2, layer_id: usize) -> bool {
        &&& self@.contains_key(handle)
        &&& self.layers()[handle] == layer_id
        &&& cells.contains(self@[handle].position.grid_cell())
    }

    /// What `insert` does: `after` is `self` with `entity` under the handle
    /// `id`, the first vacancy of `self`.
    pub open spec fn inserts(
        &self,
        assets: &Assets,
        entity: Entity,
        id: usize,
        after: &EntitySystem,
    ) -> bool {
        &&& after.wf()
        &&& id == self.vacancies()[0]
        &&& !self@.contains_key(id)
        &&& after@ == self@.insert(id, entity)
        &&& after.layers() == self.layers().insert(id, assets.layer_of(entity.spec_id))
        &&& after.vacancies() == vacancies_after_insert(self.vacancies())
        &&& after.slots() == self.slots().insert(
            id,
            self.bucket_vacancies(entity.position.grid_cell(), assets.layer_of(entity.spec_id))[0],
        )
        &&& forall|cell: IVec2, layer_id: usize|
            #[trigger] after.bucket_vacancies(cell, layer_id) == (if cell
                == entity.position.grid_cell() && layer_id == assets.layer_of(entity.spec_id) {
                vacancies_after_insert(self.bucket_vacancies(cell, layer_id))
            } else {
                self.bucket_vacancies(cell, layer_id)
            })
    }

    /// What `remove` does: `after` is `self` without the handle `id`, and
    /// `removed` is the entity that `self` had there.
    pub open spec fn removes(
        &self,
        id: usize,
        removed: Option<Entity>,
        after: &EntitySystem,
    ) -> bool {
        &&& after.wf()
        &&& removed == (if self@.contains_key(id) {
            Some(self@[id])
        } else {
            None
        })
        &&& after@ == self@.remove(id)
        &&& after.layers() == self.layers().remove(id)
        &&& after.vacancies() == (if self@.contains_key(id) {
            seq![id] + self.vacancies()
        } else {
            self.vacancies()
        })
        &&& after.slots() == self.slots().remove(id)
        &&& forall|cell: IVec2, layer_id: usize|
            #[trigger] after.bucket_vacancies(cell, layer_id) == (if self@.contains_key(id) && cell
                == self@[id].position.grid_cell() && layer_id == self.layers()[id] {
                seq![self.slots()[id]] + self.bucket_vacancies(cell, layer_id)
            } else {
                self.bucket_vacancies(cell, layer_id)
            })
    }

    /// What `get_from_area` returns: the handles of the area, each once and
    /// with its entity, by cell and within a cell by slot.
    pub open spec fn answers(
        &self,
        bounds: Aabb2,
        layer_id: usize,
        found: Seq<(usize, &Entity)>,
    ) -> bool {
        &&& forall|i: int|
            0 <= i < found.len() ==> {
                &&& self.in_area((#[trigger] found[i]).0, bounds.grid_cells(), layer_id)
                &&& *found[i].1 == self@[found[i].0]
            }
        &&& forall|handle: usize|
            #![trigger self@.contains_key(handle)]
            self.in_area(handle, bounds.grid_cells(), layer_id) ==> exists|i: int|
                0 <= i < found.len() && (#[trigger] found[i]).0 == handle
        &&& forall|i: int, j: int|
            0 <= i < j < found.len() ==> self.precedes(
                (#[trigger] found[i]).0,
                (#[trigger] found[j]).0,
            )
    }

    /// An empty store, whose first handle will be 0.
    pub fn new() -> (system: EntitySystem)
        ensures
            system.wf(),
            system@ == Map::<usize, Entity>::empty(),
            system.layers() == Map::<usize, usize>::empty(),
            system.vacancies() == seq![0usize],
            system.slots() == Map::<usize, usize>::empty(),
            forall|cell: IVec2, layer_id: usize|
                #[trigger] system.bucket_vacancies(cell, layer_id) == seq![0usize],
    {
        EntitySystem {
            entities: entities_new(),
            index: HashMap::default(),
            rev_index: handles_new(),
            layers: Ghost(Map::empty()),
        }
    }

    /// Adds an entity and returns its handle.
    ///
    /// The entity is indexed under the cell of its position and the layer of
    /// its kind. The handle is one that no live entity has; it may have
    /// belonged to an entity that was removed.
    pub fn insert(&mut self, assets: &Assets, entity: Entity) -> (id: usize)
        requires
            old(self).wf(),
            entity.spec_id < assets.entity_specs.len(),
        ensures
            old(self).inserts(assets, entity, id, final(self)),
    {
        let id = entities_vacant_key(&self.entities);
        let layer_id = assets.entity_specs[entity.spec_id].layer_id;

        let point = entity.position.div_euclid_grid();
        let key = bucket_key_of(point, layer_id);
        let mut bucket = match buckets_take(&mut self.index, key) {
            Some(bucket) => bucket,
            None => handles_new(),
        };
        let idx_id = handles_insert(&mut bucket, id);
        buckets_put(&mut self.index, key, bucket);
        handles_insert(&mut self.rev_index, idx_id);
        self.layers = Ghost(self.layers@.insert(id, layer_id));

        let id = entities_insert(&mut self.entities, entity);
        proof {
            assert forall|handle: usize| #[trigger]
                self@.contains_key(handle) implies self.indexed(handle) by {
                if handle != id {
                    assert(old(self)@.contains_key(handle));
                    assert(old(self).indexed(handle));
                }
            }
            assert forall|k: u128, slot: usize|
                self.index@.contains_key(k) && #[trigger] handle_slots(self.index@[k]).contains_key(
                    slot,
                ) implies self.backed(k, slot) by {
                if !(k == key && slot == idx_id) {
                    assert(old(self).index@.contains_key(k));
                    assert(handle_slots(old(self).index@[k]).contains_key(slot));
                    assert(old(self).backed(k, slot));
                }
            }
        }
        id
    }

    /// Removes an entity and returns it, or returns `None` and changes
    /// nothing where `id` is not a live handle.
    ///
    /// The bucket is found again from the position of the stored entity and
    /// the layer that the catalog gives for its kind, which must be the layer
    /// it was inserted under.
    pub fn remove(&mut self, assets: &Assets, id: usize) -> (removed: Option<Entity>)
        requires
            old(self).wf(),
            old(self)@.contains_key(id) ==> old(self)@[id].spec_id < assets.entity_specs.len()
                && assets.layer_of(old(self)@[id].spec_id) == old(self).layers()[id],
        ensures
            old(self).removes(id, removed, final(self)),
    {
        let entity = match entities_try_remove(&mut self.entities, id) {
            Some(entity) => entity,
            None => {
                proof {
                    assert(self@ =~= old(self)@);
                    assert(self.layers@.remove(id) =~= self.layers@);
                    assert(self.slots().remove(id) =~= self.slots());
                    assert forall|handle: usize| #[trigger]
                        self@.contains_key(handle) implies self.indexed(handle) by {
                        assert(old(self).indexed(handle));
                    }
                    assert forall|k: u128, slot: usize|
                        self.index@.contains_key(k) && #[trigger] handle_slots(
                            self.index@[k],
                        ).contains_key(slot) implies self.backed(k, slot) by {
                        assert(old(self).backed(k, slot));
                    }
                }
                return None;
            },
        };
        let layer_id = assets.entity_specs[entity.spec_id].layer_id;

        let idx_id = handles_remove(&mut self.rev_index, id);
        let point = entity.position.div_euclid_grid();
        let key = bucket_key_of(point, layer_id);
        proof {
            assert(old(self).indexed(id));
        }
        let mut bucket = buckets_take(&mut self.index, key).unwrap();
        handles_remove(&mut bucket, idx_id);
        buckets_put(&mut self.index, key, bucket);
        self.layers = Ghost(self.layers@.remove(id));
        proof {
            assert forall|handle: usize| #[trigger]
                self@.contains_key(handle) implies self.indexed(handle) by {
                assert(old(self)@.contains_key(handle));
                assert(old(self).indexed(handle));
                if old(self).key_of(handle) == key {
                    assert(old(self).backed(key, idx_id));
                }
            }
            assert forall|k: u128, slot: usize|
                self.index@.contains_key(k) && #[trigger] handle_slots(self.index@[k]).contains_key(
                    slot,
                ) implies self.backed(k, slot) by {
                assert(old(self).index@.contains_key(k));
                assert(handle_slots(old(self).index@[k]).contains_key(slot));
                assert(old(self).backed(k, slot));
                assert(old(self).indexed(id));
            }
        }
        Some(entity)
    }

    /// Whether `found` lists, each once, by cell and within a cell by slot,
    /// the handles of the area whose cell comes before the cell `(x, y)`,
    /// each with its entity.
    spec fn lists_area_before(
        &self,
        found: Seq<(usize, &Entity)>,
        cells: IAabb2,
        layer_id: usize,
        x: int,
        y: int,
    ) -> bool {
        &&& forall|i: int|
            0 <= i < found.len() ==> {
                &&& self.in_area((#[trigger] found[i]).0, cells, layer_id)
                &&& *found[i].1 == self@[found[i].0]
                &&& cell_before(found[i].1.position.grid_cell(), x, y)
            }
        &&& forall|handle: usize|
            #![trigger self@.contains_key(handle)]
            self.in_area(handle, cells, layer_id) && cell_before(
                self@[handle].position.grid_cell(),
                x,
                y,
            ) ==> exists|i: int| 0 <= i < found.len() && (#[trigger] found[i]).0 == handle
        &&& forall|i: int, j: int|
            0 <= i < j < found.len() ==> self.precedes(
                (#[trigger] found[i]).0,
                (#[trigger] found[j]).0,
            )
    }

    /// Appends the handles in the bucket of `cell` to `found`.
    fn collect_cell<'a>(
        &'a self,
        found: &mut Vec<(usize, &'a Entity)>,
        cells: IAabb2,
        layer_id: usize,
        cell: IVec2,
    )
        requires
            self.wf(),
            cells.contains(cell),
            self.lists_area_before(old(found)@, cells, layer_id, cell.x as int, cell.y as int),
        ensures
            self.lists_area_before(final(found)@, cells, layer_id, cell.x as int, cell.y + 1),
            final(found)@.len() >= old(found)@.len(),
    {
        let key = bucket_key_of(cell, layer_id);
        let ghost before = found@;
        match buckets_get(&self.index, key) {
            Some(bucket) => {
                let entries = handles_entries(bucket);
                let mut i: usize = 0;
                while i < entries.len()
                    invariant
                        self.wf(),
                        i <= entries.len(),
                        self.index@.contains_key(key),
                        lists_slots(entries@, handle_slots(self.index@[key])),
                        found@.len() == before.len() + i,
                        forall|n: int| 0 <= n < before.len() ==> found@[n] == before[n],
                        forall|n: int|
                            0 <= n < i ==> {
                                &&& (#[trigger] found@[before.len() + n]).0 == entries@[n].1
                                &&& *found@[before.len() + n].1 == self@[entries@[n].1]
                            },
                    decreases entries.len() - i,
                {
                    let id = entries[i].1;
                    proof {
                        assert(handle_slots(self.index@[key]).contains_key(entries@[i as int].0));
                        assert(self.backed(key, entries@[i as int].0));
                    }
                    let entity = entities_index(&self.entities, id);
                    found.push((id, entity));
                    i = i + 1;
                }
                proof {
                    let slots = handle_slots(self.index@[key]);
                    assert forall|n: int| 0 <= n < found@.len() implies {
                        &&& self.in_area((#[trigger] found@[n]).0, cells, layer_id)
                        &&& *found@[n].1 == self@[found@[n].0]
                        &&& cell_before(found@[n].1.position.grid_cell(), cell.x as int, cell.y + 1)
                    } by {
                        if n < before.len() {
                            assert(found@[n] == before[n]);
                        } else {
                            let m = n - before.len();
                            assert(found@[before.len() + m].0 == entries@[m].1);
                            assert(slots.contains_key(entries@[m].0));
                            assert(self.backed(key, entries@[m].0));
                            let handle = entries@[m].1;
                            lemma_bucket_key_is_injective(
                                self@[handle].position.grid_cell(),
                                self.layers@[handle],
                                cell,
                                layer_id,
                            );
                        }
                    }
                    assert forall|handle: usize|
                        #![trigger self@.contains_key(handle)]
                        self.in_area(handle, cells, layer_id) && cell_before(
                            self@[handle].position.grid_cell(),
                            cell.x as int,
                            cell.y + 1,
                        ) implies exists|n: int|
                        0 <= n < found@.len() && (#[trigger] found@[n]).0 == handle by {
                        if cell_before(
                            self@[handle].position.grid_cell(),
                            cell.x as int,
                            cell.y as int,
                        ) {
                            let n = choose|n: int|
                                0 <= n < before.len() && (#[trigger] before[n]).0 == handle;
                            assert(found@[n] == before[n]);
                        } else {
                            assert(self.indexed(handle));
                            let slot = handle_slots(self.rev_index)[handle];
                            assert(slots.contains_key(slot));
                            let m = choose|m: int|
                                0 <= m < entries@.len() && (#[trigger] entries@[m]).0 == slot;
                            assert(found@[before.len() + m].0 == entries@[m].1);
                        }
                    }
                    assert forall|n: int, m: int| 0 <= n < m < found@.len() implies self.precedes(
                        (#[trigger] found@[n]).0,
                        (#[trigger] found@[m]).0,
                    ) by {
                        if m < before.len() {
                            assert(found@[n] == before[n]);
                            assert(found@[m] == before[m]);
                        } else {
                            let b = m - before.len();
                            assert(found@[before.len() + b].0 == entries@[b].1);
                            assert(slots.contains_key(entries@[b].0));
                            assert(self.backed(key, entries@[b].0));
                            lemma_bucket_key_is_injective(
                                self@[entries@[b].1].position.grid_cell(),
                                self.layers@[entries@[b].1],
                                cell,
                                layer_id,
                            );
                            if n < before.len() {
                                assert(found@[n] == before[n]);
                            } else {
                                let a = n - before.len();
                                assert(found@[before.len() + a].0 == entries@[a].1);
                                assert(slots.contains_key(entries@[a].0));
                                assert(self.backed(key, entries@[a].0));
                                assert(entries@[a].0 < entries@[b].0);
                                lemma_bucket_key_is_injective(
                                    self@[entries@[a].1].position.grid_cell(),
                                    self.layers@[entries@[a].1],
                                    cell,
                                    layer_id,
                                );
                            }
                        }
                    }
                }
            },
            None => {
                proof {
                    assert forall|handle: usize|
                        #![trigger self@.contains_key(handle)]
                        self.in_area(handle, cells, layer_id) && cell_before(
                            self@[handle].position.grid_cell(),
                            cell.x as int,
                            cell.y + 1,
                        ) implies exists|n: int|
                        0 <= n < found@.len() && (#[trigger] found@[n]).0 == handle by {
                        if !cell_before(
                            self@[handle].position.grid_cell(),
                            cell.x as int,
                            cell.y as int,
                        ) {
                            assert(self.indexed(handle));
                        }
                    }
                }
            },
        }
    }

    /// The entities that may lie in `bounds`, on one layer, each with its
    /// handle.
    ///
    /// These are the live entities of the layer whose cell lies in the box of
    /// cells that the corners of `bounds` fall in: all those inside `bounds`,
    /// and those outside it that share a cell with a part of it. They come
    /// cell by cell, by `x` and then by `y`, and within a cell by their slot
    /// in its bucket, each once.
    pub fn get_from_area<'a>(&'a self, bounds: Aabb2, layer_id: usize) -> (found: Vec<
        (usize, &'a Entity),
    >)
        requires
            self.wf(),
        ensures
            self.answers(bounds, layer_id, found@),
    {
        let cells = bounds.div_euclid_grid();
        let mut found: Vec<(usize, &'a Entity)> = Vec::new();
        let mut x: i64 = cells.min.x as i64;
        while x <= cells.max.x as i64
            invariant
                self.wf(),
                cells == bounds.grid_cells(),
                cells.min.x <= x,
                self.lists_area_before(found@, cells, layer_id, x as int, cells.min.y as int),
            decreases cells.max.x - x + 1,
        {
            let mut y: i64 = cells.min.y as i64;
            while y <= cells.max.y as i64
                invariant
                    self.wf(),
                    cells.min.x <= x <= cells.max.x,
                    cells.min.y <= y,
                    self.lists_area_before(found@, cells, layer_id, x as int, y as int),
                decreases cells.max.y - y + 1,
            {
                let cell = IVec2 { x: x as i32, y: y as i32 };
                self.collect_cell(&mut found, cells, layer_id, cell);
                y = y + 1;
            }
            x = x + 1;
        }
        found
    }

    /// The entity under a handle, if the handle is live.
    pub fn get(&self, id: usize) -> (entity: Option<&Entity>)
        ensures
            entity == (if self@.contains_key(id) {
                Some(&self@[id])
            } else {
                None
            }),
    {
        entities_get(&self.entities, id)
    }
}

/// The law of the round trip: removing the handle that an insertion returned
/// is permitted, gives back the inserted entity, and leaves the live
/// entities and their layers as they were before the insertion.
pub proof fn lemma_remove_returns_inserted(
    before: EntitySystem,
    assets: Assets,
    entity: Entity,
    id: usize,
    between: EntitySystem,
    removed: Option<Entity>,
    after: EntitySystem,
)
    requires
        before.wf(),
        before.inserts(&assets, entity, id, &between),
        between.removes(id, removed, &after),
    ensures
        between@.contains_key(id),
        assets.layer_of(between@[id].spec_id) == between.layers()[id],
        removed == Some(entity),
        after@ == before@,
        after.layers() == before.layers(),
{
    assert(before@.insert(id, entity).remove(id) =~= before@);
    assert(before.layers().dom() =~= before@.dom()) by {
        before.lemma_layers_cover_live();
    }
    assert(before.layers().insert(id, assets.layer_of(entity.spec_id)).remove(id)
        =~= before.layers());
}

/// The law of index coverage: a query yields every live entity of its layer
/// whose position lies in the bounds, and yields nothing but live entities of
/// its layer whose cell lies in the box of cells that the corners of the
/// bounds fall in.
pub proof fn lemma_query_covers_bounds(
    system: EntitySystem,
    bounds: Aabb2,
    layer_id: usize,
    found: Seq<(usize, &Entity)>,
    handle: usize,
)
    requires
        system.answers(bounds, layer_id, found),
    ensures
        system@.contains_key(handle) && system.layers()[handle] == layer_id && bounds.contains(
            system@[handle].position,
        ) ==> exists|i: int| 0 <= i < found.len() && (#[trigger] found[i]).0 == handle,
        (exists|i: int| 0 <= i < found.len() && (#[trigger] found[i]).0 == handle) ==> {
            &&& system@.contains_key(handle)
            &&& system.layers()[handle] == layer_id
            &&& bounds.grid_cells().contains(system@[handle].position.grid_cell())
        },
{
    if system@.contains_key(handle) && system.layers()[handle] == layer_id && bounds.contains(
        system@[handle].position,
    ) {
        lemma_contained_point_is_in_grid_cells(bounds, system@[handle].position);
        assert(system.in_area(handle, bounds.grid_cells(), layer_id));
    }
}

/// The law of index coverage by the catalog: in a store that agrees with
/// the catalog, a query yields every live entity inside the bounds whose kind
/// is on the layer asked for, and no entity whose kind is on another layer.
pub proof fn lemma_query_goes_by_the_catalog(
    system: EntitySystem,
    assets: Assets,
    bounds: Aabb2,
    layer_id: usize,
    found: Seq<(usize, &Entity)>,
    handle: usize,
)
    requires
        system.agrees_with(&assets),
        system.answers(bounds, layer_id, found),
        system@.contains_key(handle),
    ensures
        assets.layer_of(system@[handle].spec_id) == layer_id && bounds.contains(
            system@[handle].position,
        ) ==> exists|i: int| 0 <= i < found.len() && (#[trigger] found[i]).0 == handle,
        assets.layer_of(system@[handle].spec_id) != layer_id ==> forall|i: int|
            0 <= i < found.len() ==> (#[trigger] found[i]).0 != handle,
{
    lemma_query_covers_bounds(system, bounds, layer_id, found, handle);
}

/// The law that a reused handle does not alias: after an entity was removed
/// and another inserted, a query that yields the handle of the removed
/// entity yields it with the entity inserted since, which then has taken
/// that handle.
pub proof fn lemma_query_after_reuse(
    before: EntitySystem,
    old_id: usize,
    removed: Option<Entity>,
    between: EntitySystem,
    assets: Assets,
    entity: Entity,
    new_id: usize,
    after: EntitySystem,
    bounds: Aabb2,
    layer_id: usize,
    found: Seq<(usize, &Entity)>,
)
    requires
        before@.contains_key(old_id),
        before.removes(old_id, removed, &between),
        between.inserts(&assets, entity, new_id, &after),
        after.answers(bounds, layer_id, found),
    ensures
        new_id == old_id,
        forall|i: int|
            0 <= i < found.len() && (#[trigger] found[i]).0 == old_id ==> *found[i].1 == entity,
{
}

/// A store whose entities were all inserted with one catalog agrees with
/// it, since an insertion with that catalog keeps the agreement.
pub proof fn lemma_insert_keeps_agreement(
    before: EntitySystem,
    assets: Assets,
    entity: Entity,
    id: usize,
    after: EntitySystem,
)
    requires
        before.agrees_with(&assets),
        entity.spec_id < assets.entity_specs.len(),
        before.inserts(&assets, entity, id, &after),
    ensures
        after.agrees_with(&assets),
{
    assert forall|handle: usize| #[trigger] after@.contains_key(handle) implies {
        &&& after@[handle].spec_id < assets.entity_specs.len()
        &&& assets.layer_of(after@[handle].spec_id) == after.layers()[handle]
    } by {
        if handle != id {
            assert(before@.contains_key(handle));
        }
    }
}

/// A removal keeps the agreement of a store with a catalog.
pub proof fn lemma_remove_keeps_agreement(
    before: EntitySystem,
    assets: Assets,
    id: usize,
    removed: Option<Entity>,
    after: EntitySystem,
)
    requires
        before.agrees_with(&assets),
        before.removes(id, removed, &after),
    ensures
        after.agrees_with(&assets),
{
    assert forall|handle: usize| #[trigger] after@.contains_key(handle) implies {
        &&& after@[handle].spec_id < assets.entity_specs.len()
        &&& assets.layer_of(after@[handle].spec_id) == after.layers()[handle]
    } by {
        assert(before@.contains_key(handle));
    }
}

} // verus!
