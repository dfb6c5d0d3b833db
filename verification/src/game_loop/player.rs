//! The player: one entity of the store, kept by its handle.

use vstd::prelude::*;
use crate::assets::Assets;
use crate::game_loop::entity::{Entity, EntitySystem};
use crate::geometry::Vec2;
use crate::scalar::Scalar;

verus! {

/// The handle of the player's entity, once the player was spawned.
pub struct PlayerSystem {
    player_id: Option<usize>,
}

impl Default for PlayerSystem {
    fn default() -> (system: PlayerSystem)
        ensures
            system.player_id() is None,
    {
        PlayerSystem { player_id: None }
    }
}

impl PlayerSystem {
    /// The handle that was given to the player, if the player was spawned.
    pub closed spec fn player_id(&self) -> Option<usize> {
        self.player_id
    }

    /// The entity of a player that is spawned: of the kind `spec_id`, at the
    /// origin of the world.
    pub open spec fn newcomer(spec_id: usize) -> Entity {
        Entity { spec_id, position: Vec2 { x: Scalar { bits: 0 }, y: Scalar { bits: 0 } } }
    }

    /// Whether the player's entity, where it is live, can be removed: the
    /// catalog gives for its kind the layer it is indexed under.
    pub open spec fn removable(&self, assets: &Assets, entity_system: &EntitySystem) -> bool {
        self.player_id() matches Some(id) ==> (entity_system@.contains_key(id) ==> {
            &&& entity_system@[id].spec_id < assets.entity_specs.len()
            &&& assets.layer_of(entity_system@[id].spec_id) == entity_system.layers()[id]
        })
    }

    /// Makes the player's entity at the origin, unless a player was spawned
    /// before, and returns it.
    pub fn spawn_player<'a>(
        &mut self,
        assets: &Assets,
        entity_system: &'a mut EntitySystem,
        spec_id: usize,
    ) -> (player: Option<&'a Entity>)
        requires
            old(entity_system).wf(),
            spec_id < assets.entity_specs.len(),
        ensures
            match old(self).player_id() {
                Some(_) => {
                    &&& player is None
                    &&& *final(self) == *old(self)
                    &&& *final(entity_system) == *old(entity_system)
                },
                None => {
                    &&& player == Some(&Self::newcomer(spec_id))
                    &&& final(self).player_id() == Some(old(entity_system).vacancies()[0])
                    &&& old(entity_system).inserts(
                        assets,
                        Self::newcomer(spec_id),
                        old(entity_system).vacancies()[0],
                        final(entity_system),
                    )
                },
            },
    {
        if self.player_id.is_none() {
            let origin = Vec2::new(Scalar::from_bits(0), Scalar::from_bits(0));
            let id = entity_system.insert(assets, Entity::new(spec_id, origin));
            self.player_id = Some(id);
            self.get_player(entity_system)
        } else {
            None
        }
    }

    /// Removes the player's entity and returns it. The handle stays with the
    /// player.
    pub fn despawn_player(&mut self, assets: &Assets, entity_system: &mut EntitySystem) -> (player:
        Option<Entity>)
        requires
            old(entity_system).wf(),
            old(self).removable(assets, &*old(entity_system)),
        ensures
            final(self).player_id() == old(self).player_id(),
            match old(self).player_id() {
                Some(id) => old(entity_system).removes(id, player, final(entity_system)),
                None => player is None && *final(entity_system) == *old(entity_system),
            },
    {
        match self.player_id {
            Some(id) => entity_system.remove(assets, id),
            None => None,
        }
    }

    /// The player's entity, if the player was spawned and the entity is
    /// live.
    pub fn get_player<'a>(&self, entity_system: &'a EntitySystem) -> (player: Option<&'a Entity>)
        ensures
            player == (match self.player_id() {
                Some(id) => if entity_system@.contains_key(id) {
                    Some(&entity_system@[id])
                } else {
                    None
                },
                None => None,
            }),
    {
        match self.player_id {
            Some(id) => entity_system.get(id),
            None => None,
        }
    }

    /// Moves the player's entity to `position`: takes it out of the store
    /// and puts it back, so that the index follows. The entity keeps its
    /// handle. Nothing happens where the player has no live entity.
    pub fn update(&mut self, assets: &Assets, entity_system: &mut EntitySystem, position: Vec2)
        requires
            old(entity_system).wf(),
            old(self).removable(assets, &*old(entity_system)),
        ensures
            final(self).player_id() == old(self).player_id(),
            final(entity_system).wf(),
            final(entity_system).layers() == old(entity_system).layers(),
            final(entity_system).vacancies() == old(entity_system).vacancies(),
            match old(self).player_id() {
                Some(id) if old(entity_system)@.contains_key(id) => {
                    let moved = Entity { spec_id: old(entity_system)@[id].spec_id, position };
                    &&& final(entity_system)@ == old(entity_system)@.insert(id, moved)
                    &&& exists|between: EntitySystem|
                        {
                            &&& old(entity_system).removes(
                                id,
                                Some(old(entity_system)@[id]),
                                &between,
                            )
                            &&& #[trigger] between.inserts(assets, moved, id, final(entity_system))
                        }
                },
                Some(id) => old(entity_system).removes(id, None, final(entity_system)),
                None => *final(entity_system) == *old(entity_system),
            },
    {
        if let Some(id) = self.player_id {
            if let Some(mut player) = entity_system.remove(assets, id) {
                player.position = position;
                let ghost between = *entity_system;
                entity_system.insert(assets, player);
                proof {
                    old(entity_system).lemma_vacancies_never_run_out();
                    assert(between.vacancies().skip(1) =~= old(entity_system).vacancies());
                    assert(old(entity_system)@.remove(id).insert(id, player) =~= old(
                        entity_system,
                    )@.insert(id, player));
                    old(entity_system).lemma_layers_cover_live();
                    assert(old(entity_system).layers().remove(id).insert(
                        id,
                        assets.layer_of(player.spec_id),
                    ) =~= old(entity_system).layers());
                    assert(between.inserts(assets, player, id, entity_system));
                }
            } else {
                proof {
                    old(entity_system).lemma_layers_cover_live();
                    assert(old(entity_system).layers().remove(id) =~= old(entity_system).layers());
                }
            }
        }
    }
}

} // verus!
