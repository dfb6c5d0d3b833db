use entity_world::assets::{Assets, EntitySpec};
use entity_world::game_loop::entity::{Entity, EntitySystem};
use entity_world::geometry::{Aabb2, Vec2};
use entity_world::scalar::Scalar;

fn vec2(x: f32, y: f32) -> Vec2 {
    Vec2::new(Scalar::from_bits(x.to_bits()), Scalar::from_bits(y.to_bits()))
}

fn aabb2(min: (f32, f32), max: (f32, f32)) -> Aabb2 {
    Aabb2::new(vec2(min.0, min.1), vec2(max.0, max.1))
}

/// The first and the third entity spec are on layer 0, the second on layer 1.
fn assets() -> Assets {
    Assets::new(
        vec![
            EntitySpec { layer_id: 0 },
            EntitySpec { layer_id: 1 },
            EntitySpec { layer_id: 0 },
        ],
        vec![],
    )
}

fn handles(found: &[(usize, &Entity)]) -> Vec<usize> {
    let mut handles: Vec<usize> = found.iter().map(|(handle, _)| *handle).collect();
    handles.sort();
    handles
}

#[test]
fn cells_are_32_units_wide() {
    assert_eq!(EntitySystem::GRID_SIZE, 32);
    assert_eq!(entity_world::scalar::GRID_SIZE, 32);
}

#[test]
fn insert_then_remove_returns_the_entity() {
    let assets = assets();
    let mut system = EntitySystem::new();
    let entity = Entity::new(1, vec2(12.5, -7.25));
    let id = system.insert(&assets, entity);
    assert_eq!(system.remove(&assets, id), Some(entity));
    assert_eq!(system.get(id), None);
    assert_eq!(system.remove(&assets, id), None);
}

#[test]
fn get_returns_what_was_inserted() {
    let assets = assets();
    let mut system = EntitySystem::new();
    let first = Entity::new(0, vec2(1.0, 2.0));
    let second = Entity::new(1, vec2(-100.0, 40.0));
    let a = system.insert(&assets, first);
    let b = system.insert(&assets, second);
    assert_ne!(a, b);
    assert_eq!(system.get(a), Some(&first));
    assert_eq!(system.get(b), Some(&second));
    assert_eq!(system.get(b + 1), None);
    assert_eq!(system.get(usize::MAX), None);
}

#[test]
fn remove_of_an_unknown_handle_changes_nothing() {
    let assets = assets();
    let mut system = EntitySystem::new();
    assert_eq!(system.remove(&assets, 0), None);
    let entity = Entity::new(0, vec2(0.0, 0.0));
    let id = system.insert(&assets, entity);
    assert_eq!(system.remove(&assets, id + 7), None);
    assert_eq!(system.get(id), Some(&entity));
    let found = system.get_from_area(aabb2((-1.0, -1.0), (1.0, 1.0)), 0);
    assert_eq!(handles(&found), vec![id]);
}

#[test]
fn handles_are_given_out_in_order_and_reused_last_removed_first() {
    let assets = assets();
    let mut system = EntitySystem::new();
    let entity = Entity::new(0, vec2(0.0, 0.0));
    assert_eq!(system.insert(&assets, entity), 0);
    assert_eq!(system.insert(&assets, entity), 1);
    assert_eq!(system.insert(&assets, entity), 2);
    assert_eq!(system.insert(&assets, entity), 3);
    assert!(system.remove(&assets, 1).is_some());
    assert!(system.remove(&assets, 3).is_some());
    assert_eq!(system.insert(&assets, entity), 3);
    assert_eq!(system.insert(&assets, entity), 1);
    assert_eq!(system.insert(&assets, entity), 4);
}

#[test]
fn query_separates_layers() {
    let assets = assets();
    let mut system = EntitySystem::new();
    let entity = Entity::new(0, vec2(0.0, 0.0));
    let id = system.insert(&assets, entity);
    let bounds = aabb2((-16.0, -16.0), (16.0, 16.0));
    let found = system.get_from_area(bounds, 0);
    assert_eq!(found.len(), 1);
    assert_eq!(found[0], (id, &entity));
    assert!(system.get_from_area(bounds, 1).is_empty());
}

#[test]
fn entities_across_a_cell_boundary_land_in_different_cells() {
    let assets = assets();
    let mut system = EntitySystem::new();
    let left = Entity::new(0, vec2(31.9, 0.0));
    let right = Entity::new(0, vec2(32.1, 0.0));
    let left_id = system.insert(&assets, left);
    let right_id = system.insert(&assets, right);

    let found = system.get_from_area(aabb2((0.0, 0.0), (31.0, 31.0)), 0);
    assert_eq!(found, vec![(left_id, &left)]);
    let found = system.get_from_area(aabb2((32.0, 0.0), (63.0, 31.0)), 0);
    assert_eq!(found, vec![(right_id, &right)]);
    let found = system.get_from_area(aabb2((0.0, 0.0), (63.0, 31.0)), 0);
    assert_eq!(found, vec![(left_id, &left), (right_id, &right)]);
    assert!(system.get_from_area(aabb2((64.0, 0.0), (95.0, 31.0)), 0).is_empty());
    assert!(system.get_from_area(aabb2((0.0, 32.0), (63.0, 63.0)), 0).is_empty());
}

#[test]
fn cells_below_zero_are_floored_not_truncated() {
    let assets = assets();
    let mut system = EntitySystem::new();
    let below = Entity::new(0, vec2(-0.5, -0.5));
    let above = Entity::new(0, vec2(0.5, 0.5));
    let below_id = system.insert(&assets, below);
    let above_id = system.insert(&assets, above);
    let found = system.get_from_area(aabb2((-31.0, -31.0), (-1.0, -1.0)), 0);
    assert_eq!(found, vec![(below_id, &below)]);
    let found = system.get_from_area(aabb2((1.0, 1.0), (31.0, 31.0)), 0);
    assert_eq!(found, vec![(above_id, &above)]);
}

#[test]
fn query_yields_every_entity_inside_the_bounds() {
    let assets = assets();
    let mut system = EntitySystem::new();
    let mut inside = Vec::new();
    let mut all = Vec::new();
    let bounds = aabb2((-40.0, -10.0), (75.0, 50.0));
    for i in 0..20 {
        for j in 0..20 {
            let x = -150.0 + 15.5 * i as f32;
            let y = -120.0 + 13.25 * j as f32;
            let entity = Entity::new((i + j) % 3, vec2(x, y));
            let id = system.insert(&assets, entity);
            all.push((id, entity));
            let layer = [0, 1, 0][(i + j) % 3];
            if layer == 0 && -40.0 <= x && x <= 75.0 && -10.0 <= y && y <= 50.0 {
                inside.push(id);
            }
        }
    }
    let found = system.get_from_area(bounds, 0);
    let found_handles = handles(&found);
    for id in &inside {
        assert!(found_handles.contains(id));
    }
    // Nothing comes twice, and everything that comes is live, on the layer,
    // and in a cell that the bounds touch: cells -2..=2 by -1..=1.
    let mut unique = found_handles.clone();
    unique.dedup();
    assert_eq!(unique, found_handles);
    for (id, entity) in &found {
        assert_eq!(all[*id], (*id, **entity));
        assert_ne!(entity.spec_id, 1);
        let x = f32::from_bits(entity.position.x.to_bits());
        let y = f32::from_bits(entity.position.y.to_bits());
        assert!(-64.0 <= x && x < 96.0);
        assert!(-32.0 <= y && y < 64.0);
    }
    let expected = all
        .iter()
        .filter(|(_, entity)| {
            let x = f32::from_bits(entity.position.x.to_bits());
            let y = f32::from_bits(entity.position.y.to_bits());
            entity.spec_id != 1 && -64.0 <= x && x < 96.0 && -32.0 <= y && y < 64.0
        })
        .count();
    assert_eq!(found.len(), expected);
}

#[test]
fn query_yields_a_neighbour_that_shares_a_cell_with_the_bounds() {
    let assets = assets();
    let mut system = EntitySystem::new();
    let outside = Entity::new(0, vec2(20.0, 0.0));
    let id = system.insert(&assets, outside);
    let found = system.get_from_area(aabb2((0.0, 0.0), (10.0, 10.0)), 0);
    assert_eq!(found, vec![(id, &outside)]);
}

#[test]
fn query_walks_the_cells_by_x_then_y() {
    let assets = assets();
    let mut system = EntitySystem::new();
    let d = system.insert(&assets, Entity::new(0, vec2(40.0, 40.0)));
    let b = system.insert(&assets, Entity::new(0, vec2(0.0, 40.0)));
    let c = system.insert(&assets, Entity::new(0, vec2(40.0, 0.0)));
    let a = system.insert(&assets, Entity::new(0, vec2(0.0, 0.0)));
    let found = system.get_from_area(aabb2((0.0, 0.0), (63.0, 63.0)), 0);
    let order: Vec<usize> = found.iter().map(|(handle, _)| *handle).collect();
    assert_eq!(order, vec![a, b, c, d]);
}

#[test]
fn query_with_reversed_bounds_is_empty() {
    let assets = assets();
    let mut system = EntitySystem::new();
    system.insert(&assets, Entity::new(0, vec2(0.0, 0.0)));
    assert!(system.get_from_area(aabb2((40.0, 40.0), (-40.0, -40.0)), 0).is_empty());
    assert!(system.get_from_area(aabb2((-40.0, 40.0), (40.0, -40.0)), 0).is_empty());
}

#[test]
fn a_removed_entity_is_not_found_again() {
    let assets = assets();
    let mut system = EntitySystem::new();
    let bounds = aabb2((0.0, 0.0), (31.0, 31.0));
    let first = system.insert(&assets, Entity::new(0, vec2(1.0, 1.0)));
    let second = system.insert(&assets, Entity::new(0, vec2(2.0, 2.0)));
    let third = system.insert(&assets, Entity::new(0, vec2(3.0, 3.0)));
    assert_eq!(handles(&system.get_from_area(bounds, 0)), vec![first, second, third]);
    assert!(system.remove(&assets, second).is_some());
    assert_eq!(handles(&system.get_from_area(bounds, 0)), vec![first, third]);
    assert!(system.remove(&assets, first).is_some());
    assert!(system.remove(&assets, third).is_some());
    assert!(system.get_from_area(bounds, 0).is_empty());
}

#[test]
fn a_reused_handle_yields_the_new_entity_only() {
    let assets = assets();
    let mut system = EntitySystem::new();
    let old_bounds = aabb2((0.0, 0.0), (31.0, 31.0));
    let new_bounds = aabb2((320.0, 320.0), (330.0, 330.0));
    let removed = Entity::new(0, vec2(5.0, 5.0));
    let id = system.insert(&assets, removed);
    assert_eq!(system.remove(&assets, id), Some(removed));

    let newcomer = Entity::new(1, vec2(325.0, 325.0));
    assert_eq!(system.insert(&assets, newcomer), id);
    assert!(system.get_from_area(old_bounds, 0).is_empty());
    assert!(system.get_from_area(old_bounds, 1).is_empty());
    assert!(system.get_from_area(new_bounds, 0).is_empty());
    assert_eq!(system.get_from_area(new_bounds, 1), vec![(id, &newcomer)]);
    assert_eq!(system.get(id), Some(&newcomer));
}

#[test]
fn removal_finds_the_slot_of_the_bucket_not_the_handle() {
    // The second entity is alone in its bucket: its slot there is 0 while its
    // handle is 1.
    let assets = assets();
    let mut system = EntitySystem::new();
    let near = Entity::new(0, vec2(0.0, 0.0));
    let far = Entity::new(0, vec2(1000.0, 1000.0));
    let near_id = system.insert(&assets, near);
    let far_id = system.insert(&assets, far);
    assert_eq!((near_id, far_id), (0, 1));
    assert_eq!(system.remove(&assets, far_id), Some(far));
    assert!(system.get_from_area(aabb2((992.0, 992.0), (1023.0, 1023.0)), 0).is_empty());
    assert_eq!(
        system.get_from_area(aabb2((0.0, 0.0), (1.0, 1.0)), 0),
        vec![(near_id, &near)]
    );
    assert_eq!(system.remove(&assets, near_id), Some(near));
}

#[test]
fn many_insertions_and_removals_keep_the_index_exact() {
    let assets = assets();
    let mut system = EntitySystem::new();
    let mut live: Vec<Option<Entity>> = Vec::new();
    let mut state: u32 = 7;
    for step in 0..4000 {
        state = state.wrapping_mul(1_664_525).wrapping_add(1_013_904_223);
        let x = ((state >> 8) % 256) as f32 - 128.0;
        let y = ((state >> 16) % 256) as f32 - 128.0;
        if step % 3 == 2 {
            let id = (state >> 4) as usize % live.len();
            assert_eq!(system.remove(&assets, id), live[id]);
            live[id] = None;
        } else {
            let entity = Entity::new((state % 3) as usize, vec2(x, y));
            let id = system.insert(&assets, entity);
            if id == live.len() {
                live.push(Some(entity));
            } else {
                assert_eq!(live[id], None);
                live[id] = Some(entity);
            }
        }
    }
    for layer in 0..2 {
        let found = system.get_from_area(aabb2((-128.0, -128.0), (127.0, 127.0)), layer);
        let expected: Vec<usize> = (0..live.len())
            .filter(|id| match live[*id] {
                Some(entity) => [0, 1, 0][entity.spec_id] == layer,
                None => false,
            })
            .collect();
        assert_eq!(handles(&found), expected);
        for (id, entity) in &found {
            assert_eq!(live[*id], Some(**entity));
        }
    }
}
