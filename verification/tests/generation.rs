use std::rc::Rc;

use entity_world::assets::{Assets, GenerationSpec, Probability};
use entity_world::game_loop::base::{Base, BaseStorage};
use entity_world::game_loop::block::{Block, BlockStorage};
use entity_world::game_loop::entity::EntitySystem;
use entity_world::game_loop::generation::GenerationSystem;
use entity_world::geometry::{IAabb2, IVec2};

fn rect(min: (i32, i32), max: (i32, i32)) -> IAabb2 {
    IAabb2::new(IVec2::new(min.0, min.1), IVec2::new(max.0, max.1))
}

fn generator(rules: Vec<GenerationSpec>) -> GenerationSystem {
    GenerationSystem::new(Rc::new(Assets::new(vec![], rules)))
}

struct World {
    bases: BaseStorage,
    blocks: BlockStorage,
    entities: EntitySystem,
}

fn world() -> World {
    World { bases: BaseStorage::new(), blocks: BlockStorage::new(), entities: EntitySystem::new() }
}

fn generate(system: &mut GenerationSystem, world: &mut World, rect: IAabb2) {
    system.generate(&mut world.bases, &mut world.blocks, &mut world.entities, rect);
}

/// The lattice positions of the chunks `min..=max`, chunk by chunk, in the
/// order of generation.
fn lattice(min: (i32, i32), max: (i32, i32)) -> Vec<IVec2> {
    let mut positions = Vec::new();
    for chunk_x in min.0..=max.0 {
        for chunk_y in min.1..=max.1 {
            for x in 0..32 {
                for y in 0..32 {
                    positions.push(IVec2::new(chunk_x * 32 + x, chunk_y * 32 + y));
                }
            }
        }
    }
    positions
}

fn bases(world: &World) -> Vec<Base> {
    (0..world.bases.len()).map(|id| *world.bases.get(id).unwrap()).collect()
}

fn blocks(world: &World) -> Vec<Block> {
    (0..world.blocks.len()).map(|id| *world.blocks.get(id).unwrap()).collect()
}

#[test]
fn constants_of_the_chunk_grid() {
    assert_eq!(GenerationSystem::GRID_SIZE, 32);
    assert_eq!(GenerationSystem::EXTEND_GRID, 2);
    assert_eq!(Probability::ONE, 1 << 24);
}

#[test]
fn fill_base_covers_the_region_with_its_margin() {
    let mut system = generator(vec![GenerationSpec::FillBase { base_spec_id: 3 }]);
    let mut world = world();
    generate(&mut system, &mut world, rect((0, 0), (10, 10)));

    let expected: Vec<Base> =
        lattice((-2, -2), (2, 2)).into_iter().map(|position| Base::new(3, position)).collect();
    assert_eq!(expected.len(), 25 * 1024);
    assert_eq!(bases(&world), expected);
    assert_eq!(world.blocks.len(), 0);

    let xs: Vec<i32> = bases(&world).iter().map(|base| base.position.x).collect();
    let ys: Vec<i32> = bases(&world).iter().map(|base| base.position.y).collect();
    assert_eq!(xs.iter().min(), Some(&-64));
    assert_eq!(xs.iter().max(), Some(&95));
    assert_eq!(ys.iter().min(), Some(&-64));
    assert_eq!(ys.iter().max(), Some(&95));
}

#[test]
fn a_repeated_request_places_nothing() {
    let mut system = generator(vec![
        GenerationSpec::FillBase { base_spec_id: 0 },
        GenerationSpec::RandomBase { base_spec_id: 1, probability: Probability::new(1 << 23) },
        GenerationSpec::RandomBlock { block_spec_id: 2, probability: Probability::new(1 << 23) },
    ]);
    let mut world = world();
    generate(&mut system, &mut world, rect((0, 0), (10, 10)));
    let first_bases = bases(&world);
    let first_blocks = blocks(&world);
    assert!(first_bases.len() >= 25 * 1024);

    generate(&mut system, &mut world, rect((0, 0), (10, 10)));
    assert_eq!(bases(&world), first_bases);
    assert_eq!(blocks(&world), first_blocks);
    // A smaller request inside the generated region places nothing either.
    generate(&mut system, &mut world, rect((5, 5), (6, 6)));
    assert_eq!(bases(&world), first_bases);
    assert_eq!(blocks(&world), first_blocks);
}

#[test]
fn an_overlapping_request_generates_only_the_new_chunks() {
    let mut system = generator(vec![GenerationSpec::FillBase { base_spec_id: 0 }]);
    let mut world = world();
    generate(&mut system, &mut world, rect((0, 0), (10, 10)));
    // One chunk to the right: the region is now 3 in x after -1..=2 was done.
    generate(&mut system, &mut world, rect((32, 0), (42, 10)));

    let mut expected: Vec<Base> =
        lattice((-2, -2), (2, 2)).into_iter().map(|position| Base::new(0, position)).collect();
    expected.extend(lattice((3, -2), (3, 2)).into_iter().map(|position| Base::new(0, position)));
    assert_eq!(bases(&world), expected);
}

#[test]
fn rules_are_applied_in_catalog_order_within_each_chunk() {
    let mut system = generator(vec![
        GenerationSpec::FillBase { base_spec_id: 7 },
        GenerationSpec::RandomBlock { block_spec_id: 5, probability: Probability::new(0) },
        GenerationSpec::FillBase { base_spec_id: 8 },
    ]);
    let mut world = world();
    generate(&mut system, &mut world, rect((0, 0), (0, 0)));

    let mut expected = Vec::new();
    for chunk_x in -2..=2 {
        for chunk_y in -2..=2 {
            for spec_id in [7, 8] {
                for position in lattice((chunk_x, chunk_y), (chunk_x, chunk_y)) {
                    expected.push(Base::new(spec_id, position));
                }
            }
        }
    }
    assert_eq!(bases(&world), expected);
    assert_eq!(world.blocks.len(), 0);
}

#[test]
fn a_filling_rule_fills_each_new_chunk_whatever_the_other_rules_do() {
    let mut system = generator(vec![
        GenerationSpec::RandomBase { base_spec_id: 1, probability: Probability::new(1 << 22) },
        GenerationSpec::FillBase { base_spec_id: 9 },
        GenerationSpec::RandomBase { base_spec_id: 1, probability: Probability::new(1 << 23) },
    ]);
    let mut world = world();
    generate(&mut system, &mut world, rect((-40, 70), (-35, 75)));

    // The request touches the chunk (-2, 2): the region is -4..=0 by 0..=4.
    let filled: Vec<IVec2> = bases(&world)
        .iter()
        .filter(|base| base.spec_id == 9)
        .map(|base| base.position)
        .collect();
    assert_eq!(filled, lattice((-4, 0), (0, 4)));
    let random = bases(&world).iter().filter(|base| base.spec_id == 1).count();
    assert!(0 < random && random < 2 * 25 * 1024);
}

#[test]
fn probability_zero_places_nothing() {
    let mut system = generator(vec![
        GenerationSpec::RandomBase { base_spec_id: 1, probability: Probability::new(0) },
        GenerationSpec::RandomBlock { block_spec_id: 2, probability: Probability::new(0) },
    ]);
    let mut world = world();
    generate(&mut system, &mut world, rect((-100, -100), (100, 100)));
    assert_eq!(world.bases.len(), 0);
    assert_eq!(world.blocks.len(), 0);
}

#[test]
fn probability_one_places_on_every_position() {
    let mut system = generator(vec![
        GenerationSpec::RandomBase {
            base_spec_id: 1,
            probability: Probability::new(Probability::ONE),
        },
        GenerationSpec::RandomBlock {
            block_spec_id: 2,
            probability: Probability::new(Probability::ONE),
        },
    ]);
    let mut world = world();
    generate(&mut system, &mut world, rect((0, 0), (10, 10)));

    let positions = lattice((-2, -2), (2, 2));
    let expected: Vec<Base> = positions.iter().map(|position| Base::new(1, *position)).collect();
    assert_eq!(bases(&world), expected);
    let placed = blocks(&world);
    assert_eq!(placed.len(), positions.len());
    for (block, position) in placed.iter().zip(&positions) {
        assert_eq!(block.spec_id, 2);
        assert_eq!(block.position, *position);
    }
}

#[test]
fn a_random_rule_places_some_of_its_candidates_in_order() {
    let mut system = generator(vec![GenerationSpec::RandomBlock {
        block_spec_id: 4,
        probability: Probability::new(1 << 23),
    }]);
    let mut world = world();
    generate(&mut system, &mut world, rect((0, 0), (0, 0)));

    let positions = lattice((-2, -2), (2, 2));
    let placed = blocks(&world);
    // With probability one half on 25600 positions, neither none nor all.
    assert!(!placed.is_empty());
    assert!(placed.len() < positions.len());
    let mut next = 0;
    for block in &placed {
        assert_eq!(block.spec_id, 4);
        while positions[next] != block.position {
            next += 1;
        }
        next += 1;
    }
    // The depth jitter is drawn anew for each block.
    let first = placed[0].z_random;
    assert!(placed.iter().any(|block| block.z_random != first));
    assert_eq!(world.bases.len(), 0);
}

#[test]
fn an_empty_region_generates_nothing_and_flags_nothing() {
    let mut system = generator(vec![GenerationSpec::FillBase { base_spec_id: 0 }]);
    let mut world = world();
    // The corners are so far apart, the wrong way round, that even the margin
    // does not make the region valid.
    generate(&mut system, &mut world, rect((1000, 0), (0, 10)));
    assert_eq!(world.bases.len(), 0);
    generate(&mut system, &mut world, rect((0, 0), (0, 0)));
    assert_eq!(world.bases.len(), 25 * 1024);
}

#[test]
fn generation_below_zero_uses_floor_division() {
    let mut system = generator(vec![GenerationSpec::FillBase { base_spec_id: 0 }]);
    let mut world = world();
    generate(&mut system, &mut world, rect((-1, -1), (-1, -1)));
    let expected: Vec<Base> =
        lattice((-3, -3), (1, 1)).into_iter().map(|position| Base::new(0, position)).collect();
    assert_eq!(bases(&world), expected);
}

#[test]
fn generation_leaves_the_entities_alone() {
    let assets = Assets::new(vec![entity_world::assets::EntitySpec { layer_id: 0 }], vec![]);
    let mut system = generator(vec![GenerationSpec::FillBase { base_spec_id: 0 }]);
    let mut world = world();
    let origin = entity_world::geometry::Vec2::new(
        entity_world::scalar::Scalar::from_bits(0),
        entity_world::scalar::Scalar::from_bits(0),
    );
    let entity = entity_world::game_loop::entity::Entity::new(0, origin);
    let id = world.entities.insert(&assets, entity);
    generate(&mut system, &mut world, rect((0, 0), (10, 10)));
    assert_eq!(world.entities.get(id), Some(&entity));
    assert_eq!(world.entities.insert(&assets, entity), id + 1);
}

#[test]
fn trial_compares_the_upper_24_bits_with_the_threshold() {
    let half = Probability::new(1 << 23);
    assert!(half.trial(0));
    assert!(half.trial(0x7fff_ffff));
    assert!(!half.trial(0x8000_0000));
    assert!(!half.trial(u32::MAX));
    let never = Probability::new(0);
    assert!(!never.trial(0));
    assert!(!never.trial(u32::MAX));
    let always = Probability::new(Probability::ONE);
    assert!(always.trial(0));
    assert!(always.trial(u32::MAX));
    let smallest = Probability::new(1);
    assert!(smallest.trial(0xff));
    assert!(!smallest.trial(0x100));
}

#[test]
fn trial_agrees_with_the_comparison_of_floats() {
    // The draw of a float in [0, 1) is the upper 24 bits times 2^-24.
    let mut state: u32 = 99;
    for _ in 0..20_000 {
        state = state.wrapping_mul(1_664_525).wrapping_add(1_013_904_223);
        let draw = state;
        state = state.wrapping_mul(1_664_525).wrapping_add(1_013_904_223);
        let threshold = state >> 8;
        let probability = threshold as f32 / 16_777_216.0;
        let float_draw = (draw >> 8) as f32 / 16_777_216.0;
        assert_eq!(Probability::new(threshold).trial(draw), float_draw < probability);
    }
}

#[test]
fn jitter_is_the_lowest_byte_of_the_draw() {
    assert_eq!(Block::jitter_of(0), 0);
    assert_eq!(Block::jitter_of(0xff), 255);
    assert_eq!(Block::jitter_of(0x100), 0);
    assert_eq!(Block::jitter_of(0x1234_5678), 0x78);
    assert_eq!(Block::jitter_of(u32::MAX), 255);
}

#[test]
fn storages_give_out_ids_in_order() {
    let mut bases = BaseStorage::new();
    assert_eq!(bases.len(), 0);
    assert_eq!(bases.insert(Base::new(1, IVec2::new(2, 3))), 0);
    assert_eq!(bases.insert(Base::new(4, IVec2::new(5, 6))), 1);
    assert_eq!(bases.get(1), Some(&Base::new(4, IVec2::new(5, 6))));
    assert_eq!(bases.get(2), None);
    let mut blocks = BlockStorage::new();
    assert_eq!(blocks.insert(Block::new(1, IVec2::new(2, 3), 9)), 0);
    assert_eq!(blocks.get(0), Some(&Block::new(1, IVec2::new(2, 3), 9)));
    assert_eq!(blocks.get(1), None);
    assert_eq!(blocks.len(), 1);
}
