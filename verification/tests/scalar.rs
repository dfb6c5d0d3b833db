use entity_world::geometry::{div_floor, Aabb2, IAabb2, IVec2, Vec2};
use entity_world::hashing::{bucket_key_of, point_key_of};
use entity_world::scalar::{Scalar, GRID_SIZE};

fn scalar(value: f32) -> Scalar {
    Scalar::from_bits(value.to_bits())
}

fn reference_index(value: f32) -> i32 {
    glam::Vec2::new(value, value)
        .div_euclid(glam::Vec2::splat(GRID_SIZE as f32))
        .as_ivec2()
        .x
}

#[test]
fn bits_round_trip() {
    assert_eq!(Scalar::from_bits(0x4200_0000).to_bits(), 0x4200_0000);
    assert_eq!(scalar(32.0).to_bits(), 0x4200_0000);
}

#[test]
fn grid_index_of_chosen_values() {
    assert_eq!(scalar(0.0).div_euclid_grid(), 0);
    assert_eq!(scalar(-0.0).div_euclid_grid(), 0);
    assert_eq!(scalar(31.9).div_euclid_grid(), 0);
    assert_eq!(scalar(32.0).div_euclid_grid(), 1);
    assert_eq!(scalar(32.1).div_euclid_grid(), 1);
    assert_eq!(scalar(63.999).div_euclid_grid(), 1);
    assert_eq!(scalar(64.0).div_euclid_grid(), 2);
    assert_eq!(scalar(1000.5).div_euclid_grid(), 31);
}

#[test]
fn grid_index_floors_below_zero() {
    assert_eq!(scalar(-0.1).div_euclid_grid(), -1);
    assert_eq!(scalar(-31.9).div_euclid_grid(), -1);
    assert_eq!(scalar(-32.0).div_euclid_grid(), -1);
    assert_eq!(scalar(-32.1).div_euclid_grid(), -2);
    assert_eq!(scalar(-64.0).div_euclid_grid(), -2);
    assert_eq!(scalar(-1000.5).div_euclid_grid(), -32);
    assert_eq!(scalar(-f32::MIN_POSITIVE).div_euclid_grid(), -1);
    assert_eq!(Scalar::from_bits(0x8000_0001).div_euclid_grid(), -1);
    assert_eq!(Scalar::from_bits(0x0000_0001).div_euclid_grid(), 0);
}

#[test]
fn grid_index_saturates() {
    assert_eq!(scalar(f32::INFINITY).div_euclid_grid(), i32::MAX);
    assert_eq!(scalar(f32::NEG_INFINITY).div_euclid_grid(), i32::MIN);
    assert_eq!(scalar(f32::MAX).div_euclid_grid(), i32::MAX);
    assert_eq!(scalar(f32::MIN).div_euclid_grid(), i32::MIN);
    // 2^36 / 32 is 2^31, one more than the largest index.
    assert_eq!(scalar(68_719_476_736.0).div_euclid_grid(), i32::MAX);
    assert_eq!(scalar(-68_719_476_736.0).div_euclid_grid(), i32::MIN);
    // The largest value below 2^36 is 2^36 - 2^12.
    assert_eq!(scalar(68_719_472_640.0).div_euclid_grid(), 2_147_483_520);
    assert_eq!(scalar(-68_719_472_640.0).div_euclid_grid(), -2_147_483_520);
}

#[test]
fn grid_index_of_nan_is_zero() {
    assert_eq!(scalar(f32::NAN).div_euclid_grid(), 0);
    assert_eq!(Scalar::from_bits(0x7f80_0001).div_euclid_grid(), 0);
    assert_eq!(Scalar::from_bits(0xffff_ffff).div_euclid_grid(), 0);
}

#[test]
fn grid_index_agrees_with_glam_on_chosen_values() {
    let values = [
        0.0f32,
        -0.0,
        1.0,
        -1.0,
        31.9,
        32.0,
        32.1,
        -31.9,
        -32.0,
        -32.1,
        1.0e-40,
        -1.0e-40,
        f32::MIN_POSITIVE,
        -f32::MIN_POSITIVE,
        16_777_216.0,
        -16_777_216.0,
        268_435_456.0,
        -268_435_488.0,
        1.0e10,
        -1.0e10,
        6.8e10,
        -6.8e10,
        7.0e10,
        -7.0e10,
        f32::MAX,
        f32::MIN,
        f32::INFINITY,
        f32::NEG_INFINITY,
        f32::NAN,
    ];
    for value in values {
        assert_eq!(scalar(value).div_euclid_grid(), reference_index(value), "{}", value);
    }
}

#[test]
fn grid_index_agrees_with_glam_on_many_patterns() {
    let mut state: u32 = 0x1234_5678;
    for _ in 0..200_000 {
        state = state.wrapping_mul(1_664_525).wrapping_add(1_013_904_223);
        let value = f32::from_bits(state);
        assert_eq!(
            Scalar::from_bits(state).div_euclid_grid(),
            reference_index(value),
            "{:#x}",
            state
        );
    }
}

#[test]
fn grid_index_agrees_with_glam_around_every_exponent() {
    for exponent in 0u32..=255 {
        for fraction in [0u32, 1, 2, 0x3f_ffff, 0x40_0000, 0x40_0001, 0x7f_fffe, 0x7f_ffff] {
            for sign in [0u32, 0x8000_0000] {
                let bits = sign | (exponent << 23) | fraction;
                assert_eq!(
                    Scalar::from_bits(bits).div_euclid_grid(),
                    reference_index(f32::from_bits(bits)),
                    "{:#x}",
                    bits
                );
            }
        }
    }
}

#[test]
fn vector_cell_is_componentwise() {
    let cell = Vec2::new(scalar(31.9), scalar(-0.5)).div_euclid_grid();
    assert_eq!(cell, IVec2::new(0, -1));
    let cell = Vec2::new(scalar(-64.0), scalar(100.0)).div_euclid_grid();
    assert_eq!(cell, IVec2::new(-2, 3));
}

#[test]
fn box_cells_are_those_of_the_corners() {
    let bounds = Aabb2::new(
        Vec2::new(scalar(-16.0), scalar(-16.0)),
        Vec2::new(scalar(16.0), scalar(16.0)),
    );
    let cells = bounds.div_euclid_grid();
    assert_eq!(cells, IAabb2::new(IVec2::new(-1, -1), IVec2::new(0, 0)));
}

#[test]
fn div_floor_rounds_down() {
    assert_eq!(div_floor(0, 32), 0);
    assert_eq!(div_floor(31, 32), 0);
    assert_eq!(div_floor(32, 32), 1);
    assert_eq!(div_floor(-1, 32), -1);
    assert_eq!(div_floor(-32, 32), -1);
    assert_eq!(div_floor(-33, 32), -2);
    assert_eq!(div_floor(i32::MIN, 32), -67_108_864);
    assert_eq!(div_floor(i32::MAX, 32), 67_108_863);
    assert_eq!(div_floor(i32::MIN, 1), i32::MIN);
    assert_eq!(div_floor(i32::MIN, i32::MAX), -2);
    assert_eq!(div_floor(-7, 7), -1);
    for a in -200..200 {
        for b in 1..40 {
            assert_eq!(div_floor(a, b), a.div_euclid(b));
        }
    }
}

#[test]
fn integer_box_to_grid_space_and_margin() {
    let rect = IAabb2::new(IVec2::new(0, 0), IVec2::new(10, 10));
    let cells = rect.to_grid_space(32);
    assert_eq!(cells, IAabb2::new(IVec2::new(0, 0), IVec2::new(0, 0)));
    assert_eq!(cells.extends(2), IAabb2::new(IVec2::new(-2, -2), IVec2::new(2, 2)));
    let rect = IAabb2::new(IVec2::new(-1, -33), IVec2::new(64, 31));
    assert_eq!(rect.to_grid_space(32), IAabb2::new(IVec2::new(-1, -2), IVec2::new(2, 0)));
}

#[test]
fn keys_of_points_and_buckets() {
    assert_eq!(point_key_of(IVec2::new(0, 0)), 0x8000_0000_8000_0000);
    assert_eq!(point_key_of(IVec2::new(i32::MIN, i32::MIN)), 0);
    assert_eq!(point_key_of(IVec2::new(i32::MAX, i32::MAX)), u64::MAX);
    assert_eq!(point_key_of(IVec2::new(-1, 1)), 0x7fff_ffff_8000_0001);
    assert_eq!(point_key_of(IVec2::new(1, -1)), 0x8000_0001_7fff_ffff);
    assert_eq!(bucket_key_of(IVec2::new(0, 0), 0), 0x8000_0000_8000_0000_0000_0000_0000_0000);
    assert_eq!(bucket_key_of(IVec2::new(0, 0), 7), 0x8000_0000_8000_0000_0000_0000_0000_0007);
    assert_eq!(bucket_key_of(IVec2::new(i32::MAX, i32::MAX), usize::MAX), {
        (u64::MAX as u128) << 64 | usize::MAX as u128
    });
    assert_ne!(bucket_key_of(IVec2::new(0, 1), 0), bucket_key_of(IVec2::new(1, 0), 0));
    assert_ne!(bucket_key_of(IVec2::new(0, 0), 1), bucket_key_of(IVec2::new(0, 1), 0));
}
