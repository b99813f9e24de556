//! The shape of the world.

use std::cell::Cell;
use voxterra::planet::{
    chunk_in_vertical_bounds, in_vertical_bounds, DEFAULT_WORLD_SIZE_BLOCKS, MAX_WORLD_SIZE_BLOCKS,
    MIN_WORLD_SIZE_BLOCKS, WORLD_SIZE_QUANTUM_BLOCKS, WORLD_Y_MAX_BLOCKS, WORLD_Y_MIN_BLOCKS,
};
use voxterra::{find_spawn, ChunkPos, WorldShape, WorldShapeError, CHUNK_SIZE};

fn w() -> WorldShape {
    WorldShape::default_shape()
}

#[test]
fn the_default_world_is_legal_and_quantised() {
    assert_eq!(w().size_x(), 204_800);
    assert_eq!(w().size_z(), 204_800);
    assert_eq!(WorldShape::new(204_800, 204_800), Ok(w()));
    assert_eq!(WorldShape::default(), w());
}

#[test]
fn illegal_sizes_are_rejected() {
    assert_eq!(
        WorldShape::new(200_000, 204_800),
        Err(WorldShapeError::NotQuantised(200_000))
    );
    assert_eq!(
        WorldShape::new(WORLD_SIZE_QUANTUM_BLOCKS, MIN_WORLD_SIZE_BLOCKS),
        Err(WorldShapeError::TooSmall(WORLD_SIZE_QUANTUM_BLOCKS))
    );
    let big = MAX_WORLD_SIZE_BLOCKS + WORLD_SIZE_QUANTUM_BLOCKS;
    assert_eq!(
        WorldShape::new(MIN_WORLD_SIZE_BLOCKS, big),
        Err(WorldShapeError::TooLarge(big))
    );
    // Non-square worlds are legal, even though the default is square.
    assert!(WorldShape::new(MIN_WORLD_SIZE_BLOCKS, MAX_WORLD_SIZE_BLOCKS).is_ok());
}

/// Every bound must land on a chunk edge, and so must every world size,
/// or chunk coordinates would not wrap exactly.
#[test]
fn every_bound_and_size_is_chunk_aligned() {
    let s = CHUNK_SIZE as i64;
    assert_eq!(WORLD_SIZE_QUANTUM_BLOCKS % s, 0);
    assert_eq!(WORLD_Y_MIN_BLOCKS % s, 0);
    assert_eq!(WORLD_Y_MAX_BLOCKS % s, 0);
}

#[test]
fn vertical_bounds_clear_everest_and_the_trench() {
    assert!(in_vertical_bounds(8_848), "Everest must fit");
    assert!(in_vertical_bounds(-10_935), "Challenger Deep must fit");
    assert!(in_vertical_bounds(WORLD_Y_MIN_BLOCKS));
    assert!(in_vertical_bounds(WORLD_Y_MAX_BLOCKS - 1));
    assert!(!in_vertical_bounds(WORLD_Y_MAX_BLOCKS));
    assert!(!in_vertical_bounds(WORLD_Y_MIN_BLOCKS - 1));
    let s = CHUNK_SIZE as i64;
    assert!(chunk_in_vertical_bounds(ChunkPos::new(
        0,
        WORLD_Y_MIN_BLOCKS / s,
        0
    )));
    assert!(!chunk_in_vertical_bounds(ChunkPos::new(
        0,
        WORLD_Y_MAX_BLOCKS / s,
        0
    )));
    // Horizontally, everything is in the world.
    assert!(chunk_in_vertical_bounds(ChunkPos::new(
        i64::MAX / 64,
        0,
        i64::MIN / 64
    )));
}

#[test]
fn canonicalisation_wraps_negatives_and_laps() {
    let p = w().size_x();
    for (x, want) in [
        (0, 0),
        (p - 1, p - 1),
        (p, 0),
        (-1, p - 1),
        (3 * p + 17, 17),
        (-2 * p - 5, p - 5),
    ] {
        assert_eq!(w().canonical_x(x), want, "canonical_x({x})");
        assert_eq!(w().canonical_z(x), want, "canonical_z({x})");
    }
    // Idempotent.
    assert_eq!(
        w().canonical_x(w().canonical_x(-12_345)),
        w().canonical_x(-12_345)
    );
}

/// Canonicalising a chunk must agree with canonicalising the blocks inside
/// it — the save layer relies on this to find a chunk from either side.
#[test]
fn chunk_and_block_canonicalisation_agree() {
    let s = CHUNK_SIZE as i64;
    for x in [
        -3 * w().size_x(),
        -1,
        0,
        31,
        32,
        w().size_x() - 1,
        w().size_x(),
        5 * w().size_x() + 700,
    ] {
        let chunk = ChunkPos::new(x.div_euclid(s), 7, (-x).div_euclid(s));
        let c = w().canonical_chunk(chunk);
        assert_eq!(c.x, w().canonical_x(x).div_euclid(s));
        assert_eq!(c.z, w().canonical_z(-x).div_euclid(s));
        assert_eq!(c.y, 7, "Y must never wrap");
    }
}

#[test]
fn delta_takes_the_short_way_round() {
    let p = w().size_x();
    assert_eq!(w().delta_x(0, 10), 10);
    assert_eq!(w().delta_x(10, 0), -10);
    // Across the seam: from just west of it to just east is a short step.
    assert_eq!(w().delta_x(p - 10, 5), 15);
    assert_eq!(w().delta_x(5, p - 10), -15);
    // Different laps of the same place are no distance apart.
    assert_eq!(w().delta_x(123, 123 + 4 * p), 0);
    // Never longer than half the world.
    for (a, b) in [(0, p / 2), (0, p / 2 + 1), (7, 7 + p / 2 - 1)] {
        assert!(w().delta_x(a, b).abs() <= p / 2);
        assert_eq!(w().delta_z(a, b), w().delta_x(a, b));
    }
}

#[test]
fn the_view_never_reaches_halfway_round() {
    for size in [
        MIN_WORLD_SIZE_BLOCKS,
        DEFAULT_WORLD_SIZE_BLOCKS,
        MAX_WORLD_SIZE_BLOCKS,
    ] {
        let w = WorldShape::new(size, size).unwrap();
        assert!(w.max_view_distance_blocks() < size / 2);
        assert!(w.max_view_distance_blocks() > 0);
    }
}

/// Noise tiles only if a whole number of cells fits around the world. The
/// rounded wavelength must stay close to the target at the default size,
/// and degrade gracefully in a tiny world.
#[test]
fn noise_cells_fit_a_whole_number_of_times() {
    for target in [90, 800, 7_000, 34_000, 56_000] {
        let n = w().cells_around_x(target);
        assert!(n >= 1);
        let actual = w().size_x() as f64 / n as f64;
        assert!(
            (actual / target as f64 - 1.0).abs() < 0.10,
            "wavelength {target} became {actual:.0}"
        );
    }
    // An octave far larger than the world still varies: never fewer than
    // three cells, or it collapses to one repeated value.
    let tiny = WorldShape::new(MIN_WORLD_SIZE_BLOCKS, MIN_WORLD_SIZE_BLOCKS).unwrap();
    assert_eq!(tiny.cells_around_x(10_000_000), 3);
}

#[test]
fn spawn_takes_the_start_when_it_already_qualifies() {
    assert_eq!(find_spawn(w(), 0, 0, 64, 100, |_, _| true), Some((0, 0)));
}

/// The case that motivates the search: the world's origin falls in ocean.
#[test]
fn spawn_searches_outward_when_the_start_is_water() {
    let spawn = find_spawn(w(), 0, 0, 64, 100, |x, _| x >= 500).expect("land exists");
    // The nearest ring whose east edge reaches 500 is ring 8, at 512.
    assert_eq!(spawn.0, 512);
}

#[test]
fn spawn_across_the_seam_stays_near_the_start() {
    let p = w().size_x();
    // "Land" is the canonical strip just west of the seam: x in
    // [p - 600, p - 400), which is x in [-600, -400) one lap back.
    let spawn = find_spawn(w(), 0, 0, 64, 100, |x, _| {
        (p - 600..p - 400).contains(&w().canonical_x(x))
    })
    .expect("land exists across the seam");
    assert!(
        (-600..-400).contains(&spawn.0),
        "expected the nearby unwrapped position, got {spawn:?}"
    );
}

#[test]
fn spawn_is_deterministic() {
    let p = |x: i64, z: i64| (x * 31 + z * 17).rem_euclid(97) == 0;
    let a = find_spawn(w(), 0, 0, 16, 200, p);
    assert_eq!(a, find_spawn(w(), 0, 0, 16, 200, p));
    assert!(a.is_some());
}

/// With nothing acceptable, the search ends at half the world rather than
/// circling it forever.
#[test]
fn spawn_gives_up_at_half_the_world() {
    let calls = Cell::new(0u64);
    let r = find_spawn(w(), 0, 0, 4_096, 1_000_000, |_, _| {
        calls.set(calls.get() + 1);
        false
    });
    assert_eq!(r, None);
    let rings = w().size_x() / 2 / 4_096;
    assert!(calls.get() <= 1 + 8 * (rings * (rings + 1) / 2) as u64);
}

/// Degrees of latitude, from the sine that the shape gives.
fn latitude_degrees(z: i64) -> f64 {
    let sine = w().latitude_sine_scaled(z) as f64 / w().size_z() as f64;
    sine.clamp(-1.0, 1.0).asin().to_degrees()
}

#[test]
fn latitude_loops_through_both_poles() {
    let p = w().size_z();
    assert_eq!(latitude_degrees(0), 0.0);
    assert!(
        (latitude_degrees(p / 4) - 90.0).abs() < 1e-9,
        "north pole"
    );
    assert!(latitude_degrees(p / 2).abs() < 1e-9, "the far equator");
    assert!(
        (latitude_degrees(3 * p / 4) + 90.0).abs() < 1e-9,
        "south pole"
    );
    // Periodic, including negative and multi-lap coordinates.
    for z in [1, 12_345, p / 3, p - 1] {
        let lat = latitude_degrees(z);
        assert!((latitude_degrees(z + p) - lat).abs() < 1e-9);
        assert!((latitude_degrees(z - 3 * p) - lat).abs() < 1e-9);
    }
    assert_eq!(w().pole_to_equator_blocks(), p / 4);
}

/// The equal-area property, measured: the share of the world in each band
/// matches Earth's, not the 26% / 26% an even spacing would give.
#[test]
fn latitude_is_equal_area() {
    let p = w().size_z();
    let n = 100_000;
    let (mut polar, mut tropical) = (0, 0);
    for i in 0..n {
        let lat = latitude_degrees(i * p / n).abs();
        if lat > 66.56 {
            polar += 1;
        }
        if lat < 23.44 {
            tropical += 1;
        }
    }
    let polar = polar as f64 / n as f64;
    let tropical = tropical as f64 / n as f64;
    assert!(
        (polar - 0.082).abs() < 0.003,
        "polar share {polar:.3}, Earth's is 0.082"
    );
    assert!(
        (tropical - 0.398).abs() < 0.003,
        "tropical share {tropical:.3}, Earth's is 0.398"
    );
}

/// Two positions of one place are never both within the view.
#[test]
fn no_place_is_met_twice() {
    let reach = w().max_view_distance_blocks() / CHUNK_SIZE as i64;
    let lap = w().size_x() / CHUNK_SIZE as i64;
    assert!(2 * reach < lap);
    let here = ChunkPos::new(-reach, 3, reach);
    let lap_on = ChunkPos::new(lap - reach, 3, reach - lap);
    assert_eq!(w().canonical_chunk(here), w().canonical_chunk(lap_on));
    assert!(lap_on.x > reach && lap_on.z < -reach);
}

#[test]
fn cells_fit_along_both_axes() {
    let oblong = WorldShape::new(32_768, 65_536).unwrap();
    assert_eq!(oblong.cells_around_x(8_192), 4);
    assert_eq!(oblong.cells_around_z(8_192), 8);
}

#[test]
fn a_bad_size_is_explained() {
    let e = WorldShape::new(200_000, 204_800).unwrap_err();
    assert!(e.message().contains("200000"), "{}", e.message());
}
