//! Questions about terrain.

use voxterra::probe::{box_hits_solid, surface_span_chunks};
use voxterra::registry::stone;
use voxterra::{BlockRegistry, World, WorldPos};

#[test]
fn the_span_holds_the_lowest_and_the_highest_sample() {
    // A cliff: the column's east edge is 100 blocks higher.
    let cliff = |x: i64, _: i64| if x % 32 == 31 { 100 } else { -1 };
    assert_eq!(surface_span_chunks(&cliff, 0, 0), (-1, 3));
    assert_eq!(surface_span_chunks(&|_, _| 31, 5, -5), (0, 0));
}

/// Corners and the centre are sampled, in the column's own coordinates.
#[test]
fn five_points_are_sampled() {
    let only = |px: i64, pz: i64| move |x: i64, z: i64| if (x, z) == (px, pz) { 64 } else { 0 };
    for (x, z) in [(64, -32), (95, -32), (64, -1), (95, -1), (79, -17)] {
        assert_eq!(surface_span_chunks(&only(x, z), 2, -1), (0, 2), "({x}, {z})");
    }
    assert_eq!(surface_span_chunks(&only(70, -20), 2, -1), (0, 0));
}

#[test]
fn a_box_meets_solid_blocks_only() {
    let reg = BlockRegistry::default_set();
    let mut world = World::new();
    world.set_block(WorldPos::new(2, 0, 2), stone());
    let lo = WorldPos::new(0, 0, 0);
    let hi = WorldPos::new(2, 1, 2);
    assert!(box_hits_solid(&world, &reg, lo, hi, &|_| true));
    assert!(!box_hits_solid(&world, &reg, lo, hi, &|_| false), "nothing overlaps");
    assert!(!box_hits_solid(&world, &reg, lo, WorldPos::new(1, 1, 2), &|_| true));
    assert!(!box_hits_solid(&world, &reg, hi, lo, &|_| true), "an empty box");
}
