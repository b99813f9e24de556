//! Coarse terrain: the life of its nodes, and what full-resolution terrain
//! covers.

use std::collections::HashSet;
use voxterra::coarse::{is_central, Coarse, LOD_RETIRE_MAX_TICKS, LOD_SPAWN_BUDGET};
use voxterra::horizon::coarse_terrain;
use voxterra::residency::Residency;
use voxterra::{
    BlockRegistry, Chunk, ChunkPos, LodNodeId, LodRing, Streamer, ViewSettings,
};

fn cp(x: i64, z: i64) -> ChunkPos {
    ChunkPos::new(x, 0, z)
}

/// One level of 2 x 2 chunks, 8 chunks out: 64 nodes.
fn small() -> Coarse {
    Coarse::new(LodRing::single_level(0, 2, 8, 4, (-128, 128)))
}

fn build_all(c: &mut Coarse, cam: ChunkPos) {
    loop {
        let batch = c.next_to_build(cam);
        if batch.is_empty() {
            break;
        }
        for n in batch {
            assert!(c.built(n));
        }
    }
}

#[test]
fn nodes_are_built_nearest_first_within_the_budget() {
    let mut c = small();
    c.tick(cp(0, 0));
    let first = c.next_to_build(cp(0, 0));
    assert_eq!(first.len(), LOD_SPAWN_BUDGET);
    // The node's middle is one chunk into it.
    let dist = |n: &LodNodeId| (2 * n.x + 1).pow(2) + (2 * n.z + 1).pow(2);
    assert!(first.windows(2).all(|w| dist(&w[0]) <= dist(&w[1])));
    assert_eq!(first[0], LodNodeId::new(0, -1, -1));
    let rest = c.next_to_build(cp(0, 0));
    assert_eq!(rest.len(), 64 - LOD_SPAWN_BUDGET);
    assert!(c.next_to_build(cp(0, 0)).is_empty());
    let all: HashSet<LodNodeId> = first.into_iter().chain(rest).collect();
    assert_eq!(all.len(), 64);
}

#[test]
fn a_cancelled_node_is_not_shown() {
    let mut c = small();
    assert!(!c.built(LodNodeId::new(0, 0, 0)), "never asked for");
    c.tick(cp(0, 0));
    let batch = c.next_to_build(cp(0, 0));
    assert!(c.built(batch[0]));
    assert!(!c.built(batch[0]), "built already");
    c.reset();
    assert!(!c.built(batch[1]), "dropped meanwhile");
}

#[test]
fn a_retired_node_stays_until_its_replacement_lands() {
    let mut c = small();
    c.tick(cp(0, 0));
    build_all(&mut c, cp(0, 0));
    let before: HashSet<LodNodeId> = c.drawn().into_iter().collect();
    assert_eq!(before.len(), 64);

    // Far beyond the slack: all 64 are retired, and 64 others asked for.
    let away = cp(100, 0);
    c.tick(away);
    assert!(c.ring().loaded().is_empty());
    assert!(c.flush_retired().is_empty(), "replacements are pending");
    let still: HashSet<LodNodeId> = c.drawn().into_iter().collect();
    assert_eq!(still, before);

    build_all(&mut c, away);
    let gone: HashSet<LodNodeId> = c.flush_retired().into_iter().collect();
    assert_eq!(gone, before);
    assert_eq!(c.drawn().len(), 64);
}

#[test]
fn retired_nodes_are_not_held_forever() {
    let mut c = small();
    c.tick(cp(0, 0));
    build_all(&mut c, cp(0, 0));
    c.tick(cp(100, 0));
    for _ in 1..LOD_RETIRE_MAX_TICKS {
        assert!(c.flush_retired().is_empty());
    }
    assert_eq!(c.flush_retired().len(), 64);
    assert!(c.drawn().is_empty());
    assert!(c.flush_retired().is_empty());
}

#[test]
fn a_retired_node_that_is_wanted_again_is_taken_over() {
    let mut c = small();
    c.tick(cp(0, 0));
    build_all(&mut c, cp(0, 0));
    c.tick(cp(100, 0));
    c.tick(cp(0, 0));
    assert_eq!(c.ring().loaded().len(), 64);
    // Only the other 64 are left to build.
    let queued = c.next_to_build(cp(100, 0)).len() + c.next_to_build(cp(100, 0)).len();
    assert_eq!(queued, 64);
}

#[test]
fn a_still_camera_asks_for_nothing_more() {
    let mut c = small();
    c.tick(cp(0, 0));
    build_all(&mut c, cp(0, 0));
    c.tick(cp(1, 1));
    assert!(c.next_to_build(cp(1, 1)).is_empty());
}

#[test]
fn only_nodes_that_were_asked_for_are_rebuilt() {
    let mut c = small();
    c.tick(cp(0, 0));
    build_all(&mut c, cp(0, 0));
    assert_eq!(c.invalidate_column(3, -1), vec![LodNodeId::new(0, 1, -1)]);
    assert_eq!(c.drawn().len(), 63);
    assert_eq!(c.next_to_build(cp(0, 0)), vec![LodNodeId::new(0, 1, -1)]);
    // Being built: its heights are stale, and it is queued anew.
    assert!(c.invalidate_column(2, -2).is_empty());
    assert!(!c.built(LodNodeId::new(0, 1, -1)));
    assert_eq!(c.next_to_build(cp(0, 0)), vec![LodNodeId::new(0, 1, -1)]);
    // Far outside the ring no node is wanted.
    assert!(c.invalidate_column(500, 500).is_empty());
    assert!(c.next_to_build(cp(0, 0)).is_empty());
}

#[test]
fn a_node_starts_at_the_foot_of_the_world() {
    let c = coarse_terrain(&ViewSettings::default());
    let origin = c.origin_chunk(LodNodeId::new(2, -1, 2));
    assert_eq!(origin, ChunkPos::new(-8, -352, 16));
}

/// Levels 0 and 1 can meet full-resolution terrain that lingers 10 chunks out;
/// level 2 begins 32 chunks out.
#[test]
fn near_levels_are_sampled_exactly() {
    let c = coarse_terrain(&ViewSettings::default());
    assert_eq!(c.ring().closest_approach_chunks(0), 0);
    assert_eq!(c.ring().closest_approach_chunks(1), 9);
    assert_eq!(c.ring().closest_approach_chunks(2), 25);
    assert!(c.samples_exactly(0, 10));
    assert!(c.samples_exactly(1, 10));
    assert!(!c.samples_exactly(2, 10));
    assert!(c.samples_exactly(2, 17));
}

#[test]
fn a_node_is_covered_once_its_ground_is_meshed() {
    let mut c = small();
    c.tick(cp(0, 0));
    build_all(&mut c, cp(0, 0));
    let flat = |_: i64, _: i64| (0i64, 0i64);
    let streamer = Streamer::surface_following(4, 6, 0, 0, 0);
    let mut r = Residency::new(streamer, BlockRegistry::default_set());
    let mut ground = Vec::new();
    for x in 0..2 {
        for z in 0..2 {
            r.arrive(cp(x, z), Chunk::new_air());
            ground.push(cp(x, z));
        }
    }
    assert!(c.covered_nodes(&r, cp(0, 0), 4, &flat).is_empty(), "resident only");
    r.start_mesh(&ground[..3]);
    assert!(c.covered_nodes(&r, cp(0, 0), 4, &flat).is_empty());
    r.start_mesh(&ground);
    assert_eq!(c.covered_nodes(&r, cp(0, 0), 4, &flat), vec![LodNodeId::new(0, 0, 0)]);
    assert!(
        c.covered_nodes(&r, cp(0, 0), 1, &flat).is_empty(),
        "its far corner is beyond the radius"
    );
}

#[test]
fn a_camera_near_the_end_of_the_coordinates_is_not_central() {
    assert!(is_central(cp(0, 0)));
    assert!(!is_central(cp(i64::MAX, 0)));
    assert!(!is_central(cp(0, i64::MIN)));
}
