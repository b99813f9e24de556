//! The LOD ring and the overlay of edited columns.

use voxterra::lod::{check_config, LodConfigError};
use voxterra::{
    ChunkPos, EditOverlay, EditedColumns, LodLevel, LodNodeId, LodRing, WorldShape, CHUNK_SIZE,
};

fn cp(cx: i64, cz: i64) -> ChunkPos {
    ChunkPos::new(cx, 0, cz)
}

/// Chebyshev distance in chunks from `cam` to the NEAREST chunk of a node's
/// region — the value the annulus bounds are expressed in.
fn nearest_chunk_dist(ring: &LodRing, id: LodNodeId, cam: ChunkPos) -> i64 {
    let s = ring.stride(id.level);
    let (ox, oz) = ring.node_origin_chunk_xz(id);
    let axis = |lo: i64, c: i64| -> i64 {
        let hi = lo + s - 1;
        if c < lo {
            lo - c
        } else if c > hi {
            c - hi
        } else {
            0
        }
    };
    axis(ox, cam.x).max(axis(oz, cam.z))
}

/// Three nested levels, LOD underlapping from the centre (gap-safe):
/// stride 2 out to 16 chunks, stride 4 to 32, stride 8 to 64.
/// Terrain band the tests cover vertically (the placeholder worldgen spans
/// about -59..108 blocks).
const TEST_Y: (i64, i64) = (-128, 128);

fn three_levels() -> LodRing {
    LodRing::new(
        0,
        &[
            LodLevel {
                stride: 2,
                outer_chunks: 16,
            },
            LodLevel {
                stride: 4,
                outer_chunks: 32,
            },
            LodLevel {
                stride: 8,
                outer_chunks: 64,
            },
        ],
        8,
        TEST_Y,
    )
}

#[test]
fn levels_partition_exactly_no_gaps_no_overlaps() {
    let mut ring = three_levels();
    for id in ring.update(cp(0, 0)).to_load {
        ring.mark_loaded(id);
    }
    let outermost: i64 = 64;
    for cz in -outermost..outermost {
        for cx in -outermost..outermost {
            let covers = ring
                .loaded()
                .iter()
                .filter(|id| {
                    let s = ring.stride(id.level);
                    let (ox, oz) = ring.node_origin_chunk_xz(**id);
                    cx >= ox && cx < ox + s && cz >= oz && cz < oz + s
                })
                .count();
            assert_eq!(
                covers, 1,
                "chunk ({cx},{cz}) covered by {covers} nodes, want 1"
            );
        }
    }
}

/// The partition holds from an arbitrary, non-origin camera position too
/// (the grids are world-fixed, so this is a genuinely different alignment).
#[test]
fn partition_holds_off_origin() {
    let mut ring = three_levels();
    let cam = cp(37, -53);
    for id in ring.update(cam).to_load {
        ring.mark_loaded(id);
    }
    // Sample a window well inside the outermost level, allowing for the
    // snapped centre being up to coarsest_stride-1 chunks from the camera.
    for dz in -50..50 {
        for dx in -50..50 {
            let (cx, cz) = (cam.x + dx, cam.z + dz);
            let covers = ring
                .loaded()
                .iter()
                .filter(|id| {
                    let s = ring.stride(id.level);
                    let (ox, oz) = ring.node_origin_chunk_xz(**id);
                    cx >= ox && cx < ox + s && cz >= oz && cz < oz + s
                })
                .count();
            assert_eq!(
                covers, 1,
                "chunk ({cx},{cz}) covered by {covers} nodes, want 1"
            );
        }
    }
}

/// Each level's nodes sit only within that level's annulus. Measured from
/// the snapped centre, which for a camera at the origin is the origin.
#[test]
fn each_level_owns_its_annulus() {
    let mut ring = three_levels();
    let cam = cp(0, 0);
    let bounds = [(0i64, 16i64), (16, 32), (32, 64)];
    for id in ring.update(cam).to_load {
        let near = nearest_chunk_dist(&ring, id, cam);
        let (lo, hi) = bounds[id.level as usize];
        assert!(
            near >= lo && near < hi,
            "level {} node nearest {near} outside [{lo},{hi})",
            id.level
        );
    }
}

/// Coarser levels are strictly further away than finer ones.
#[test]
fn finer_levels_are_nearer() {
    let mut ring = three_levels();
    let cam = cp(0, 0);
    let mut farthest = [i64::MIN; 3];
    let mut nearest = [i64::MAX; 3];
    for id in ring.update(cam).to_load {
        let d = nearest_chunk_dist(&ring, id, cam);
        let l = id.level as usize;
        farthest[l] = farthest[l].max(d);
        nearest[l] = nearest[l].min(d);
    }
    assert!(
        farthest[0] < nearest[1],
        "level 0 must end before level 1 starts"
    );
    assert!(
        farthest[1] < nearest[2],
        "level 1 must end before level 2 starts"
    );
    assert!(ring.stride(0) < ring.stride(1) && ring.stride(1) < ring.stride(2));
}

/// Standing still (moving within the finest node) is a no-op — no thrash.
#[test]
fn stationary_update_is_noop() {
    let mut ring = three_levels();
    for id in ring.update(cp(0, 0)).to_load {
        ring.mark_loaded(id);
    }
    assert!(ring.update(cp(1, 1)).is_empty(), "same finest node");
}

/// Moving one node streams a bounded delta, not the whole set.
#[test]
fn moving_streams_only_a_delta() {
    let mut ring = three_levels();
    let first = ring.update(cp(0, 0));
    let full = first.to_load.len();
    for id in first.to_load {
        ring.mark_loaded(id);
    }
    let next = ring.update(cp(2, 0));
    assert!(
        next.to_load.len() < full / 4,
        "delta {} vs full {full}",
        next.to_load.len()
    );
}

/// Nodes dropped on the move are genuinely out of their annulus, and
/// nothing is requested that is already loaded (no double-draw window).
#[test]
fn handover_never_double_loads() {
    let mut ring = three_levels();
    for id in ring.update(cp(0, 0)).to_load {
        ring.mark_loaded(id);
    }
    let cam = cp(40, 0);
    let update = ring.update(cam);
    for id in &update.to_unload {
        assert!(!ring.in_annulus(*id, cam, 8));
    }
    for id in &update.to_load {
        assert!(
            !ring.loaded().contains(id),
            "re-requested an already loaded node"
        );
    }
}

/// Hysteresis: nodes inside the slack band are not dropped.
#[test]
fn outer_hysteresis_prevents_thrash() {
    let mut ring = LodRing::single_level(0, 8, 64, 16, TEST_Y);
    for id in ring.update(cp(0, 0)).to_load {
        ring.mark_loaded(id);
    }
    let cam = cp(8, 0);
    for id in &ring.update(cam).to_unload {
        assert!(
            !ring.in_annulus(*id, cam, 16),
            "dropped a node still in the slack band"
        );
    }
}

/// One node per column spans the entire world band at every level, so no
/// node ever has terrain at its top boundary — the case that produced
/// unlit black faces when nodes were stacked (no neighbour above to
/// sample). Vertical cell height is independent of horizontal stride.
#[test]
fn one_node_spans_the_world_band() {
    let ring = three_levels();
    let cells = CHUNK_SIZE as i64;
    assert_eq!(ring.v_stride() * cells, TEST_Y.1 - TEST_Y.0);
    assert_eq!(ring.world_y_min(), TEST_Y.0);
    // Same vertical resolution regardless of how fine the level is.
    for level in 0..ring.level_count() as u32 {
        let (_, y, _) = ring.node_origin_blocks(LodNodeId::new(level, 0, 0));
        assert_eq!(y, TEST_Y.0, "level {level} must start at the band bottom");
    }
}

/// Each column is requested exactly once (no stack, no duplicates).
#[test]
fn each_column_requested_once() {
    let mut ring = three_levels();
    let update = ring.update(cp(0, 0));
    let unique: std::collections::HashSet<LodNodeId> = update.to_load.iter().copied().collect();
    assert_eq!(
        unique.len(),
        update.to_load.len(),
        "duplicate node requests"
    );
}

#[test]
fn node_origins_are_grid_aligned() {
    let ring = three_levels();
    let id = LodNodeId::new(2, -1, 2); // stride 8
    assert_eq!(ring.node_origin_chunk_xz(id), (-8, 16));
    assert_eq!(
        ring.node_origin_blocks(id),
        (-8 * CHUNK_SIZE as i64, TEST_Y.0, 16 * CHUNK_SIZE as i64)
    );
    assert_eq!(ring.span_blocks(2), 8 * CHUNK_SIZE as i64);
}

#[test]
fn single_level_matches_m08_shape() {
    let mut ring = LodRing::single_level(0, 8, 40, 8, TEST_Y);
    assert_eq!(ring.level_count(), 1);
    let update = ring.update(cp(0, 0));
    assert!(!update.to_load.is_empty());
    assert!(update.to_load.iter().all(|id| id.level == 0));
}

/// Reproduces the in-game bug: after a settings change the app throws the
/// ring away and builds a new one at the SAME camera position. That fresh
/// ring must re-request everything, or LOD never comes back until the
/// player happens to cross a node boundary.
#[test]
fn fresh_ring_at_same_position_requests_everything() {
    let cam = cp(5, 7);
    let mut old = three_levels();
    for id in old.update(cam).to_load {
        old.mark_loaded(id);
    }
    assert!(!old.loaded().is_empty());

    // What apply_view_settings does: a brand new ring, same camera.
    let mut fresh = three_levels();
    let update = fresh.update(cam);
    assert!(
        !update.to_load.is_empty(),
        "fresh ring returned nothing; LOD would stay empty until the camera moved"
    );
}

/// With inner radius 0, the node the camera is standing in must still be
/// requested — it is the one directly underfoot.
#[test]
fn camera_own_node_is_included_when_inner_is_zero() {
    let mut ring = three_levels();
    let cam = cp(0, 0);
    let update = ring.update(cam);
    let own = LodNodeId::new(0, 0, 0);
    assert!(
        update.to_load.contains(&own),
        "the node under the camera was never requested"
    );
}

/// Every configuration the settings menu can produce must construct
/// without panicking. The ring asserts that radii AND the unload margin are
/// multiples of the coarsest stride; adding a coarse level raises that
/// stride, and a caller that rounds the radii but forgets the margin
/// crashes the game from a slider drag.
#[test]
fn every_menu_reachable_config_constructs() {
    let base = [(2i64, 16i64), (4, 32), (8, 64)];
    let base_margin = 8i64;
    for extra in 0..=2 {
        let mut levels: Vec<(i64, i64)> = base.to_vec();
        for _ in 0..extra {
            let (s, o) = *levels.last().unwrap();
            levels.push((s * 2, o * 2));
        }
        let coarsest = levels.last().unwrap().0;
        let round_up = |v: i64| ((v + coarsest - 1) / coarsest) * coarsest;
        let mut prev = 0i64;
        let built: Vec<LodLevel> = levels
            .iter()
            .map(|&(stride, outer)| {
                let o = round_up(outer).max(prev + coarsest);
                prev = o;
                LodLevel {
                    stride,
                    outer_chunks: o,
                }
            })
            .collect();
        // Must not panic for any reachable slider value.
        let ring = LodRing::new(0, &built, round_up(base_margin), TEST_Y);
        assert_eq!(ring.level_count(), built.len());
    }
}

/// The three shipped levels, for resolving a column to its node at each.
fn edit_test_ring() -> LodRing {
    LodRing::new(
        0,
        &[
            LodLevel {
                stride: 2,
                outer_chunks: 16,
            },
            LodLevel {
                stride: 4,
                outer_chunks: 32,
            },
            LodLevel {
                stride: 8,
                outer_chunks: 64,
            },
        ],
        8,
        TEST_Y,
    )
}

/// Build one node's cell grid the way the app does: flat seed heights,
/// then the player's edits folded in.
fn node_heights(
    ring: &LodRing,
    level: u32,
    col: (i64, i64),
    seed: i32,
    edits: &EditedColumns,
) -> (Vec<i32>, usize) {
    let cells = CHUNK_SIZE as i64;
    let id = ring.node_containing(level, col.0.div_euclid(cells), col.1.div_euclid(cells));
    let (ox, _oy, oz) = ring.node_origin_blocks(id);
    let stride = ring.stride(level);
    let mut heights = vec![seed; (cells * cells) as usize];
    edits.apply_to_node(&mut heights, ox, oz, stride, TEST_Y.0 as i32);
    let ix = (col.0 - ox).div_euclid(stride);
    let iz = (col.1 - oz).div_euclid(stride);
    let idx = (iz * cells + ix) as usize;
    (heights, idx)
}

#[test]
fn a_mined_column_lowers_the_cell_at_every_level() {
    const SEED: i32 = 40;
    const DUG: i32 = 34;
    let col = (37i64, 70i64);
    let ring = edit_test_ring();
    let mut edits = EditedColumns::new(WorldShape::default_shape());
    edits.record(col.0, col.1, DUG);

    for level in 0..3u32 {
        let (heights, idx) = node_heights(&ring, level, col, SEED, &edits);
        assert_eq!(
            heights[idx],
            DUG,
            "level {level} (stride {}) kept the seed surface over a mined column",
            ring.stride(level)
        );
        let changed = heights.iter().filter(|&&h| h != SEED).count();
        assert_eq!(
            changed, 1,
            "level {level} disturbed cells it should not have"
        );
    }
}

#[test]
fn an_edit_is_seen_on_every_lap_of_the_world() {
    const SEED: i32 = 40;
    const DUG: i32 = 31;
    let lap = WorldShape::default_shape().size_x();
    let ring = edit_test_ring();
    // Recorded just WEST of the seam, via a negative unwrapped coordinate.
    let mut edits = EditedColumns::new(WorldShape::default_shape());
    edits.record(-5, 70, DUG);
    for col in [
        (-5i64, 70i64),     // where it was made
        (lap - 5, 70),      // the same place, canonically
        (-5 + 3 * lap, 70), // three laps east
        (-5 - 2 * lap, 70), // two laps west
        (-5, 70 + 4 * lap), // four laps north
    ] {
        for level in 0..3u32 {
            let (heights, idx) = node_heights(&ring, level, col, SEED, &edits);
            assert_eq!(
                heights[idx], DUG,
                "level {level}: the edit is missing at {col:?}"
            );
            assert_eq!(
                heights.iter().filter(|&&h| h != SEED).count(),
                1,
                "level {level} at {col:?} disturbed cells it should not have"
            );
        }
    }
    assert_eq!(edits.get(lap - 5, 70), Some(DUG));
    assert_eq!(edits.get(-5 + 7 * lap, 70 - lap), Some(DUG));
    assert_eq!(
        edits.len(),
        1,
        "one place, one entry, however it was addressed"
    );
}

#[test]
fn edits_apply_in_negative_coordinates() {
    const SEED: i32 = 12;
    let col = (-37i64, -70i64);
    let ring = edit_test_ring();
    let mut edits = EditedColumns::new(WorldShape::default_shape());
    edits.record(col.0, col.1, 5);
    for level in 0..3u32 {
        let (heights, idx) = node_heights(&ring, level, col, SEED, &edits);
        assert_eq!(
            heights[idx], 5,
            "level {level} missed a negative-coord edit"
        );
        assert_eq!(heights.iter().filter(|&&h| h != SEED).count(), 1);
    }
}

/// An edit in a neighbouring node must not leak into this one.
#[test]
fn edits_outside_the_footprint_are_ignored() {
    let cells = CHUNK_SIZE as i64;
    let mut edits = EditedColumns::new(WorldShape::default_shape());
    edits.record(-1, -1, 0); // just outside the node at origin (0, 0)
    edits.record(cells * 8, 0, 0); // just past the widest node's far edge
    for stride in [2i64, 4, 8] {
        let mut heights = vec![50i32; (cells * cells) as usize];
        edits.apply_to_node(&mut heights, 0, 0, stride, -128);
        assert!(
            heights.iter().all(|&h| h == 50),
            "stride {stride} pulled in an edit from outside its footprint"
        );
    }
}

/// Building UP must not raise a cell: the cell stands for every column in
/// it, and raising would push coarse terrain above the real ground of the
/// neighbours sharing it (the never-exceed contract).
#[test]
fn a_placed_block_never_raises_a_cell() {
    let cells = CHUNK_SIZE as i64;
    let mut edits = EditedColumns::new(WorldShape::default_shape());
    edits.record(5, 5, 90);
    let mut heights = vec![40i32; (cells * cells) as usize];
    edits.apply_to_node(&mut heights, 0, 0, 4, -128);
    assert!(heights.iter().all(|&h| h == 40));
}

/// A column mined out completely clamps to the band floor rather than
/// meshing a wall to the sentinel value.
#[test]
fn a_fully_mined_column_clamps_to_the_floor() {
    let cells = CHUNK_SIZE as i64;
    let mut edits = EditedColumns::new(WorldShape::default_shape());
    edits.record(5, 5, i32::MIN);
    let mut heights = vec![40i32; (cells * cells) as usize];
    edits.apply_to_node(&mut heights, 0, 0, 4, -128);
    assert_eq!(heights[(cells + 1) as usize], -128);
}

/// The common case — an untouched world — costs nothing and changes
/// nothing.
#[test]
fn no_edits_is_a_no_op() {
    let cells = CHUNK_SIZE as i64;
    let edits = EditedColumns::new(WorldShape::default_shape());
    assert!(edits.is_empty());
    let mut heights = vec![7i32; (cells * cells) as usize];
    edits.apply_to_node(&mut heights, 0, 0, 8, -128);
    assert!(heights.iter().all(|&h| h == 7));
}

/// Re-recording a column replaces it, so refilling a hole restores the
/// surface instead of leaving the dug height behind forever.
#[test]
fn recording_a_column_twice_keeps_the_latest() {
    let mut edits = EditedColumns::new(WorldShape::default_shape());
    edits.record(5, 5, 20);
    edits.record(5, 5, 30);
    assert_eq!(edits.get(5, 5), Some(30));
    assert_eq!(edits.len(), 1);
}

#[test]
fn a_configuration_that_breaks_the_partition_is_named() {
    let level = |stride: i64, outer_chunks: i64| LodLevel {
        stride,
        outer_chunks,
    };
    let check = |inner: i64, levels: &[LodLevel], margin: i64| {
        check_config(inner, levels, margin, TEST_Y)
    };
    assert_eq!(check(0, &[level(4, 32)], 8), None);
    assert_eq!(
        check_config(0, &[level(4, 32)], 8, (5, 5)),
        Some(LodConfigError::EmptyBand)
    );
    assert_eq!(check(0, &[], 8), Some(LodConfigError::NoLevels));
    assert_eq!(check(-4, &[level(4, 32)], 8), Some(LodConfigError::NegativeInner));
    assert_eq!(check(0, &[level(4, 32)], 0), Some(LodConfigError::NoMargin));
    assert_eq!(check(0, &[level(0, 32)], 8), Some(LodConfigError::StrideTooSmall(0)));
    assert_eq!(
        check(0, &[level(3, 24)], 8),
        Some(LodConfigError::StrideNotPowerOfTwo(0))
    );
    assert_eq!(
        check(0, &[level(8, 16), level(4, 32)], 8),
        Some(LodConfigError::StridesNotNested(1))
    );
    assert_eq!(
        check(0, &[level(4, 32), level(8, 32)], 8),
        Some(LodConfigError::OuterNotBeyondInner(1))
    );
    assert_eq!(check(6, &[level(4, 32)], 8), Some(LodConfigError::InnerMisaligned(0)));
    assert_eq!(check(0, &[level(4, 30)], 8), Some(LodConfigError::OuterMisaligned(0)));
    assert_eq!(
        check(0, &[level(2, 6), level(4, 32)], 8),
        Some(LodConfigError::InnerMisaligned(1))
    );
    assert_eq!(
        check(0, &[level(2, 12), level(4, 24), level(8, 64)], 8),
        Some(LodConfigError::RadiiOffCoarsest(0))
    );
    assert_eq!(check(0, &[level(4, 32)], 6), Some(LodConfigError::MarginOffCoarsest));
}

#[test]
fn the_coarsest_level_has_nothing_to_morph_toward() {
    let ring = three_levels();
    assert_eq!(ring.morph_end_blocks(0), Some(512));
    assert_eq!(ring.morph_end_blocks(1), Some(1024));
    assert_eq!(ring.morph_end_blocks(2), None);
    assert_eq!(ring.coarsest_stride(), 8);
}

/// One node of a coarse level holds whole nodes of the finer ones.
#[test]
fn node_grids_nest() {
    let ring = three_levels();
    for (x, z) in [(0, 0), (-1, 5), (37, -53)] {
        let coarse = ring.node_origin_chunk_xz(ring.node_containing(2, x, z));
        for level in 0..2 {
            let fine = ring.node_origin_chunk_xz(ring.node_containing(level, x, z));
            let s = ring.stride(level);
            assert!(coarse.0 <= fine.0 && fine.0 + s <= coarse.0 + 8);
            assert!(coarse.1 <= fine.1 && fine.1 + s <= coarse.1 + 8);
        }
    }
}

#[test]
fn a_copied_overlay_stands_alone() {
    let mut edits = EditedColumns::new(WorldShape::default_shape());
    edits.record(1, 2, 3);
    let copy = edits.clone();
    edits.record(1, 2, 9);
    edits.record(5, 5, 5);
    assert_eq!(copy.get(1, 2), Some(3));
    assert_eq!(copy.len(), 1);
    assert_eq!(edits.len(), 2);
}

/// Update the ring and carry the update out.
fn move_to(ring: &mut LodRing, cam: ChunkPos) -> (usize, usize) {
    let update = ring.update(cam);
    for id in &update.to_unload {
        ring.mark_unloaded(*id);
    }
    for id in &update.to_load {
        ring.mark_loaded(*id);
    }
    (update.to_load.len(), update.to_unload.len())
}

/// How many loaded nodes cover a chunk column.
fn nodes_over(ring: &LodRing, x: i64, z: i64) -> usize {
    (0..ring.level_count() as u32)
        .filter(|&level| ring.is_loaded(ring.node_containing(level, x, z)))
        .count()
}

#[test]
fn handover_covers_each_column_once() {
    let mut ring = three_levels();
    move_to(&mut ring, cp(0, 0));
    assert_eq!(nodes_over(&ring, -16, 0), 1);
    move_to(&mut ring, cp(8, 0));
    assert_eq!(nodes_over(&ring, -16, 0), 1);
}

#[test]
fn no_column_is_lost_or_drawn_twice_on_the_way() {
    let mut ring = three_levels();
    for (cx, cz) in [(0, 0), (1, 0), (8, 0), (9, -5), (40, -5), (31, 7), (-200, 90), (0, 0)] {
        move_to(&mut ring, cp(cx, cz));
        for z in cz - 60..=cz + 56 {
            for x in cx - 60..=cx + 56 {
                assert_eq!(nodes_over(&ring, x, z), 1, "at {x}, {z} from {cx}, {cz}");
            }
        }
    }
}

#[test]
fn a_node_is_asked_for_when_the_one_over_it_goes() {
    let mut ring = three_levels();
    move_to(&mut ring, cp(0, 0));
    // A node of the finest level, kept by its slack: its region belongs to the
    // middle level by now.
    move_to(&mut ring, cp(8, 0));
    let fine = ring.node_containing(0, -16, 0);
    let coarse = ring.node_containing(1, -16, 0);
    assert!(ring.is_loaded(fine) && !ring.is_loaded(coarse));
    assert!(!ring.in_annulus(fine, cp(8, 0), 0) && ring.in_annulus(coarse, cp(8, 0), 0));
    let update = ring.update(cp(16, 0));
    assert!(update.to_unload.contains(&fine));
    assert!(update.to_load.contains(&coarse));
}

#[test]
fn a_cleared_ring_acts_like_a_new_one() {
    let mut ring = three_levels();
    move_to(&mut ring, cp(0, 0));
    move_to(&mut ring, cp(5, 7));
    ring.clear();
    assert!(ring.loaded().is_empty());
    let mut new = three_levels();
    let (u, v) = (ring.update(cp(5, 7)), new.update(cp(5, 7)));
    assert!(!u.to_load.is_empty());
    assert_eq!(u.to_load, v.to_load);
    assert_eq!(u.to_unload, v.to_unload);
}

#[test]
fn edits_reach_nodes_at_the_ends_of_the_coordinates() {
    let mut edits = EditedColumns::new(WorldShape::default_shape());
    edits.record(i64::MIN, 3, -5);
    edits.record(i64::MAX, 3, -7);
    let mut heights = vec![40; CHUNK_SIZE * CHUNK_SIZE];
    edits.apply_to_node(&mut heights, i64::MIN, 0, 1, -128);
    assert_eq!(heights[3 * CHUNK_SIZE], -5);
    let mut heights = vec![40; CHUNK_SIZE * CHUNK_SIZE];
    edits.apply_to_node(&mut heights, i64::MAX - 31, 0, 1, -128);
    assert_eq!(heights[3 * CHUNK_SIZE + 31], -7);
    assert_eq!(heights.iter().filter(|h| **h == 40).count(), 1023);
}

#[test]
fn an_overlay_is_owed_to_the_disk_until_it_is_written() {
    let mut overlay = EditOverlay::new(EditedColumns::new(WorldShape::default_shape()));
    assert!(!overlay.needs_save());
    overlay.record(4, 5, 6);
    assert!(overlay.needs_save());
    assert_eq!(overlay.columns().get(4, 5), Some(6));
    // A failed write leaves it owed.
    overlay.written(false);
    assert!(overlay.needs_save());
    overlay.written(true);
    assert!(!overlay.needs_save());
    assert_eq!(overlay.columns().get(4, 5), Some(6));
    overlay.written(false);
    assert!(!overlay.needs_save());
    overlay.record(4, 5, 6);
    assert!(overlay.needs_save());
    let copy = overlay.clone();
    overlay.written(true);
    assert!(copy.needs_save() && !overlay.needs_save());
}
