//! Light propagation, removal, and the light of whole chunks.

use voxterra::light::model::{Cell, Scene};
use voxterra::registry::{lamp, stone};
use voxterra::residency::relight::top_sky_from_heightmap;
use voxterra::{
    chunk_column_heights, chunk_column_occludes, chunk_light_plane, column_index, compute_chunk_light_2ch, open_sky_top,
    packed_border_changed_faces, propagate_block_light, propagate_sky_light, relight_chunk,
    relight_chunk_2ch, remove_block_light, BlockId, BlockRegistry, Chunk, ChunkPos, ColumnHeights,
    LightVolume, LocalPos, NeighborLight, NeighborSky, CHUNK_SIZE, MAX_LIGHT,
};

const AIR: BlockId = BlockId(0);

/// A simple dense test volume: per-cell solid flag + emission + light.
struct Grid {
    dims: [usize; 3],
    solid: Vec<bool>,
    emission: Vec<u8>,
    light: Vec<u8>,
}
impl Grid {
    fn new(dx: usize, dy: usize, dz: usize) -> Self {
        let n = dx * dy * dz;
        Self {
            dims: [dx, dy, dz],
            solid: vec![false; n],
            emission: vec![0; n],
            light: vec![0; n],
        }
    }
    fn idx(&self, x: usize, y: usize, z: usize) -> usize {
        x + y * self.dims[0] + z * self.dims[0] * self.dims[1]
    }
    fn set_solid(&mut self, x: usize, y: usize, z: usize) {
        let i = self.idx(x, y, z);
        self.solid[i] = true;
    }
    #[allow(dead_code)]
    fn clear_solid(&mut self, x: usize, y: usize, z: usize) {
        let i = self.idx(x, y, z);
        self.solid[i] = false;
    }
    fn set_emission(&mut self, x: usize, y: usize, z: usize, e: u8) {
        let i = self.idx(x, y, z);
        self.emission[i] = e;
    }
}
// What the contracts speak of is never run.
impl LightVolume for Grid {
    fn valid(&self) -> bool {
        unreachable!()
    }
    fn scene(&self) -> Scene {
        unreachable!()
    }
    fn emits(&self, _c: Cell) -> u8 {
        unreachable!()
    }
    fn level(&self, _c: Cell) -> u8 {
        unreachable!()
    }
    fn dims(&self) -> [usize; 3] {
        self.dims
    }
    fn is_solid(&self, x: usize, y: usize, z: usize) -> bool {
        self.solid[self.idx(x, y, z)]
    }
    fn emission(&self, x: usize, y: usize, z: usize) -> u8 {
        self.emission[self.idx(x, y, z)]
    }
    fn get_light(&self, x: usize, y: usize, z: usize) -> u8 {
        self.light[self.idx(x, y, z)]
    }
    fn set_light(&mut self, x: usize, y: usize, z: usize, level: u8) {
        let i = self.idx(x, y, z);
        self.light[i] = level;
    }
    fn accepts_spread(&self, _x: usize, _y: usize, _z: usize) -> bool {
        true
    }
}

#[test]
fn single_source_radial_falloff() {
    // Source at center of an open 11³ grid emits 15; light should fall
    // off by Manhattan distance.
    let mut g = Grid::new(11, 11, 11);
    g.set_emission(5, 5, 5, 15);
    propagate_block_light(&mut g);

    assert_eq!(g.get_light(5, 5, 5), 15);
    assert_eq!(g.get_light(6, 5, 5), 14); // 1 step
    assert_eq!(g.get_light(5, 5, 7), 13); // 2 steps
    // A cell 5 steps away in a straight line.
    assert_eq!(g.get_light(10, 5, 5), 10);
    // Manhattan distance 15 would be level 0; distance 10 → 5.
    assert_eq!(g.get_light(10, 10, 5), 15 - 10);
}

#[test]
fn corridor_linear_falloff() {
    // A 1-wide corridor: walls solid, a 1×1×N tube of air. Light falls
    // off linearly along the only open path.
    let mut g = Grid::new(20, 3, 3);
    // Make everything solid, then carve the row y=1,z=1.
    for z in 0..3 {
        for y in 0..3 {
            for x in 0..20 {
                if !(y == 1 && z == 1) {
                    g.set_solid(x, y, z);
                }
            }
        }
    }
    g.set_emission(0, 1, 1, 15);
    propagate_block_light(&mut g);

    for x in 0..16 {
        assert_eq!(g.get_light(x, 1, 1), (15 - x as u8), "at x={x}");
    }
    assert_eq!(g.get_light(15, 1, 1), 0);
}

#[test]
fn light_stops_at_solid_wall() {
    // Source on one side of a solid wall; the far side stays dark.
    let mut g = Grid::new(5, 3, 3);
    // Wall at x=2 spanning the whole y,z cross-section.
    for z in 0..3 {
        for y in 0..3 {
            g.set_solid(2, y, z);
        }
    }
    g.set_emission(0, 1, 1, 15);
    propagate_block_light(&mut g);

    assert!(g.get_light(1, 1, 1) > 0, "near side lit");
    assert_eq!(g.get_light(2, 1, 1), 0, "wall itself unlit (no emission)");
    assert_eq!(g.get_light(3, 1, 1), 0, "far side dark");
    assert_eq!(g.get_light(4, 1, 1), 0);
}

#[test]
fn overlapping_sources_take_max_not_sum() {
    // Two emitters; a cell between them takes the brighter contribution.
    let mut g = Grid::new(11, 3, 3);
    g.set_emission(0, 1, 1, 15);
    g.set_emission(10, 1, 1, 15);
    propagate_block_light(&mut g);

    // Midpoint x=5 is 5 from each: each contributes 10, max = 10 (not 20).
    assert_eq!(g.get_light(5, 1, 1), 10);
    assert!(g.get_light(5, 1, 1) <= MAX_LIGHT);
}

#[test]
fn emitter_can_be_solid() {
    // A glowing solid block (like a lamp): it holds its emission and
    // lights its non-solid neighbors.
    let mut g = Grid::new(5, 3, 3);
    g.set_solid(2, 1, 1);
    g.set_emission(2, 1, 1, 14);
    propagate_block_light(&mut g);

    assert_eq!(g.get_light(2, 1, 1), 14, "solid emitter holds emission");
    assert_eq!(g.get_light(1, 1, 1), 13, "neighbor lit one less");
    assert_eq!(g.get_light(3, 1, 1), 13);
}

#[test]
fn empty_volume_stays_dark() {
    let mut g = Grid::new(8, 8, 8);
    let lit = propagate_block_light(&mut g);
    assert_eq!(lit, 0);
    assert_eq!(g.get_light(4, 4, 4), 0);
}

#[test]
fn recompute_clears_stale_light() {
    // Pre-seed bogus light, then propagate with no emitters: must clear.
    let mut g = Grid::new(5, 5, 5);
    g.set_light(2, 2, 2, 9);
    let lit = propagate_block_light(&mut g);
    assert_eq!(lit, 0, "stale light must be cleared on recompute");
    assert_eq!(g.get_light(2, 2, 2), 0);
}

#[test]
fn level_one_does_not_propagate() {
    // A source emitting 1 lights only itself (1-1 = 0 to neighbors).
    let mut g = Grid::new(5, 5, 5);
    g.set_emission(2, 2, 2, 1);
    propagate_block_light(&mut g);
    assert_eq!(g.get_light(2, 2, 2), 1);
    assert_eq!(g.get_light(3, 2, 2), 0);
}

#[test]
fn light_goes_around_obstacles() {
    // A partial wall with a gap: light should bend around through the gap.
    let mut g = Grid::new(7, 7, 3);
    // Wall at x=3 for all y except a gap at y=0.
    for z in 0..3 {
        for y in 1..7 {
            g.set_solid(3, y, z);
        }
    }
    g.set_emission(0, 3, 1, 15);
    propagate_block_light(&mut g);

    // Directly behind the wall but not at the gap row: only reachable by
    // routing through the gap, so dimmer than the straight-line distance.
    let behind = g.get_light(4, 3, 1);
    assert!(behind > 0, "light should reach behind via the gap");
    // The blocked cell on the wall is dark.
    assert_eq!(g.get_light(3, 3, 1), 0);
}

/// Open sky over every column (all 15 incoming).
fn open_top(dx: usize, dz: usize) -> Vec<u8> {
    vec![15u8; dx * dz]
}

#[test]
fn sky_open_flat_is_all_15() {
    // Empty volume, open sky everywhere → every cell full daylight.
    let mut g = Grid::new(5, 5, 5);
    propagate_sky_light(&mut g, &open_top(5, 5));
    for z in 0..5 {
        for y in 0..5 {
            for x in 0..5 {
                assert_eq!(g.get_light(x, y, z), 15, "open air cell {x},{y},{z}");
            }
        }
    }
}

#[test]
fn sky_vertical_shaft_stays_15_to_floor() {
    // Solid everywhere except a 1-wide vertical shaft of air at (2,*,2).
    let mut g = Grid::new(5, 10, 5);
    for z in 0..5 {
        for y in 0..10 {
            for x in 0..5 {
                if !(x == 2 && z == 2) {
                    g.set_solid(x, y, z);
                }
            }
        }
    }
    propagate_sky_light(&mut g, &open_top(5, 5));
    // No attenuation straight down: full 15 from top to floor.
    for y in 0..10 {
        assert_eq!(g.get_light(2, y, 2), 15, "shaft at y={y}");
    }
}

#[test]
fn sky_horizontal_tunnel_darkens() {
    // A vertical shaft, then a horizontal tunnel branching off its bottom.
    let mut g = Grid::new(12, 8, 3);
    // Fill solid, carve shaft at x=0 (all y, z=1) and a tunnel at y=0.
    for z in 0..3 {
        for y in 0..8 {
            for x in 0..12 {
                g.set_solid(x, y, z);
            }
        }
    }
    // Shaft: x=0, z=1, all y open.
    for y in 0..8 {
        g.clear_solid(0, y, 1);
    }
    // Tunnel along x at y=0, z=1.
    for x in 0..12 {
        g.clear_solid(x, 0, 1);
    }
    propagate_sky_light(&mut g, &open_top(12, 3));

    // Shaft bottom is 15 (came straight down).
    assert_eq!(g.get_light(0, 0, 1), 15);
    // Tunnel darkens by one per horizontal step away from the shaft.
    assert_eq!(g.get_light(1, 0, 1), 14);
    assert_eq!(g.get_light(2, 0, 1), 13);
    assert_eq!(g.get_light(5, 0, 1), 10);
}

#[test]
fn sky_under_roof_is_shadowed() {
    // A solid roof over an air cavity, with solid walls except open sky
    // above the roof. The cavity beneath gets no direct sky.
    let mut g = Grid::new(5, 5, 5);
    // Roof slab at y=3 across the whole xz.
    for z in 0..5 {
        for x in 0..5 {
            g.set_solid(x, 3, z);
        }
    }
    propagate_sky_light(&mut g, &open_top(5, 5));
    // Above the roof: lit.
    assert_eq!(g.get_light(2, 4, 2), 15);
    // Below the roof, sealed from the sides: dark.
    assert_eq!(g.get_light(2, 2, 2), 0);
    assert_eq!(g.get_light(2, 0, 2), 0);
}

#[test]
fn sky_roof_with_side_opening_lets_diffuse_in() {
    // Roof at y=3, but the volume's sides are open (no walls), so daylight
    // from the open columns beside the roof spills under it horizontally.
    let mut g = Grid::new(7, 5, 3);
    // Roof slab only covers x=2..=4 at y=3; rest open to sky.
    for z in 0..3 {
        for x in 2..=4 {
            g.set_solid(x, 3, z);
        }
    }
    propagate_sky_light(&mut g, &open_top(7, 3));
    // Open column beside the roof is full daylight top-to-bottom.
    assert_eq!(g.get_light(0, 0, 1), 15);
    // Under the roof edge: lit by diffuse spill from the open side, dimmer.
    let under_edge = g.get_light(2, 2, 1);
    assert!(
        under_edge > 0 && under_edge < 15,
        "diffuse under roof edge: {under_edge}"
    );
    // Deeper under the roof center: dimmer still (or dark).
    assert!(g.get_light(4, 2, 1) <= under_edge);
}

#[test]
fn sky_partial_top_boundary_occludes_some_columns() {
    // Simulate a neighbor above occluding half the columns: top_sky = 0
    // for x<3 (covered), 15 for x>=3 (open).
    let mut g = Grid::new(6, 4, 2);
    let mut top = vec![0u8; 6 * 2];
    for z in 0..2 {
        for x in 3..6 {
            top[x + z * 6] = 15;
        }
    }
    propagate_sky_light(&mut g, &top);
    // Open side: full daylight.
    assert_eq!(g.get_light(5, 3, 0), 15);
    // Covered side top cell: no direct sky (0 incoming), only diffuse from
    // the open side — so dimmer than 15.
    assert!(g.get_light(0, 3, 0) < 15);
}

// ---- Removal (two-phase) ----

/// Helper: full add, then remove at a cell whose emission was zeroed.
fn add_then_remove_at(g: &mut Grid, rx: usize, ry: usize, rz: usize) {
    propagate_block_light(g);
    // Simulate breaking the source: clear its emission, then remove.
    g.set_emission(rx, ry, rz, 0);
    remove_block_light(g, rx, ry, rz);
}

#[test]
fn removing_only_source_restores_darkness() {
    let mut g = Grid::new(11, 11, 11);
    g.set_emission(5, 5, 5, 15);
    add_then_remove_at(&mut g, 5, 5, 5);

    // Everything must be dark again — no stale glow anywhere.
    for z in 0..11 {
        for y in 0..11 {
            for x in 0..11 {
                assert_eq!(g.get_light(x, y, z), 0, "stale light at {x},{y},{z}");
            }
        }
    }
}

#[test]
fn removing_one_of_two_sources_keeps_survivor_light() {
    // THE case naive removal gets wrong: two overlapping sources, remove
    // one, the region must remain correctly lit by the other.
    let mut g = Grid::new(11, 3, 3);
    g.set_emission(0, 1, 1, 15);
    g.set_emission(10, 1, 1, 15);
    add_then_remove_at(&mut g, 0, 1, 1); // remove the left source

    // Compare against a from-scratch recompute with only the right source.
    let mut reference = Grid::new(11, 3, 3);
    reference.set_emission(10, 1, 1, 15);
    propagate_block_light(&mut reference);

    for x in 0..11 {
        assert_eq!(
            g.get_light(x, 1, 1),
            reference.get_light(x, 1, 1),
            "mismatch at x={x} after removing one source"
        );
    }
    // Sanity: the surviving source is still full bright, far end dark-ish.
    assert_eq!(g.get_light(10, 1, 1), 15);
    assert_eq!(g.get_light(0, 1, 1), 5); // 10 away from survivor
}

#[test]
fn removal_matches_full_recompute_random() {
    // Fuzz: random emitters + walls, remove one, compare to a clean
    // recompute without it. Removal must converge to the same field.
    let mut rng = 0x1234_5678u64;
    let mut next = || {
        rng ^= rng << 13;
        rng ^= rng >> 7;
        rng ^= rng << 17;
        rng
    };
    for _ in 0..40 {
        let mut g = Grid::new(9, 9, 9);
        // Sprinkle walls.
        for _ in 0..60 {
            let x = (next() % 9) as usize;
            let y = (next() % 9) as usize;
            let z = (next() % 9) as usize;
            g.set_solid(x, y, z);
        }
        // A few emitters on non-solid cells.
        let mut emitters = Vec::new();
        for _ in 0..4 {
            let x = (next() % 9) as usize;
            let y = (next() % 9) as usize;
            let z = (next() % 9) as usize;
            if !g.is_solid(x, y, z) {
                let e = 8 + (next() % 8) as u8;
                g.set_emission(x, y, z, e);
                emitters.push((x, y, z));
            }
        }
        if emitters.is_empty() {
            continue;
        }
        propagate_block_light(&mut g);

        // Remove the first emitter.
        let (rx, ry, rz) = emitters[0];
        g.set_emission(rx, ry, rz, 0);
        remove_block_light(&mut g, rx, ry, rz);

        // Reference: recompute from scratch with that emitter gone.
        let mut reference = Grid::new(9, 9, 9);
        reference.solid = g.solid.clone();
        reference.emission = g.emission.clone();
        propagate_block_light(&mut reference);

        for i in 0..(9 * 9 * 9) {
            assert_eq!(
                g.light[i], reference.light[i],
                "incremental removal diverged from full recompute"
            );
        }
    }
}

#[test]
fn placing_solid_over_light_removes_it() {
    // Light a corridor, then drop a solid wall mid-way and remove from
    // there: the far side past the new wall goes dark.
    let mut g = Grid::new(12, 3, 3);
    for z in 0..3 {
        for y in 0..3 {
            for x in 0..12 {
                if !(y == 1 && z == 1) {
                    g.set_solid(x, y, z);
                }
            }
        }
    }
    g.set_emission(0, 1, 1, 15);
    propagate_block_light(&mut g);
    assert!(g.get_light(8, 1, 1) > 0);

    // Place a solid block at x=5 and remove light there.
    g.set_solid(5, 1, 1);
    remove_block_light(&mut g, 5, 1, 1);

    // Near side still lit, far side past the wall dark.
    assert!(g.get_light(4, 1, 1) > 0, "near side stays lit");
    assert_eq!(g.get_light(5, 1, 1), 0, "the new solid is dark");
    let reference_far = g.get_light(8, 1, 1);
    assert_eq!(reference_far, 0, "far side past new wall went dark");
}

// ---- Chunk relight adapter ----

fn no_borders() -> NeighborLight {
    [None, None, None, None, None, None]
}

#[test]
fn relight_empty_chunk_is_dark() {
    let reg = BlockRegistry::default_set();
    let mut chunk = Chunk::new_air();
    let changed = relight_chunk(&mut chunk, &reg, &no_borders());
    assert!(!chunk.has_light(), "no emitters → fully dark");
    assert!(!changed, "no outgoing border change");
}

#[test]
fn relight_lamp_lights_neighborhood() {
    let reg = BlockRegistry::default_set();
    let mut chunk = Chunk::new_air();
    // Lamp in the interior so falloff is visible without borders.
    let lp = LocalPos::new(16, 16, 16);
    chunk.set(lp, lamp());
    relight_chunk(&mut chunk, &reg, &no_borders());

    assert_eq!(chunk.block_light(lp), 14, "lamp holds its emission");
    assert_eq!(chunk.block_light(LocalPos::new(17, 16, 16)), 13);
    assert_eq!(chunk.block_light(LocalPos::new(18, 16, 16)), 12);
    // Far corner well beyond reach stays dark.
    assert_eq!(chunk.block_light(LocalPos::new(0, 0, 0)), 0);
}

#[test]
fn relight_changes_border_when_light_reaches_edge() {
    let reg = BlockRegistry::default_set();
    let mut chunk = Chunk::new_air();
    // Lamp near the -X edge so light reaches x=0.
    chunk.set(LocalPos::new(2, 16, 16), lamp());
    let changed = relight_chunk(&mut chunk, &reg, &no_borders());
    assert!(
        changed,
        "light reaching the edge changes the outgoing border"
    );
    // The -X plane (x=0) at the lamp's row should be lit.
    let plane = chunk_light_plane(&chunk, 1); // NEG_X
    assert!(
        plane[16 + 16 * CHUNK_SIZE] > 0,
        "edge plane lit at lamp row"
    );
}

#[test]
fn border_light_flows_in_from_neighbor() {
    // Simulate a bright neighbor on -X: inject a full-bright border plane
    // and confirm light floods into this (otherwise dark) chunk.
    let reg = BlockRegistry::default_set();
    let mut chunk = Chunk::new_air();

    let n = CHUNK_SIZE;
    let mut neg_x_plane = vec![0u8; n * n];
    // Neighbor's touching plane is bright (15) at one row.
    neg_x_plane[16 + 16 * n] = 15;
    let borders: NeighborLight = [None, Some(neg_x_plane), None, None, None, None];

    relight_chunk(&mut chunk, &reg, &borders);

    // The -X edge cell (x=0) at that row receives 15-1=14 (one step in).
    assert_eq!(chunk.block_light(LocalPos::new(0, 16, 16)), 14);
    assert_eq!(chunk.block_light(LocalPos::new(1, 16, 16)), 13);
}

#[test]
fn relight_clears_stale_light_when_lamp_removed() {
    let reg = BlockRegistry::default_set();
    let mut chunk = Chunk::new_air();
    let lp = LocalPos::new(16, 16, 16);
    chunk.set(lp, lamp());
    relight_chunk(&mut chunk, &reg, &no_borders());
    assert!(chunk.has_light());

    // Remove the lamp and relight from scratch.
    chunk.set(lp, AIR);
    relight_chunk(&mut chunk, &reg, &no_borders());
    assert!(
        !chunk.has_light(),
        "removing the only lamp clears all light"
    );
}

fn no_sky() -> NeighborSky {
    [None, None, None, None, None, None]
}

#[test]
fn two_channel_open_air_chunk_is_fully_skylit() {
    // An all-air chunk with no neighbors → open top → sky 15 everywhere,
    // block light 0 everywhere.
    let reg = BlockRegistry::default_set();
    let mut chunk = Chunk::new_air();
    relight_chunk_2ch(&mut chunk, &reg, &no_borders(), &no_sky());
    for pos in [
        LocalPos::new(0, 0, 0),
        LocalPos::new(31, 31, 31),
        LocalPos::new(16, 0, 16),
    ] {
        assert_eq!(chunk.sky_light(pos), 15, "open air sky at {pos:?}");
        assert_eq!(chunk.block_light(pos), 0, "no block light");
    }
}

#[test]
fn two_channel_lamp_and_sky_coexist() {
    // A lamp in open air: block light from the lamp AND full skylight, in
    // separate nibbles, both present.
    let reg = BlockRegistry::default_set();
    let mut chunk = Chunk::new_air();
    let lp = LocalPos::new(16, 16, 16);
    chunk.set(lp, lamp());
    relight_chunk_2ch(&mut chunk, &reg, &no_borders(), &no_sky());

    // Lamp cell: block light = emission; sky is 0 there (lamp is solid).
    assert_eq!(chunk.block_light(lp), 14);
    assert_eq!(chunk.sky_light(lp), 0, "solid lamp blocks sky in its cell");
    // A nearby air cell: both channels lit.
    let near = LocalPos::new(17, 16, 16);
    assert_eq!(chunk.block_light(near), 13);
    assert_eq!(chunk.sky_light(near), 15);
}

#[test]
fn two_channel_roof_casts_sky_shadow_not_block_shadow() {
    // A solid roof slab high in the chunk; cells below are sky-shadowed.
    let reg = BlockRegistry::default_set();
    let mut chunk = Chunk::new_air();
    // Roof at y=20 across the whole chunk.
    for z in 0..32u8 {
        for x in 0..32u8 {
            chunk.set(LocalPos::new(x, 20, z), stone());
        }
    }
    relight_chunk_2ch(&mut chunk, &reg, &no_borders(), &no_sky());

    // Above the roof: full sky.
    assert_eq!(chunk.sky_light(LocalPos::new(16, 25, 16)), 15);
    // Directly below the roof (sealed): no sky.
    assert_eq!(chunk.sky_light(LocalPos::new(16, 10, 16)), 0);
    assert_eq!(chunk.sky_light(LocalPos::new(16, 0, 16)), 0);
}

#[test]
fn two_channel_sky_flows_down_from_neighbor_above() {
    // Open top (top_sky = 15 per column) → daylight floods down a clear
    // chunk and, with the no-down-attenuation rule, stays 15 to the floor.
    let reg = BlockRegistry::default_set();
    let chunk = Chunk::new_air();
    let top = open_sky_top();
    let (light, _) =
        compute_chunk_light_2ch(&chunk, &reg, &no_borders(), &no_sky(), &top, true);
    let sky_at = |p: LocalPos| (light[p.index()] >> 4) & 0x0F;
    assert_eq!(sky_at(LocalPos::new(16, 31, 16)), 15);
    assert_eq!(sky_at(LocalPos::new(16, 0, 16)), 15);
}

#[test]
fn two_channel_occluded_top_blocks_sky() {
    // top_sky = 0 for every column (the heightmap says something solid is
    // above this chunk) → no daylight enters; with no other source the
    // chunk is sky-dark.
    let reg = BlockRegistry::default_set();
    let chunk = Chunk::new_air();
    let dark_top = vec![0u8; CHUNK_SIZE * CHUNK_SIZE];
    let (light, _) =
        compute_chunk_light_2ch(&chunk, &reg, &no_borders(), &no_sky(), &dark_top, true);
    let sky_at = |p: LocalPos| (light[p.index()] >> 4) & 0x0F;
    assert_eq!(
        sky_at(LocalPos::new(16, 31, 16)),
        0,
        "occluded top (heightmap) => shadow"
    );
}

#[test]
fn uniform_fast_path_matches_full_for_open_air() {
    // An all-air chunk under open sky: the fast path fills each column
    // with top_sky straight down. A partial top_sky (some columns lit,
    // some occluded) must produce exactly that pattern, 15 or 0.
    let reg = BlockRegistry::default_set();
    let chunk = Chunk::new_air();
    let n = CHUNK_SIZE;
    let mut top = vec![0u8; n * n];
    for z in 0..n {
        for x in 0..n {
            if x >= n / 2 {
                top[x + z * n] = 15;
            }
        }
    }
    let (light, _) =
        compute_chunk_light_2ch(&chunk, &reg, &no_borders(), &no_sky(), &top, true);
    for pos in LocalPos::iter() {
        let sky = (light[pos.index()] >> 4) & 0x0F;
        let want = if (pos.x() as usize) >= n / 2 { 15 } else { 0 };
        assert_eq!(sky, want, "air column sky at {pos:?}");
        assert_eq!(light[pos.index()] & 0x0F, 0, "no block light in open air");
    }
}

#[test]
fn uniform_fast_path_solid_is_dark() {
    // An all-stone chunk: light cannot enter; every cell stays 0 in both
    // channels regardless of top_sky.
    let reg = BlockRegistry::default_set();
    let chunk = Chunk::filled(stone());
    let (light, _) = compute_chunk_light_2ch(
        &chunk,
        &reg,
        &no_borders(),
        &no_sky(),
        &open_sky_top(),
        true,
    );
    assert!(light.iter().all(|&v| v == 0), "solid chunk fully dark");
}

#[test]
fn uniform_with_block_inflow_uses_full_path() {
    // An all-air chunk WITH a block-light border must still flood that
    // block light in (fast path must defer to the full computation).
    let reg = BlockRegistry::default_set();
    let chunk = Chunk::new_air();
    let n = CHUNK_SIZE;
    let mut neg_x = vec![0u8; n * n];
    neg_x[16 + 16 * n] = 15;
    let block_borders: NeighborLight = [None, Some(neg_x), None, None, None, None];
    let dark_top = vec![0u8; n * n];
    let (light, _) =
        compute_chunk_light_2ch(&chunk, &reg, &block_borders, &no_sky(), &dark_top, true);
    // Block light floods in from the -X border.
    assert_eq!(light[LocalPos::new(0, 16, 16).index()] & 0x0F, 14);
}

#[test]
fn platform_casts_shadow_underneath() {
    let reg = BlockRegistry::default_set();
    let mut chunk = Chunk::new_air();
    // Solid platform across the whole chunk at y=20 (so no open sides — fully enclosed below).
    for z in 0..CHUNK_SIZE as u8 {
        for x in 0..CHUNK_SIZE as u8 {
            chunk.set(LocalPos::new(x, 20, z), stone());
        }
    }
    let top = open_sky_top(); // heightmap: column open (platform is top solid)
    let (light, _) =
        compute_chunk_light_2ch(&chunk, &reg, &no_borders(), &no_sky(), &top, true);
    let sky = |x, y, z| (light[LocalPos::new(x, y, z).index()] >> 4) & 0x0F;
    println!("above platform y=25: {}", sky(16, 25, 16));
    println!("just below platform y=19: {}", sky(16, 19, 16));
    println!("bottom y=0: {}", sky(16, 0, 16));
    assert_eq!(
        sky(16, 25, 16),
        15,
        "above platform should be full daylight"
    );
    assert_eq!(
        sky(16, 19, 16),
        0,
        "fully-covered cell below platform must be dark"
    );
}

#[test]
fn empty_chunk_has_no_column_heights() {
    let reg = BlockRegistry::default_set();
    let chunk = Chunk::new_air();
    let h = chunk_column_heights(&chunk, &reg);
    assert!(h.iter().all(|c| c.is_none()), "air columns are open");
    let occ = chunk_column_occludes(&chunk, &reg);
    assert!(occ.iter().all(|&o| !o));
}

#[test]
fn column_height_is_topmost_solid() {
    let reg = BlockRegistry::default_set();
    let mut chunk = Chunk::new_air();
    // Stack of stone at (4, z=5) from y=0..=10; plus a floating block at 20.
    for y in 0..=10u8 {
        chunk.set(LocalPos::new(4, y, 5), stone());
    }
    chunk.set(LocalPos::new(4, 20, 5), stone());
    let h = chunk_column_heights(&chunk, &reg);
    assert_eq!(h[column_index(4, 5)], Some(20), "topmost solid wins");
    // A neighbor column with only the low stack.
    assert_eq!(h[column_index(0, 0)], None);
}

#[test]
fn full_floor_occludes_every_column() {
    let reg = BlockRegistry::default_set();
    let mut chunk = Chunk::new_air();
    // Solid slab at y=0 across the whole chunk.
    for z in 0..32u8 {
        for x in 0..32u8 {
            chunk.set(LocalPos::new(x, 0, z), stone());
        }
    }
    let occ = chunk_column_occludes(&chunk, &reg);
    assert!(occ.iter().all(|&o| o), "every column occludes");
    let h = chunk_column_heights(&chunk, &reg);
    assert!(h.iter().all(|&c| c == Some(0)));
}

#[test]
fn air_block_does_not_occlude() {
    let reg = BlockRegistry::default_set();
    let mut chunk = Chunk::new_air();
    chunk.set(LocalPos::new(1, 1, 1), AIR); // no-op
    let occ = chunk_column_occludes(&chunk, &reg);
    assert!(!occ[column_index(1, 1)]);
}
#[test]
fn enclosed_box_interior_is_dark() {
    let reg = BlockRegistry::default_set();
    let mut chunk = Chunk::new_air();
    for dz in -1i32..=1 {
        for dy in -1i32..=1 {
            for dx in -1i32..=1 {
                let (x, y, z) = ((16 + dx) as u8, (16 + dy) as u8, (16 + dz) as u8);
                if dx.abs() == 1 || dy.abs() == 1 || dz.abs() == 1 {
                    chunk.set(LocalPos::new(x, y, z), stone());
                }
            }
        }
    }
    let top = open_sky_top();
    let (light, _) =
        compute_chunk_light_2ch(&chunk, &reg, &no_borders(), &no_sky(), &top, true);
    let center = (light[LocalPos::new(16, 16, 16).index()] >> 4) & 0x0F;
    println!("enclosed box interior sky: {center}");
    assert_eq!(center, 0, "sealed box interior must be pitch dark");
}

#[test]
fn fast_path_air_chunk_under_platform_in_heightmap() {
    let reg = BlockRegistry::default_set();
    let chunk = Chunk::new_air(); // uniform all-air -> hits fast path
    // Correct heightmap: platform above => this column is occluded.
    let occluded_top = vec![0u8; CHUNK_SIZE * CHUNK_SIZE];
    let (light, _) =
        compute_chunk_light_2ch(&chunk, &reg, &no_borders(), &no_sky(), &occluded_top, true);
    let center = (light[LocalPos::new(16, 16, 16).index()] >> 4) & 0x0F;
    println!("air-under-platform (top_sky=0) center sky: {center}");
    assert_eq!(
        center, 0,
        "air chunk under a platform must be dark when top_sky=0"
    );
}

#[test]
fn overhead_plane_lights_shaft_below_surface() {
    // Below-surface chunk (top_sky all 0, i.e. heightmap says "covered"),
    // but the chunk ABOVE passes real daylight down its -Y plane at one
    // column (a shaft). That column must light up 15 top-to-bottom (no-down
    // attenuation); other columns stay dark. This is honest skylight, not
    // the heightmap.
    let reg = BlockRegistry::default_set();
    let chunk = Chunk::new_air();
    let n = CHUNK_SIZE;
    let mut above = vec![0u8; n * n]; // overhead chunk's -Y sky plane
    let shaft = 16 + 16 * n;
    above[shaft] = 15; // one open column directly overhead
    let sky: NeighborSky = [None, None, Some(above), None, None, None];
    let dark_top = vec![0u8; n * n]; // heightmap: covered
    let (light, _) =
        compute_chunk_light_2ch(&chunk, &reg, &no_borders(), &sky, &dark_top, true);
    let sky_at = |x, y, z| (light[LocalPos::new(x, y, z).index()] >> 4) & 0x0F;
    assert_eq!(sky_at(16, 31, 16), 15, "shaft top lit from overhead plane");
    assert_eq!(sky_at(16, 0, 16), 15, "shaft stays 15 to the bottom");
    // A column far from the shaft only gets attenuated horizontal spread.
    assert!(sky_at(16 + 5, 31, 16) < 15, "off-shaft column dimmer");
    assert!(sky_at(16 + 14, 16, 16) <= 1, "far from shaft ~dark");
}

#[test]
fn covered_air_chunk_below_surface_is_dark() {
    // Below-surface air chunk, overhead plane all 0 (solid roof above) and
    // top_sky all 0: must be fully dark. Confirms we do not invent skylight.
    let reg = BlockRegistry::default_set();
    let chunk = Chunk::new_air();
    let n = CHUNK_SIZE;
    let above = vec![0u8; n * n];
    let sky: NeighborSky = [None, None, Some(above), None, None, None];
    let dark_top = vec![0u8; n * n];
    let (light, _) =
        compute_chunk_light_2ch(&chunk, &reg, &no_borders(), &sky, &dark_top, true);
    assert!(
        light.iter().all(|&v| (v >> 4) == 0),
        "covered air stays dark"
    );
}

#[test]
fn upward_tunnel_stops_below_surface() {
    // Surface at y=20 (stone 0..=20, air above). Carve a vertical air
    // shaft from y=1 up to y=18 (top still has solid at y=19,20 above it).
    // With top_sky=15 (heightmap: column open above the y=20 surface),
    // daylight enters at the chunk top and floods DOWN, correctly stopping
    // at y=20. The shaft (y<=18) is sealed beneath two solid blocks, so it
    // must stay DARK. If it lights up, top_sky/propagation is leaking.
    let reg = BlockRegistry::default_set();
    let mut chunk = Chunk::new_air();
    for z in 0..CHUNK_SIZE as u8 {
        for x in 0..CHUNK_SIZE as u8 {
            for y in 0..=20u8 {
                chunk.set(LocalPos::new(x, y, z), stone());
            }
        }
    }
    // Carve the shaft at column (16,16): clear y=1..=18 (leave 19,20 solid).
    for y in 1..=18u8 {
        chunk.set(LocalPos::new(16, y, 16), AIR);
    }
    let top = open_sky_top(); // top_sky = 15 everywhere (open above surface)
    let (light, _) =
        compute_chunk_light_2ch(&chunk, &reg, &no_borders(), &no_sky(), &top, true);
    let sky = |y| (light[LocalPos::new(16, y, 16).index()] >> 4) & 0x0F;
    println!("shaft sky: y18={} y10={} y1={}", sky(18), sky(10), sky(1));
    assert_eq!(sky(18), 0, "sealed shaft top (2 solid above) must be dark");
    assert_eq!(sky(1), 0, "sealed shaft bottom must be dark");
}

#[test]
fn upward_tunnel_across_chunk_seam_stays_dark() {
    // Model the real case: a LOWER chunk full of stone with a vertical air
    // shaft carved up to its TOP edge (local y=31). The chunk ABOVE has the
    // surface (solid up to some height, air above). The lower chunk's
    // top_sky from the heightmap: its columns are BELOW the surface, so
    // top_sky=0. The only sky that could enter is via the +Y overhead plane
    // (sky[2]) = the upper chunk's -Y face sky. If the upper chunk is solid
    // at the seam above the shaft, that plane is 0 there → shaft stays dark.
    let reg = BlockRegistry::default_set();
    let mut lower = Chunk::filled(stone());
    // Carve shaft column (16,16) for the full height of the lower chunk.
    for y in 0..CHUNK_SIZE as u8 {
        lower.set(LocalPos::new(16, y, 16), AIR);
    }
    // Overhead (+Y) sky plane: the upper chunk is SOLID at the seam above
    // the shaft (surface is higher up), so its bottom sky is 0 there.
    let n = CHUNK_SIZE;
    let above = vec![0u8; n * n]; // all 0: solid seam above
    let sky: NeighborSky = [None, None, Some(above), None, None, None];
    let dark_top = vec![0u8; n * n]; // heightmap: below surface
    let (light, _) =
        compute_chunk_light_2ch(&lower, &reg, &no_borders(), &sky, &dark_top, true);
    let sky_at = |y| (light[LocalPos::new(16, y, 16).index()] >> 4) & 0x0F;
    println!(
        "seam shaft: top31={} mid16={} bot0={}",
        sky_at(31),
        sky_at(16),
        sky_at(0)
    );
    assert_eq!(
        sky_at(31),
        0,
        "shaft top at seam must be dark (solid above)"
    );
    assert_eq!(sky_at(0), 0, "shaft bottom dark");
}

#[test]
fn capped_shaft_below_in_chunk_surface_stays_dark() {
    // Exact repro of the VPROBE case: chunk spans local y=0..31. Solid
    // surface at y=18 (open air y=19..31 above it -> top_sky=15 floods down
    // and stops at 18). A sealed shaft column at (x,z)=(13,3) runs y=1..11,
    // capped by solid y=12..18 (>=6 solid above it). Everything else solid.
    // The shaft MUST be fully dark; top_sky=15 must not leak past the cap.
    let reg = BlockRegistry::default_set();
    let mut chunk = Chunk::filled(stone());
    let n = CHUNK_SIZE as u8;
    // Open air above the surface everywhere: clear y=19..31.
    for z in 0..n {
        for x in 0..n {
            for y in 19..n {
                chunk.set(LocalPos::new(x, y, z), AIR);
            }
        }
    }
    // Carve the sealed shaft at (13,3), y=1..=11.
    for y in 1..=11u8 {
        chunk.set(LocalPos::new(13, y, 3), AIR);
    }
    let top = open_sky_top(); // top_sky=15 (column open above this chunk)
    let (light, _) =
        compute_chunk_light_2ch(&chunk, &reg, &no_borders(), &no_sky(), &top, true);
    let sky = |x, y, z| (light[LocalPos::new(x, y, z).index()] >> 4) & 0x0F;
    println!(
        "surface col: y31={} y19={} y18(solid)={}",
        sky(13, 31, 3),
        sky(13, 19, 3),
        sky(13, 18, 3)
    );
    println!(
        "shaft: y11={} y6={} y1={}",
        sky(13, 11, 3),
        sky(13, 6, 3),
        sky(13, 1, 3)
    );
    assert_eq!(sky(13, 19, 3), 15, "open air above surface lit");
    assert_eq!(sky(13, 11, 3), 0, "sealed shaft top dark");
    assert_eq!(sky(13, 1, 3), 0, "sealed shaft bottom dark");
}

#[test]
fn seam_no_daylight_leak_into_subsurface_shaft() {
    // Two stacked chunks model the real bug. LOWER chunk (origin.y=0):
    // surface solid at local y=18 (h=18, INSIDE the chunk), open air
    // y=19..31 above it, sealed shaft column (13,3) at y=1..11 capped by
    // solid y=12..18. UPPER chunk (origin.y=32): all air.
    //
    // App rule: top_sky=15 only when h < origin.y. For the lower chunk
    // h=18 >= 0, so its top_sky=0; daylight must arrive via the upper
    // chunk's -Y sky plane (the +Y neighbor border) and BFS down to y=18.
    let reg = BlockRegistry::default_set();

    // Upper chunk: all air, top_sky=15 (h=18 < origin.y=32) -> fully lit.
    let upper = Chunk::new_air();
    let (upper_light, _) = compute_chunk_light_2ch(
        &upper,
        &reg,
        &no_borders(),
        &no_sky(),
        &open_sky_top(),
        true,
    );
    // Its -Y face plane (what it hands down to the lower chunk's +Y).
    let n = CHUNK_SIZE;
    let mut upper_bottom = vec![0u8; n * n];
    for z in 0..n {
        for x in 0..n {
            let s = (upper_light[LocalPos::new(x as u8, 0, z as u8).index()] >> 4) & 0x0F;
            upper_bottom[x + z * n] = s;
        }
    }

    // Lower chunk geometry.
    let mut lower = Chunk::filled(stone());
    for z in 0..n as u8 {
        for x in 0..n as u8 {
            for y in 19..n as u8 {
                lower.set(LocalPos::new(x, y, z), AIR);
            }
        }
    }
    for y in 1..=11u8 {
        lower.set(LocalPos::new(13, y, 3), AIR);
    }

    // Lower chunk: top_sky=0 (surface inside), overhead plane = upper_bottom.
    let lower_top = vec![0u8; n * n];
    let sky: NeighborSky = [None, None, Some(upper_bottom), None, None, None];
    let (light, _) =
        compute_chunk_light_2ch(&lower, &reg, &no_borders(), &sky, &lower_top, true);
    let sky_at = |x, y, z| (light[LocalPos::new(x, y, z).index()] >> 4) & 0x0F;
    println!(
        "open y19={} surface y18={} shaft y11={} y6={} y1={}",
        sky_at(13, 19, 3),
        sky_at(13, 18, 3),
        sky_at(13, 11, 3),
        sky_at(13, 6, 3),
        sky_at(13, 1, 3)
    );
    assert_eq!(
        sky_at(13, 19, 3),
        15,
        "open air above surface lit from overhead plane"
    );
    assert_eq!(
        sky_at(13, 11, 3),
        0,
        "sealed shaft top dark (no daylight leak)"
    );
    assert_eq!(sky_at(13, 1, 3), 0, "sealed shaft bottom dark");
}
// Mirrors vox-app's top_sky_from_heightmap decision for one column so the
// heightmap->daylight rule is regression-tested headlessly. `h` is the
// column's highest-solid world-Y; `known` is whether the heightmap has an
// entry yet (false during streaming before the column's solid chunks load).
fn top_sky_decision(known: bool, h: i64, origin_y: i64) -> u8 {
    let pos = ChunkPos::new(0, origin_y / CHUNK_SIZE as i64, 0);
    let mut heights = ColumnHeights::new();
    heights.chunk_loaded(pos);
    if known {
        heights.set(0, 0, h);
    }
    top_sky_from_heightmap(&heights, pos)[column_index(0, 0)]
}

#[test]
fn topsky_unknown_column_is_covered_known_open_is_lit() {
    let origin_y = -64; // a deep-underground chunk
    // Unknown column (solid chunks not streamed yet) must be DARK. The old
    // rule defaulted missing columns to i64::MIN which is < origin_y and so
    // produced full daylight underground (the sealed-hole leak source).
    assert_eq!(top_sky_decision(false, i64::MIN, origin_y), 0);
    // A genuinely open column (surface far below this chunk) is daylit.
    assert_eq!(top_sky_decision(true, -100, origin_y), MAX_LIGHT);
    // A covered column (surface in/above this chunk) is dark.
    assert_eq!(top_sky_decision(true, 20, origin_y), 0);
    // Surface-in-chunk boundary stays dark at the top face (daylight must
    // arrive via the overhead plane and stop at the surface, not blanket).
    assert_eq!(top_sky_decision(true, origin_y, origin_y), 0);
}

#[test]
fn border_ring_must_not_conduct_skylight_down_to_sealed_cave() {
    let reg = BlockRegistry::default_set();
    let n = CHUNK_SIZE;
    let mut chunk = Chunk::new_air();
    for z in 0..n {
        for x in 0..n {
            for y in 0..=18usize {
                chunk.set(LocalPos::new(x as u8, y as u8, z as u8), stone());
            }
        }
    }
    for z in 10..=12u8 {
        for x in 0..=1u8 {
            for y in 5..=8u8 {
                chunk.set(LocalPos::new(x, y, z), AIR);
            }
        }
    }
    // -X neighbor sky plane, indexed (u,v) = (y,z): 15 above the surface,
    // 0 in the solid below — exactly a real terrain neighbor's face.
    let mut west = vec![0u8; n * n];
    for z in 0..n {
        for y in 19..n {
            west[y + z * n] = 15;
        }
    }
    let sky: NeighborSky = [None, Some(west), None, None, None, None];
    let dark_top = vec![0u8; n * n]; // surface inside chunk -> top_sky 0
    let (light, _) =
        compute_chunk_light_2ch(&chunk, &reg, &no_borders(), &sky, &dark_top, true);
    let sky_at = |x, y, z| (light[LocalPos::new(x, y, z).index()] >> 4) & 0x0F;
    assert_eq!(
        sky_at(0, 6, 11),
        0,
        "sealed cave cell on the boundary must be dark"
    );
    assert_eq!(sky_at(1, 6, 11), 0, "sealed cave interior must be dark");
    // Sanity: open air above the surface still receives the side spill.
    assert!(
        sky_at(0, 20, 11) > 0,
        "open air above surface still lit by side plane"
    );
}

#[test]
fn border_ring_must_not_conduct_block_light_around_solid() {
    // Same conduit flaw, block-light flavor. A solid chunk with a sealed
    // pocket at the -X boundary at y=6. The -X neighbor plane carries a
    // lamp's light at y=12 (same z) — separated from the pocket by solid
    // in the neighbor. Without the source-not-conduit rule, the light
    // relays DOWN the border ring (attenuating) and enters the pocket.
    let reg = BlockRegistry::default_set();
    let n = CHUNK_SIZE;
    let mut chunk = Chunk::filled(stone());
    chunk.set(LocalPos::new(0, 6, 11), AIR); // sealed pocket
    let mut west = vec![0u8; n * n];
    west[12 + 11 * n] = 14; // bright block light at (y=12, z=11)
    let borders: NeighborLight = [None, Some(west), None, None, None, None];
    let sky: NeighborSky = [None, None, None, None, None, None];
    let dark_top = vec![0u8; n * n];
    let (light, _) = compute_chunk_light_2ch(&chunk, &reg, &borders, &sky, &dark_top, true);
    let block_at = |x, y, z| light[LocalPos::new(x, y, z).index()] & 0x0F;
    assert_eq!(
        block_at(0, 6, 11),
        0,
        "sealed pocket must not receive relayed block light"
    );
}

#[test]
fn column_heights_uniform_fast_path_matches_scan() {
    let reg = BlockRegistry::default_set();
    let n = CHUNK_SIZE;
    // All-air: every column None.
    let air = Chunk::new_air();
    assert!(chunk_column_heights(&air, &reg).iter().all(|h| h.is_none()));
    // All-solid: every column tops at n-1.
    let solid = Chunk::filled(stone());
    assert!(
        chunk_column_heights(&solid, &reg)
            .iter()
            .all(|&h| h == Some((n - 1) as u8))
    );
    // Mixed chunk still uses the scan: surface at y=18 everywhere except
    // one column carved down to y=3.
    let mut mixed = Chunk::filled(stone());
    for y in 19..n as u8 {
        for z in 0..n as u8 {
            for x in 0..n as u8 {
                mixed.set(LocalPos::new(x, y, z), AIR);
            }
        }
    }
    for y in 4..=18u8 {
        mixed.set(LocalPos::new(5, y, 5), AIR);
    }
    let h = chunk_column_heights(&mixed, &reg);
    assert_eq!(h[column_index(4, 5)], Some(18));
    assert_eq!(h[column_index(5, 5)], Some(3));
}

#[test]
fn border_changed_faces_reports_only_the_changed_face() {
    let reg = BlockRegistry::default_set();
    let chunk = Chunk::filled(stone()); // stored light: all zero
    // A fresh light buffer identical to stored (all zero) → no faces.
    let same = vec![0u8; CHUNK_SIZE * CHUNK_SIZE * CHUNK_SIZE];
    assert_eq!(packed_border_changed_faces(&chunk, &same), 0);
    let _ = &reg;
    // Change one cell on the -Z face (z = 0) only → exactly bit 5.
    let mut z0 = same.clone();
    z0[LocalPos::new(7, 9, 0).index()] = 0x30; // sky=3
    assert_eq!(packed_border_changed_faces(&chunk, &z0), 1 << 5);
    // Change a corner cell (0,0,0): lies on -X, -Y, and -Z faces.
    let mut corner = same;
    corner[LocalPos::new(0, 0, 0).index()] = 0x10;
    assert_eq!(
        packed_border_changed_faces(&chunk, &corner),
        (1 << 1) | (1 << 3) | (1 << 5)
    );
}

