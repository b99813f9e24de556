//! Chunk meshes.

use std::collections::HashMap;
use voxterra::mesh::quads::{corner_ao, corner_light_sums, quad_indices};
use voxterra::{
    mesh_chunk, mesh_chunk_naive, BlockId, Chunk, ChunkNeighbors, LocalPos, MeshData, MeshInput,
    Quad, CHUNK_SIZE,
};

const AIR: BlockId = BlockId(0);

// A layer closure for tests: distinct layer per (block, face) so the
// differential test also exercises per-face layer correctness. For the
// simple count tests, the exact layer doesn't matter.
fn layers(b: BlockId, face: usize) -> u32 {
    (b.0 as u32) * 6 + face as u32
}
const WHITE: fn(BlockId, usize) -> u32 = layers;
const STONE: BlockId = BlockId(1);
const N: usize = CHUNK_SIZE;

#[test]
fn naive_empty_chunk_produces_empty_mesh() {
    let mesh = mesh_chunk_naive(&Chunk::new_air(), &ChunkNeighbors::none(), WHITE);
    assert!(mesh.is_empty());
}

#[test]
fn naive_isolated_block_has_six_quads() {
    let mut chunk = Chunk::new_air();
    chunk.set(LocalPos::new(5, 5, 5), STONE);
    let mesh = mesh_chunk_naive(&chunk, &ChunkNeighbors::none(), WHITE);
    assert_eq!(mesh.quad_count(), 6);
    assert_eq!(vertices(&mesh).len(), 24);
    assert_eq!(indices(&mesh).len(), 36);
}

#[test]
fn naive_adjacent_pair_has_ten_quads() {
    let mut chunk = Chunk::new_air();
    chunk.set(LocalPos::new(5, 5, 5), STONE);
    chunk.set(LocalPos::new(6, 5, 5), STONE);
    let mesh = mesh_chunk_naive(&chunk, &ChunkNeighbors::none(), WHITE);
    assert_eq!(mesh.quad_count(), 10);
}

#[test]
fn naive_solid_chunk_meshes_to_shell_only() {
    let mesh = mesh_chunk_naive(&Chunk::filled(STONE), &ChunkNeighbors::none(), WHITE);
    assert_eq!(mesh.quad_count(), 6 * N * N);
}

#[test]
fn naive_solid_neighbor_culls_shared_border() {
    let chunk = Chunk::filled(STONE);
    let neighbor = Chunk::filled(STONE);
    let neighbors = ChunkNeighbors::none().with_pos_x(&neighbor);
    let mesh = mesh_chunk_naive(&chunk, &neighbors, WHITE);
    assert_eq!(mesh.quad_count(), 5 * N * N);
}

#[test]
fn naive_fully_enclosed_chunk_meshes_to_nothing() {
    let chunk = Chunk::filled(STONE);
    let solid = Chunk::filled(STONE);
    let neighbors = ChunkNeighbors::none()
        .with_neg_x(&solid)
        .with_pos_x(&solid)
        .with_neg_y(&solid)
        .with_pos_y(&solid)
        .with_neg_z(&solid)
        .with_pos_z(&solid);
    let mesh = mesh_chunk_naive(&chunk, &neighbors, WHITE);
    assert!(mesh.is_empty());
}

#[test]
fn naive_single_blocks_touching_across_border() {
    let mut chunk = Chunk::new_air();
    chunk.set(LocalPos::new(31, 5, 5), STONE);
    let mut neighbor = Chunk::new_air();
    neighbor.set(LocalPos::new(0, 5, 5), STONE);
    let neighbors = ChunkNeighbors::none().with_pos_x(&neighbor);
    let mesh = mesh_chunk_naive(&chunk, &neighbors, WHITE);
    assert_eq!(mesh.quad_count(), 5);
}

#[test]
fn naive_top_face_winding_points_up() {
    let mut chunk = Chunk::new_air();
    chunk.set(LocalPos::new(0, 0, 0), STONE);
    assert_top_winding_up(&mesh_chunk_naive(&chunk, &ChunkNeighbors::none(), WHITE));
}

// -----------------------------------------------------------------
// Greedy: merging behavior.
// -----------------------------------------------------------------

/// The signature greedy result: a fully solid chunk is exactly 6 quads
/// — one maximal rectangle per side.
#[test]
fn greedy_solid_chunk_is_six_quads() {
    let mesh = mesh_chunk(&Chunk::filled(STONE), &ChunkNeighbors::none(), WHITE);
    assert_eq!(mesh.quad_count(), 6);
}

/// Two adjacent same-type blocks: each exposed side merges into one
/// rectangle → 6 quads total (vs naive's 10).
#[test]
fn greedy_adjacent_pair_is_six_quads() {
    let mut chunk = Chunk::new_air();
    chunk.set(LocalPos::new(5, 5, 5), STONE);
    chunk.set(LocalPos::new(6, 5, 5), STONE);
    let mesh = mesh_chunk(&chunk, &ChunkNeighbors::none(), WHITE);
    assert_eq!(mesh.quad_count(), 6);
}

/// Different block types must NOT merge.
#[test]
fn greedy_does_not_merge_different_blocks() {
    let mut chunk = Chunk::new_air();
    chunk.set(LocalPos::new(5, 5, 5), STONE);
    chunk.set(LocalPos::new(6, 5, 5), BlockId(2));
    let mesh = mesh_chunk(&chunk, &ChunkNeighbors::none(), WHITE);
    assert_eq!(mesh.quad_count(), 10);
}

/// A 3D checkerboard has no mergeable faces: greedy must equal naive's
/// count exactly — the worst case is still correct.
#[test]
fn greedy_checkerboard_equals_naive_count() {
    let mut chunk = Chunk::new_air();
    for pos in LocalPos::iter() {
        if (pos.x() + pos.y() + pos.z()) % 2 == 0 {
            chunk.set(pos, STONE);
        }
    }
    let greedy = mesh_chunk(&chunk, &ChunkNeighbors::none(), WHITE);
    let naive = mesh_chunk_naive(&chunk, &ChunkNeighbors::none(), WHITE);
    assert_eq!(greedy.quad_count(), naive.quad_count());
}

#[test]
fn greedy_top_face_winding_points_up() {
    let mut chunk = Chunk::new_air();
    chunk.set(LocalPos::new(0, 0, 0), STONE);
    assert_top_winding_up(&mesh_chunk(&chunk, &ChunkNeighbors::none(), WHITE));
}

// -----------------------------------------------------------------
// THE differential test: greedy and naive must cover exactly the same
// set of unit face cells, with the same colors, each exactly once —
// over randomized chunks with randomized neighbors.
// -----------------------------------------------------------------

type CellKey = (usize, bool, i32, i32, i32, u32);

fn corners_of(quad: &Quad) -> [[i32; 3]; 4] {
    let mut out = [[0; 3]; 4];
    for (k, corner) in out.iter_mut().enumerate() {
        let ((x, y, z), _) = quad.vertex(k);
        *corner = [x, y, z];
    }
    out
}

/// The vertices of a mesh, four per quad.
fn vertices(mesh: &MeshData) -> Vec<[i32; 3]> {
    mesh.vertices()
        .iter()
        .map(|c| [c.position.0, c.position.1, c.position.2])
        .collect()
}

/// The triangles of a mesh, two per quad.
fn indices(mesh: &MeshData) -> Vec<u32> {
    mesh.indices(&vec![false; mesh.quad_count()])
}

/// Decompose a mesh into the unit face cells its quads cover (geometry
/// only).
fn coverage(mesh: &MeshData) -> HashMap<CellKey, u32> {
    let mut map: HashMap<CellKey, u32> = HashMap::new();
    for quad in &mesh.quads {
        let corners = corners_of(quad);
        let layer = quad.layer;

        // Plane axis: the coordinate identical across all four corners.
        let axis = (0..3)
            .find(|&a| corners.iter().all(|c| c[a] == corners[0][a]))
            .expect("quad is not axis-aligned");
        let plane = corners[0][axis];

        // Outward sign from the winding normal of the first triangle.
        let e1 = sub(corners[1], corners[0]);
        let e2 = sub(corners[2], corners[0]);
        let normal = cross(e1, e2);
        assert!(normal[axis] != 0, "degenerate quad / wrong plane");
        let positive = normal[axis] > 0;

        let (a1, a2) = other_axes(axis);
        let (min1, max1) = extent(&corners, a1);
        let (min2, max2) = extent(&corners, a2);

        for p in min1..max1 {
            for q in min2..max2 {
                *map.entry((axis, positive, plane, p, q, layer)).or_insert(0) += 1;
            }
        }
    }
    map
}

fn other_axes(axis: usize) -> (usize, usize) {
    match axis {
        0 => (1, 2),
        1 => (0, 2),
        _ => (0, 1),
    }
}

fn sub(a: [i32; 3], b: [i32; 3]) -> [i32; 3] {
    [a[0] - b[0], a[1] - b[1], a[2] - b[2]]
}

fn cross(a: [i32; 3], b: [i32; 3]) -> [i32; 3] {
    [
        a[1] * b[2] - a[2] * b[1],
        a[2] * b[0] - a[0] * b[2],
        a[0] * b[1] - a[1] * b[0],
    ]
}

fn extent(corners: &[[i32; 3]; 4], axis: usize) -> (i32, i32) {
    let min = corners.iter().map(|c| c[axis]).min().unwrap();
    let max = corners.iter().map(|c| c[axis]).max().unwrap();
    (min, max)
}

fn random_chunk(rng: &mut SplitMix64, fill_percent: u64, types: u16) -> Chunk {
    let mut chunk = Chunk::new_air();
    for pos in LocalPos::iter() {
        if rng.next() % 100 < fill_percent {
            chunk.set(pos, BlockId(1 + (rng.next() % types as u64) as u16));
        }
    }
    chunk
}

/// A greedy-merged W×H quad must carry UVs spanning 0..W / 0..H so the
/// texture-array layer tiles W×H times (not stretched). For a solid
/// chunk, each of the 6 faces is one 32×32 quad whose UVs span 0..32.
#[test]
fn greedy_quad_uvs_tile_across_merge() {
    let mesh = mesh_chunk(&Chunk::filled(STONE), &ChunkNeighbors::none(), WHITE);
    assert_eq!(mesh.quad_count(), 6);
    for quad in &mesh.quads {
        let uvs: Vec<(u32, u32)> = (0..4).map(|k| quad.vertex(k).1).collect();
        let max_u = uvs.iter().map(|c| c.0).max().unwrap();
        let max_v = uvs.iter().map(|c| c.1).max().unwrap();
        assert_eq!(max_u, 32, "merged face U should span the full 32");
        assert_eq!(max_v, 32, "merged face V should span the full 32");
        assert_eq!(uvs[0], (0, 0));
    }
}

/// A single isolated block's faces are 1×1, UVs span 0..1 (one tile).
#[test]
fn unit_quad_uvs_are_unit() {
    let mut chunk = Chunk::new_air();
    chunk.set(LocalPos::new(5, 5, 5), STONE);
    let mesh = mesh_chunk(&chunk, &ChunkNeighbors::none(), WHITE);
    for quad in &mesh.quads {
        let uvs: Vec<(u32, u32)> = (0..4).map(|k| quad.vertex(k).1).collect();
        let max_u = uvs.iter().map(|c| c.0).max().unwrap();
        let max_v = uvs.iter().map(|c| c.1).max().unwrap();
        assert_eq!(max_u, 1);
        assert_eq!(max_v, 1);
    }
}

#[test]
fn differential_greedy_equals_naive_coverage() {
    // Distinct layer per (block, face) so per-face layer equality is
    // also under test (a uniform layer would hide face-mixups).
    let layered = |b: BlockId, face: usize| (b.0 as u32) * 6 + face as u32;

    for seed in 0..8u64 {
        let mut rng = SplitMix64::new(0xC0FFEE + seed);
        let fill = 10 + (seed * 12) % 85; // sparse through dense
        let chunk = random_chunk(&mut rng, fill, 6);

        // A random subset of neighbors, themselves random.
        let nx = random_chunk(&mut rng, 50, 6);
        let py = random_chunk(&mut rng, 50, 6);
        let mut neighbors = ChunkNeighbors::none();
        if seed % 2 == 0 {
            neighbors = neighbors.with_neg_x(&nx);
        }
        if seed % 3 == 0 {
            neighbors = neighbors.with_pos_y(&py);
        }

        let naive = mesh_chunk_naive(&chunk, &neighbors, layered);
        let greedy = mesh_chunk(&chunk, &neighbors, layered);

        let naive_cov = coverage(&naive);
        let greedy_cov = coverage(&greedy);

        assert!(
            naive_cov.values().all(|&c| c == 1),
            "seed {seed}: naive double-covers a cell"
        );
        assert!(
            greedy_cov.values().all(|&c| c == 1),
            "seed {seed}: greedy double-covers a cell"
        );
        assert_eq!(
            naive_cov, greedy_cov,
            "seed {seed}: greedy and naive disagree on the visible surface"
        );
        assert!(
            greedy.quad_count() <= naive.quad_count(),
            "seed {seed}: greedy used more quads than naive"
        );
    }
}

// -----------------------------------------------------------------
// Shared helpers.
// -----------------------------------------------------------------

fn assert_top_winding_up(mesh: &MeshData) {
    let mut found_top = false;
    let vertices = vertices(mesh);
    for tri in indices(mesh).chunks_exact(3) {
        let [a, b, c] = [
            vertices[tri[0] as usize],
            vertices[tri[1] as usize],
            vertices[tri[2] as usize],
        ];
        if a[1] == 1 && b[1] == 1 && c[1] == 1 {
            found_top = true;
            let e1 = sub(b, a);
            let e2 = sub(c, a);
            let normal_y = e1[2] * e2[0] - e1[0] * e2[2];
            assert!(normal_y > 0, "top face winding is not CCW from above");
        }
    }
    assert!(found_top, "no top face found");
}

/// Minimal deterministic RNG for tests — no external crates in the
/// dependency graph.
struct SplitMix64(u64);

impl SplitMix64 {
    fn new(seed: u64) -> Self {
        Self(seed)
    }
    fn next(&mut self) -> u64 {
        self.0 = self.0.wrapping_add(0x9E3779B97F4A7C15);
        let mut z = self.0;
        z = (z ^ (z >> 30)).wrapping_mul(0xBF58476D1CE4E5B9);
        z = (z ^ (z >> 27)).wrapping_mul(0x94D049BB133111EB);
        z ^ (z >> 31)
    }
}
#[test]
fn snapshot_matches_chunk_and_neighbors() {
    // The snapshot must agree with direct chunk reads: interior cells,
    // a present face neighbor's touching layer, and absent neighbors as
    // air / light 0.
    let mut chunk = Chunk::new_air();
    chunk.set(LocalPos::new(3, 4, 5), STONE);
    chunk.set_sky_light(LocalPos::new(3, 5, 5), 12);
    let mut west = Chunk::filled(STONE);
    west.set(LocalPos::new(31, 7, 7), AIR);
    west.set_block_light(LocalPos::new(31, 7, 7), 9);
    let neighbors = ChunkNeighbors::none().with_neg_x(&west);
    let input = MeshInput::build(&chunk, &neighbors);
    // Interior.
    assert!(!input.is_air(3, 4, 5));
    assert_eq!(input.block(3, 4, 5), STONE);
    assert!(input.is_air(3, 5, 5));
    assert_eq!(input.light(3, 5, 5), 12);
    // Present neighbor's touching layer (x = -1 maps to west x = 31).
    assert!(input.is_air(-1, 7, 7));
    assert_eq!(input.light(-1, 7, 7), 9);
    assert!(!input.is_air(-1, 8, 8));
    // Absent neighbors: air, dark.
    assert!(input.is_air(32, 0, 0));
    assert_eq!(input.light(32, 0, 0), 0);
    assert!(input.is_air(0, -1, 0));
}

#[test]
fn smooth_light_creates_gradient_across_face() {
    let mut chunk = Chunk::filled(STONE);
    for z in 0..CHUNK_SIZE as u8 {
        for x in 0..CHUNK_SIZE as u8 {
            for y in 16..CHUNK_SIZE as u8 {
                chunk.set(LocalPos::new(x, y, z), AIR);
            }
        }
    }
    for z in 0..CHUNK_SIZE as u8 {
        for x in 0..CHUNK_SIZE as u8 {
            chunk.set_sky_light(LocalPos::new(x, 16, z), (x / 2).min(15));
        }
    }
    let input = MeshInput::build(&chunk, &ChunkNeighbors::none());
    let cl = corner_lights(&input, 2, 15, 4, 4);
    let spread =
        cl.iter().cloned().fold(0.0f32, f32::max) - cl.iter().cloned().fold(f32::MAX, f32::min);
    assert!(
        spread > 0.25,
        "expected a gradient across the face, got {cl:?}"
    );
}

#[test]
fn smooth_light_seam_continuity_across_chunk_boundary() {
    let mut left = Chunk::new_air();
    for y in 0..CHUNK_SIZE as u8 {
        for z in 0..CHUNK_SIZE as u8 {
            left.set(LocalPos::new(31, y, z), STONE);
        }
    }
    let mut right = Chunk::new_air();
    for y in 0..CHUNK_SIZE as u8 {
        for z in 0..CHUNK_SIZE as u8 {
            right.set_sky_light(LocalPos::new(0, y, z), 10);
        }
    }
    let nb = ChunkNeighbors::none().with_pos_x(&right);
    let input = MeshInput::build(&left, &nb);
    let cl = corner_lights(&input, 0, 31, 8, 8);
    for (k, &c) in cl.iter().enumerate() {
        assert!((c - 10.0).abs() < 1e-6, "corner {k} = {c}");
    }
}

#[test]
fn smooth_light_diagonal_seam_reads_edge_neighbor() {
    // A +Y face on the chunk EDGE (x=31) samples diagonally into the
    // +X neighbor's cells — an edge-neighbor read that the 26-neighbor
    // shell must supply. Without it the corner would be darkened by a
    // phantom-dark shell cell.
    let mut chunk = Chunk::new_air();
    // Solid floor across the top-edge row so +Y faces exist at x=31.
    for z in 0..CHUNK_SIZE as u8 {
        for x in 0..CHUNK_SIZE as u8 {
            chunk.set(LocalPos::new(x, 10, z), STONE);
        }
    }
    for z in 0..CHUNK_SIZE as u8 {
        for x in 0..CHUNK_SIZE as u8 {
            chunk.set_sky_light(LocalPos::new(x, 11, z), 15);
        }
    }
    // +X neighbor: air with sky 15 at x=0 (the diagonal cell from x=31).
    let mut east = Chunk::new_air();
    for y in 0..CHUNK_SIZE as u8 {
        for z in 0..CHUNK_SIZE as u8 {
            east.set_sky_light(LocalPos::new(0, y, z), 15);
        }
    }
    let nb = ChunkNeighbors::none().with_pos_x(&east);
    let input = MeshInput::build(&chunk, &nb);
    // Top face of the edge block (31,10,8): all four corners should be 15
    // (uniform bright), including the corner that samples into +X.
    let cl = corner_lights(&input, 2, 10, 8, 31);
    for (k, &c) in cl.iter().enumerate() {
        assert!(
            (c - 15.0).abs() < 1e-6,
            "edge corner {k} = {c}, expected 15 (no phantom-dark seam)"
        );
    }
}

#[test]
fn corner_ao_darkens_tucked_corners() {
    let (cx, cz) = (8u8, 8u8);
    // One occluder on the +z side. It is `side1` (occ(su,0)) only for the
    // su=+1 corners: k=1 (1,0) and k=2 (1,1) -> one side occluded -> 2.
    // k=0 and k=3 face away -> fully lit (3).
    let mut a = Chunk::new_air();
    a.set(LocalPos::new(cx, 10, cz), STONE);
    a.set(LocalPos::new(cx, 11, cz + 1), STONE);
    let ia = MeshInput::build(&a, &ChunkNeighbors::none());
    assert_eq!(
        corner_ao(&ia, 2, 10, cz as i32, cx as i32),
        [3, 2, 2, 3],
        "single side occluder darkens that edge to level 2"
    );

    // Add the perpendicular occluder on the +x side (`side2` for cv=1).
    // Now k=2 (1,1) has BOTH sides occluded -> hard 0; k=1 and k=3 each
    // keep one occluded side -> 2; k=0 stays fully lit.
    let mut b = Chunk::new_air();
    b.set(LocalPos::new(cx, 10, cz), STONE);
    b.set(LocalPos::new(cx, 11, cz + 1), STONE);
    b.set(LocalPos::new(cx + 1, 11, cz), STONE);
    let ib = MeshInput::build(&b, &ChunkNeighbors::none());
    assert_eq!(
        corner_ao(&ib, 2, 10, cz as i32, cx as i32),
        [3, 2, 0, 2],
        "both sides occluded -> darkest corner (0)"
    );
}

/// Mean light of each corner: the sums hold four cells each.
fn corner_lights(input: &MeshInput, face: usize, s: i32, u: i32, v: i32) -> [f32; 4] {
    corner_light_sums(input, face, s, u, v).map(|sum| sum as f32 / 4.0)
}

/// End to end: the occlusion of a corner reaches the quads of the mesher. With
/// no light at all it is the only thing in which the corners differ.
#[test]
fn ao_factor_reaches_vertex_brightness_through_mesher() {
    let (cx, cz) = (8u8, 8u8);
    let mut chunk = Chunk::new_air();
    chunk.set(LocalPos::new(cx, 10, cz), STONE);
    chunk.set(LocalPos::new(cx, 11, cz + 1), STONE);
    chunk.set(LocalPos::new(cx + 1, 11, cz), STONE);

    let input = MeshInput::build(&chunk, &ChunkNeighbors::none());
    let ao = corner_ao(&input, 2, 10, cz as i32, cx as i32);
    assert_eq!(ao, [3, 2, 0, 2]);

    let mesh = mesh_chunk_naive(&chunk, &ChunkNeighbors::none(), WHITE);
    let over: Vec<&Quad> = mesh
        .quads
        .iter()
        .filter(|q| {
            corners_of(q).iter().all(|p| {
                p[1] == 11
                    && (cx as i32..=cx as i32 + 1).contains(&p[0])
                    && (cz as i32..=cz as i32 + 1).contains(&p[2])
            })
        })
        .collect();
    let top = over.iter().find(|q| q.face == 2).expect("no +Y face over the floor cell");
    assert_eq!(top.ao(), ao);
    assert_eq!(top.sums(), [0, 0, 0, 0]);
}

#[test]
fn nothing_is_drawn_against_a_sealed_side() {
    let solid = Chunk::filled(STONE);
    for (face, (dx, dy, dz)) in [
        (1, 0, 0),
        (-1, 0, 0),
        (0, 1, 0),
        (0, -1, 0),
        (0, 0, 1),
        (0, 0, -1),
    ]
    .into_iter()
    .enumerate()
    {
        let nb = ChunkNeighbors::none().with_sealed(dx, dy, dz);
        for mesh in [
            mesh_chunk(&solid, &nb, WHITE),
            mesh_chunk_naive(&solid, &nb, WHITE),
        ] {
            assert!(mesh.quads.iter().all(|q| q.face != face));
        }
        assert_eq!(mesh_chunk(&solid, &nb, WHITE).quad_count(), 5);
    }
}

#[test]
fn the_edge_goes_on_beyond_a_sealed_side() {
    // Stone below, lit air above.
    let mut chunk = Chunk::new_air();
    for p in LocalPos::iter() {
        if p.y() < 16 {
            chunk.set(p, STONE);
        } else {
            chunk.set_sky_light(p, p.z() % 16);
        }
    }
    let input = MeshInput::build(&chunk, &ChunkNeighbors::none().with_sealed(1, 0, 0));
    for i in 0..N as i32 {
        assert_eq!(input.block(32, 3, i), STONE);
        assert!(input.is_air(32, 20, i));
        assert_eq!(input.light(32, 20, i), input.light(31, 20, i));
        assert_eq!(input.light(32, 20, i), i as u8 % 16);
        // The other sides are open.
        assert!(input.is_air(-1, 3, i));
        assert_eq!(input.light(-1, 20, i), 0);
    }
    // A seal on a side whose chunk is there changes nothing.
    let other = Chunk::new_air();
    let nb = ChunkNeighbors::none().with_pos_x(&other).with_sealed(1, 0, 0);
    assert!(MeshInput::build(&chunk, &nb).is_air(32, 3, 0));
}

#[test]
fn a_mesh_lists_its_corners_and_triangles() {
    let mut chunk = Chunk::new_air();
    chunk.set(LocalPos::new(5, 5, 5), STONE);
    chunk.set(LocalPos::new(6, 5, 5), STONE);
    let mesh = mesh_chunk(&chunk, &ChunkNeighbors::none(), WHITE);
    let corners = mesh.vertices();
    assert_eq!(corners.len(), 24);
    for (i, c) in corners.iter().enumerate() {
        let quad = &mesh.quads[i / 4];
        let (position, uv) = quad.vertex(i % 4);
        assert_eq!((c.position, c.uv), (position, uv));
        assert_eq!((c.layer, c.face), (quad.layer, quad.face));
        assert_eq!((c.sum, c.ao), (quad.sums()[i % 4], quad.ao()[i % 4]));
    }
    let flips = [false, true, false, false, false, true];
    let indices = mesh.indices(&flips);
    assert_eq!(indices.len(), 36);
    assert_eq!(indices[..6], [0, 1, 2, 0, 2, 3]);
    assert_eq!(indices[6..12], [5, 6, 7, 5, 7, 4]);
    for (i, six) in indices.chunks(6).enumerate() {
        assert_eq!(six, quad_indices(4 * i as u32, flips[i]));
    }
}
