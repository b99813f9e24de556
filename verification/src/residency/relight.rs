//! Computing a resident chunk's light from its neighbours and the heightmap.

use crate::chunk::{Chunk, ChunkView};
use crate::coords::{chunk_base, lemma_chunk_base, ChunkPos, CHUNK_VOLUME};
use crate::heightmap::{ColumnHeights, HeightsView};
use crate::light::chunk_light::{
    chunk_light_plane, chunk_sky_plane, columns_light, compute_chunk_light_2ch, face_differs,
    face_index, is_chunk_light, lemma_chunk_light_unique, lit_by_top_alone, mask_of,
    no_block_inflow, no_extra_sky_inflow, packed_border_changed_faces, with_light,
};
use crate::light::model::{Cell, MAX_LIGHT};
use crate::light::padded::{
    block_sources, padded_scene, plane_value, planes_valid, NeighborLight, NeighborSky,
};
use crate::light::sky::{ring_sky_sources, sky_levels};
use crate::registry::BlockRegistry;
use crate::residency::sides::{across, has_sides, neighbor, opposite};
use crate::world::World;
use vstd::prelude::*;

verus! {

/// Daylight entering a chunk's columns from above, as the heightmap gives it:
/// full where the column is *known* and open through the whole chunk, else
/// none. An unknown column counts as covered: it brightens once its terrain
/// loads.
pub open spec fn top_sky_of(h: HeightsView, pos: ChunkPos) -> Seq<u8> {
    Seq::new(
        1024,
        |i: int|
            {
                let col = (
                    (chunk_base(pos.x) + i % 32) as i64,
                    (chunk_base(pos.z) + i / 32) as i64,
                );
                if h.heights.dom().contains(col) && h.heights[col] < chunk_base(pos.y) {
                    MAX_LIGHT
                } else {
                    0
                }
            },
    )
}

/// Build a chunk's heightmap-derived top boundary.
///
/// Where the surface lies *inside* the chunk its top face stays dark: daylight
/// then enters from the chunk above and floods only through actual air.
pub fn top_sky_from_heightmap(heights: &ColumnHeights, pos: ChunkPos) -> (top: Vec<u8>)
    requires
        heights.wf(),
    ensures
        top@ == top_sky_of(heights@, pos),
        forall|i: int| 0 <= i < 1024 ==> #[trigger] top[i] <= MAX_LIGHT,
{
    let origin = pos.origin();
    proof {
        lemma_chunk_base(pos.x);
        lemma_chunk_base(pos.z);
    }
    let mut top: Vec<u8> = Vec::with_capacity(1024);
    let mut i: usize = 0;
    while i < 1024
        invariant
            i <= 1024,
            heights.wf(),
            origin == pos.spec_origin(),
            chunk_base(pos.x) <= i64::MAX - 31,
            chunk_base(pos.z) <= i64::MAX - 31,
            top@ == top_sky_of(heights@, pos).take(i as int),
            forall|j: int| 0 <= j < i ==> #[trigger] top[j] <= MAX_LIGHT,
        decreases 1024 - i,
    {
        let x: i64 = origin.x + (i % 32) as i64;
        let z: i64 = origin.z + (i / 32) as i64;
        let level: u8 = match heights.get(x, z) {
            Some(h) => if h < origin.y {
                MAX_LIGHT
            } else {
                0
            },
            None => 0,
        };
        top.push(level);
        assert(top@ =~= top_sky_of(heights@, pos).take(i + 1));
        i += 1;
    }
    assert(top@ =~= top_sky_of(heights@, pos));
    top
}

/// The neighbours' block light around a chunk.
pub open spec fn borders_of(
    chunks: Map<ChunkPos, Chunk>,
    pos: ChunkPos,
    planes: NeighborLight,
) -> bool {
    forall|f: int|
        0 <= f < 6 ==> match #[trigger] planes@[f] {
            Some(p) => chunks.dom().contains(across(pos, f)) && p.len() == 1024 && forall|
                u: int,
                v: int,
            |
                0 <= u < 32 && 0 <= v < 32 ==> #[trigger] p[u + v * 32] == chunks[across(
                    pos,
                    f,
                )]@.block_level(face_index(opposite(f), u, v)),
            None => !chunks.dom().contains(across(pos, f)),
        }
}

/// The neighbours' sky light around a chunk, but for the one below: sky light
/// never flows up.
pub open spec fn sky_borders_of(
    chunks: Map<ChunkPos, Chunk>,
    pos: ChunkPos,
    planes: NeighborSky,
) -> bool {
    forall|f: int|
        0 <= f < 6 ==> match #[trigger] planes@[f] {
            Some(p) => f != 3 && chunks.dom().contains(across(pos, f)) && p.len() == 1024
                && forall|u: int, v: int|
                0 <= u < 32 && 0 <= v < 32 ==> #[trigger] p[u + v * 32] == chunks[across(
                    pos,
                    f,
                )]@.sky_level(face_index(opposite(f), u, v)),
            None => f == 3 || !chunks.dom().contains(across(pos, f)),
        }
}

/// The outcome of relighting one chunk.
pub struct Relit {
    pub pos: ChunkPos,
    /// The new light, one byte per cell.
    pub light: Vec<u8>,
    /// Some cell's light changed: the chunk needs a new mesh.
    pub interior_changed: bool,
    /// Bit `f` set: the light on face `f` changed.
    pub border_faces: u8,
}

/// The light computed for a chunk of the world from its neighbours and the
/// heightmap.
pub open spec fn is_relit_light(
    chunks: Map<ChunkPos, Chunk>,
    registry: BlockRegistry,
    heights: HeightsView,
    pos: ChunkPos,
    light: Seq<u8>,
) -> bool {
    exists|block: NeighborLight, sky: NeighborSky| #[trigger]
        borders_of(chunks, pos, block) && #[trigger] sky_borders_of(chunks, pos, sky)
            && is_chunk_light(
            chunks[pos]@,
            registry,
            block,
            sky,
            top_sky_of(heights, pos),
            true,
            light,
        )
}

/// Some cell's stored light differs from the new one.
pub open spec fn light_changed(v: ChunkView, light: Seq<u8>) -> bool {
    exists|i: int| 0 <= i < CHUNK_VOLUME && v.light_bytes()[i] != #[trigger] light[i]
}

/// The mask of the faces on which stored light differs from the new one.
pub open spec fn changed_faces(v: ChunkView, light: Seq<u8>) -> int {
    mask_of(|f: int| face_differs(v, light, f))
}

/// The job's light is that of its chunk, and its flags say what changed.
pub open spec fn is_relit(
    chunks: Map<ChunkPos, Chunk>,
    registry: BlockRegistry,
    heights: HeightsView,
    job: Relit,
) -> bool {
    &&& is_relit_light(chunks, registry, heights, job.pos, job.light@)
    &&& job.light.len() == CHUNK_VOLUME
    &&& job.interior_changed == light_changed(chunks[job.pos]@, job.light@)
    &&& job.border_faces == changed_faces(chunks[job.pos]@, job.light@)
}

/// Compute a chunk's light, read-only: the neighbours' borders and the
/// heightmap are its boundary. `None` if the chunk is not resident.
///
/// The vertical fill comes from the heightmap, so that it does not depend on
/// the chunk above being relit first.
pub fn relight_job(
    world: &World,
    registry: &BlockRegistry,
    heights: &ColumnHeights,
    pos: ChunkPos,
) -> (r: Option<Relit>)
    requires
        world.wf(),
        heights.wf(),
        has_sides(pos),
    ensures
        r is Some == world@.dom().contains(pos),
        r matches Some(job) ==> job.pos == pos && is_relit(world@, *registry, heights@, job),
{
    let chunk = match world.chunk(pos) {
        Some(c) => c,
        None => {
            return None;
        },
    };
    let top = top_sky_from_heightmap(heights, pos);
    let block: NeighborLight = [
        block_border(world, pos, 0),
        block_border(world, pos, 1),
        block_border(world, pos, 2),
        block_border(world, pos, 3),
        block_border(world, pos, 4),
        block_border(world, pos, 5),
    ];
    let sky: NeighborSky = [
        sky_border(world, pos, 0),
        sky_border(world, pos, 1),
        sky_border(world, pos, 2),
        None,
        sky_border(world, pos, 4),
        sky_border(world, pos, 5),
    ];
    proof {
        assert(borders_of(world@, pos, block));
        assert(sky_borders_of(world@, pos, sky));
        assert(planes_valid(block));
        assert(planes_valid(sky));
        assert forall|f: int, u: int, v: int|
            0 <= f < 6 && f != 3 && 0 <= u < 32 && 0 <= v < 32 implies #[trigger] plane_value(
            sky,
            f,
            u,
            v,
        ) <= MAX_LIGHT by {
            let s = sky@[f];
            if s is Some {
                assert(s->0@[u + v * 32] <= MAX_LIGHT);
            }
        }
        assert(sky_levels(top@, sky));
    }
    let (light, border_changed) = compute_chunk_light_2ch(
        chunk,
        registry,
        &block,
        &sky,
        &top,
        true,
    );
    let mut interior_changed: bool = false;
    let mut i: usize = 0;
    while i < CHUNK_VOLUME
        invariant
            i <= CHUNK_VOLUME,
            light.len() == CHUNK_VOLUME,
            interior_changed == (exists|j: int|
                0 <= j < i && chunk@.light_bytes()[j] != #[trigger] light[j]),
        decreases CHUNK_VOLUME - i,
    {
        if chunk.light_byte(i) != light[i] {
            interior_changed = true;
        }
        i += 1;
    }
    let border_faces: u8 = if border_changed {
        packed_border_changed_faces(chunk, &light)
    } else {
        0
    };
    proof {
        if !border_changed {
            assert forall|f: int| 0 <= f < 6 implies !#[trigger] face_differs(
                chunk@,
                light@,
                f,
            ) by {}
            assert(changed_faces(chunk@, light@) == 0);
        }
        assert(border_faces == changed_faces(chunk@, light@));
        assert(interior_changed == light_changed(chunk@, light@));
        assert(is_relit_light(world@, *registry, heights@, pos, light@));
    }
    Some(Relit { pos, light, interior_changed, border_faces })
}

/// The block light that the neighbour across a face shows this chunk.
fn block_border(world: &World, pos: ChunkPos, face: usize) -> (r: Option<Vec<u8>>)
    requires
        world.wf(),
        has_sides(pos),
        face < 6,
    ensures
        match r {
            Some(p) => world@.dom().contains(across(pos, face as int)) && p.len() == 1024
                && forall|u: int, v: int|
                0 <= u < 32 && 0 <= v < 32 ==> #[trigger] p[u + v * 32] == world@[across(
                    pos,
                    face as int,
                )]@.block_level(face_index(opposite(face as int), u, v)),
            None => !world@.dom().contains(across(pos, face as int)),
        },
{
    match world.chunk(neighbor(pos, face)) {
        Some(n) => Some(chunk_light_plane(n, opposite_face(face))),
        None => None,
    }
}

/// The sky light that the neighbour across a face shows this chunk.
fn sky_border(world: &World, pos: ChunkPos, face: usize) -> (r: Option<Vec<u8>>)
    requires
        world.wf(),
        has_sides(pos),
        face < 6,
    ensures
        match r {
            Some(p) => world@.dom().contains(across(pos, face as int)) && p.len() == 1024 && (
            forall|u: int, v: int|
                0 <= u < 32 && 0 <= v < 32 ==> #[trigger] p[u + v * 32] == world@[across(
                    pos,
                    face as int,
                )]@.sky_level(face_index(opposite(face as int), u, v))) && forall|i: int|
                0 <= i < 1024 ==> #[trigger] p[i] <= MAX_LIGHT,
            None => !world@.dom().contains(across(pos, face as int)),
        },
{
    match world.chunk(neighbor(pos, face)) {
        Some(n) => Some(chunk_sky_plane(n, opposite_face(face))),
        None => None,
    }
}

fn opposite_face(face: usize) -> (r: usize)
    requires
        face < 6,
    ensures
        r == opposite(face as int),
        r < 6,
{
    if face % 2 == 0 {
        face + 1
    } else {
        face - 1
    }
}

/// The same planes, of the same light.
spec fn same_planes(a: NeighborLight, b: NeighborLight) -> bool {
    forall|f: int, u: int, v: int|
        0 <= f < 6 && 0 <= u < 32 && 0 <= v < 32 ==> #[trigger] plane_value(a, f, u, v)
            == plane_value(b, f, u, v)
}

/// A chunk's light depends on its blocks and its neighbours' light alone, not
/// on the light stored in it or on how its neighbours' is handed over.
proof fn lemma_light_of_planes(
    v: ChunkView,
    w: ChunkView,
    registry: BlockRegistry,
    a: NeighborLight,
    sky_a: NeighborSky,
    b: NeighborLight,
    sky_b: NeighborSky,
    top: Seq<u8>,
    light: Seq<u8>,
)
    requires
        w.palette == v.palette,
        w.indices == v.indices,
        same_planes(a, b),
        same_planes(sky_a, sky_b),
        is_chunk_light(v, registry, a, sky_a, top, true, light),
    ensures
        is_chunk_light(w, registry, b, sky_b, top, true, light),
{
    assert forall|i: int| #[trigger] v.block(i) == w.block(i) by {}
    assert(padded_scene(v, registry) == padded_scene(w, registry)) by {
        assert(padded_scene(v, registry).solid =~= padded_scene(w, registry).solid);
        assert(padded_scene(v, registry).accepts =~= padded_scene(w, registry).accepts);
    }
    assert(block_sources(v, registry, a) =~= block_sources(w, registry, b)) by {
        assert forall|c: Cell| #[trigger]
            block_sources(v, registry, a)(c) == block_sources(w, registry, b)(c) by {}
    }
    assert(ring_sky_sources(top, sky_a) =~= ring_sky_sources(top, sky_b)) by {
        assert forall|c: Cell| #[trigger]
            ring_sky_sources(top, sky_a)(c) == ring_sky_sources(top, sky_b)(c) by {}
    }
    assert forall|f: int, x: int, y: int|
        0 <= f < 6 && 0 <= x < 32 && 0 <= y < 32 implies #[trigger] plane_value(b, f, x, y)
        == plane_value(a, f, x, y) by {
        assert(plane_value(a, f, x, y) == plane_value(b, f, x, y));
    }
    assert forall|f: int, x: int, y: int|
        0 <= f < 6 && 0 <= x < 32 && 0 <= y < 32 implies #[trigger] plane_value(sky_b, f, x, y)
        == plane_value(sky_a, f, x, y) by {
        assert(plane_value(sky_a, f, x, y) == plane_value(sky_b, f, x, y));
    }
    assert(no_block_inflow(a) == no_block_inflow(b));
    assert(no_extra_sky_inflow(sky_a, top) == no_extra_sky_inflow(sky_b, top));
    assert(lit_by_top_alone(v, registry, a, sky_a, top, true) == lit_by_top_alone(
        w,
        registry,
        b,
        sky_b,
        top,
        true,
    ));
    if lit_by_top_alone(v, registry, a, sky_a, top, true) {
        assert(columns_light(v, registry, top, true) =~= columns_light(w, registry, top, true));
    }
}

/// The chunks after a relit chunk's light was taken over.
pub open spec fn takes_over(
    chunks: Map<ChunkPos, Chunk>,
    after: Map<ChunkPos, Chunk>,
    job: Relit,
) -> bool {
    if job.interior_changed {
        &&& after == chunks.insert(job.pos, after[job.pos])
        &&& after[job.pos]@ == with_light(chunks[job.pos]@, job.light@)
    } else {
        after == chunks
    }
}

/// Relighting settles: once a chunk's light was taken over, relighting it again
/// among the same neighbours changes nothing.
pub proof fn lemma_relight_settles(
    chunks: Map<ChunkPos, Chunk>,
    after: Map<ChunkPos, Chunk>,
    registry: BlockRegistry,
    heights: HeightsView,
    job: Relit,
    again: Relit,
)
    requires
        has_sides(job.pos),
        chunks.dom().contains(job.pos),
        chunks[job.pos]@.valid(),
        is_relit(chunks, registry, heights, job),
        takes_over(chunks, after, job),
        again.pos == job.pos,
        is_relit(after, registry, heights, again),
    ensures
        again.light@ == job.light@,
        !again.interior_changed,
        again.border_faces == 0,
{
    let pos = job.pos;
    let v = chunks[pos]@;
    let w = after[pos]@;
    let light = job.light@;
    let top = top_sky_of(heights, pos);
    assert(w.light_bytes() =~= light) by {
        if job.interior_changed {
            assert(light.take(CHUNK_VOLUME as int) =~= light);
        } else {
            assert forall|i: int| 0 <= i < CHUNK_VOLUME implies v.light_bytes()[i] == light[i] by {}
        }
    }
    let (b1, s1) = choose|b1: NeighborLight, s1: NeighborSky| #[trigger]
        borders_of(chunks, pos, b1) && #[trigger] sky_borders_of(chunks, pos, s1) && is_chunk_light(
            v,
            registry,
            b1,
            s1,
            top,
            true,
            light,
        );
    let (b2, s2) = choose|b2: NeighborLight, s2: NeighborSky| #[trigger]
        borders_of(after, pos, b2) && #[trigger] sky_borders_of(after, pos, s2) && is_chunk_light(
            w,
            registry,
            b2,
            s2,
            top,
            true,
            again.light@,
        );
    assert forall|f: int, x: int, y: int|
        0 <= f < 6 && 0 <= x < 32 && 0 <= y < 32 implies #[trigger] plane_value(b1, f, x, y)
        == plane_value(b2, f, x, y) by {
        assert(across(pos, f) != pos);
        let p = b1@[f];
        let q = b2@[f];
    }
    assert forall|f: int, x: int, y: int|
        0 <= f < 6 && 0 <= x < 32 && 0 <= y < 32 implies #[trigger] plane_value(s1, f, x, y)
        == plane_value(s2, f, x, y) by {
        assert(across(pos, f) != pos);
        let p = s1@[f];
        let q = s2@[f];
    }
    lemma_light_of_planes(v, w, registry, b1, s1, b2, s2, top, light);
    lemma_chunk_light_unique(w, registry, b2, s2, top, true, light, again.light@);
    assert forall|f: int| 0 <= f < 6 implies !#[trigger] face_differs(w, again.light@, f) by {
        assert forall|u: int, t: int| 0 <= u < 32 && 0 <= t < 32 implies w.light_bytes()[
            #[trigger] face_index(f, u, t)
        ] == again.light@[face_index(f, u, t)] by {}
    }
}

} // verus!
