//! Light in the world's own coordinates: how it goes from cell to cell within a
//! chunk and across the border to the next.

use crate::block::BlockId;
use crate::chunk::Chunk;
use crate::coords::{
    cell_in_world, cell_index, deep_in_range, in_front, lemma_chunk_base, lemma_local_at, ChunkPos,
    LocalPos, Point,
};
use crate::heightmap::HeightsView;
use crate::light::chunk_light::{face_index, is_chunk_light};
use crate::light::exchange::{
    beside_chunk, block_light_with, daylight_beside, daylight_with, in_chunk,
    lemma_block_light_by_cells, lemma_daylight_by_cells, plane_light_at,
};
use crate::light::model::MAX_LIGHT;
use crate::light::padded::{plane_value, rim_cell, ring_cell, NeighborLight, NeighborSky};
use crate::registry::BlockRegistry;
use crate::residency::relight::{borders_of, is_relit_light, sky_borders_of, top_sky_of};
use crate::residency::sides::{across, has_sides, opposite};
use vstd::prelude::*;

verus! {

/// The chunk's neighbours can be named in block coordinates.
pub open spec fn placed_deep(pos: ChunkPos) -> bool {
    deep_in_range(pos.x as int) && deep_in_range(pos.y as int) && deep_in_range(pos.z as int)
}

/// The block light stored in the world at a cell seen from a chunk; dark where no
/// chunk is loaded.
pub open spec fn stored_block_light(chunks: Map<ChunkPos, Chunk>, pos: ChunkPos, c: Point) -> int {
    let p = cell_in_world(pos, c.0, c.1, c.2);
    if chunks.dom().contains(p.spec_chunk()) {
        chunks[p.spec_chunk()]@.block_level(p.spec_local().idx())
    } else {
        0
    }
}

/// The sky light stored in the world at a cell seen from a chunk.
pub open spec fn stored_sky_light(chunks: Map<ChunkPos, Chunk>, pos: ChunkPos, c: Point) -> int {
    let p = cell_in_world(pos, c.0, c.1, c.2);
    if chunks.dom().contains(p.spec_chunk()) {
        chunks[p.spec_chunk()]@.sky_level(p.spec_local().idx())
    } else {
        0
    }
}

/// The heightmap knows the column over a cell, and its ground lies below the
/// chunk.
pub open spec fn open_above(heights: HeightsView, pos: ChunkPos, c: Point) -> bool {
    let p = cell_in_world(pos, c.0, 0, c.2);
    heights.heights.dom().contains((p.x, p.z)) && heights.heights[(p.x, p.z)] < p.y
}

/// Where the chunk across a face meets this one, in the other chunk's coordinates.
proof fn lemma_cell_beyond(pos: ChunkPos, c: Point) -> (face: int)
    requires
        placed_deep(pos),
        -1 <= c.0 <= 32 && -1 <= c.1 <= 32 && -1 <= c.2 <= 32,
        (c.0 == -1 || c.0 == 32) && 0 <= c.1 < 32 && 0 <= c.2 < 32 || (c.1 == -1 || c.1 == 32)
            && 0 <= c.0 < 32 && 0 <= c.2 < 32 || (c.2 == -1 || c.2 == 32) && 0 <= c.0 < 32 && 0
            <= c.1 < 32,
    ensures
        0 <= face < 6,
        (face == 3) == (c.1 == -1),
        (face == 2) == (c.1 == 32),
        ({
            let p = cell_in_world(pos, c.0, c.1, c.2);
            let (u, v) = if c.0 == -1 || c.0 == 32 {
                (c.1, c.2)
            } else if c.1 == -1 || c.1 == 32 {
                (c.0, c.2)
            } else {
                (c.0, c.1)
            };
            &&& p.spec_chunk() == across(pos, face)
            &&& p.spec_local().idx() == face_index(opposite(face), u, v)
            &&& ring_cell(face, u, v) == (c.0 + 1, c.1 + 1, c.2 + 1)
            &&& 0 <= u < 32 && 0 <= v < 32
        }),
{
    let p = cell_in_world(pos, c.0, c.1, c.2);
    let l = (
        if c.0 == -1 { 31 } else if c.0 == 32 { 0 } else { c.0 },
        if c.1 == -1 { 31 } else if c.1 == 32 { 0 } else { c.1 },
        if c.2 == -1 { 31 } else if c.2 == 32 { 0 } else { c.2 },
    );
    lemma_local_at(l.0, l.1, l.2);
    assert(p.x as int % 32 == l.0 && p.y as int % 32 == l.1 && p.z as int % 32 == l.2);
    assert(p.spec_local() == LocalPos::at(l.0, l.1, l.2));
    if c.0 == 32 {
        0
    } else if c.0 == -1 {
        1
    } else if c.1 == 32 {
        2
    } else if c.1 == -1 {
        3
    } else if c.2 == 32 {
        4
    } else {
        5
    }
}

/// The plane that a chunk hands its neighbour across a face holds, at each place,
/// the cell that touches the neighbour there: index `u + v * 32` is the cell with
/// those coordinates along the face's two axes, in ascending order.
pub proof fn lemma_plane_holds_touching_cells(pos: ChunkPos, face: int, u: int, v: int)
    requires
        0 <= face < 6,
        0 <= u < 32,
        0 <= v < 32,
        placed_deep(pos),
    ensures
        face_index(0, u, v) == cell_index(31, u, v),
        face_index(1, u, v) == cell_index(0, u, v),
        face_index(2, u, v) == cell_index(u, 31, v),
        face_index(3, u, v) == cell_index(u, 0, v),
        face_index(4, u, v) == cell_index(u, v, 31),
        face_index(5, u, v) == cell_index(u, v, 0),
        ({
            let mine = rim_cell(face, u, v);
            let beyond = ring_cell(face, u, v);
            let p = cell_in_world(pos, beyond.0 - 1, beyond.1 - 1, beyond.2 - 1);
            &&& beyond == in_front(face, mine)
            &&& p.spec_chunk() == across(pos, face)
            &&& p.spec_local().idx() == face_index(opposite(face), u, v)
        }),
        opposite(opposite(face)) == face,
        opposite(face) != face,
        0 <= opposite(face) < 6,
{
    let b = ring_cell(face, u, v);
    let f = lemma_cell_beyond(pos, (b.0 - 1, b.1 - 1, b.2 - 1));
}

/// Chunks across opposite faces are each other's neighbours.
pub proof fn lemma_neighbours_mutual(pos: ChunkPos, face: int)
    requires
        has_sides(pos),
        0 <= face < 6,
    ensures
        across(across(pos, face), opposite(face)) == pos,
        ({
            let n = across(pos, face);
            (n.x as int, n.y as int, n.z as int) == in_front(
                face,
                (pos.x as int, pos.y as int, pos.z as int),
            )
        }),
{
}

/// The block light in and beside a chunk that was relit: the new light within it,
/// the stored light beside it.
pub open spec fn block_light_near(
    chunks: Map<ChunkPos, Chunk>,
    pos: ChunkPos,
    light: Seq<u8>,
    c: Point,
) -> int {
    if in_chunk(c) {
        light[cell_index(c.0, c.1, c.2)] as int % 16
    } else {
        stored_block_light(chunks, pos, c)
    }
}

/// The sky light in and beside a chunk that was relit. Above a column that is
/// known to be open there is full daylight; none comes from below.
pub open spec fn sky_light_near(
    chunks: Map<ChunkPos, Chunk>,
    heights: HeightsView,
    pos: ChunkPos,
    light: Seq<u8>,
    c: Point,
) -> int {
    if in_chunk(c) {
        light[cell_index(c.0, c.1, c.2)] as int / 16
    } else if c.1 < 0 {
        0
    } else if c.1 == 32 && open_above(heights, pos, c) {
        15
    } else {
        stored_sky_light(chunks, pos, c)
    }
}

/// The light of the planes beside a chunk is the light stored there.
proof fn lemma_planes_are_stored(
    chunks: Map<ChunkPos, Chunk>,
    pos: ChunkPos,
    heights: HeightsView,
    block: NeighborLight,
    sky: NeighborSky,
    c: Point,
)
    requires
        placed_deep(pos),
        beside_chunk(c),
        borders_of(chunks, pos, block),
        sky_borders_of(chunks, pos, sky),
    ensures
        plane_light_at(block, c) == stored_block_light(chunks, pos, c),
        0 <= plane_light_at(block, c) <= 15,
        daylight_beside(top_sky_of(heights, pos), sky, c) == (if c.1 < 0 {
            0
        } else if c.1 == 32 && open_above(heights, pos, c) {
            15
        } else {
            stored_sky_light(chunks, pos, c)
        }),
        0 <= daylight_beside(top_sky_of(heights, pos), sky, c) <= 15,
{
    let (face, d) = choose|face: int, d: Point|
        0 <= face < 6 && in_chunk(d) && c == #[trigger] in_front(face, d) && !in_chunk(c);
    let f = lemma_cell_beyond(pos, c);
    let (u, v) = if c.0 == -1 || c.0 == 32 {
        (c.1, c.2)
    } else if c.1 == -1 || c.1 == 32 {
        (c.0, c.2)
    } else {
        (c.0, c.1)
    };
    let p = block@[f];
    let q = sky@[f];
    assert(plane_light_at(block, c) == plane_value(block, f, u, v));
    assert(plane_light_at(sky, c) == plane_value(sky, f, u, v));
    let top = top_sky_of(heights, pos);
    if f == 2 {
        let i = u + v * 32;
        assert(i % 32 == u && i / 32 == v);
        lemma_chunk_base(pos.x);
        lemma_chunk_base(pos.y);
        lemma_chunk_base(pos.z);
        assert(top[i] == (if open_above(heights, pos, c) { MAX_LIGHT } else { 0 }));
    }
    if f != 3 {
        assert(plane_light_at(sky, c) == stored_sky_light(chunks, pos, c));
    }
}

/// Block light of a relit chunk, cell by cell. A cell is at least as bright as
/// its block glows. A cell that is not solid is at most one level dimmer than each
/// of the six cells around it, also across the chunk's border. And it is no
/// brighter: what it does not give itself it has from one of those six that is one
/// level brighter.
pub proof fn lemma_block_light_flows(
    chunks: Map<ChunkPos, Chunk>,
    registry: BlockRegistry,
    heights: HeightsView,
    pos: ChunkPos,
    light: Seq<u8>,
    c: Point,
    face: int,
)
    requires
        placed_deep(pos),
        chunks.dom().contains(pos),
        chunks[pos]@.valid(),
        is_relit_light(chunks, registry, heights, pos, light),
        forall|b: BlockId| #[trigger] registry.emits(b) <= 15,
        in_chunk(c),
        0 <= face < 6,
    ensures
        ({
            let block = chunks[pos]@.block(cell_index(c.0, c.1, c.2));
            let here = block_light_near(chunks, pos, light, c);
            &&& here >= registry.emits(block)
            &&& !registry.solid(block) ==> here >= block_light_near(
                chunks,
                pos,
                light,
                in_front(face, c),
            ) - 1
            &&& here > registry.emits(block) ==> !registry.solid(block) && exists|g: int|
                0 <= g < 6 && block_light_near(chunks, pos, light, #[trigger] in_front(g, c))
                    == here + 1
        }),
{
    let v = chunks[pos]@;
    let top = top_sky_of(heights, pos);
    let (block, sky) = choose|block: NeighborLight, sky: NeighborSky| #[trigger]
        borders_of(chunks, pos, block) && #[trigger] sky_borders_of(chunks, pos, sky)
            && is_chunk_light(v, registry, block, sky, top, true, light);
    assert forall|d: Point| beside_chunk(d) implies 0 <= #[trigger] plane_light_at(block, d)
        <= 15 by {
        lemma_planes_are_stored(chunks, pos, heights, block, sky, d);
    }
    assert forall|d: Point| beside_chunk(d) implies 0 <= #[trigger] daylight_beside(top, sky, d)
        <= 15 by {
        lemma_planes_are_stored(chunks, pos, heights, block, sky, d);
    }
    assert forall|g: int| 0 <= g < 6 implies block_light_near(
        chunks,
        pos,
        light,
        #[trigger] in_front(g, c),
    ) == block_light_with(block, light, in_front(g, c)) by {
        let d = in_front(g, c);
        if !in_chunk(d) {
            assert(beside_chunk(d));
            lemma_planes_are_stored(chunks, pos, heights, block, sky, d);
        }
    }
    lemma_block_light_by_cells(v, registry, block, sky, top, true, light, c, face);
}

/// Daylight of a relit chunk, cell by cell. Solid cells have none. A cell that is
/// not solid has full daylight if the cell above it has, and is at most one level
/// dimmer than the cells beside it across the chunk's border. In a chunk of more
/// than one kind of block, or with daylight from the side, so it is within the chunk
/// too, and every level is owed to one of the six cells around.
pub proof fn lemma_daylight_flows(
    chunks: Map<ChunkPos, Chunk>,
    registry: BlockRegistry,
    heights: HeightsView,
    pos: ChunkPos,
    light: Seq<u8>,
    c: Point,
    face: int,
)
    requires
        placed_deep(pos),
        chunks.dom().contains(pos),
        chunks[pos]@.valid(),
        is_relit_light(chunks, registry, heights, pos, light),
        in_chunk(c),
        0 <= face < 6,
    ensures
        ({
            let open = !registry.solid(chunks[pos]@.block(cell_index(c.0, c.1, c.2)));
            let at = |d: Point| sky_light_near(chunks, heights, pos, light, d);
            let mixed = !chunks[pos]@.uniform() || exists|d: Point|
                beside_chunk(d) && d.1 != 32 && #[trigger] sky_light_near(
                    chunks,
                    heights,
                    pos,
                    light,
                    d,
                ) > 0;
            &&& !open ==> at(c) == 0
            &&& open && at(in_front(2, c)) == 15 ==> at(c) == 15
            &&& open && (mixed || !in_chunk(in_front(face, c))) ==> at(c) >= at(in_front(face, c))
                - 1
            &&& mixed && at(c) > 0 ==> at(in_front(2, c)) == 15 && at(c) == 15 || exists|g: int|
                0 <= g < 6 && at(#[trigger] in_front(g, c)) == at(c) + 1
        }),
{
    let v = chunks[pos]@;
    let top = top_sky_of(heights, pos);
    let (block, sky) = choose|block: NeighborLight, sky: NeighborSky| #[trigger]
        borders_of(chunks, pos, block) && #[trigger] sky_borders_of(chunks, pos, sky)
            && is_chunk_light(v, registry, block, sky, top, true, light);
    assert forall|d: Point| beside_chunk(d) implies 0 <= #[trigger] plane_light_at(block, d)
        <= 15 by {
        lemma_planes_are_stored(chunks, pos, heights, block, sky, d);
    }
    assert forall|d: Point| beside_chunk(d) implies 0 <= #[trigger] daylight_beside(top, sky, d)
        <= 15 by {
        lemma_planes_are_stored(chunks, pos, heights, block, sky, d);
    }
    assert forall|g: int| 0 <= g < 6 implies sky_light_near(
        chunks,
        heights,
        pos,
        light,
        #[trigger] in_front(g, c),
    ) == daylight_with(top, sky, light, in_front(g, c)) by {
        let d = in_front(g, c);
        if !in_chunk(d) {
            assert(beside_chunk(d));
            lemma_planes_are_stored(chunks, pos, heights, block, sky, d);
        }
    }
    assert forall|d: Point| beside_chunk(d) implies #[trigger] sky_light_near(
        chunks,
        heights,
        pos,
        light,
        d,
    ) == daylight_with(top, sky, light, d) by {
        lemma_planes_are_stored(chunks, pos, heights, block, sky, d);
    }
    lemma_daylight_by_cells(v, registry, block, sky, top, light, c, face);
}

} // verus!
