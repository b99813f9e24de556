//! Light of a chunk, given its neighbours' border light.
//!
//! Like meshing, lighting is computed per chunk with neighbours as read-only
//! boundary context: a chunk relights using its neighbours' border light as
//! fixed inputs. When a chunk's border light changes, the neighbour across it
//! is relit, and then sees the updated border.

use crate::chunk::{Chunk, ChunkView};
use crate::coords::{cell_index, LocalPos, CHUNK_SIZE, CHUNK_VOLUME};
use crate::light::flood::{light_in, propagate_block_light, LightVolume};
use crate::light::model::{
    below, is_light_of, lemma_light_unique, lit_by, passed_on, Cell, Field, Scene, MAX_LIGHT,
};
use crate::light::padded::{
    block_sources, chunk_cell, inner, lemma_chunk_cell, pad_idx, pad_index, padded_cell,
    padded_scene, padded_solidity, plane_value, planes_valid, rim_cell, NeighborLight, NeighborSky,
    PaddedChunk,
};
use crate::light::sky::{compute_padded_sky, map_scene, ring_sky_sources, sky_levels};
use crate::registry::BlockRegistry;
use vstd::prelude::*;

verus! {

/// Per-column data for one chunk, indexed `x + z * CHUNK_SIZE`.
pub type ColumnMap = Vec<u8>;

/// Index helper for a column map.
#[inline]
pub fn column_index(x: usize, z: usize) -> (r: usize)
    requires
        x + z * CHUNK_SIZE <= usize::MAX,
    ensures
        r == x + z * 32,
{
    x + z * CHUNK_SIZE
}

/// `h` is the height of the column's highest solid block in the chunk, or
/// `None` if the column holds none.
pub open spec fn is_column_top(
    v: ChunkView,
    registry: BlockRegistry,
    x: int,
    z: int,
    h: Option<u8>,
) -> bool {
    let above = match h {
        Some(y) => y as int,
        None => -1,
    };
    &&& (h matches Some(y) ==> y < 32 && registry.solid(v.block(cell_index(x, y as int, z))))
    &&& forall|y: int|
        above < y < 32 ==> !registry.solid(v.block(#[trigger] cell_index(x, y, z)))
}

/// The height of the highest solid block at or below `y`, if any.
pub open spec fn top_below(v: ChunkView, registry: BlockRegistry, x: int, z: int, y: int) -> Option<
    u8,
>
    decreases y + 1,
{
    if y < 0 {
        None
    } else if registry.solid(v.block(cell_index(x, y, z))) {
        Some(y as u8)
    } else {
        top_below(v, registry, x, z, y - 1)
    }
}

/// The height of a column's highest solid block in the chunk.
pub open spec fn column_top(v: ChunkView, registry: BlockRegistry, x: int, z: int) -> Option<u8> {
    top_below(v, registry, x, z, 31)
}

/// What is the top of a column is the column's top.
pub proof fn lemma_column_top(v: ChunkView, registry: BlockRegistry, x: int, z: int, h: Option<u8>)
    requires
        is_column_top(v, registry, x, z, h),
    ensures
        column_top(v, registry, x, z) == h,
{
    lemma_top_below(v, registry, x, z, h, 31);
}

proof fn lemma_top_below(
    v: ChunkView,
    registry: BlockRegistry,
    x: int,
    z: int,
    h: Option<u8>,
    y: int,
)
    requires
        is_column_top(v, registry, x, z, h),
        y < 32,
        h matches Some(t) ==> t <= y,
        h is None ==> y >= -1,
    ensures
        top_below(v, registry, x, z, y) == h,
    decreases y + 1,
{
    if y >= 0 {
        let c = cell_index(x, y, z);
        if h != Some(y as u8) {
            assert(!registry.solid(v.block(c)));
            lemma_top_below(v, registry, x, z, h, y - 1);
        }
    }
}

/// For each `(x, z)` column in the chunk, the local Y of the highest solid
/// block, or `None` if the column is entirely open within this chunk.
pub fn chunk_column_heights(chunk: &Chunk, registry: &BlockRegistry) -> (heights: Vec<Option<u8>>)
    ensures
        heights.len() == 1024,
        forall|x: int, z: int|
            0 <= x < 32 && 0 <= z < 32 ==> is_column_top(
                chunk@,
                *registry,
                x,
                z,
                #[trigger] heights[x + z * 32],
            ),
{
    let n: usize = CHUNK_SIZE;
    let mut heights: Vec<Option<u8>> = Vec::with_capacity(n * n);
    if chunk.is_uniform() {
        let pos = LocalPos::new(0, 0, 0);
        let block = chunk.get(pos);
        let top: Option<u8> = if registry.is_solid(block) {
            Some(31)
        } else {
            None
        };
        let heights: Vec<Option<u8>> = vec![top; n * n];
        proof {
            assert(chunk@.block(0) == chunk@.palette[0]);
            assert forall|x: int, z: int| 0 <= x < 32 && 0 <= z < 32 implies is_column_top(
                chunk@,
                *registry,
                x,
                z,
                #[trigger] heights[x + z * 32],
            ) by {
                assert forall|y: int| 0 <= y < 32 implies chunk@.block(
                    #[trigger] cell_index(x, y, z),
                ) == block by {
                    assert(chunk@.block(cell_index(x, y, z)) == chunk@.palette[0]);
                }
            }
        }
        return heights;
    }
    let mut i: usize = 0;
    while i < n * n
        invariant
            i <= 1024,
            n == 32,
            heights.len() == i,
            forall|j: int|
                0 <= j < i ==> is_column_top(
                    chunk@,
                    *registry,
                    j % 32,
                    j / 32,
                    #[trigger] heights[j],
                ),
        decreases 1024 - i,
    {
        let x: usize = i % n;
        let z: usize = i / n;
        let mut y: usize = n;
        let mut top: Option<u8> = None;
        while y > 0 && top.is_none()
            invariant
                y <= 32,
                x < 32,
                z < 32,
                x == i % 32,
                z == i / 32,
                top matches Some(t) ==> t == y && y < 32 && registry.solid(
                    chunk@.block(cell_index(x as int, t as int, z as int)),
                ),
                forall|h: int|
                    y <= h < 32 && !(top is Some && h == y) ==> !registry.solid(
                        chunk@.block(#[trigger] cell_index(x as int, h, z as int)),
                    ),
            decreases y, (top is None) as int,
        {
            y -= 1;
            let pos = LocalPos::new(x as u8, y as u8, z as u8);
            if registry.is_solid(chunk.get(pos)) {
                top = Some(y as u8);
            }
        }
        heights.push(top);
        i += 1;
    }
    assert forall|x: int, z: int| 0 <= x < 32 && 0 <= z < 32 implies is_column_top(
        chunk@,
        *registry,
        x,
        z,
        #[trigger] heights[x + z * 32],
    ) by {
        let j = x + z * 32;
        assert(j % 32 == x && j / 32 == z);
    }
    heights
}

/// Whether each `(x, z)` column of this chunk has *any* solid block, so that it
/// occludes the sky for chunks below it.
pub fn chunk_column_occludes(chunk: &Chunk, registry: &BlockRegistry) -> (r: Vec<bool>)
    ensures
        r.len() == 1024,
        forall|x: int, z: int|
            0 <= x < 32 && 0 <= z < 32 ==> #[trigger] r[x + z * 32] == (exists|y: int|
                0 <= y < 32 && registry.solid(chunk@.block(#[trigger] cell_index(x, y, z)))),
{
    let heights = chunk_column_heights(chunk, registry);
    let mut r: Vec<bool> = Vec::with_capacity(heights.len());
    let mut i: usize = 0;
    while i < heights.len()
        invariant
            i <= heights.len() == 1024,
            r.len() == i,
            forall|j: int| 0 <= j < i ==> #[trigger] r[j] == (heights[j] is Some),
        decreases heights.len() - i,
    {
        r.push(heights[i].is_some());
        i += 1;
    }
    assert forall|x: int, z: int| 0 <= x < 32 && 0 <= z < 32 implies #[trigger] r[x + z * 32] == (
    exists|y: int|
        0 <= y < 32 && registry.solid(chunk@.block(#[trigger] cell_index(x, y, z)))) by {
        assert(is_column_top(chunk@, *registry, x, z, heights[x + z * 32]));
        if heights[x + z * 32] is Some {
            let y = heights[x + z * 32].unwrap() as int;
            assert(0 <= y < 32 && registry.solid(chunk@.block(cell_index(x, y, z))));
        }
    }
    r
}

/// The chunk's flat index of the cell at place `(u, v)` of a face.
pub open spec fn face_index(face: int, u: int, v: int) -> int {
    chunk_cell(rim_cell(face, u, v))
}

/// The position at place `(u, v)` of a face.
fn face_pos(face: usize, u: usize, v: usize) -> (pos: LocalPos)
    requires
        u < 32,
        v < 32,
    ensures
        pos.idx() == face_index(face as int, u as int, v as int),
        pos.wf(),
{
    let last: u8 = 31;
    let lu: u8 = u as u8;
    let lv: u8 = v as u8;
    match face {
        0 => LocalPos::new(last, lu, lv),
        1 => LocalPos::new(0, lu, lv),
        2 => LocalPos::new(lu, last, lv),
        3 => LocalPos::new(lu, 0, lv),
        4 => LocalPos::new(lu, lv, last),
        _ => LocalPos::new(lu, lv, 0),
    }
}

/// Read a chunk's outer-layer block light on the given face as a plane (same
/// indexing as [`NeighborLight`]).
pub fn chunk_light_plane(chunk: &Chunk, face: usize) -> (plane: Vec<u8>)
    ensures
        plane.len() == 1024,
        forall|u: int, v: int|
            0 <= u < 32 && 0 <= v < 32 ==> #[trigger] plane[u + v * 32] == chunk@.block_level(
                face_index(face as int, u, v),
            ),
        forall|i: int| 0 <= i < 1024 ==> #[trigger] plane[i] <= MAX_LIGHT,
{
    let mut plane: Vec<u8> = Vec::with_capacity(1024);
    let mut i: usize = 0;
    while i < 1024
        invariant
            i <= 1024,
            plane.len() == i,
            forall|j: int|
                0 <= j < i ==> #[trigger] plane[j] == chunk@.block_level(
                    face_index(face as int, j % 32, j / 32),
                ) && plane[j] <= MAX_LIGHT,
        decreases 1024 - i,
    {
        plane.push(chunk.block_light(face_pos(face, i % CHUNK_SIZE, i / CHUNK_SIZE)));
        i += 1;
    }
    plane
}

/// Read a chunk's outer-layer **sky** light on the given face as a plane.
pub fn chunk_sky_plane(chunk: &Chunk, face: usize) -> (plane: Vec<u8>)
    ensures
        plane.len() == 1024,
        forall|u: int, v: int|
            0 <= u < 32 && 0 <= v < 32 ==> #[trigger] plane[u + v * 32] == chunk@.sky_level(
                face_index(face as int, u, v),
            ),
        forall|i: int| 0 <= i < 1024 ==> #[trigger] plane[i] <= MAX_LIGHT,
{
    let mut plane: Vec<u8> = Vec::with_capacity(1024);
    let mut i: usize = 0;
    while i < 1024
        invariant
            i <= 1024,
            plane.len() == i,
            forall|j: int|
                0 <= j < i ==> #[trigger] plane[j] == chunk@.sky_level(
                    face_index(face as int, j % 32, j / 32),
                ) && plane[j] <= MAX_LIGHT,
        decreases 1024 - i,
    {
        plane.push(chunk.sky_light(face_pos(face, i % CHUNK_SIZE, i / CHUNK_SIZE)));
        i += 1;
    }
    plane
}

/// Full daylight above every column.
pub open spec fn open_top() -> Seq<u8> {
    Seq::new(1024, |i: int| MAX_LIGHT)
}

/// A fully open top boundary: every column receives full daylight.
pub fn open_sky_top() -> (r: Vec<u8>)
    ensures
        r@ == open_top(),
{
    let r: Vec<u8> = vec![MAX_LIGHT; CHUNK_SIZE * CHUNK_SIZE];
    assert(r@ =~= open_top());
    r
}

/// The stored light on `face` differs from that of `new_light`.
pub open spec fn face_differs(v: ChunkView, new_light: Seq<u8>, face: int) -> bool {
    exists|u: int, w: int|
        0 <= u < 32 && 0 <= w < 32 && v.light_bytes()[#[trigger] face_index(face, u, w)]
            != new_light[face_index(face, u, w)]
}

/// The stored light on any face differs from that of `new_light`.
pub open spec fn border_differs(v: ChunkView, new_light: Seq<u8>) -> bool {
    exists|face: int| 0 <= face < 6 && #[trigger] face_differs(v, new_light, face)
}

/// The value of a bit mask over the six faces.
pub open spec fn mask_of(faces: spec_fn(int) -> bool) -> int {
    face_weight(faces, 0, 1) + face_weight(faces, 1, 2) + face_weight(faces, 2, 4) + face_weight(
        faces,
        3,
        8,
    ) + face_weight(faces, 4, 16) + face_weight(faces, 5, 32)
}

pub open spec fn face_weight(faces: spec_fn(int) -> bool, face: int, weight: int) -> int {
    if faces(face) {
        weight
    } else {
        0
    }
}

fn plane_differs(chunk: &Chunk, new_light: &[u8], face: usize) -> (r: bool)
    requires
        new_light.len() >= CHUNK_VOLUME,
    ensures
        r == face_differs(chunk@, new_light@, face as int),
{
    let mut i: usize = 0;
    while i < 1024
        invariant
            i <= 1024,
            new_light.len() >= CHUNK_VOLUME,
            forall|u: int, v: int|
                0 <= u < 32 && 0 <= v < 32 && u + v * 32 < i ==> chunk@.light_bytes()[#[trigger]
                face_index(face as int, u, v)] == new_light[face_index(face as int, u, v)],
        decreases 1024 - i,
    {
        let pos = face_pos(face, i % CHUNK_SIZE, i / CHUNK_SIZE);
        let at: usize = pos.index();
        if chunk.light_byte(at) != new_light[at] {
            assert(at == face_index(face as int, i as int % 32, i as int / 32));
            return true;
        }
        assert forall|u: int, v: int|
            0 <= u < 32 && 0 <= v < 32 && u + v * 32 < i + 1 implies chunk@.light_bytes()[#[trigger]
        face_index(face as int, u, v)] == new_light[face_index(face as int, u, v)] by {
            if u + v * 32 == i {
                assert(u == i as int % 32 && v == i as int / 32);
            }
        }
        i += 1;
    }
    false
}

/// Bitmask of which of the six faces' outgoing border planes differ between
/// `new_light` and the chunk's stored light. Bit `i` set means face `i`
/// changed, so that only the neighbour across it need be relit.
pub fn packed_border_changed_faces(chunk: &Chunk, new_light: &[u8]) -> (mask: u8)
    requires
        new_light.len() >= CHUNK_VOLUME,
    ensures
        mask == mask_of(|face: int| face_differs(chunk@, new_light@, face)),
{
    let mut mask: u8 = 0;
    if plane_differs(chunk, new_light, 0) {
        mask += 1;
    }
    if plane_differs(chunk, new_light, 1) {
        mask += 2;
    }
    if plane_differs(chunk, new_light, 2) {
        mask += 4;
    }
    if plane_differs(chunk, new_light, 3) {
        mask += 8;
    }
    if plane_differs(chunk, new_light, 4) {
        mask += 16;
    }
    if plane_differs(chunk, new_light, 5) {
        mask += 32;
    }
    mask
}

/// Bit `face` of a face mask.
pub open spec fn mask_bit(mask: int, face: int) -> bool {
    mask / face_value(face) % 2 == 1
}

/// What a face counts in a mask.
pub open spec fn face_value(face: int) -> int {
    if face == 0 {
        1
    } else if face == 1 {
        2
    } else if face == 2 {
        4
    } else if face == 3 {
        8
    } else if face == 4 {
        16
    } else {
        32
    }
}

/// Whether bit `face` of a face mask is set.
pub fn face_bit(mask: u8, face: usize) -> (r: bool)
    requires
        face < 6,
    ensures
        r == mask_bit(mask as int, face as int),
        forall|faces: spec_fn(int) -> bool| #[trigger]
            mask_of(faces) == mask ==> r == faces(face as int),
{
    match face {
        0 => mask % 2 == 1,
        1 => mask / 2 % 2 == 1,
        2 => mask / 4 % 2 == 1,
        3 => mask / 8 % 2 == 1,
        4 => mask / 16 % 2 == 1,
        _ => mask / 32 % 2 == 1,
    }
}

fn packed_border_changed(chunk: &Chunk, new_light: &[u8]) -> (r: bool)
    requires
        new_light.len() >= CHUNK_VOLUME,
    ensures
        r == border_differs(chunk@, new_light@),
{
    let mut face: usize = 0;
    while face < 6
        invariant
            face <= 6,
            new_light.len() >= CHUNK_VOLUME,
            forall|f: int| 0 <= f < face ==> !#[trigger] face_differs(chunk@, new_light@, f),
        decreases 6 - face,
    {
        if plane_differs(chunk, new_light, face) {
            return true;
        }
        face += 1;
    }
    false
}

/// A chunk's view after storing a light buffer: dark chunks hold no storage.
pub open spec fn with_light(v: ChunkView, light: Seq<u8>) -> ChunkView {
    ChunkView {
        light: if exists|i: int| 0 <= i < CHUNK_VOLUME && #[trigger] light[i] != 0 {
            Some(light.take(CHUNK_VOLUME as int))
        } else {
            None
        },
        ..v
    }
}

/// Apply a packed light buffer to a chunk's storage: high nibble to sky light,
/// low nibble to block light.
pub fn apply_chunk_light(chunk: &mut Chunk, light: &[u8])
    requires
        light.len() >= CHUNK_VOLUME,
    ensures
        final(chunk)@ == with_light(old(chunk)@, light@),
        forall|i: int|
            0 <= i < CHUNK_VOLUME ==> #[trigger] final(chunk)@.sky_level(i) == light[i] as int / 16,
        forall|i: int|
            0 <= i < CHUNK_VOLUME ==> #[trigger] final(chunk)@.block_level(i) == light[i] as int
                % 16,
{
    let mut copy: Vec<u8> = Vec::with_capacity(CHUNK_VOLUME);
    let mut lit: bool = false;
    let mut i: usize = 0;
    while i < CHUNK_VOLUME
        invariant
            i <= CHUNK_VOLUME,
            light.len() >= CHUNK_VOLUME,
            copy@ == light@.take(i as int),
            lit == (exists|j: int| 0 <= j < i && #[trigger] light[j] != 0),
        decreases CHUNK_VOLUME - i,
    {
        let byte: u8 = light[i];
        if byte != 0 {
            lit = true;
        }
        copy.push(byte);
        assert(copy@ =~= light@.take(i + 1));
        i += 1;
    }
    if lit {
        chunk.replace_light(Some(copy));
    } else {
        chunk.clear_light();
        assert forall|i: int| 0 <= i < CHUNK_VOLUME implies light[i] == 0 by {}
    }
}

/// No light comes in over any of the planes.
pub open spec fn no_block_inflow(borders: NeighborLight) -> bool {
    forall|f: int, u: int, v: int|
        0 <= f < 6 && 0 <= u < 32 && 0 <= v < 32 ==> #[trigger] plane_value(borders, f, u, v) == 0
}

/// No sky light comes in over the sides, and none from above beyond what `top`
/// accounts for.
pub open spec fn no_extra_sky_inflow(sky: NeighborSky, top: Seq<u8>) -> bool {
    forall|f: int, u: int, v: int|
        0 <= f < 6 && f != 3 && 0 <= u < 32 && 0 <= v < 32 ==> #[trigger] plane_value(sky, f, u, v)
            == 0 || (f == 2 && plane_value(sky, f, u, v) <= top[u + v * 32])
}

/// The chunk is of one block type that gives no light, and nothing comes in
/// from its neighbours that the top boundary does not account for.
pub open spec fn lit_by_top_alone(
    v: ChunkView,
    registry: BlockRegistry,
    borders: NeighborLight,
    sky: NeighborSky,
    top: Seq<u8>,
    do_sky: bool,
) -> bool {
    &&& v.uniform()
    &&& registry.emits(v.palette[0]) == 0
    &&& no_block_inflow(borders)
    &&& do_sky ==> no_extra_sky_inflow(sky, top)
}

/// Light bytes of a chunk that only its top boundary lights: each open column
/// carries its daylight straight down.
pub open spec fn columns_light(
    v: ChunkView,
    registry: BlockRegistry,
    top: Seq<u8>,
    do_sky: bool,
) -> Seq<u8> {
    Seq::new(
        CHUNK_VOLUME as nat,
        |i: int|
            if do_sky && !registry.solid(v.palette[0]) {
                (top[i % 32 + i / 32 % 32 * 32] * 16) as u8
            } else {
                0
            },
    )
}

/// A light byte: high nibble sky, low nibble block.
pub open spec fn light_byte_of(sky: int, block: int) -> u8 {
    (sky * 16 + block % 16) as u8
}

/// `out` holds the light of the chunk: block light of its blocks and of the
/// neighbours' light, and, with `do_sky`, sky light from the ring.
pub open spec fn is_full_light(
    v: ChunkView,
    registry: BlockRegistry,
    borders: NeighborLight,
    sky: NeighborSky,
    top: Seq<u8>,
    do_sky: bool,
    out: Seq<u8>,
) -> bool {
    let scene = padded_scene(v, registry);
    exists|b: Field, s: Field|
        #![trigger light_bytes_of(b, s, do_sky, out)]
        is_light_of(scene, false, block_sources(v, registry, borders), b) && (do_sky
            ==> is_light_of(scene, true, ring_sky_sources(top, sky), s)) && light_bytes_of(
            b,
            s,
            do_sky,
            out,
        )
}

/// `out` holds the two fields, cell by cell.
pub open spec fn light_bytes_of(b: Field, s: Field, do_sky: bool, out: Seq<u8>) -> bool {
    forall|i: int|
        0 <= i < CHUNK_VOLUME ==> #[trigger] out[i] == light_byte_of(
            if do_sky {
                s(padded_cell(i))
            } else {
                0
            },
            b(padded_cell(i)),
        )
}

/// `out` is the light computed for the chunk. A uniform chunk without inflow
/// takes its columns' daylight; any other is lit in full.
pub open spec fn is_chunk_light(
    v: ChunkView,
    registry: BlockRegistry,
    borders: NeighborLight,
    sky: NeighborSky,
    top: Seq<u8>,
    do_sky: bool,
    out: Seq<u8>,
) -> bool {
    &&& out.len() == CHUNK_VOLUME
    &&& if lit_by_top_alone(v, registry, borders, sky, top, do_sky) {
        out == columns_light(v, registry, top, do_sky)
    } else {
        is_full_light(v, registry, borders, sky, top, do_sky, out)
    }
}

/// The light of a chunk is determined by its blocks, its borders and its top
/// boundary.
pub proof fn lemma_chunk_light_unique(
    v: ChunkView,
    registry: BlockRegistry,
    borders: NeighborLight,
    sky: NeighborSky,
    top: Seq<u8>,
    do_sky: bool,
    a: Seq<u8>,
    b: Seq<u8>,
)
    requires
        is_chunk_light(v, registry, borders, sky, top, do_sky, a),
        is_chunk_light(v, registry, borders, sky, top, do_sky, b),
    ensures
        a == b,
{
    if !lit_by_top_alone(v, registry, borders, sky, top, do_sky) {
        let scene = padded_scene(v, registry);
        let (b1, s1) = choose|b1: Field, s1: Field|
            #![trigger light_bytes_of(b1, s1, do_sky, a)]
            is_light_of(scene, false, block_sources(v, registry, borders), b1) && (do_sky
                ==> is_light_of(scene, true, ring_sky_sources(top, sky), s1)) && light_bytes_of(
                b1,
                s1,
                do_sky,
                a,
            );
        let (b2, s2) = choose|b2: Field, s2: Field|
            #![trigger light_bytes_of(b2, s2, do_sky, b)]
            is_light_of(scene, false, block_sources(v, registry, borders), b2) && (do_sky
                ==> is_light_of(scene, true, ring_sky_sources(top, sky), s2)) && light_bytes_of(
                b2,
                s2,
                do_sky,
                b,
            );
        lemma_light_unique(scene, false, block_sources(v, registry, borders), b1, b2);
        if do_sky {
            lemma_light_unique(scene, true, ring_sky_sources(top, sky), s1, s2);
        }
        assert forall|i: int| 0 <= i < CHUNK_VOLUME implies a[i] == b[i] by {
            lemma_chunk_cell(i);
            assert(scene.has(padded_cell(i)));
        }
        assert(a =~= b);
    }
}

/// Daylight above a column is owed to every cell of it.
proof fn lemma_daylight_falls(scene: Scene, sources: Field, other: Field, c: Cell)
    requires
        scene.size == (34int, 34int, 34int),
        forall|d: Cell| #[trigger] inner(d) ==> scene.open_to_light(d),
        lit_by(scene, true, sources, other),
        sources((c.0, 33, c.2)) == 15,
        1 <= c.0 <= 32,
        1 <= c.2 <= 32,
        1 <= c.1 <= 33,
    ensures
        other(c) >= 15,
    decreases 33 - c.1,
{
    if c.1 == 33 {
        assert(scene.has(c));
    } else {
        let above = (c.0, c.1 + 1, c.2);
        lemma_daylight_falls(scene, sources, other, above);
        assert(inner(c));
        assert(scene.edge(above, c));
        assert(other(c) >= passed_on(true, above, c, other(above)));
    }
}

/// Where the whole top boundary is open, or the whole of it is dark, the light
/// that a uniform chunk takes from its columns is its full light.
pub proof fn lemma_columns_light_is_full(
    v: ChunkView,
    registry: BlockRegistry,
    borders: NeighborLight,
    sky: NeighborSky,
    top: Seq<u8>,
    do_sky: bool,
)
    requires
        v.valid(),
        lit_by_top_alone(v, registry, borders, sky, top, do_sky),
        top.len() == 1024,
        (forall|i: int| 0 <= i < 1024 ==> #[trigger] top[i] == 0) || (forall|i: int|
            0 <= i < 1024 ==> #[trigger] top[i] == MAX_LIGHT),
    ensures
        is_full_light(
            v,
            registry,
            borders,
            sky,
            top,
            do_sky,
            columns_light(v, registry, top, do_sky),
        ),
{
    let scene = padded_scene(v, registry);
    let solid = registry.solid(v.palette[0]);
    let out = columns_light(v, registry, top, do_sky);
    assert forall|c: Cell| #[trigger] inner(c) implies v.block(chunk_cell(c)) == v.palette[0] by {
        assert(v.indices[chunk_cell(c)] == 0);
    }
    let bs = block_sources(v, registry, borders);
    let b: Field = |c: Cell| 0;
    assert forall|c: Cell| #[trigger] scene.has(c) implies bs(c) == 0 by {
        if inner(c) {
            assert(v.block(chunk_cell(c)) == v.palette[0]);
        }
    }
    assert(is_light_of(scene, false, bs, b)) by {
        assert forall|other: Field| #[trigger] lit_by(scene, false, bs, other) implies below(
            scene,
            b,
            other,
        ) by {
            assert forall|c: Cell| #[trigger] scene.has(c) implies b(c) <= other(c) by {
                assert(bs(c) <= other(c));
            }
        }
    }
    let ss = ring_sky_sources(top, sky);
    let s: Field = |c: Cell|
        if inner(c) {
            if solid {
                0
            } else {
                top[0] as int
            }
        } else {
            ss(c)
        };
    if do_sky {
        assert forall|c: Cell| #[trigger] scene.has(c) && !inner(c) implies ss(c) == (if c.1 == 33
            && 1 <= c.0 <= 32 && 1 <= c.2 <= 32 {
            top[0] as int
        } else {
            0
        }) by {
            if c.1 == 33 && 1 <= c.0 <= 32 && 1 <= c.2 <= 32 {
                assert(top[c.0 - 1 + (c.2 - 1) * 32] == top[0]);
                assert(plane_value(sky, 2, c.0 - 1, c.2 - 1) <= top[0]);
            }
        }
        assert forall|a: Cell, d: Cell| #[trigger] scene.edge(a, d) implies s(d) >= passed_on(
            true,
            a,
            d,
            s(a),
        ) by {
            assert(inner(d));
            assert(v.block(chunk_cell(d)) == v.palette[0]);
            assert(scene.has(a));
        }
        assert forall|other: Field| #[trigger] lit_by(scene, true, ss, other) implies below(
            scene,
            s,
            other,
        ) by {
            assert forall|c: Cell| #[trigger] scene.has(c) implies s(c) <= other(c) by {
                assert(ss(c) <= other(c));
                if inner(c) && !solid && top[0] != 0 {
                    assert forall|d: Cell| #[trigger] inner(d) implies scene.open_to_light(d) by {
                        assert(v.block(chunk_cell(d)) == v.palette[0]);
                    }
                    assert(scene.has((c.0, 33, c.2)) && !inner((c.0, 33, c.2)));
                    lemma_daylight_falls(scene, ss, other, c);
                }
            }
        }
        assert(is_light_of(scene, true, ss, s));
    }
    assert(light_bytes_of(b, s, do_sky, out)) by {
        assert forall|i: int| 0 <= i < CHUNK_VOLUME implies #[trigger] out[i] == light_byte_of(
            if do_sky {
                s(padded_cell(i))
            } else {
                0
            },
            b(padded_cell(i)),
        ) by {
            lemma_chunk_cell(i);
            assert(top[i % 32 + i / 32 % 32 * 32] == top[0]);
        }
    }
}

/// Whether the planes are all dark.
fn all_dark(planes: &NeighborLight) -> (r: bool)
    requires
        planes_valid(*planes),
    ensures
        r == no_block_inflow(*planes),
{
    let mut face: usize = 0;
    while face < 6
        invariant
            face <= 6,
            planes_valid(*planes),
            forall|f: int, u: int, v: int|
                0 <= f < face && 0 <= u < 32 && 0 <= v < 32 ==> #[trigger] plane_value(
                    *planes,
                    f,
                    u,
                    v,
                ) == 0,
        decreases 6 - face,
    {
        let slot = &planes[face];
        assert(*slot == planes@[face as int]);
        if let Some(plane) = slot {
            let mut i: usize = 0;
            while i < plane.len()
                invariant
                    i <= plane.len(),
                    plane.len() == 1024,
                    face < 6,
                    planes@[face as int] == Some(*plane),
                    forall|j: int| 0 <= j < i ==> #[trigger] plane[j] == 0,
                decreases plane.len() - i,
            {
                if plane[i] != 0 {
                    assert(plane_value(*planes, face as int, i as int % 32, i as int / 32) != 0);
                    return false;
                }
                i += 1;
            }
            assert forall|u: int, v: int| 0 <= u < 32 && 0 <= v < 32 implies #[trigger] plane_value(
                *planes,
                face as int,
                u,
                v,
            ) == 0 by {
                assert(plane[u + v * 32] == 0);
            }
        }
        face += 1;
    }
    true
}

/// Whether no sky light comes in beyond what `top_sky` accounts for.
fn covered_by_top(sky: &NeighborSky, top_sky: &[u8]) -> (r: bool)
    requires
        planes_valid(*sky),
        top_sky.len() == 1024,
    ensures
        r == no_extra_sky_inflow(*sky, top_sky@),
{
    let mut face: usize = 0;
    while face < 6
        invariant
            face <= 6,
            planes_valid(*sky),
            top_sky.len() == 1024,
            forall|f: int, u: int, v: int|
                0 <= f < face && f != 3 && 0 <= u < 32 && 0 <= v < 32 ==> #[trigger] plane_value(
                    *sky,
                    f,
                    u,
                    v,
                ) == 0 || (f == 2 && plane_value(*sky, f, u, v) <= top_sky@[u + v * 32]),
        decreases 6 - face,
    {
        let slot = &sky[face];
        assert(*slot == sky@[face as int]);
        if face != 3 {
            if let Some(plane) = slot {
                let mut i: usize = 0;
                while i < plane.len()
                    invariant
                        i <= plane.len(),
                        plane.len() == 1024,
                        top_sky.len() == 1024,
                        face < 6,
                        face != 3,
                        sky@[face as int] == Some(*plane),
                        forall|j: int|
                            0 <= j < i ==> #[trigger] plane[j] == 0 || (face == 2 && plane[j]
                                <= top_sky@[j]),
                    decreases plane.len() - i,
                {
                    if plane[i] != 0 && (face != 2 || plane[i] > top_sky[i]) {
                        assert(plane_value(*sky, face as int, i as int % 32, i as int / 32)
                            == plane[i as int]);
                        return false;
                    }
                    i += 1;
                }
                assert forall|u: int, v: int|
                    0 <= u < 32 && 0 <= v < 32 implies #[trigger] plane_value(
                    *sky,
                    face as int,
                    u,
                    v,
                ) == 0 || (face == 2 && plane_value(*sky, face as int, u, v) <= top_sky@[u + v
                    * 32]) by {
                    let p = plane[u + v * 32];
                }
            }
        }
        face += 1;
    }
    true
}

/// The bytes of [`columns_light`].
fn light_columns(chunk: &Chunk, registry: &BlockRegistry, top_sky: &[u8], do_sky: bool) -> (out: Vec<
    u8,
>)
    requires
        chunk@.uniform(),
        do_sky ==> top_sky.len() == 1024 && forall|i: int|
            0 <= i < 1024 ==> #[trigger] top_sky[i] <= MAX_LIGHT,
    ensures
        out@ == columns_light(chunk@, *registry, top_sky@, do_sky),
{
    let uniform: bool = chunk.is_uniform();
    let block = chunk.get(LocalPos::new(0, 0, 0));
    assert(chunk@.block(0) == chunk@.palette[0]);
    let open: bool = !registry.is_solid(block);
    let mut out: Vec<u8> = Vec::with_capacity(CHUNK_VOLUME);
    let mut i: usize = 0;
    while i < CHUNK_VOLUME
        invariant
            i <= CHUNK_VOLUME,
            open == !registry.solid(chunk@.palette[0]),
            do_sky ==> top_sky.len() == 1024 && forall|i: int|
                0 <= i < 1024 ==> #[trigger] top_sky[i] <= MAX_LIGHT,
            out.len() == i,
            forall|j: int|
                0 <= j < i ==> #[trigger] out[j] == columns_light(
                    chunk@,
                    *registry,
                    top_sky@,
                    do_sky,
                )[j],
        decreases CHUNK_VOLUME - i,
    {
        if do_sky && open {
            let col: usize = i % 32 + i / 32 % 32 * 32;
            assert(top_sky[col as int] <= MAX_LIGHT);
            out.push(top_sky[col] * 16);
        } else {
            out.push(0);
        }
        i += 1;
    }
    assert(out@ =~= columns_light(chunk@, *registry, top_sky@, do_sky));
    out
}

/// Compute both light channels for a chunk **without changing it**, as one
/// byte per cell (high nibble sky, low nibble block), and whether either
/// outgoing border changed from the chunk's stored light.
///
/// Block light floods from emitters and from the neighbours' block light. Sky
/// light floods from `top_sky` and the neighbours' sky light. Without `do_sky`
/// only block light is computed.
///
/// A uniform chunk (all air above terrain, or all solid underground) without
/// inflow takes the fast path: each column carries its top value straight down.
pub fn compute_chunk_light_2ch(
    chunk: &Chunk,
    registry: &BlockRegistry,
    block_borders: &NeighborLight,
    sky_borders: &NeighborSky,
    top_sky: &[u8],
    do_sky: bool,
) -> (r: (Vec<u8>, bool))
    requires
        planes_valid(*block_borders),
        do_sky ==> planes_valid(*sky_borders) && top_sky.len() == 1024 && sky_levels(
            top_sky@,
            *sky_borders,
        ),
    ensures
        is_chunk_light(
            chunk@,
            *registry,
            *block_borders,
            *sky_borders,
            top_sky@,
            do_sky,
            r.0@,
        ),
        r.1 == border_differs(chunk@, r.0@),
{
    if chunk.is_uniform() {
        let block = chunk.get(LocalPos::new(0, 0, 0));
        assert(chunk@.block(0) == chunk@.palette[0]);
        if registry.emission(block) == 0 && all_dark(block_borders) && (!do_sky || covered_by_top(
            sky_borders,
            top_sky,
        )) {
            let out = light_columns(chunk, registry, top_sky, do_sky);
            let changed: bool = packed_border_changed(chunk, &out);
            return (out, changed);
        }
    }
    let solid = padded_solidity(chunk, registry);
    let ghost scene = padded_scene(chunk@, *registry);
    assert(map_scene(solid@) =~= scene) by {
        assert forall|c: Cell| #[trigger] (map_scene(solid@).solid)(c) == (scene.solid)(c) by {
            let p = pad_index(c);
        }
        assert(map_scene(solid@).solid =~= scene.solid);
    }
    let sky: Vec<u8> = if do_sky {
        compute_padded_sky(&solid, top_sky, sky_borders, Ghost(scene))
    } else {
        vec![0; CHUNK_VOLUME]
    };
    let ghost s: Field = if do_sky {
        choose|f: Field|
            #![trigger is_light_of(scene, true, ring_sky_sources(top_sky@, *sky_borders), f)]
            is_light_of(scene, true, ring_sky_sources(top_sky@, *sky_borders), f) && forall|i: int|
                0 <= i < CHUNK_VOLUME ==> #[trigger] sky[i] == f(padded_cell(i))
    } else {
        |c: Cell| 0
    };
    let mut vol = PaddedChunk::build(chunk, registry, block_borders, solid);
    let ghost built = vol;
    assert(vol.scene().size == (34int, 34int, 34int));
    assert(34int * (34int * 34int) == 39304int) by (nonlinear_arith);
    let lit: usize = propagate_block_light(&mut vol);
    let ghost b = light_in(&vol);
    proof {
        let bs = block_sources(chunk@, *registry, *block_borders);
        crate::light::flood::lemma_same_sources(
            scene,
            false,
            crate::light::flood::emission_in(&built),
            bs,
            b,
        );
    }
    let mut out: Vec<u8> = Vec::with_capacity(CHUNK_VOLUME);
    let mut i: usize = 0;
    while i < CHUNK_VOLUME
        invariant
            i <= CHUNK_VOLUME,
            sky.len() == CHUNK_VOLUME,
            vol.light.len() == 39304,
            b == light_in(&vol),
            forall|j: int|
                0 <= j < CHUNK_VOLUME ==> #[trigger] sky[j] <= 15 && (do_sky ==> sky[j] == s(
                    padded_cell(j),
                )) && (!do_sky ==> sky[j] == 0),
            out.len() == i,
            forall|j: int|
                0 <= j < i ==> #[trigger] out[j] == light_byte_of(
                    if do_sky {
                        s(padded_cell(j))
                    } else {
                        0
                    },
                    b(padded_cell(j)),
                ),
        decreases CHUNK_VOLUME - i,
    {
        let pos = LocalPos::from_index(i);
        let p: usize = pad_idx(pos.x() as usize + 1, pos.y() as usize + 1, pos.z() as usize + 1);
        assert(p == pad_index(padded_cell(i as int)));
        let level: u8 = vol.light[p];
        assert(sky[i as int] <= 15);
        out.push(sky[i] * 16 + level % 16);
        i += 1;
    }
    assert(light_bytes_of(b, s, do_sky, out@));
    let changed: bool = packed_border_changed(chunk, &out);
    (out, changed)
}

/// `out` is the light computed for the chunk when only block light is wanted.
pub open spec fn is_block_light(
    v: ChunkView,
    registry: BlockRegistry,
    borders: NeighborLight,
    out: Seq<u8>,
) -> bool {
    forall|sky: NeighborSky, top: Seq<u8>| #[trigger]
        is_chunk_light(v, registry, borders, sky, top, false, out)
}

/// Without sky light, the sky planes and the top boundary do not matter.
proof fn lemma_block_light(
    v: ChunkView,
    registry: BlockRegistry,
    borders: NeighborLight,
    sky: NeighborSky,
    top: Seq<u8>,
    out: Seq<u8>,
)
    requires
        is_chunk_light(v, registry, borders, sky, top, false, out),
    ensures
        is_block_light(v, registry, borders, out),
{
    assert forall|sky2: NeighborSky, top2: Seq<u8>| #[trigger]
        is_chunk_light(v, registry, borders, sky2, top2, false, out) by {
        if lit_by_top_alone(v, registry, borders, sky, top, false) {
            assert(columns_light(v, registry, top, false) =~= columns_light(
                v,
                registry,
                top2,
                false,
            ));
        } else {
            let (b, s) = choose|b: Field, s: Field|
                #![trigger light_bytes_of(b, s, false, out)]
                is_light_of(padded_scene(v, registry), false, block_sources(v, registry, borders), b)
                    && light_bytes_of(b, s, false, out);
            assert(light_bytes_of(b, s, false, out));
        }
    }
}

/// Compute a chunk's block light alone, without changing the chunk.
pub fn compute_chunk_light(
    chunk: &Chunk,
    registry: &BlockRegistry,
    borders: &NeighborLight,
) -> (r: (Vec<u8>, bool))
    requires
        planes_valid(*borders),
    ensures
        is_block_light(chunk@, *registry, *borders, r.0@),
        r.0.len() == CHUNK_VOLUME,
        r.1 == border_differs(chunk@, r.0@),
{
    let none: NeighborSky = [None, None, None, None, None, None];
    let top: [u8; 1] = [0];
    let r = compute_chunk_light_2ch(chunk, registry, borders, &none, &top, false);
    proof {
        lemma_block_light(chunk@, *registry, *borders, none, top@, r.0@);
    }
    r
}

/// Recompute a chunk's **block light only**, in place. Returns whether its
/// outgoing border light changed. Does not mark the chunk modified.
pub fn relight_chunk(chunk: &mut Chunk, registry: &BlockRegistry, borders: &NeighborLight) -> (r:
    bool)
    requires
        planes_valid(*borders),
    ensures
        exists|light: Seq<u8>| #[trigger]
            is_block_light(old(chunk)@, *registry, *borders, light) && final(chunk)@ == with_light(
                old(chunk)@,
                light,
            ) && r == border_differs(old(chunk)@, light),
{
    let (light, changed) = compute_chunk_light(chunk, registry, borders);
    apply_chunk_light(chunk, &light);
    changed
}

/// Recompute **both** light channels for a chunk in place, with a fully open
/// sky above. Returns whether its outgoing border light changed.
pub fn relight_chunk_2ch(
    chunk: &mut Chunk,
    registry: &BlockRegistry,
    block_borders: &NeighborLight,
    sky_borders: &NeighborSky,
) -> (r: bool)
    requires
        planes_valid(*block_borders),
        planes_valid(*sky_borders),
        sky_levels(open_top(), *sky_borders),
    ensures
        exists|light: Seq<u8>| #[trigger]
            is_chunk_light(
                old(chunk)@,
                *registry,
                *block_borders,
                *sky_borders,
                open_top(),
                true,
                light,
            ) && final(chunk)@ == with_light(old(chunk)@, light) && r == border_differs(
                old(chunk)@,
                light,
            ),
{
    let top = open_sky_top();
    let (light, changed) = compute_chunk_light_2ch(
        chunk,
        registry,
        block_borders,
        sky_borders,
        &top,
        true,
    );
    apply_chunk_light(chunk, &light);
    changed
}

/// Stored light is read back as it was computed: daylight from the high nibble,
/// block light from the low one. Blocks and the edit mark stay, and a chunk without
/// any light keeps no storage.
pub proof fn lemma_stored_light(v: ChunkView, light: Seq<u8>, i: int)
    requires
        light.len() >= CHUNK_VOLUME,
        0 <= i < CHUNK_VOLUME,
    ensures
        with_light(v, light).sky_level(i) == light[i] as int / 16,
        with_light(v, light).block_level(i) == light[i] as int % 16,
        with_light(v, light).palette == v.palette,
        with_light(v, light).indices == v.indices,
        with_light(v, light).modified == v.modified,
        with_light(v, light).light is Some <==> exists|j: int|
            0 <= j < CHUNK_VOLUME && #[trigger] light[j] != 0,
{
}

/// A face mask has one bit per face, from 1 for the first to 32 for the last: the
/// bits of a mask are the faces it was made of.
pub proof fn lemma_mask_bits(faces: spec_fn(int) -> bool, face: int)
    requires
        0 <= face < 6,
    ensures
        0 <= mask_of(faces) < 64,
        mask_bit(mask_of(faces), face) == faces(face),
        face_value(0) == 1,
        face > 0 ==> face_value(face) == 2 * face_value(face - 1),
{
}

/// The border of a chunk differs iff some cell on one of its six sides does; the
/// mask names the sides.
pub proof fn lemma_border_cells(v: ChunkView, new_light: Seq<u8>, face: int, x: int, y: int, z: int)
    requires
        0 <= face < 6,
        0 <= x < 32,
        0 <= y < 32,
        0 <= z < 32,
        face == 0 && x == 31 || face == 1 && x == 0 || face == 2 && y == 31 || face == 3 && y == 0
            || face == 4 && z == 31 || face == 5 && z == 0,
        v.light_bytes()[cell_index(x, y, z)] != new_light[cell_index(x, y, z)],
    ensures
        face_differs(v, new_light, face),
        border_differs(v, new_light),
{
    let (u, w) = if face < 2 {
        (y, z)
    } else if face < 4 {
        (x, z)
    } else {
        (x, y)
    };
    assert(face_index(face, u, w) == cell_index(x, y, z));
    assert(face_differs(v, new_light, face));
}

/// A side that differs does so in a cell that lies on it.
pub proof fn lemma_side_differs_by_a_cell(v: ChunkView, new_light: Seq<u8>, face: int) -> (c: (
    int,
    int,
    int,
))
    requires
        0 <= face < 6,
        face_differs(v, new_light, face),
    ensures
        0 <= c.0 < 32 && 0 <= c.1 < 32 && 0 <= c.2 < 32,
        face == 0 && c.0 == 31 || face == 1 && c.0 == 0 || face == 2 && c.1 == 31 || face == 3
            && c.1 == 0 || face == 4 && c.2 == 31 || face == 5 && c.2 == 0,
        v.light_bytes()[cell_index(c.0, c.1, c.2)] != new_light[cell_index(c.0, c.1, c.2)],
{
    let (u, w) = choose|u: int, w: int|
        0 <= u < 32 && 0 <= w < 32 && v.light_bytes()[#[trigger] face_index(face, u, w)]
            != new_light[face_index(face, u, w)];
    let r = rim_cell(face, u, w);
    (r.0 - 1, r.1 - 1, r.2 - 1)
}

/// Where only the top boundary lights a chunk of one kind, each cell of it that is
/// open has the daylight above its column, and no block light.
pub proof fn lemma_columns_carry_daylight(
    v: ChunkView,
    registry: BlockRegistry,
    top: Seq<u8>,
    x: int,
    y: int,
    z: int,
)
    requires
        0 <= x < 32,
        0 <= y < 32,
        0 <= z < 32,
        top[x + z * 32] <= 15,
    ensures
        ({
            let i = cell_index(x, y, z);
            let out = columns_light(v, registry, top, true);
            &&& registry.solid(v.palette[0]) ==> out[i] == 0
            &&& !registry.solid(v.palette[0]) ==> out[i] as int / 16 == top[x + z * 32]
            &&& out[i] as int % 16 == 0
            &&& columns_light(v, registry, top, false)[i] == 0
        }),
{
    let i = cell_index(x, y, z);
    assert(i % 32 == x && i / 32 % 32 == z);
}

} // verus!
