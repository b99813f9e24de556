//! Meshing a resident chunk among its neighbours.

use crate::block::BlockId;
use crate::chunk::Chunk;
use crate::coords::{cell_in_world, deep_in_range, in_front, ChunkPos, Point};
use crate::light::chunk_light::{face_bit, mask_bit};
use crate::mesh::input::{is_offset, ChunkNeighbors, MeshInput};
use crate::mesh::quads::{covers_once, face_offset, is_greedy, mesh_chunk, MeshData, Quad};
use crate::mesh::surface::{draws, lemma_mesh_draws_surface, lemma_mesher_sees_world};
use crate::registry::BlockRegistry;
use crate::residency::sides::has_sides;
use crate::world::{block_at, World};
use vstd::prelude::*;

verus! {

/// The neighbours across the faces of a mask are sealed, and no others.
pub open spec fn sealed_at_faces(neighbors: ChunkNeighbors, mask: int) -> bool {
    sealed_below(neighbors, mask, 6)
}

/// The neighbours across the first `n` faces, as far as the mask has them, are
/// sealed, and no others.
pub open spec fn sealed_below(neighbors: ChunkNeighbors, mask: int, n: int) -> bool {
    forall|dx: int, dy: int, dz: int|
        is_offset(dx) && is_offset(dy) && is_offset(dz) ==> #[trigger] neighbors.sealed_at(
            dx,
            dy,
            dz,
        ) == exists|f: int|
            0 <= f < n && mask_bit(mask, f) && #[trigger] face_offset(f) == (dx, dy, dz)
}

/// The quads are the mesh of a resident chunk among its neighbours, sealed at
/// the faces of a mask, with the registry's textures.
pub open spec fn is_world_mesh(
    chunks: Map<ChunkPos, Chunk>,
    registry: BlockRegistry,
    pos: ChunkPos,
    sealed: u8,
    quads: Seq<Quad>,
) -> bool {
    &&& exists|neighbors: ChunkNeighbors, input: MeshInput| #[trigger]
        neighbors.surrounds(chunks, pos) && sealed_at_faces(neighbors, sealed as int)
            && #[trigger] input.shows(chunks[pos], neighbors) && is_greedy(input, quads) && covers_once(input, quads)
    &&& forall|k: int|
        0 <= k < quads.len() ==> (#[trigger] quads[k]).layer == registry.kind(
            quads[k].key.block,
        ).faces[quads[k].face as int]
}

/// The neighbours of a chunk, sealed at the faces of a mask.
fn sealed_neighbors(world: &World, pos: ChunkPos, sealed: u8) -> (r: ChunkNeighbors<'_>)
    requires
        world.wf(),
        has_sides(pos),
    ensures
        r.surrounds(world@, pos),
        sealed_at_faces(r, sealed as int),
{
    let mut r = ChunkNeighbors::of(world, pos);
    let ghost mask = sealed as int;
    let mut face: usize = 0;
    while face < 6
        invariant
            face <= 6,
            mask == sealed as int,
            r.surrounds(world@, pos),
            sealed_below(r, mask, face as int),
        decreases 6 - face,
    {
        let ghost before = r;
        if face_bit(sealed, face) {
            let (dx, dy, dz): (i64, i64, i64) = match face {
                0 => (1, 0, 0),
                1 => (-1, 0, 0),
                2 => (0, 1, 0),
                3 => (0, -1, 0),
                4 => (0, 0, 1),
                _ => (0, 0, -1),
            };
            r = r.with_sealed(dx, dy, dz);
            assert(face_offset(face as int) == (dx as int, dy as int, dz as int));
        }
        assert(sealed_below(r, mask, face + 1)) by {
            assert forall|dx: int, dy: int, dz: int|
                is_offset(dx) && is_offset(dy) && is_offset(dz) implies #[trigger] r.sealed_at(
                dx,
                dy,
                dz,
            ) == exists|f: int|
                0 <= f < face + 1 && mask_bit(mask, f) && #[trigger] face_offset(f) == (
                    dx,
                    dy,
                    dz,
                ) by {
                assert(before.sealed_at(dx, dy, dz) == exists|f: int|
                    0 <= f < face && mask_bit(mask, f) && #[trigger] face_offset(f) == (
                        dx,
                        dy,
                        dz,
                    ));
                if before.sealed_at(dx, dy, dz) {
                    let f = choose|f: int|
                        0 <= f < face && mask_bit(mask, f) && #[trigger] face_offset(f) == (
                            dx,
                            dy,
                            dz,
                        );
                    assert(0 <= f < face + 1 && face_offset(f) == (dx, dy, dz));
                }
            }
        }
        face += 1;
    }
    r
}

/// Mesh a chunk of the world, read-only. Bit `f` of `sealed` says that the
/// neighbour across face `f` is absent and never comes: the chunk's own edge
/// goes on there. `None` if the chunk is not resident or shows nothing: what
/// was drawn for it before must then go.
pub fn mesh_job(world: &World, registry: &BlockRegistry, pos: ChunkPos, sealed: u8) -> (r: Option<
    MeshData,
>)
    requires
        world.wf(),
        has_sides(pos),
    ensures
        r matches Some(mesh) ==> world@.dom().contains(pos) && mesh.quads.len() > 0
            && is_world_mesh(world@, *registry, pos, sealed, mesh.quads@),
        r is None ==> !world@.dom().contains(pos) || is_world_mesh(
            world@,
            *registry,
            pos,
            sealed,
            Seq::empty(),
        ),
{
    let chunk = match world.chunk(pos) {
        Some(c) => c,
        None => {
            return None;
        },
    };
    let neighbors = sealed_neighbors(world, pos, sealed);
    let layer_of = |b: BlockId, face: usize| -> (l: u32)
        requires
            face < 6,
        ensures
            l == registry.kind(b).faces[face as int],
        { registry.face_layer(b, face) };
    let mesh = mesh_chunk(chunk, &neighbors, layer_of);
    assert(is_world_mesh(world@, *registry, pos, sealed, mesh.quads@)) by {
        let input = choose|input: MeshInput| #[trigger]
            input.shows(*chunk, neighbors) && is_greedy(input, mesh.quads@) && covers_once(
                input,
                mesh.quads@,
            );
        assert(neighbors.surrounds(world@, pos) && input.shows(world@[pos], neighbors));
    }
    if mesh.is_empty() {
        assert(mesh.quads@ =~= Seq::empty());
        None
    } else {
        Some(mesh)
    }
}

/// Bit `f` of a mask seals the neighbour across face `f`, from +X to -Z, and
/// neighbours at edges and corners are never sealed.
pub proof fn lemma_mask_seals_faces(
    neighbors: ChunkNeighbors,
    mask: int,
    dx: int,
    dy: int,
    dz: int,
)
    requires
        sealed_at_faces(neighbors, mask),
        -1 <= dx <= 1,
        -1 <= dy <= 1,
        -1 <= dz <= 1,
    ensures
        neighbors.sealed_at(1, 0, 0) == mask_bit(mask, 0),
        neighbors.sealed_at(-1, 0, 0) == mask_bit(mask, 1),
        neighbors.sealed_at(0, 1, 0) == mask_bit(mask, 2),
        neighbors.sealed_at(0, -1, 0) == mask_bit(mask, 3),
        neighbors.sealed_at(0, 0, 1) == mask_bit(mask, 4),
        neighbors.sealed_at(0, 0, -1) == mask_bit(mask, 5),
        dx * dx + dy * dy + dz * dz != 1 ==> !neighbors.sealed_at(dx, dy, dz),
{
    assert(face_offset(0) == (1int, 0int, 0int));
    assert(face_offset(1) == (-1int, 0int, 0int));
    assert(face_offset(2) == (0int, 1int, 0int));
    assert(face_offset(3) == (0int, -1int, 0int));
    assert(face_offset(4) == (0int, 0int, 1int));
    assert(face_offset(5) == (0int, 0int, -1int));
    assert(1int * 1 == 1 && (-1int) * (-1) == 1 && 0int * 0 == 0);
    if dx * dx + dy * dy + dz * dz != 1 && neighbors.sealed_at(dx, dy, dz) {
        let f = choose|f: int|
            0 <= f < 6 && mask_bit(mask, f) && #[trigger] face_offset(f) == (dx, dy, dz);
        assert(f == 0 || f == 1 || f == 2 || f == 3 || f == 4 || f == 5);
    }
}

/// A quad of a resident chunk shows the texture that the registry gives the drawn
/// block on that side.
pub proof fn lemma_quads_show_textures(
    chunks: Map<ChunkPos, Chunk>,
    registry: BlockRegistry,
    pos: ChunkPos,
    sealed: u8,
    quads: Seq<Quad>,
    k: int,
)
    requires
        is_world_mesh(chunks, registry, pos, sealed, quads),
        0 <= k < quads.len(),
    ensures
        quads[k].layer == registry.kind(quads[k].key.block).faces[quads[k].face as int],
{
}

/// A mesh of a resident chunk that has no sealed side draws the side of a cell iff
/// a block stands there in the world and the cell in front of that side holds air.
pub proof fn lemma_mesh_draws_world(
    chunks: Map<ChunkPos, Chunk>,
    registry: BlockRegistry,
    pos: ChunkPos,
    quads: Seq<Quad>,
    face: int,
    c: Point,
)
    requires
        is_world_mesh(chunks, registry, pos, 0, quads),
        chunks.dom().contains(pos),
        deep_in_range(pos.x as int),
        deep_in_range(pos.y as int),
        deep_in_range(pos.z as int),
        0 <= face < 6,
        0 <= c.0 < 32,
        0 <= c.1 < 32,
        0 <= c.2 < 32,
    ensures
        ({
            let f = in_front(face, c);
            let here = block_at(chunks, cell_in_world(pos, c.0, c.1, c.2));
            let front = block_at(chunks, cell_in_world(pos, f.0, f.1, f.2));
            &&& (exists|k: int| 0 <= k < quads.len() && #[trigger] draws(quads[k], face, c)) <==> (
            here.0 != 0 && front.0 == 0)
            &&& forall|k: int|
                0 <= k < quads.len() && #[trigger] draws(quads[k], face, c) ==> quads[k].layer
                    == registry.kind(here).faces[face]
        }),
{
    let (neighbors, input) = choose|neighbors: ChunkNeighbors, input: MeshInput| #[trigger]
        neighbors.surrounds(chunks, pos) && sealed_at_faces(neighbors, 0) && #[trigger] input.shows(
            chunks[pos],
            neighbors,
        ) && is_greedy(input, quads) && covers_once(input, quads);
    assert(neighbors.unsealed()) by {
        assert forall|dx: int, dy: int, dz: int|
            is_offset(dx) && is_offset(dy) && is_offset(dz) implies !#[trigger] neighbors.sealed_at(
            dx,
            dy,
            dz,
        ) by {
            assert forall|f: int| 0 <= f < 6 implies !mask_bit(0, f) by {}
        }
    }
    let f = in_front(face, c);
    lemma_mesh_draws_surface(input, quads, face, c);
    lemma_mesher_sees_world(chunks, pos, neighbors, c.0, c.1, c.2);
    lemma_mesher_sees_world(chunks, pos, neighbors, f.0, f.1, f.2);
    assert(input.block_at(c.0, c.1, c.2) == block_at(chunks, cell_in_world(pos, c.0, c.1, c.2)));
    assert(input.block_at(f.0, f.1, f.2) == block_at(chunks, cell_in_world(pos, f.0, f.1, f.2)));
}

} // verus!
