//! What the meshers read: a chunk and one layer of cells around it.

use crate::block::BlockId;
use crate::chunk::{Chunk, ChunkView};
use crate::coords::{cell_index, ChunkPos, LocalPos, CHUNK_VOLUME};
use crate::light::padded::{lemma_pad_index, pad_index, PAD, PAD_VOLUME};
use crate::world::World;
use vstd::prelude::*;

verus! {

/// Read-only views of a chunk's 26 neighbours. An absent neighbour (unloaded or
/// nonexistent) is treated as air, so that faces on the edge of the loaded
/// world are emitted. A sealed one, which is absent and never comes, continues
/// the chunk's own edge instead: no face into the void, and light and occlusion
/// at the edge as in the interior.
///
/// Neighbours are indexed by an offset `(dx, dy, dz)`, each in `-1..=1`. Smooth
/// lighting samples diagonally, so a face on a chunk edge reads cells of edge-
/// and corner-adjacent chunks.
#[derive(Clone, Copy)]
pub struct ChunkNeighbors<'a> {
    slots: [Option<&'a Chunk>; 27],
    sealed: [bool; 27],
}

/// An offset component.
pub open spec fn is_offset(d: int) -> bool {
    -1 <= d <= 1
}

spec fn slot_of(dx: int, dy: int, dz: int) -> int {
    ((dx + 1) * 3 + (dy + 1)) * 3 + (dz + 1)
}

fn neighbor_slot(dx: i64, dy: i64, dz: i64) -> (r: usize)
    requires
        is_offset(dx as int),
        is_offset(dy as int),
        is_offset(dz as int),
    ensures
        r == slot_of(dx as int, dy as int, dz as int),
        r < 27,
{
    (((dx + 1) * 3 + (dy + 1)) * 3 + (dz + 1)) as usize
}

impl<'a> ChunkNeighbors<'a> {
    /// The neighbour at an offset.
    pub closed spec fn chunk_at(self, dx: int, dy: int, dz: int) -> Option<Chunk> {
        match self.slots@[slot_of(dx, dy, dz)] {
            Some(c) => Some(*c),
            None => None,
        }
    }

    /// The neighbour at an offset is sealed.
    pub closed spec fn sealed_at(self, dx: int, dy: int, dz: int) -> bool {
        self.sealed@[slot_of(dx, dy, dz)]
    }

    /// The same neighbours are sealed.
    pub open spec fn sealed_alike(self, other: Self) -> bool {
        forall|dx: int, dy: int, dz: int|
            is_offset(dx) && is_offset(dy) && is_offset(dz) ==> #[trigger] self.sealed_at(
                dx,
                dy,
                dz,
            ) == other.sealed_at(dx, dy, dz)
    }

    /// No neighbour is sealed.
    pub open spec fn unsealed(self) -> bool {
        forall|dx: int, dy: int, dz: int|
            is_offset(dx) && is_offset(dy) && is_offset(dz) ==> !#[trigger] self.sealed_at(
                dx,
                dy,
                dz,
            )
    }

    /// No neighbours: all border faces are emitted.
    pub fn none() -> (r: ChunkNeighbors<'a>)
        ensures
            r.unsealed(),
            forall|dx: int, dy: int, dz: int|
                is_offset(dx) && is_offset(dy) && is_offset(dz) ==> #[trigger] r.chunk_at(
                    dx,
                    dy,
                    dz,
                ) is None,
    {
        ChunkNeighbors { slots: [None; 27], sealed: [false; 27] }
    }

    /// Holds the resident neighbours of `pos`.
    pub open spec fn surrounds(self, chunks: Map<ChunkPos, Chunk>, pos: ChunkPos) -> bool {
        forall|dx: int, dy: int, dz: int|
            is_offset(dx) && is_offset(dy) && is_offset(dz) && !(dx == 0 && dy == 0 && dz == 0)
                ==> #[trigger] self.chunk_at(dx, dy, dz) == ({
                let p = ChunkPos {
                    x: (pos.x + dx) as i64,
                    y: (pos.y + dy) as i64,
                    z: (pos.z + dz) as i64,
                };
                if chunks.dom().contains(p) {
                    Some(chunks[p])
                } else {
                    None
                }
            })
    }

    /// Gather all 26 neighbours of `pos` from a world.
    pub fn of(world: &'a World, pos: ChunkPos) -> (r: Self)
        requires
            world.wf(),
            i64::MIN < pos.x < i64::MAX,
            i64::MIN < pos.y < i64::MAX,
            i64::MIN < pos.z < i64::MAX,
        ensures
            r.surrounds(world@, pos),
            r.unsealed(),
    {
        let mut r = ChunkNeighbors::none();
        let mut i: i64 = 0;
        while i < 27
            invariant
                0 <= i <= 27,
                world.wf(),
                i64::MIN < pos.x < i64::MAX,
                i64::MIN < pos.y < i64::MAX,
                i64::MIN < pos.z < i64::MAX,
                r.unsealed(),
                forall|dx: int, dy: int, dz: int|
                    is_offset(dx) && is_offset(dy) && is_offset(dz) ==> #[trigger] r.chunk_at(
                        dx,
                        dy,
                        dz,
                    ) == (if slot_of(dx, dy, dz) < i && !(dx == 0 && dy == 0 && dz == 0) {
                        let p = ChunkPos {
                            x: (pos.x + dx) as i64,
                            y: (pos.y + dy) as i64,
                            z: (pos.z + dz) as i64,
                        };
                        if world@.dom().contains(p) {
                            Some(world@[p])
                        } else {
                            None
                        }
                    } else {
                        None
                    }),
            decreases 27 - i,
        {
            let dx: i64 = i / 9 - 1;
            let dy: i64 = i / 3 % 3 - 1;
            let dz: i64 = i % 3 - 1;
            let ghost before = r;
            if !(dx == 0 && dy == 0 && dz == 0) {
                let p = ChunkPos::new(pos.x + dx, pos.y + dy, pos.z + dz);
                if let Some(c) = world.chunk(p) {
                    r = r.with(dx, dy, dz, c);
                }
            }
            assert(r.unsealed()) by {
                assert forall|ex: int, ey: int, ez: int|
                    is_offset(ex) && is_offset(ey) && is_offset(ez) implies !#[trigger] r.sealed_at(
                    ex,
                    ey,
                    ez,
                ) by {
                    assert(!before.sealed_at(ex, ey, ez));
                }
            }
            assert forall|ex: int, ey: int, ez: int|
                is_offset(ex) && is_offset(ey) && is_offset(ez) implies #[trigger] r.chunk_at(
                ex,
                ey,
                ez,
            ) == (if slot_of(ex, ey, ez) < i + 1 && !(ex == 0 && ey == 0 && ez == 0) {
                let p = ChunkPos {
                    x: (pos.x + ex) as i64,
                    y: (pos.y + ey) as i64,
                    z: (pos.z + ez) as i64,
                };
                if world@.dom().contains(p) {
                    Some(world@[p])
                } else {
                    None
                }
            } else {
                None
            }) by {
                let was = before.chunk_at(ex, ey, ez);
                if slot_of(ex, ey, ez) == i {
                    assert(ex == dx && ey == dy && ez == dz);
                }
            }
            i += 1;
        }
        r
    }

    /// The neighbour chunk at an offset.
    fn at(&self, dx: i64, dy: i64, dz: i64) -> (r: Option<&'a Chunk>)
        requires
            is_offset(dx as int),
            is_offset(dy as int),
            is_offset(dz as int),
        ensures
            match r {
                Some(c) => self.chunk_at(dx as int, dy as int, dz as int) == Some(*c),
                None => self.chunk_at(dx as int, dy as int, dz as int) is None,
            },
    {
        self.slots[neighbor_slot(dx, dy, dz)]
    }

    /// Sets the neighbour at an offset.
    pub fn with(self, dx: i64, dy: i64, dz: i64, chunk: &'a Chunk) -> (r: Self)
        requires
            is_offset(dx as int),
            is_offset(dy as int),
            is_offset(dz as int),
        ensures
            forall|ex: int, ey: int, ez: int|
                is_offset(ex) && is_offset(ey) && is_offset(ez) ==> #[trigger] r.chunk_at(
                    ex,
                    ey,
                    ez,
                ) == (if ex == dx && ey == dy && ez == dz {
                    Some(*chunk)
                } else {
                    self.chunk_at(ex, ey, ez)
                }),
            r.sealed_alike(self),
    {
        let mut slots = self.slots;
        slots[neighbor_slot(dx, dy, dz)] = Some(chunk);
        ChunkNeighbors { slots, sealed: self.sealed }
    }

    /// Whether the neighbour at an offset is sealed.
    fn is_sealed(&self, dx: i64, dy: i64, dz: i64) -> (r: bool)
        requires
            is_offset(dx as int),
            is_offset(dy as int),
            is_offset(dz as int),
        ensures
            r == self.sealed_at(dx as int, dy as int, dz as int),
    {
        self.sealed[neighbor_slot(dx, dy, dz)]
    }

    /// Seals the neighbour at an offset: while it is absent, the chunk's own
    /// edge goes on there.
    pub fn with_sealed(self, dx: i64, dy: i64, dz: i64) -> (r: Self)
        requires
            is_offset(dx as int),
            is_offset(dy as int),
            is_offset(dz as int),
        ensures
            forall|ex: int, ey: int, ez: int|
                is_offset(ex) && is_offset(ey) && is_offset(ez) ==> #[trigger] r.chunk_at(
                    ex,
                    ey,
                    ez,
                ) == self.chunk_at(ex, ey, ez),
            forall|ex: int, ey: int, ez: int|
                is_offset(ex) && is_offset(ey) && is_offset(ez) ==> #[trigger] r.sealed_at(
                    ex,
                    ey,
                    ez,
                ) == (self.sealed_at(ex, ey, ez) || (ex == dx && ey == dy && ez == dz)),
    {
        let mut sealed = self.sealed;
        sealed[neighbor_slot(dx, dy, dz)] = true;
        ChunkNeighbors { slots: self.slots, sealed }
    }

    pub fn with_neg_x(self, c: &'a Chunk) -> (r: Self)
        ensures
            self.replaced(r, -1, 0, 0, *c),
    {
        self.with(-1, 0, 0, c)
    }

    pub fn with_pos_x(self, c: &'a Chunk) -> (r: Self)
        ensures
            self.replaced(r, 1, 0, 0, *c),
    {
        self.with(1, 0, 0, c)
    }

    pub fn with_neg_y(self, c: &'a Chunk) -> (r: Self)
        ensures
            self.replaced(r, 0, -1, 0, *c),
    {
        self.with(0, -1, 0, c)
    }

    pub fn with_pos_y(self, c: &'a Chunk) -> (r: Self)
        ensures
            self.replaced(r, 0, 1, 0, *c),
    {
        self.with(0, 1, 0, c)
    }

    pub fn with_neg_z(self, c: &'a Chunk) -> (r: Self)
        ensures
            self.replaced(r, 0, 0, -1, *c),
    {
        self.with(0, 0, -1, c)
    }

    pub fn with_pos_z(self, c: &'a Chunk) -> (r: Self)
        ensures
            self.replaced(r, 0, 0, 1, *c),
    {
        self.with(0, 0, 1, c)
    }

    /// `r` differs only in having `c` at one offset.
    pub open spec fn replaced(self, r: Self, dx: int, dy: int, dz: int, c: Chunk) -> bool {
        &&& r.sealed_alike(self)
        &&& forall|ex: int, ey: int, ez: int|
            is_offset(ex) && is_offset(ey) && is_offset(ez) ==> #[trigger] r.chunk_at(ex, ey, ez)
                == (if ex == dx && ey == dy && ez == dz {
                Some(c)
            } else {
                self.chunk_at(ex, ey, ez)
            })
    }
}

impl Default for ChunkNeighbors<'_> {
    fn default() -> (r: Self)
        ensures
            r.unsealed(),
            forall|dx: int, dy: int, dz: int|
                is_offset(dx) && is_offset(dy) && is_offset(dz) ==> #[trigger] r.chunk_at(
                    dx,
                    dy,
                    dz,
                ) is None,
    {
        ChunkNeighbors::none()
    }
}

/// Which chunk a coordinate from -1 to 32 belongs to: -1, 0 or 1.
pub open spec fn owner(c: int) -> int {
    if c < 0 {
        -1
    } else if c >= 32 {
        1
    } else {
        0
    }
}

/// The coordinate within the chunk it belongs to.
pub open spec fn within_owner(c: int) -> int {
    c - owner(c) * 32
}

/// The coordinate nearest a coordinate within the chunk.
pub open spec fn clamped(c: int) -> int {
    if c < 0 {
        0
    } else if c >= 32 {
        31
    } else {
        c
    }
}

/// Which cell of which chunk is shown at `(x, y, z)`, each from -1 to 32: the
/// chunk's own, its neighbour's, in a sealed neighbour that is absent the
/// nearest of the chunk's own, and none in any other absent one.
pub open spec fn shown_cell(
    chunk: Chunk,
    neighbors: ChunkNeighbors,
    x: int,
    y: int,
    z: int,
) -> Option<(ChunkView, int)> {
    let here = cell_index(within_owner(x), within_owner(y), within_owner(z));
    if owner(x) == 0 && owner(y) == 0 && owner(z) == 0 {
        Some((chunk@, here))
    } else {
        match neighbors.chunk_at(owner(x), owner(y), owner(z)) {
            Some(c) => Some((c@, here)),
            None => if neighbors.sealed_at(owner(x), owner(y), owner(z)) {
                Some((chunk@, cell_index(clamped(x), clamped(y), clamped(z))))
            } else {
                None
            },
        }
    }
}

/// The block shown at a cell: air where there is none.
pub open spec fn shown_block(
    chunk: Chunk,
    neighbors: ChunkNeighbors,
    x: int,
    y: int,
    z: int,
) -> BlockId {
    match shown_cell(chunk, neighbors, x, y, z) {
        Some((v, i)) => v.block(i),
        None => BlockId(0),
    }
}

/// The brighter of the two light channels shown at a cell: dark where there is
/// none.
pub open spec fn shown_light(
    chunk: Chunk,
    neighbors: ChunkNeighbors,
    x: int,
    y: int,
    z: int,
) -> int {
    match shown_cell(chunk, neighbors, x, y, z) {
        Some((v, i)) => if v.block_level(i) > v.sky_level(i) {
            v.block_level(i)
        } else {
            v.sky_level(i)
        },
        None => 0,
    }
}

/// Snapshot of everything the meshers sample: per cell of the chunk and of one
/// layer around it, the block id and the light. The meshing loops then run
/// against flat arrays.
pub struct MeshInput {
    block: Vec<BlockId>,
    light: Vec<u8>,
    all_air: bool,
}

/// The cell is in the snapshot.
pub open spec fn in_view(x: int, y: int, z: int) -> bool {
    -1 <= x <= 32 && -1 <= y <= 32 && -1 <= z <= 32
}

impl MeshInput {
    #[verifier::type_invariant]
    pub closed spec fn sized(self) -> bool {
        &&& self.block.len() == PAD_VOLUME
        &&& self.light.len() == PAD_VOLUME
        &&& forall|i: int| 0 <= i < PAD_VOLUME ==> #[trigger] self.light[i] <= 15
        &&& self.all_air == self.holds_only_air()
    }

    /// Every block of the chunk itself is air.
    pub open spec fn holds_only_air(self) -> bool {
        forall|x: int, y: int, z: int|
            0 <= x < 32 && 0 <= y < 32 && 0 <= z < 32 ==> #[trigger] self.block_at(x, y, z)
                == BlockId(0)
    }

    /// The block of a cell.
    pub closed spec fn block_at(self, x: int, y: int, z: int) -> BlockId {
        self.block[pad_index((x + 1, y + 1, z + 1))]
    }

    /// The light of a cell.
    pub closed spec fn light_at(self, x: int, y: int, z: int) -> u8 {
        self.light[pad_index((x + 1, y + 1, z + 1))]
    }

    /// The snapshot shows a chunk and its neighbours.
    pub open spec fn shows(self, chunk: Chunk, neighbors: ChunkNeighbors) -> bool {
        forall|x: int, y: int, z: int|
            #![trigger self.block_at(x, y, z)]
            #![trigger self.light_at(x, y, z)]
            in_view(x, y, z) ==> self.block_at(x, y, z) == shown_block(chunk, neighbors, x, y, z)
                && self.light_at(x, y, z) == shown_light(chunk, neighbors, x, y, z)
    }

    fn cidx(x: i32, y: i32, z: i32) -> (r: usize)
        requires
            in_view(x as int, y as int, z as int),
        ensures
            r == pad_index((x + 1, y + 1, z + 1)),
            r < PAD_VOLUME,
    {
        (x + 1) as usize + (y + 1) as usize * PAD + (z + 1) as usize * PAD * PAD
    }

    /// Is the cell air? (Absent neighbours are air, unless they are sealed.)
    #[inline]
    pub fn is_air(&self, x: i32, y: i32, z: i32) -> (r: bool)
        requires
            in_view(x as int, y as int, z as int),
        ensures
            r == (self.block_at(x as int, y as int, z as int).0 == 0),
    {
        proof {
            use_type_invariant(self);
        }
        self.block[Self::cidx(x, y, z)].is_air()
    }

    /// Block id of a cell.
    #[inline]
    pub fn block(&self, x: i32, y: i32, z: i32) -> (r: BlockId)
        requires
            in_view(x as int, y as int, z as int),
        ensures
            r == self.block_at(x as int, y as int, z as int),
    {
        proof {
            use_type_invariant(self);
        }
        self.block[Self::cidx(x, y, z)]
    }

    /// Light of a cell (0 in absent neighbours, unless they are sealed).
    #[inline]
    pub fn light(&self, x: i32, y: i32, z: i32) -> (r: u8)
        requires
            in_view(x as int, y as int, z as int),
        ensures
            r == self.light_at(x as int, y as int, z as int),
            r <= 15,
    {
        proof {
            use_type_invariant(self);
        }
        self.light[Self::cidx(x, y, z)]
    }

    /// Whether every block of the chunk itself is air.
    pub fn all_air(&self) -> (r: bool)
        ensures
            r == self.holds_only_air(),
    {
        proof {
            use_type_invariant(self);
        }
        self.all_air
    }

    /// Build the snapshot from a chunk and its neighbours.
    pub fn build(chunk: &Chunk, neighbors: &ChunkNeighbors) -> (r: Self)
        ensures
            r.shows(*chunk, *neighbors),
    {
        let mut block: Vec<BlockId> = Vec::with_capacity(PAD_VOLUME);
        let mut light: Vec<u8> = Vec::with_capacity(PAD_VOLUME);
        let mut i: usize = 0;
        while i < PAD_VOLUME
            invariant
                i <= PAD_VOLUME,
                block.len() == i,
                light.len() == i,
                forall|j: int| 0 <= j < i ==> #[trigger] light[j] <= 15,
                forall|j: int|
                    0 <= j < i ==> #[trigger] block[j] == shown_block(
                        *chunk,
                        *neighbors,
                        j % 34 - 1,
                        j / 34 % 34 - 1,
                        j / 1156 - 1,
                    ),
                forall|j: int|
                    0 <= j < i ==> #[trigger] light[j] == shown_light(
                        *chunk,
                        *neighbors,
                        j % 34 - 1,
                        j / 34 % 34 - 1,
                        j / 1156 - 1,
                    ),
            decreases PAD_VOLUME - i,
        {
            let (dx, lx) = wrap(i % PAD);
            let (dy, ly) = wrap(i / PAD % PAD);
            let (dz, lz) = wrap(i / (PAD * PAD));
            let mut pos = LocalPos::new(lx, ly, lz);
            let mut held: Option<&Chunk> = if dx == 0 && dy == 0 && dz == 0 {
                Some(chunk)
            } else {
                neighbors.at(dx, dy, dz)
            };
            if held.is_none() && neighbors.is_sealed(dx, dy, dz) {
                held = Some(chunk);
                pos = LocalPos::new(edge(dx, lx), edge(dy, ly), edge(dz, lz));
            }
            match held {
                Some(c) => {
                    let b: u8 = c.block_light(pos);
                    let s: u8 = c.sky_light(pos);
                    block.push(c.get(pos));
                    light.push(
                        if b > s {
                            b
                        } else {
                            s
                        },
                    );
                },
                None => {
                    block.push(BlockId::air());
                    light.push(0);
                },
            }
            i += 1;
        }
        let all_air: bool = chunk.is_all_air();
        proof {
            assert forall|x: int, y: int, z: int| in_view(x, y, z) implies block[#[trigger] pad_index(
                (x + 1, y + 1, z + 1),
            )] == shown_block(*chunk, *neighbors, x, y, z) && light[pad_index(
                (x + 1, y + 1, z + 1),
            )] == shown_light(*chunk, *neighbors, x, y, z) by {
                lemma_pad_index((x + 1, y + 1, z + 1));
            }
            let made = MeshInput { block, light, all_air };
            if all_air {
                assert forall|x: int, y: int, z: int|
                    0 <= x < 32 && 0 <= y < 32 && 0 <= z < 32 implies #[trigger] made.block_at(
                    x,
                    y,
                    z,
                ) == BlockId(0) by {
                    assert(made.block_at(x, y, z) == shown_block(*chunk, *neighbors, x, y, z));
                    assert(chunk@.block(cell_index(x, y, z)).0 == 0);
                }
            } else {
                let i = choose|i: int|
                    0 <= i < CHUNK_VOLUME && (#[trigger] chunk@.block(i)).0 != 0;
                let (x, y, z) = (i % 32, i / 1024, i / 32 % 32);
                assert(cell_index(x, y, z) == i);
                assert(made.block_at(x, y, z) == shown_block(*chunk, *neighbors, x, y, z));
                assert(made.block_at(x, y, z) != BlockId(0));
            }
            assert(all_air == made.holds_only_air());
        }
        MeshInput { block, light, all_air }
    }
}

/// The neighbour offset of a padded coordinate, and the coordinate within that
/// chunk.
fn wrap(p: usize) -> (r: (i64, u8))
    requires
        p < 34,
    ensures
        r.0 == owner(p - 1),
        r.1 == within_owner(p - 1),
        is_offset(r.0 as int),
        r.1 < 32,
{
    if p == 0 {
        (-1, 31)
    } else if p == 33 {
        (1, 0)
    } else {
        (0, (p - 1) as u8)
    }
}

/// The coordinate of the chunk's own cells nearest a neighbour's.
fn edge(offset: i64, within: u8) -> (r: u8)
    requires
        is_offset(offset as int),
        within < 32,
    ensures
        r == clamped(within + offset * 32),
        r < 32,
{
    if offset < 0 {
        0
    } else if offset > 0 {
        31
    } else {
        within
    }
}

/// Setting a neighbour sets that one and leaves the others, and what is sealed.
pub proof fn lemma_neighbour_replaced(
    before: ChunkNeighbors,
    after: ChunkNeighbors,
    at: (int, int, int),
    c: Chunk,
    other: (int, int, int),
)
    requires
        before.replaced(after, at.0, at.1, at.2, c),
        -1 <= at.0 <= 1 && -1 <= at.1 <= 1 && -1 <= at.2 <= 1,
        -1 <= other.0 <= 1 && -1 <= other.1 <= 1 && -1 <= other.2 <= 1,
    ensures
        after.chunk_at(at.0, at.1, at.2) == Some(c),
        other != at ==> after.chunk_at(other.0, other.1, other.2) == before.chunk_at(
            other.0,
            other.1,
            other.2,
        ),
        after.sealed_at(other.0, other.1, other.2) == before.sealed_at(other.0, other.1, other.2),
{
}

} // verus!
