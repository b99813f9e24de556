//! Coordinate types and conversions.
//!
//! Three position spaces, each a type of its own so that they can never be
//! confused across a function boundary:
//!
//! - [`WorldPos`]: absolute block position in the world, `i64` per axis.
//! - [`ChunkPos`]: position of a 32-cubed chunk in the 3D chunk grid.
//! - [`LocalPos`]: position *within* a chunk, `0..32` per axis.
//!
//! World to chunk is an arithmetic right shift and world to local is a
//! bitmask: both round toward negative infinity, so block -1 lives in chunk -1.

use vstd::prelude::*;

verus! {

/// log2 of the chunk edge length.
pub const CHUNK_BITS: u32 = 5;

/// Chunk edge length in blocks.
pub const CHUNK_SIZE: usize = 32;

/// Number of blocks in one chunk.
pub const CHUNK_VOLUME: usize = CHUNK_SIZE * CHUNK_SIZE * CHUNK_SIZE;

/// Bitmask extracting the local (in-chunk) part of a world coordinate.
const LOCAL_MASK: i64 = 31;

/// Absolute block position in the world. Y is up.
#[derive(Debug, Clone, Copy, PartialEq, Eq, Hash, Structural)]
pub struct WorldPos {
    pub x: i64,
    pub y: i64,
    pub z: i64,
}

/// Position of a chunk in the 3D chunk grid. Chunks are cubic: every axis,
/// Y too, is divided into chunks.
#[derive(Debug, Clone, Copy, PartialEq, Eq, Hash, Structural)]
pub struct ChunkPos {
    pub x: i64,
    pub y: i64,
    pub z: i64,
}

/// Position within a chunk. Every component is `< CHUNK_SIZE`.
#[derive(Debug, Clone, Copy, PartialEq, Eq, Hash, Structural)]
pub struct LocalPos {
    x: u8,
    y: u8,
    z: u8,
}

/// The low corner, on one axis, of the chunk with coordinate `c`: `c * 32`
/// reduced to 64 bits.
pub open spec fn chunk_base(c: i64) -> i64 {
    c << 5u32
}

/// `c * 32` fits in an `i64`.
pub open spec fn chunk_in_range(c: int) -> bool {
    i64::MIN <= c * 32 && c * 32 + 31 <= i64::MAX
}

/// The flat index of a cell: `y`, then `z`, then `x`.
pub open spec fn cell_index(x: int, y: int, z: int) -> int {
    y * 1024 + z * 32 + x
}

proof fn lemma_shift_mask(v: i64)
    ensures
        v >> 5u32 == (v as int) / 32,
        v & 31 == (v as int) % 32,
{
    assert(v >> 5u32 == v / 32) by (bit_vector);
    assert(v & 31 == v % 32) by (bit_vector);
}

/// The low corner of a chunk: a multiple of the chunk size, with room for the
/// whole chunk above it, equal to `c * 32` where that fits, and taken back to
/// `c` by the shift.
pub proof fn lemma_chunk_base(c: i64)
    ensures
        i64::MIN <= chunk_base(c) <= i64::MAX - 31,
        (chunk_base(c) as int) % 32 == 0,
        chunk_in_range(c as int) ==> chunk_base(c) == c * 32,
        chunk_base(c) == c * 32 ==> chunk_in_range(c as int),
{
    assert(c << 5u32 <= 0x7fff_ffff_ffff_ffe0i64) by (bit_vector);
    assert((c << 5u32) % 32 == 0) by (bit_vector);
    if chunk_in_range(c as int) {
        assert(c << 5u32 == c * 32) by (bit_vector)
            requires
                -0x400_0000_0000_0000i64 <= c <= 0x3ff_ffff_ffff_ffffi64,
        ;
    }
}

impl WorldPos {
    #[inline]
    pub fn new(x: i64, y: i64, z: i64) -> (r: Self)
        ensures
            r == (WorldPos { x, y, z }),
    {
        WorldPos { x, y, z }
    }

    /// The chunk holding this block: each coordinate divided by the chunk
    /// size, rounding down.
    pub open spec fn spec_chunk(self) -> ChunkPos {
        ChunkPos {
            x: (self.x as int / 32) as i64,
            y: (self.y as int / 32) as i64,
            z: (self.z as int / 32) as i64,
        }
    }

    /// This block's position within its chunk: each coordinate's remainder.
    pub open spec fn spec_local(self) -> LocalPos {
        LocalPos::at(self.x as int % 32, self.y as int % 32, self.z as int % 32)
    }

    /// The chunk containing this block.
    #[inline]
    pub fn chunk(self) -> (r: ChunkPos)
        ensures
            r == self.spec_chunk(),
            r.x == self.x as int / 32,
            r.y == self.y as int / 32,
            r.z == self.z as int / 32,
            chunk_in_range(r.x as int) && chunk_in_range(r.y as int) && chunk_in_range(r.z as int),
    {
        proof {
            lemma_shift_mask(self.x);
            lemma_shift_mask(self.y);
            lemma_shift_mask(self.z);
        }
        ChunkPos::new(self.x >> CHUNK_BITS, self.y >> CHUNK_BITS, self.z >> CHUNK_BITS)
    }

    /// This block's position within its chunk.
    #[inline]
    pub fn local(self) -> (r: LocalPos)
        ensures
            r == self.spec_local(),
            r.lx() == self.x as int % 32,
            r.ly() == self.y as int % 32,
            r.lz() == self.z as int % 32,
    {
        proof {
            lemma_shift_mask(self.x);
            lemma_shift_mask(self.y);
            lemma_shift_mask(self.z);
        }
        LocalPos {
            x: (self.x & LOCAL_MASK) as u8,
            y: (self.y & LOCAL_MASK) as u8,
            z: (self.z & LOCAL_MASK) as u8,
        }
    }

    /// Split into (containing chunk, position within it).
    #[inline]
    pub fn split(self) -> (r: (ChunkPos, LocalPos))
        ensures
            r == (self.spec_chunk(), self.spec_local()),
            r.1.lx() == self.x as int % 32,
            r.1.ly() == self.y as int % 32,
            r.1.lz() == self.z as int % 32,
    {
        (self.chunk(), self.local())
    }
}

impl ChunkPos {
    #[inline]
    pub fn new(x: i64, y: i64, z: i64) -> (r: Self)
        ensures
            r == (ChunkPos { x, y, z }),
    {
        ChunkPos { x, y, z }
    }

    pub open spec fn spec_origin(self) -> WorldPos {
        WorldPos { x: chunk_base(self.x), y: chunk_base(self.y), z: chunk_base(self.z) }
    }

    pub open spec fn spec_world_pos(self, local: LocalPos) -> WorldPos {
        WorldPos {
            x: (chunk_base(self.x) + local.lx()) as i64,
            y: (chunk_base(self.y) + local.ly()) as i64,
            z: (chunk_base(self.z) + local.lz()) as i64,
        }
    }

    /// World position of this chunk's minimum corner (lowest x/y/z block).
    #[inline]
    pub fn origin(self) -> (r: WorldPos)
        ensures
            r == self.spec_origin(),
            chunk_in_range(self.x as int) ==> r.x == self.x * 32,
            chunk_in_range(self.y as int) ==> r.y == self.y * 32,
            chunk_in_range(self.z as int) ==> r.z == self.z * 32,
    {
        proof {
            lemma_chunk_base(self.x);
            lemma_chunk_base(self.y);
            lemma_chunk_base(self.z);
        }
        WorldPos::new(self.x << CHUNK_BITS, self.y << CHUNK_BITS, self.z << CHUNK_BITS)
    }

    /// Recompose a chunk position and a local position into a world position.
    #[inline]
    pub fn world_pos(self, local: LocalPos) -> (r: WorldPos)
        ensures
            r == self.spec_world_pos(local),
            r.x == chunk_base(self.x) + local.lx(),
            r.y == chunk_base(self.y) + local.ly(),
            r.z == chunk_base(self.z) + local.lz(),
    {
        proof {
            use_type_invariant(&local);
            lemma_chunk_base(self.x);
            lemma_chunk_base(self.y);
            lemma_chunk_base(self.z);
        }
        let o = self.origin();
        WorldPos::new(o.x + local.x as i64, o.y + local.y as i64, o.z + local.z as i64)
    }
}

impl LocalPos {
    /// Its component along x.
    pub closed spec fn lx(self) -> int {
        self.x as int
    }

    /// Its component along y.
    pub closed spec fn ly(self) -> int {
        self.y as int
    }

    /// Its component along z.
    pub closed spec fn lz(self) -> int {
        self.z as int
    }

    /// The position with the given components.
    pub closed spec fn at(x: int, y: int, z: int) -> LocalPos {
        LocalPos { x: x as u8, y: y as u8, z: z as u8 }
    }

    /// Its flat index.
    pub open spec fn idx(self) -> int {
        cell_index(self.lx(), self.ly(), self.lz())
    }

    /// Every component is below the chunk size.
    #[verifier::type_invariant]
    pub open spec fn wf(self) -> bool {
        &&& 0 <= self.lx() < 32
        &&& 0 <= self.ly() < 32
        &&& 0 <= self.lz() < 32
    }

    /// A local position.
    #[inline]
    pub fn new(x: u8, y: u8, z: u8) -> (r: Self)
        requires
            x < CHUNK_SIZE,
            y < CHUNK_SIZE,
            z < CHUNK_SIZE,
        ensures
            r == LocalPos::at(x as int, y as int, z as int),
            r.lx() == x,
            r.ly() == y,
            r.lz() == z,
    {
        LocalPos { x, y, z }
    }

    #[inline]
    pub fn x(self) -> (r: u8)
        ensures
            r == self.lx(),
            r < 32,
    {
        proof {
            use_type_invariant(&self);
        }
        self.x
    }

    #[inline]
    pub fn y(self) -> (r: u8)
        ensures
            r == self.ly(),
            r < 32,
    {
        proof {
            use_type_invariant(&self);
        }
        self.y
    }

    #[inline]
    pub fn z(self) -> (r: u8)
        ensures
            r == self.lz(),
            r < 32,
    {
        proof {
            use_type_invariant(&self);
        }
        self.z
    }

    /// Flat index into a chunk's block array: `y`-major, so that horizontal
    /// slices are contiguous. The serialized chunk format uses this order too.
    #[inline]
    pub fn index(self) -> (r: usize)
        ensures
            r == self.idx(),
            r < CHUNK_VOLUME,
            self.wf(),
    {
        proof {
            use_type_invariant(&self);
        }
        let x: usize = self.x as usize;
        let y: usize = self.y as usize;
        let z: usize = self.z as usize;
        assert((y << 10u32) | (z << 5u32) | x == y * 1024 + z * 32 + x) by (bit_vector)
            requires
                x < 32,
                y < 32,
                z < 32,
        ;
        (y << (2 * CHUNK_BITS)) | (z << CHUNK_BITS) | x
    }

    /// Inverse of [`LocalPos::index`].
    #[inline]
    pub fn from_index(index: usize) -> (r: Self)
        requires
            index < CHUNK_VOLUME,
        ensures
            r.idx() == index,
            r == LocalPos::at(index as int % 32, index as int / 1024, (index as int / 32) % 32),
            r.lx() == index as int % 32,
            r.lz() == (index as int / 32) % 32,
            r.ly() == index as int / 1024,
    {
        assert(index & 31 == index % 32 && (index >> 5u32) & 31 == (index / 32) % 32 && (index
            >> 10u32) & 31 == index / 1024) by (bit_vector)
            requires
                index < 32768,
        ;
        LocalPos {
            x: (index & (CHUNK_SIZE - 1)) as u8,
            z: ((index >> CHUNK_BITS) & (CHUNK_SIZE - 1)) as u8,
            y: ((index >> (2 * CHUNK_BITS)) & (CHUNK_SIZE - 1)) as u8,
        }
    }

    /// Every position in a chunk, in [`LocalPos::index`] order.
    pub fn iter() -> (r: Vec<LocalPos>)
        ensures
            r.len() == CHUNK_VOLUME,
            forall|i: int| 0 <= i < CHUNK_VOLUME ==> (#[trigger] r[i]).wf() && r[i].idx() == i,
    {
        let mut out: Vec<LocalPos> = Vec::new();
        let mut i: usize = 0;
        while i < CHUNK_VOLUME
            invariant
                i <= CHUNK_VOLUME,
                out.len() == i,
                forall|j: int| 0 <= j < i ==> (#[trigger] out[j]).wf() && out[j].idx() == j,
            decreases CHUNK_VOLUME - i,
        {
            let p = LocalPos::from_index(i);
            proof {
                use_type_invariant(&p);
            }
            out.push(p);
            i += 1;
        }
        out
    }
}

/// A position is determined by its components.
pub broadcast proof fn lemma_local_at(x: int, y: int, z: int)
    requires
        0 <= x < 32,
        0 <= y < 32,
        0 <= z < 32,
    ensures
        (#[trigger] LocalPos::at(x, y, z)).lx() == x,
        LocalPos::at(x, y, z).ly() == y,
        LocalPos::at(x, y, z).lz() == z,
{
}

/// Two positions in range with the same flat index are the same position.
pub proof fn lemma_index_injective(a: LocalPos, b: LocalPos)
    requires
        a.wf(),
        b.wf(),
        a.idx() == b.idx(),
    ensures
        a == b,
{
    assert(a.lx() == a.idx() % 32 && b.lx() == b.idx() % 32);
    assert(a.ly() == a.idx() / 1024 && b.ly() == b.idx() / 1024);
}

/// Splitting a world position into its chunk and the position within it, and
/// putting the two together again, gives the position back.
pub proof fn lemma_split_recompose(p: WorldPos)
    ensures
        p.spec_chunk().spec_world_pos(p.spec_local()) == p,
{
    let c = p.spec_chunk();
    lemma_chunk_base(c.x);
    lemma_chunk_base(c.y);
    lemma_chunk_base(c.z);
}

/// A position put together from a chunk and a local position lies in that
/// chunk, at that place within it.
pub proof fn lemma_recompose_split(c: ChunkPos, l: LocalPos)
    requires
        l.wf(),
        chunk_in_range(c.x as int),
        chunk_in_range(c.y as int),
        chunk_in_range(c.z as int),
    ensures
        c.spec_world_pos(l).spec_chunk() == c,
        c.spec_world_pos(l).spec_local() == l,
{
    lemma_chunk_base(c.x);
    lemma_chunk_base(c.y);
    lemma_chunk_base(c.z);
}

/// A cell or a point.
pub type Point = (int, int, int);

/// The cell in front of a cell: `0:+X 1:-X 2:+Y 3:-Y 4:+Z 5:-Z`.
pub open spec fn in_front(face: int, c: Point) -> Point {
    if face == 0 {
        (c.0 + 1, c.1, c.2)
    } else if face == 1 {
        (c.0 - 1, c.1, c.2)
    } else if face == 2 {
        (c.0, c.1 + 1, c.2)
    } else if face == 3 {
        (c.0, c.1 - 1, c.2)
    } else if face == 4 {
        (c.0, c.1, c.2 + 1)
    } else {
        (c.0, c.1, c.2 - 1)
    }
}

/// The position of a cell in the world, seen from the chunk at `pos`.
pub open spec fn cell_in_world(pos: ChunkPos, x: int, y: int, z: int) -> WorldPos {
    WorldPos {
        x: (pos.x * 32 + x) as i64,
        y: (pos.y * 32 + y) as i64,
        z: (pos.z * 32 + z) as i64,
    }
}

/// A chunk and the ones around it can be named in block coordinates.
pub open spec fn deep_in_range(c: int) -> bool {
    chunk_in_range(c - 1) && chunk_in_range(c + 1)
}

/// A block lies in the chunk whose cells start at 32 times its coordinates, as far
/// into it as its local position says.
pub proof fn lemma_chunk_holds_block(p: WorldPos)
    ensures
        ({
            let c = p.spec_chunk();
            let l = p.spec_local();
            &&& 0 <= l.lx() < 32 && 0 <= l.ly() < 32 && 0 <= l.lz() < 32
            &&& p.x == c.x * 32 + l.lx()
            &&& p.y == c.y * 32 + l.ly()
            &&& p.z == c.z * 32 + l.lz()
        }),
{
    lemma_local_at(p.x as int % 32, p.y as int % 32, p.z as int % 32);
}

/// The flat index counts along x first, then z, then y.
pub proof fn lemma_index_order(x: int, y: int, z: int)
    ensures
        cell_index(0, 0, 0) == 0,
        cell_index(x + 1, y, z) == cell_index(x, y, z) + 1,
        cell_index(x, y, z + 1) == cell_index(x, y, z) + 32,
        cell_index(x, y + 1, z) == cell_index(x, y, z) + 32 * 32,
        0 <= x < 32 && 0 <= y < 32 && 0 <= z < 32 ==> 0 <= cell_index(x, y, z) < 32768,
        cell_index(31, 31, 31) == 32767,
{
}

/// A chunk's origin is its cell with local coordinates 0, and a local position
/// lies that far from it.
pub proof fn lemma_origin_and_local(c: ChunkPos, l: LocalPos)
    requires
        l.wf(),
        chunk_in_range(c.x as int),
        chunk_in_range(c.y as int),
        chunk_in_range(c.z as int),
    ensures
        c.spec_origin().x == c.x * 32 && c.spec_origin().y == c.y * 32 && c.spec_origin().z == c.z
            * 32,
        c.spec_world_pos(l).x == c.x * 32 + l.lx(),
        c.spec_world_pos(l).y == c.y * 32 + l.ly(),
        c.spec_world_pos(l).z == c.z * 32 + l.lz(),
{
    lemma_chunk_base(c.x);
    lemma_chunk_base(c.y);
    lemma_chunk_base(c.z);
}

} // verus!
