//! A chunk with a one-cell ring of neighbour light around it.

use crate::chunk::{Chunk, ChunkView};
use crate::coords::{cell_index, LocalPos, CHUNK_SIZE, CHUNK_VOLUME};
use crate::light::flood::{cell_of, LightVolume};
use crate::light::model::{Cell, Field, Scene};
use crate::registry::BlockRegistry;
use vstd::prelude::*;

verus! {

/// Edge length of the padded volume: the chunk and a cell on either side.
pub const PAD: usize = 34;

/// Cells in the padded volume.
pub const PAD_VOLUME: usize = PAD * PAD * PAD;

/// Light planes from a chunk's six face-neighbours: `planes[face]` is the
/// light of the neighbour cells touching this chunk on that face (the
/// neighbour's opposite face plane), or `None` if that neighbour is not loaded
/// (treated as dark).
///
/// Face order is that of the registry: `0:+X 1:-X 2:+Y 3:-Y 4:+Z 5:-Z`. The
/// in-plane index is `u + v * CHUNK_SIZE`, where `(u, v)` are the two axes
/// along the face in ascending order (X faces: `(y, z)`; Y faces: `(x, z)`;
/// Z faces: `(x, y)`).
pub type NeighborLight = [Option<Vec<u8>>; 6];

/// Six neighbour sky-light planes, shaped as [`NeighborLight`].
pub type NeighborSky = [Option<Vec<u8>>; 6];

/// `c` lies in the chunk, not on the ring.
pub open spec fn inner(c: Cell) -> bool {
    1 <= c.0 <= 32 && 1 <= c.1 <= 32 && 1 <= c.2 <= 32
}

/// `c` lies in the padded volume.
pub open spec fn in_pad(c: Cell) -> bool {
    0 <= c.0 < 34 && 0 <= c.1 < 34 && 0 <= c.2 < 34
}

/// The chunk's flat index of an inner cell.
pub open spec fn chunk_cell(c: Cell) -> int {
    cell_index(c.0 - 1, c.1 - 1, c.2 - 1)
}

/// The padded cell at the chunk's flat index `i`.
pub open spec fn padded_cell(i: int) -> Cell {
    (i % 32 + 1, i / 1024 + 1, i / 32 % 32 + 1)
}

/// The padded volume's flat index.
pub open spec fn pad_index(c: Cell) -> int {
    c.0 + c.1 * 34 + c.2 * 1156
}

/// The cell of the ring at place `(u, v)` of a face.
pub open spec fn ring_cell(face: int, u: int, v: int) -> Cell {
    if face == 0 {
        (33, u + 1, v + 1)
    } else if face == 1 {
        (0, u + 1, v + 1)
    } else if face == 2 {
        (u + 1, 33, v + 1)
    } else if face == 3 {
        (u + 1, 0, v + 1)
    } else if face == 4 {
        (u + 1, v + 1, 33)
    } else {
        (u + 1, v + 1, 0)
    }
}

/// The cell of the chunk at place `(u, v)` of a face.
pub open spec fn rim_cell(face: int, u: int, v: int) -> Cell {
    if face == 0 {
        (32, u + 1, v + 1)
    } else if face == 1 {
        (1, u + 1, v + 1)
    } else if face == 2 {
        (u + 1, 32, v + 1)
    } else if face == 3 {
        (u + 1, 1, v + 1)
    } else if face == 4 {
        (u + 1, v + 1, 32)
    } else {
        (u + 1, v + 1, 1)
    }
}

/// A value on the ring, given for each face and place on it; 0 on the ring's
/// edges and corners, which touch no cell of the chunk.
pub open spec fn ring_value(values: spec_fn(int, int, int) -> int, c: Cell) -> int {
    if c.0 == 33 && 1 <= c.1 <= 32 && 1 <= c.2 <= 32 {
        values(0, c.1 - 1, c.2 - 1)
    } else if c.0 == 0 && 1 <= c.1 <= 32 && 1 <= c.2 <= 32 {
        values(1, c.1 - 1, c.2 - 1)
    } else if c.1 == 33 && 1 <= c.0 <= 32 && 1 <= c.2 <= 32 {
        values(2, c.0 - 1, c.2 - 1)
    } else if c.1 == 0 && 1 <= c.0 <= 32 && 1 <= c.2 <= 32 {
        values(3, c.0 - 1, c.2 - 1)
    } else if c.2 == 33 && 1 <= c.0 <= 32 && 1 <= c.1 <= 32 {
        values(4, c.0 - 1, c.1 - 1)
    } else if c.2 == 0 && 1 <= c.0 <= 32 && 1 <= c.1 <= 32 {
        values(5, c.0 - 1, c.1 - 1)
    } else {
        0
    }
}

/// The neighbour's light at place `(u, v)` of a face.
pub open spec fn plane_value(planes: NeighborLight, face: int, u: int, v: int) -> int {
    match planes@[face] {
        Some(p) => p@[u + v * 32] as int,
        None => 0,
    }
}

/// Every plane that is there covers its face.
pub open spec fn planes_valid(planes: NeighborLight) -> bool {
    forall|f: int|
        0 <= f < 6 ==> (#[trigger] planes@[f] matches Some(p) ==> p.len() == CHUNK_SIZE
            * CHUNK_SIZE)
}

/// The chunk within its ring: its solid blocks are solid, and light spreads
/// into its cells but not along the ring.
pub open spec fn padded_scene(v: ChunkView, registry: BlockRegistry) -> Scene {
    Scene {
        size: (34, 34, 34),
        solid: |c: Cell| inner(c) && registry.solid(v.block(chunk_cell(c))),
        accepts: |c: Cell| inner(c),
    }
}

/// The sources of block light: the blocks' own and the neighbours' light.
pub open spec fn block_sources(
    v: ChunkView,
    registry: BlockRegistry,
    borders: NeighborLight,
) -> Field {
    |c: Cell|
        if inner(c) {
            registry.emits(v.block(chunk_cell(c))) as int
        } else {
            ring_value(|f: int, u: int, w: int| plane_value(borders, f, u, w), c)
        }
}

/// Padded volume: the chunk's cells surrounded by a one-cell border. Center
/// cells read solidity and emission from the chunk and hold writable light;
/// border cells carry neighbour light as emission, so that it floods inward.
pub struct PaddedChunk {
    pub emission: Vec<u8>,
    pub light: Vec<u8>,
    pub solid: Vec<bool>,
}

/// The flat indices of distinct cells differ.
pub(crate) proof fn lemma_pad_index(c: Cell)
    requires
        in_pad(c),
    ensures
        0 <= pad_index(c) < PAD_VOLUME,
        c.0 == pad_index(c) % 34,
        c.1 == pad_index(c) / 34 % 34,
        c.2 == pad_index(c) / 1156,
{
    assert(pad_index(c) / 34 == c.1 + 34 * c.2);
}

pub(crate) fn pad_idx(x: usize, y: usize, z: usize) -> (r: usize)
    requires
        x < PAD,
        y < PAD,
        z < PAD,
    ensures
        r == pad_index(cell_of((x, y, z))),
        r < PAD_VOLUME,
{
    x + y * PAD + z * PAD * PAD
}

/// Padded solidity map for one chunk: the border shell is open, center cells
/// resolve through the registry once.
pub(crate) fn padded_solidity(chunk: &Chunk, registry: &BlockRegistry) -> (solid: Vec<bool>)
    ensures
        solid.len() == PAD_VOLUME,
        forall|c: Cell|
            in_pad(c) ==> solid[#[trigger] pad_index(c)] == (
            padded_scene(chunk@, *registry).solid)(c),
{
    let ghost scene = padded_scene(chunk@, *registry);
    let mut solid: Vec<bool> = Vec::with_capacity(PAD_VOLUME);
    let mut i: usize = 0;
    while i < PAD_VOLUME
        invariant
            i <= PAD_VOLUME,
            scene == padded_scene(chunk@, *registry),
            solid.len() == i,
            forall|c: Cell|
                in_pad(c) && pad_index(c) < i ==> solid[#[trigger] pad_index(c)] == (scene.solid)(
                    c,
                ),
        decreases PAD_VOLUME - i,
    {
        let x: usize = i % PAD;
        let y: usize = i / PAD % PAD;
        let z: usize = i / (PAD * PAD);
        let ghost at = cell_of((x, y, z));
        let s: bool = match PaddedChunk::center_local(x, y, z) {
            Some(pos) => registry.is_solid(chunk.get(pos)),
            None => false,
        };
        solid.push(s);
        assert forall|c: Cell| in_pad(c) && pad_index(c) < i + 1 implies solid[#[trigger] pad_index(
            c,
        )] == (scene.solid)(c) by {
            lemma_pad_index(c);
            if pad_index(c) == i {
                assert(c == at);
            }
        }
        i += 1;
    }
    assert forall|c: Cell| in_pad(c) implies solid[#[trigger] pad_index(c)] == (scene.solid)(
        c,
    ) by {
        lemma_pad_index(c);
    }
    solid
}

/// The chunk's cells and the inner cells correspond.
pub(crate) proof fn lemma_chunk_cell(i: int)
    requires
        0 <= i < CHUNK_VOLUME,
    ensures
        inner(padded_cell(i)),
        chunk_cell(padded_cell(i)) == i,
{
}

impl PaddedChunk {
    pub open spec fn sized(self) -> bool {
        &&& self.emission.len() == PAD_VOLUME
        &&& self.light.len() == PAD_VOLUME
        &&& self.solid.len() == PAD_VOLUME
    }

    /// The chunk with its neighbours' light on the ring.
    pub fn build(
        chunk: &Chunk,
        registry: &BlockRegistry,
        borders: &NeighborLight,
        solid: Vec<bool>,
    ) -> (r: Self)
        requires
            planes_valid(*borders),
            solid.len() == PAD_VOLUME,
            forall|c: Cell|
                in_pad(c) ==> solid[#[trigger] pad_index(c)]
                    == (padded_scene(chunk@, *registry).solid)(c),
        ensures
            r.valid(),
            r.scene() == padded_scene(chunk@, *registry),
            forall|c: Cell|
                r.scene().has(c) ==> #[trigger] r.emits(c) == block_sources(
                    chunk@,
                    *registry,
                    *borders,
                )(c),
    {
        let ghost sources = block_sources(chunk@, *registry, *borders);
        let mut emission: Vec<u8> = Vec::with_capacity(PAD_VOLUME);
        let mut i: usize = 0;
        while i < PAD_VOLUME
            invariant
                i <= PAD_VOLUME,
                planes_valid(*borders),
                sources == block_sources(chunk@, *registry, *borders),
                emission.len() == i,
                forall|c: Cell|
                    in_pad(c) && pad_index(c) < i ==> emission[#[trigger] pad_index(c)] == sources(
                        c,
                    ),
            decreases PAD_VOLUME - i,
        {
            let x: usize = i % PAD;
            let y: usize = i / PAD % PAD;
            let z: usize = i / (PAD * PAD);
            let ghost at = cell_of((x, y, z));
            let e: u8 = match Self::center_local(x, y, z) {
                Some(pos) => registry.emission(chunk.get(pos)),
                None => ring_light(borders, x, y, z),
            };
            assert(e == sources(at));
            emission.push(e);
            assert forall|c: Cell| in_pad(c) && pad_index(c) < i + 1 implies emission[#[trigger]
            pad_index(c)] == sources(c) by {
                lemma_pad_index(c);
                if pad_index(c) == i {
                    assert(c == at);
                }
            }
            i += 1;
        }
        let light: Vec<u8> = vec![0; PAD_VOLUME];
        let r = PaddedChunk { emission, light, solid };
        assert(r.scene() =~= padded_scene(chunk@, *registry)) by {
            assert forall|c: Cell| #[trigger] (r.scene().solid)(c) == (padded_scene(
                chunk@,
                *registry,
            ).solid)(c) by {
                let p = pad_index(c);
            }
            assert(r.scene().solid =~= padded_scene(chunk@, *registry).solid);
        }
        assert forall|c: Cell| r.scene().has(c) implies #[trigger] r.emits(c) == sources(c) by {
            lemma_pad_index(c);
            assert(emission[pad_index(c)] == sources(c));
        }
        r
    }

    /// Map a padded coordinate to the chunk's position if it is a center cell.
    pub fn center_local(x: usize, y: usize, z: usize) -> (r: Option<LocalPos>)
        ensures
            r is Some == inner(cell_of((x, y, z))),
            r matches Some(p) ==> p.idx() == chunk_cell(cell_of((x, y, z))),
    {
        if 1 <= x && x <= CHUNK_SIZE && 1 <= y && y <= CHUNK_SIZE && 1 <= z && z <= CHUNK_SIZE {
            Some(LocalPos::new((x - 1) as u8, (y - 1) as u8, (z - 1) as u8))
        } else {
            None
        }
    }
}

/// The neighbours' light on the ring.
fn ring_light(planes: &NeighborLight, x: usize, y: usize, z: usize) -> (r: u8)
    requires
        planes_valid(*planes),
        x < PAD,
        y < PAD,
        z < PAD,
    ensures
        r == ring_value(
            |f: int, u: int, w: int| plane_value(*planes, f, u, w),
            cell_of((x, y, z)),
        ),
{
    let n: usize = CHUNK_SIZE;
    let in_x: bool = 1 <= x && x <= n;
    let in_y: bool = 1 <= y && y <= n;
    let in_z: bool = 1 <= z && z <= n;
    if x == n + 1 && in_y && in_z {
        plane_light(planes, 0, y - 1, z - 1)
    } else if x == 0 && in_y && in_z {
        plane_light(planes, 1, y - 1, z - 1)
    } else if y == n + 1 && in_x && in_z {
        plane_light(planes, 2, x - 1, z - 1)
    } else if y == 0 && in_x && in_z {
        plane_light(planes, 3, x - 1, z - 1)
    } else if z == n + 1 && in_x && in_y {
        plane_light(planes, 4, x - 1, y - 1)
    } else if z == 0 && in_x && in_y {
        plane_light(planes, 5, x - 1, y - 1)
    } else {
        0
    }
}

/// The neighbour's light at one place of a face; dark if it is not loaded.
pub(crate) fn plane_light(planes: &NeighborLight, face: usize, u: usize, v: usize) -> (r: u8)
    requires
        planes_valid(*planes),
        face < 6,
        u < CHUNK_SIZE,
        v < CHUNK_SIZE,
    ensures
        r == plane_value(*planes, face as int, u as int, v as int),
{
    let slot = &planes[face];
    assert(*slot == planes@[face as int]);
    match slot {
        Some(plane) => plane[u + v * CHUNK_SIZE],
        None => 0,
    }
}

impl LightVolume for PaddedChunk {
    open spec fn valid(&self) -> bool {
        self.sized()
    }

    open spec fn scene(&self) -> Scene {
        Scene {
            size: (34, 34, 34),
            solid: |c: Cell| inner(c) && self.solid[pad_index(c)],
            accepts: |c: Cell| inner(c),
        }
    }

    open spec fn emits(&self, c: Cell) -> u8 {
        self.emission[pad_index(c)]
    }

    open spec fn level(&self, c: Cell) -> u8 {
        self.light[pad_index(c)]
    }

    fn dims(&self) -> [usize; 3] {
        [PAD, PAD, PAD]
    }

    fn is_solid(&self, x: usize, y: usize, z: usize) -> bool {
        Self::center_local(x, y, z).is_some() && self.solid[pad_idx(x, y, z)]
    }

    fn emission(&self, x: usize, y: usize, z: usize) -> u8 {
        self.emission[pad_idx(x, y, z)]
    }

    fn get_light(&self, x: usize, y: usize, z: usize) -> u8 {
        self.light[pad_idx(x, y, z)]
    }

    fn set_light(&mut self, x: usize, y: usize, z: usize, level: u8) {
        let ghost before = *self;
        let p: usize = pad_idx(x, y, z);
        self.light[p] = level;
        assert forall|c: Cell| before.scene().has(c) implies #[trigger] self.level(c) == (if c
            == cell_of((x, y, z)) {
            level
        } else {
            before.level(c)
        }) by {
            lemma_pad_index(c);
            lemma_pad_index(cell_of((x, y, z)));
        }
        assert(self.scene() == before.scene());
    }

    fn accepts_spread(&self, x: usize, y: usize, z: usize) -> bool {
        Self::center_local(x, y, z).is_some()
    }
}

} // verus!
