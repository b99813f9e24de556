//! The meshers.

use crate::block::BlockId;
use crate::chunk::Chunk;
use crate::coords::{cell_index, LocalPos, CHUNK_VOLUME};
use crate::mesh::input::{
    in_view, shown_block, shown_cell, shown_light, ChunkNeighbors, MeshInput,
};
use vstd::prelude::*;

verus! {

/// The cell at place `(s, u, v)` of a face direction: `s` along the face's
/// axis, `u` and `v` along the two in-plane axes. Faces are
/// `0:+X 1:-X 2:+Y 3:-Y 4:+Z 5:-Z`, and `u`, `v` are chosen so that `u x v` is
/// the outward normal (see [`lemma_winding`]).
pub open spec fn plane_cell(face: int, s: int, u: int, v: int) -> (int, int, int) {
    if face == 0 {
        (s, u, v)
    } else if face == 1 {
        (s, v, u)
    } else if face == 2 {
        (v, s, u)
    } else if face == 3 {
        (u, s, v)
    } else if face == 4 {
        (u, v, s)
    } else {
        (v, u, s)
    }
}

/// Which way a face looks along its axis.
pub open spec fn outward(face: int) -> int {
    if face % 2 == 0 {
        1
    } else {
        -1
    }
}

fn cell_on_plane(face: usize, s: i32, u: i32, v: i32) -> (r: (i32, i32, i32))
    ensures
        (r.0 as int, r.1 as int, r.2 as int) == plane_cell(
            face as int,
            s as int,
            u as int,
            v as int,
        ),
{
    match face {
        0 => (s, u, v),
        1 => (s, v, u),
        2 => (v, s, u),
        3 => (u, s, v),
        4 => (u, v, s),
        _ => (v, u, s),
    }
}

/// What decides whether faces may merge: the block, and for each corner the sum
/// of its four light samples and its ambient-occlusion level.
#[derive(Debug, Clone, Copy, PartialEq, Eq, Structural)]
pub struct FaceKey {
    pub block: BlockId,
    pub s0: u16,
    pub s1: u16,
    pub s2: u16,
    pub s3: u16,
    pub a0: u8,
    pub a1: u8,
    pub a2: u8,
    pub a3: u8,
}

impl MeshInput {
    /// The block at a place of a face direction.
    pub open spec fn block_on(self, face: int, s: int, u: int, v: int) -> BlockId {
        let c = plane_cell(face, s, u, v);
        self.block_at(c.0, c.1, c.2)
    }

    /// The light at a place of a face direction.
    pub open spec fn light_on(self, face: int, s: int, u: int, v: int) -> int {
        let c = plane_cell(face, s, u, v);
        self.light_at(c.0, c.1, c.2) as int
    }

    /// The face of a block is seen: the cell in front of it is air.
    pub open spec fn visible(self, face: int, s: int, u: int, v: int) -> bool {
        &&& self.block_on(face, s, u, v).0 != 0
        &&& self.block_on(face, s + outward(face), u, v).0 == 0
    }

    /// The light of a corner, times four: the sum over the four cells in front
    /// of the face that touch the corner, `du` and `dv` (-1 or 1) telling which
    /// corner it is.
    pub open spec fn corner_sum(self, face: int, s: int, u: int, v: int, du: int, dv: int) -> int {
        let f = s + outward(face);
        self.light_on(face, f, u, v) + self.light_on(face, f, u + du, v) + self.light_on(
            face,
            f,
            u,
            v + dv,
        ) + self.light_on(face, f, u + du, v + dv)
    }

    /// 1 if the cell in front of the face, moved by `(du, dv)`, is not air.
    pub open spec fn occludes(self, face: int, s: int, u: int, v: int, du: int, dv: int) -> int {
        if self.block_on(face, s + outward(face), u + du, v + dv).0 != 0 {
            1
        } else {
            0
        }
    }

    /// Ambient occlusion of a corner, from 3 (none) to 0 (darkest): a corner
    /// with both side cells occupied is darkest, else each occupied cell of the
    /// three around it takes one off.
    pub open spec fn corner_level(self, face: int, s: int, u: int, v: int, du: int, dv: int) -> int {
        let side1 = self.occludes(face, s, u, v, du, 0);
        let side2 = self.occludes(face, s, u, v, 0, dv);
        if side1 == 1 && side2 == 1 {
            0
        } else {
            3 - (side1 + side2 + self.occludes(face, s, u, v, du, dv))
        }
    }

    /// The key of a face. Corners go round in the order `(0,0) (1,0) (1,1)
    /// (0,1)` in `(u, v)`.
    pub open spec fn key_on(self, face: int, s: int, u: int, v: int) -> FaceKey {
        FaceKey {
            block: self.block_on(face, s, u, v),
            s0: self.corner_sum(face, s, u, v, -1, -1) as u16,
            s1: self.corner_sum(face, s, u, v, 1, -1) as u16,
            s2: self.corner_sum(face, s, u, v, 1, 1) as u16,
            s3: self.corner_sum(face, s, u, v, -1, 1) as u16,
            a0: self.corner_level(face, s, u, v, -1, -1) as u8,
            a1: self.corner_level(face, s, u, v, 1, -1) as u8,
            a2: self.corner_level(face, s, u, v, 1, 1) as u8,
            a3: self.corner_level(face, s, u, v, -1, 1) as u8,
        }
    }

    /// The key of a face if it is seen.
    pub open spec fn face_key(self, face: int, s: int, u: int, v: int) -> Option<FaceKey> {
        if self.visible(face, s, u, v) {
            Some(self.key_on(face, s, u, v))
        } else {
            None
        }
    }
}

/// The place is one of the chunk's faces.
pub open spec fn in_slice(face: int, s: int, u: int, v: int) -> bool {
    0 <= face < 6 && 0 <= s < 32 && 0 <= u < 32 && 0 <= v < 32
}

/// The light of a cell in front of a face.
fn sample(input: &MeshInput, face: usize, f: i32, u: i32, v: i32) -> (r: u16)
    requires
        in_view(f as int, u as int, v as int),
    ensures
        r == input.light_on(face as int, f as int, u as int, v as int),
        r <= 15,
{
    let c = cell_on_plane(face, f, u, v);
    input.light(c.0, c.1, c.2) as u16
}

/// 1 if a cell in front of a face is not air.
fn occupied(input: &MeshInput, face: usize, f: i32, u: i32, v: i32) -> (r: u8)
    requires
        in_view(f as int, u as int, v as int),
    ensures
        r == (if input.block_on(face as int, f as int, u as int, v as int).0 != 0 {
            1u8
        } else {
            0
        }),
{
    let c = cell_on_plane(face, f, u, v);
    if input.is_air(c.0, c.1, c.2) {
        0
    } else {
        1
    }
}

/// The cell in front of a face, along its axis.
fn front_of(face: usize, s: i32) -> (f: i32)
    requires
        0 <= s < 32,
    ensures
        f == s + outward(face as int),
        -1 <= f <= 32,
{
    if face % 2 == 0 {
        s + 1
    } else {
        s - 1
    }
}

/// Smooth light of the four corners of a face, times four, in the order
/// `(0,0) (1,0) (1,1) (0,1)`. Each corner takes the four cells in front of the
/// face that touch it, which gives gradients across the face.
pub fn corner_light_sums(input: &MeshInput, face: usize, s: i32, u: i32, v: i32) -> (r: [u16; 4])
    requires
        in_slice(face as int, s as int, u as int, v as int),
    ensures
        r@[0] == input.corner_sum(face as int, s as int, u as int, v as int, -1, -1),
        r@[1] == input.corner_sum(face as int, s as int, u as int, v as int, 1, -1),
        r@[2] == input.corner_sum(face as int, s as int, u as int, v as int, 1, 1),
        r@[3] == input.corner_sum(face as int, s as int, u as int, v as int, -1, 1),
        r@[0] <= 60,
        r@[1] <= 60,
        r@[2] <= 60,
        r@[3] <= 60,
{
    let f: i32 = front_of(face, s);
    let a: u16 = sample(input, face, f, u, v);
    let left: u16 = sample(input, face, f, u - 1, v);
    let right: u16 = sample(input, face, f, u + 1, v);
    let down: u16 = sample(input, face, f, u, v - 1);
    let up: u16 = sample(input, face, f, u, v + 1);
    let left_down: u16 = sample(input, face, f, u - 1, v - 1);
    let right_down: u16 = sample(input, face, f, u + 1, v - 1);
    let right_up: u16 = sample(input, face, f, u + 1, v + 1);
    let left_up: u16 = sample(input, face, f, u - 1, v + 1);
    [
        a + left + down + left_down,
        a + right + down + right_down,
        a + right + up + right_up,
        a + left + up + left_up,
    ]
}

/// The occlusion level of a corner with the given occupied cells around it.
fn ao_level(side1: u8, side2: u8, corner: u8) -> (r: u8)
    requires
        side1 <= 1,
        side2 <= 1,
        corner <= 1,
    ensures
        r == (if side1 == 1 && side2 == 1 {
            0
        } else {
            3 - (side1 + side2 + corner)
        }),
        r <= 3,
{
    if side1 == 1 && side2 == 1 {
        0
    } else {
        3 - (side1 + side2 + corner)
    }
}

/// Ambient occlusion of the four corners of a face, in the order
/// `(0,0) (1,0) (1,1) (0,1)`. Independent of light: a corner tucked into solid
/// geometry darkens even under full daylight.
pub fn corner_ao(input: &MeshInput, face: usize, s: i32, u: i32, v: i32) -> (r: [u8; 4])
    requires
        in_slice(face as int, s as int, u as int, v as int),
    ensures
        r@[0] == input.corner_level(face as int, s as int, u as int, v as int, -1, -1),
        r@[1] == input.corner_level(face as int, s as int, u as int, v as int, 1, -1),
        r@[2] == input.corner_level(face as int, s as int, u as int, v as int, 1, 1),
        r@[3] == input.corner_level(face as int, s as int, u as int, v as int, -1, 1),
        r@[0] <= 3,
        r@[1] <= 3,
        r@[2] <= 3,
        r@[3] <= 3,
{
    let f: i32 = front_of(face, s);
    let left: u8 = occupied(input, face, f, u - 1, v);
    let right: u8 = occupied(input, face, f, u + 1, v);
    let down: u8 = occupied(input, face, f, u, v - 1);
    let up: u8 = occupied(input, face, f, u, v + 1);
    let left_down: u8 = occupied(input, face, f, u - 1, v - 1);
    let right_down: u8 = occupied(input, face, f, u + 1, v - 1);
    let right_up: u8 = occupied(input, face, f, u + 1, v + 1);
    let left_up: u8 = occupied(input, face, f, u - 1, v + 1);
    [
        ao_level(left, down, left_down),
        ao_level(right, down, right_down),
        ao_level(right, up, right_up),
        ao_level(left, up, left_up),
    ]
}

/// The key of a face, or `None` if it is not seen.
fn key_of_face(input: &MeshInput, face: usize, s: i32, u: i32, v: i32) -> (r: Option<FaceKey>)
    requires
        in_slice(face as int, s as int, u as int, v as int),
    ensures
        r == input.face_key(face as int, s as int, u as int, v as int),
{
    let c = cell_on_plane(face, s, u, v);
    let block = input.block(c.0, c.1, c.2);
    if block.is_air() {
        return None;
    }
    let f: i32 = front_of(face, s);
    if occupied(input, face, f, u, v) == 1 {
        return None;
    }
    let sums = corner_light_sums(input, face, s, u, v);
    let ao = corner_ao(input, face, s, u, v);
    Some(
        FaceKey {
            block,
            s0: sums[0],
            s1: sums[1],
            s2: sums[2],
            s3: sums[3],
            a0: ao[0],
            a1: ao[1],
            a2: ao[2],
            a3: ao[3],
        },
    )
}

/// One axis-aligned rectangle of `w` x `h` equal faces.
#[derive(Debug, Clone, Copy, PartialEq, Eq, Structural)]
pub struct Quad {
    /// Face direction.
    pub face: usize,
    /// Slice of the chunk along the face's axis.
    pub slice: usize,
    /// First face along u and v.
    pub u0: usize,
    pub v0: usize,
    /// Faces along u and v.
    pub w: usize,
    pub h: usize,
    /// What its faces look like.
    pub key: FaceKey,
    /// Texture-array layer.
    pub layer: u32,
}

impl Quad {
    /// The quad covers a face.
    pub open spec fn has(self, face: int, s: int, u: int, v: int) -> bool {
        &&& self.face == face
        &&& self.slice == s
        &&& self.u0 <= u < self.u0 + self.w
        &&& self.v0 <= v < self.v0 + self.h
    }

    /// It is a rectangle within the chunk.
    pub open spec fn in_chunk(self) -> bool {
        &&& self.face < 6
        &&& self.slice < 32
        &&& 1 <= self.w && self.u0 + self.w <= 32
        &&& 1 <= self.h && self.v0 + self.h <= 32
    }

    /// The plane it lies in, along its axis: positive faces sit at the far side
    /// of their cells.
    pub open spec fn plane(self) -> int {
        if self.face % 2 == 0 {
            self.slice + 1
        } else {
            self.slice as int
        }
    }

    /// Its corners in the order `(0,0) (w,0) (w,h) (0,h)`, which goes round
    /// counter-clockwise seen from outside.
    pub open spec fn corner(self, k: int) -> (int, int, int) {
        let du = if k == 1 || k == 2 {
            self.w as int
        } else {
            0
        };
        let dv = if k == 2 || k == 3 {
            self.h as int
        } else {
            0
        };
        plane_cell(self.face as int, self.plane(), self.u0 + du, self.v0 + dv)
    }

    /// The position of corner `k` and its texture coordinates, which run from 0
    /// to `w` and 0 to `h`, so that the texture tiles across the quad.
    pub fn vertex(&self, k: usize) -> (r: ((i32, i32, i32), (u32, u32)))
        requires
            self.in_chunk(),
            k < 4,
        ensures
            (r.0.0 as int, r.0.1 as int, r.0.2 as int) == self.corner(k as int),
            r.1.0 == (if k == 1 || k == 2 {
                self.w as int
            } else {
                0
            }),
            r.1.1 == (if k == 2 || k == 3 {
                self.h as int
            } else {
                0
            }),
    {
        let du: usize = if k == 1 || k == 2 {
            self.w
        } else {
            0
        };
        let dv: usize = if k == 2 || k == 3 {
            self.h
        } else {
            0
        };
        let plane: usize = if self.face % 2 == 0 {
            self.slice + 1
        } else {
            self.slice
        };
        let c = cell_on_plane(
            self.face,
            plane as i32,
            (self.u0 + du) as i32,
            (self.v0 + dv) as i32,
        );
        (c, (du as u32, dv as u32))
    }

    /// The light sums of its corners.
    pub fn sums(&self) -> (r: [u16; 4])
        ensures
            r@ == seq![self.key.s0, self.key.s1, self.key.s2, self.key.s3],
    {
        let r: [u16; 4] = [self.key.s0, self.key.s1, self.key.s2, self.key.s3];
        assert(r@ =~= seq![self.key.s0, self.key.s1, self.key.s2, self.key.s3]);
        r
    }

    /// The occlusion levels of its corners.
    pub fn ao(&self) -> (r: [u8; 4])
        ensures
            r@ == seq![self.key.a0, self.key.a1, self.key.a2, self.key.a3],
    {
        let r: [u8; 4] = [self.key.a0, self.key.a1, self.key.a2, self.key.a3];
        assert(r@ =~= seq![self.key.a0, self.key.a1, self.key.a2, self.key.a3]);
        r
    }
}

/// The two triangles of a quad whose corners are the vertices from `base` on:
/// cut along the diagonal from corner 0 to 2, or, flipped, from 1 to 3.
pub fn quad_indices(base: u32, flip: bool) -> (r: [u32; 6])
    requires
        base + 3 <= u32::MAX,
    ensures
        r@ == (if flip {
            seq![
                (base + 1) as u32,
                (base + 2) as u32,
                (base + 3) as u32,
                (base + 1) as u32,
                (base + 3) as u32,
                base,
            ]
        } else {
            seq![
                base,
                (base + 1) as u32,
                (base + 2) as u32,
                base,
                (base + 2) as u32,
                (base + 3) as u32,
            ]
        }),
{
    let r: [u32; 6] = if flip {
        [base + 1, base + 2, base + 3, base + 1, base + 3, base]
    } else {
        [base, base + 1, base + 2, base, base + 2, base + 3]
    };
    assert(r@ =~= (if flip {
        seq![
            (base + 1) as u32,
            (base + 2) as u32,
            (base + 3) as u32,
            (base + 1) as u32,
            (base + 3) as u32,
            base,
        ]
    } else {
        seq![
            base,
            (base + 1) as u32,
            (base + 2) as u32,
            base,
            (base + 2) as u32,
            (base + 3) as u32,
        ]
    }));
    r
}

/// The cross product.
pub open spec fn cross(a: (int, int, int), b: (int, int, int)) -> (int, int, int) {
    (a.1 * b.2 - a.2 * b.1, a.2 * b.0 - a.0 * b.2, a.0 * b.1 - a.1 * b.0)
}

/// Going round a face's corners turns counter-clockwise seen from outside: the
/// in-plane axes and the outward normal are right-handed, for every face.
pub proof fn lemma_winding(face: int)
    requires
        0 <= face < 6,
    ensures
        cross(plane_cell(face, 0, 1, 0), plane_cell(face, 0, 0, 1)) == plane_cell(
            face,
            outward(face),
            0,
            0,
        ),
{
}

/// A list of quads.
#[derive(Debug)]
pub struct MeshData {
    pub quads: Vec<Quad>,
}

impl Default for MeshData {
    fn default() -> (r: Self)
        ensures
            r.quads.len() == 0,
    {
        MeshData { quads: Vec::new() }
    }
}

impl MeshData {
    pub fn is_empty(&self) -> (r: bool)
        ensures
            r == (self.quads.len() == 0),
    {
        self.quads.len() == 0
    }

    pub fn quad_count(&self) -> (r: usize)
        ensures
            r == self.quads.len(),
    {
        self.quads.len()
    }
}

/// Some quad of the list covers the face.
pub open spec fn covered(quads: Seq<Quad>, face: int, s: int, u: int, v: int) -> bool {
    exists|k: int| 0 <= k < quads.len() && #[trigger] quads[k].has(face, s, u, v)
}

/// The quads cover the visible faces and nothing else, each face once, and look
/// as their faces do.
pub open spec fn covers_once(input: MeshInput, quads: Seq<Quad>) -> bool {
    &&& forall|k: int| 0 <= k < quads.len() ==> (#[trigger] quads[k]).in_chunk()
    &&& forall|k: int, face: int, s: int, u: int, v: int|
        0 <= k < quads.len() && #[trigger] quads[k].has(face, s, u, v) ==> input.face_key(
            face,
            s,
            u,
            v,
        ) == Some(quads[k].key)
    &&& forall|face: int, s: int, u: int, v: int|
        in_slice(face, s, u, v) && #[trigger] input.visible(face, s, u, v) ==> covered(
            quads,
            face,
            s,
            u,
            v,
        )
    &&& forall|j: int, k: int, face: int, s: int, u: int, v: int|
        0 <= j < quads.len() && 0 <= k < quads.len() && #[trigger] quads[j].has(face, s, u, v)
            && #[trigger] quads[k].has(face, s, u, v) ==> j == k
}

/// Every quad has a layer that the query gave for its block and face.
pub open spec fn layers_given<F: Fn(BlockId, usize) -> u32>(layer_of: F, quads: Seq<Quad>) -> bool {
    forall|k: int|
        0 <= k < quads.len() ==> call_ensures(
            layer_of,
            ((#[trigger] quads[k]).key.block, quads[k].face),
            quads[k].layer,
        )
}

/// The place of a face in the order of [`mesh_chunk_naive`]: by cell, then by
/// face.
pub open spec fn face_rank(face: int, s: int, u: int, v: int) -> int {
    let c = plane_cell(face, s, u, v);
    cell_index(c.0, c.1, c.2) * 6 + face
}

/// One quad per visible face, in order.
pub open spec fn is_naive(input: MeshInput, quads: Seq<Quad>) -> bool {
    &&& forall|k: int|
        0 <= k < quads.len() ==> (#[trigger] quads[k]).in_chunk() && quads[k].w == 1 && quads[k].h
            == 1
    &&& forall|i: int, j: int|
        0 <= i < j < quads.len() ==> quad_rank(#[trigger] quads[i]) < quad_rank(
            #[trigger] quads[j],
        )
    &&& covers_once(input, quads)
}

/// The place of a quad's first face in that order.
pub open spec fn quad_rank(q: Quad) -> int {
    face_rank(q.face as int, q.slice as int, q.u0 as int, q.v0 as int)
}

proof fn lemma_rank_injective(f: int, s: int, u: int, v: int, g: int, t: int, a: int, b: int)
    requires
        in_slice(f, s, u, v),
        in_slice(g, t, a, b),
        face_rank(f, s, u, v) == face_rank(g, t, a, b),
    ensures
        f == g && s == t && u == a && v == b,
{
    let c = plane_cell(f, s, u, v);
    let d = plane_cell(g, t, a, b);
    let i = cell_index(c.0, c.1, c.2);
    let j = cell_index(d.0, d.1, d.2);
    assert(i == j && f == g);
    lemma_index_injective(c, d);
}

/// A cell is known by its index.
proof fn lemma_index_injective(c: (int, int, int), d: (int, int, int))
    requires
        0 <= c.0 < 32 && 0 <= c.1 < 32 && 0 <= c.2 < 32,
        0 <= d.0 < 32 && 0 <= d.1 < 32 && 0 <= d.2 < 32,
        cell_index(c.0, c.1, c.2) == cell_index(d.0, d.1, d.2),
    ensures
        c == d,
{
    let i = cell_index(c.0, c.1, c.2);
    assert(c.0 == i % 32 && d.0 == i % 32);
    assert(c.1 == i / 1024 && d.1 == i / 1024);
}

/// The place of a cell in a face direction.
fn place_on_plane(face: usize, x: i32, y: i32, z: i32) -> (r: (i32, i32, i32))
    requires
        face < 6,
    ensures
        plane_cell(face as int, r.0 as int, r.1 as int, r.2 as int) == (
            x as int,
            y as int,
            z as int,
        ),
{
    match face {
        0 => (x, y, z),
        1 => (x, z, y),
        2 => (y, z, x),
        3 => (y, x, z),
        4 => (z, x, y),
        _ => (z, y, x),
    }
}

/// The unit quads of the faces before `bound` are listed.
spec fn naive_upto(input: MeshInput, quads: Seq<Quad>, bound: int) -> bool {
    &&& forall|k: int|
        0 <= k < quads.len() ==> (#[trigger] quads[k]).in_chunk() && quads[k].w == 1 && quads[k].h
            == 1 && quad_rank(quads[k]) < bound && input.face_key(
            quads[k].face as int,
            quads[k].slice as int,
            quads[k].u0 as int,
            quads[k].v0 as int,
        ) == Some(quads[k].key)
    &&& forall|i: int, j: int|
        0 <= i < j < quads.len() ==> quad_rank(#[trigger] quads[i]) < quad_rank(
            #[trigger] quads[j],
        )
    &&& forall|face: int, s: int, u: int, v: int|
        in_slice(face, s, u, v) && #[trigger] input.visible(face, s, u, v) && face_rank(
            face,
            s,
            u,
            v,
        ) < bound ==> covered(quads, face, s, u, v)
}

proof fn lemma_covered_push(quads: Seq<Quad>, q: Quad, face: int, s: int, u: int, v: int)
    ensures
        covered(quads.push(q), face, s, u, v) == (covered(quads, face, s, u, v) || q.has(
            face,
            s,
            u,
            v,
        )),
{
    let next = quads.push(q);
    if covered(quads, face, s, u, v) {
        let k = choose|k: int| 0 <= k < quads.len() && #[trigger] quads[k].has(face, s, u, v);
        assert(next[k].has(face, s, u, v));
    }
    if q.has(face, s, u, v) {
        assert(next[quads.len() as int].has(face, s, u, v));
    }
    if covered(next, face, s, u, v) {
        let k = choose|k: int| 0 <= k < next.len() && #[trigger] next[k].has(face, s, u, v);
        if k < quads.len() {
            assert(quads[k].has(face, s, u, v));
        }
    }
}

/// Every face comes before the end of the order.
proof fn lemma_rank_bound(face: int, s: int, u: int, v: int)
    requires
        in_slice(face, s, u, v),
    ensures
        0 <= face_rank(face, s, u, v) < 196608,
{
    let c = plane_cell(face, s, u, v);
}

/// Of unit quads in order, no two cover a face.
proof fn lemma_ranked_once(quads: Seq<Quad>, j: int, k: int, face: int, s: int, u: int, v: int)
    requires
        0 <= j < quads.len(),
        0 <= k < quads.len(),
        quads[j].w == 1 && quads[j].h == 1,
        quads[k].w == 1 && quads[k].h == 1,
        forall|i: int, j: int|
            0 <= i < j < quads.len() ==> quad_rank(#[trigger] quads[i]) < quad_rank(
                #[trigger] quads[j],
            ),
        quads[j].has(face, s, u, v),
        quads[k].has(face, s, u, v),
    ensures
        j == k,
{
    assert(quad_rank(quads[j]) == quad_rank(quads[k]));
}

proof fn lemma_naive_covers(input: MeshInput, quads: Seq<Quad>)
    requires
        naive_upto(input, quads, 196608),
    ensures
        is_naive(input, quads),
{
    assert forall|k: int, face: int, s: int, u: int, v: int|
        0 <= k < quads.len() && #[trigger] quads[k].has(face, s, u, v) implies input.face_key(
        face,
        s,
        u,
        v,
    ) == Some(quads[k].key) by {
        let q = quads[k];
        assert(q.w == 1 && q.h == 1);
        assert(q.slice == s && q.u0 == u && q.v0 == v);
    }
    assert forall|j: int, k: int, face: int, s: int, u: int, v: int|
        0 <= j < quads.len() && 0 <= k < quads.len() && #[trigger] quads[j].has(face, s, u, v)
            && #[trigger] quads[k].has(face, s, u, v) implies j == k by {
        lemma_ranked_once(quads, j, k, face, s, u, v);
    }
    assert forall|face: int, s: int, u: int, v: int|
        in_slice(face, s, u, v) && #[trigger] input.visible(face, s, u, v) implies covered(
        quads,
        face,
        s,
        u,
        v,
    ) by {
        lemma_rank_bound(face, s, u, v);
    }
}

/// Culled meshing: one quad per block face bordering air.
///
/// `layer_of(block, face)` returns the texture-array layer for that block's
/// given face.
pub fn mesh_chunk_naive<F: Fn(BlockId, usize) -> u32>(
    chunk: &Chunk,
    neighbors: &ChunkNeighbors,
    layer_of: F,
) -> (r: MeshData)
    requires
        forall|b: BlockId, f: usize| f < 6 ==> #[trigger] call_requires(layer_of, (b, f)),
    ensures
        exists|input: MeshInput| #[trigger]
            input.shows(*chunk, *neighbors) && is_naive(input, r.quads@),
        layers_given(layer_of, r.quads@),
{
    let input = MeshInput::build(chunk, neighbors);
    let mut quads: Vec<Quad> = Vec::new();
    if input.all_air() {
        assert forall|face: int, s: int, u: int, v: int| in_slice(face, s, u, v) implies !#[trigger]
        input.visible(face, s, u, v) by {
            let c = plane_cell(face, s, u, v);
            assert(input.block_at(c.0, c.1, c.2) == BlockId(0));
        }
        proof {
            lemma_naive_covers(input, quads@);
        }
        return MeshData { quads };
    }
    let mut i: usize = 0;
    while i < CHUNK_VOLUME
        invariant
            i <= CHUNK_VOLUME,
            forall|b: BlockId, f: usize| f < 6 ==> #[trigger] call_requires(layer_of, (b, f)),
            naive_upto(input, quads@, i * 6),
            layers_given(layer_of, quads@),
        decreases CHUNK_VOLUME - i,
    {
        let pos = LocalPos::from_index(i);
        let x: i32 = pos.x() as i32;
        let y: i32 = pos.y() as i32;
        let z: i32 = pos.z() as i32;
        assert(cell_index(x as int, y as int, z as int) == i);
        let mut face: usize = 0;
        while face < 6
            invariant
                face <= 6,
                i < CHUNK_VOLUME,
                0 <= x < 32,
                0 <= y < 32,
                0 <= z < 32,
                cell_index(x as int, y as int, z as int) == i,
                forall|b: BlockId, f: usize| f < 6 ==> #[trigger] call_requires(layer_of, (b, f)),
                naive_upto(input, quads@, i * 6 + face),
                layers_given(layer_of, quads@),
            decreases 6 - face,
        {
            let (s, u, v) = place_on_plane(face, x, y, z);
            let ghost was = quads@;
            assert(in_slice(face as int, s as int, u as int, v as int));
            assert(face_rank(face as int, s as int, u as int, v as int) == i * 6 + face);
            if let Some(key) = key_of_face(&input, face, s, u, v) {
                let layer: u32 = layer_of(key.block, face);
                let q = Quad {
                    face,
                    slice: s as usize,
                    u0: u as usize,
                    v0: v as usize,
                    w: 1,
                    h: 1,
                    key,
                    layer,
                };
                quads.push(q);
                assert(q.has(face as int, s as int, u as int, v as int));
            }
            proof {
                assert forall|g: int, t: int, a: int, b: int|
                    in_slice(g, t, a, b) && #[trigger] input.visible(g, t, a, b) && face_rank(
                        g,
                        t,
                        a,
                        b,
                    ) < i * 6 + face + 1 implies covered(quads@, g, t, a, b) by {
                    if face_rank(g, t, a, b) == i * 6 + face {
                        lemma_rank_injective(
                            g,
                            t,
                            a,
                            b,
                            face as int,
                            s as int,
                            u as int,
                            v as int,
                        );
                        lemma_covered_push(was, quads@.last(), g, t, a, b);
                    } else {
                        assert(covered(was, g, t, a, b));
                        lemma_covered_push(was, quads@.last(), g, t, a, b);
                    }
                }
            }
            face += 1;
        }
        i += 1;
    }
    proof {
        lemma_naive_covers(input, quads@);
    }
    MeshData { quads }
}

/// The key of a face that is seen and not covered yet.
pub open spec fn open_key(
    input: MeshInput,
    quads: Seq<Quad>,
    face: int,
    s: int,
    u: int,
    v: int,
) -> Option<FaceKey> {
    if covered(quads, face, s, u, v) {
        None
    } else {
        input.face_key(face, s, u, v)
    }
}

/// The face `(f, s, u, v)` comes before `(g, t, a, b)` in the order in which
/// slices are scanned: by direction, slice, `v`, `u`.
pub open spec fn scanned_before(
    f: int,
    s: int,
    u: int,
    v: int,
    g: int,
    t: int,
    a: int,
    b: int,
) -> bool {
    f < g || (f == g && (s < t || (s == t && (v < b || (v == b && u < a)))))
}

/// `q` is the greedy choice after `before`: it starts at the first face that is
/// not covered yet, grows along `u` as far as the faces are equal to it and not
/// covered, and then along `v` as long as whole rows are.
pub open spec fn is_greedy_step(input: MeshInput, before: Seq<Quad>, q: Quad) -> bool {
    let f = q.face as int;
    let s = q.slice as int;
    &&& q.in_chunk()
    &&& forall|g: int, t: int, a: int, b: int|
        in_slice(g, t, a, b) && scanned_before(g, t, a, b, f, s, q.u0 as int, q.v0 as int)
            ==> #[trigger] open_key(input, before, g, t, a, b) is None
    &&& forall|u: int, v: int|
        q.u0 <= u < q.u0 + q.w && q.v0 <= v < q.v0 + q.h ==> #[trigger] open_key(
            input,
            before,
            f,
            s,
            u,
            v,
        ) == Some(q.key)
    &&& q.u0 + q.w == 32 || open_key(input, before, f, s, q.u0 + q.w, q.v0 as int) != Some(q.key)
    &&& q.v0 + q.h == 32 || exists|u: int|
        q.u0 <= u < q.u0 + q.w && #[trigger] open_key(input, before, f, s, u, q.v0 + q.h) != Some(
            q.key,
        )
}

/// Every quad is the greedy choice after those before it, and no visible face
/// is left.
pub open spec fn is_greedy(input: MeshInput, quads: Seq<Quad>) -> bool {
    &&& forall|k: int|
        0 <= k < quads.len() ==> is_greedy_step(input, quads.take(k), #[trigger] quads[k])
    &&& forall|face: int, s: int, u: int, v: int|
        in_slice(face, s, u, v) ==> #[trigger] open_key(input, quads, face, s, u, v) is None
}

/// Greedy quads cover the visible surface, each face once.
pub proof fn lemma_greedy_covers(input: MeshInput, quads: Seq<Quad>)
    requires
        is_greedy(input, quads),
    ensures
        covers_once(input, quads),
{
    assert forall|k: int| 0 <= k < quads.len() implies (#[trigger] quads[k]).in_chunk() by {
        assert(is_greedy_step(input, quads.take(k), quads[k]));
    }
    assert forall|k: int, face: int, s: int, u: int, v: int|
        0 <= k < quads.len() && #[trigger] quads[k].has(face, s, u, v) implies input.face_key(
        face,
        s,
        u,
        v,
    ) == Some(quads[k].key) by {
        assert(is_greedy_step(input, quads.take(k), quads[k]));
        assert(open_key(input, quads.take(k), face, s, u, v) == Some(quads[k].key));
    }
    assert forall|face: int, s: int, u: int, v: int|
        in_slice(face, s, u, v) && #[trigger] input.visible(face, s, u, v) implies covered(
        quads,
        face,
        s,
        u,
        v,
    ) by {
        assert(open_key(input, quads, face, s, u, v) is None);
    }
    assert forall|j: int, k: int, face: int, s: int, u: int, v: int|
        0 <= j < quads.len() && 0 <= k < quads.len() && #[trigger] quads[j].has(face, s, u, v)
            && #[trigger] quads[k].has(face, s, u, v) implies j == k by {
        if j < k {
            lemma_not_recovered(input, quads, j, k, face, s, u, v);
        } else if k < j {
            lemma_not_recovered(input, quads, k, j, face, s, u, v);
        }
    }
}

proof fn lemma_not_recovered(
    input: MeshInput,
    quads: Seq<Quad>,
    j: int,
    k: int,
    face: int,
    s: int,
    u: int,
    v: int,
)
    requires
        is_greedy(input, quads),
        0 <= j < k < quads.len(),
        quads[j].has(face, s, u, v),
    ensures
        !quads[k].has(face, s, u, v),
{
    assert(is_greedy_step(input, quads.take(k), quads[k]));
    assert(quads.take(k)[j].has(face, s, u, v));
    assert(open_key(input, quads.take(k), face, s, u, v) is None);
}

/// The mask holds the faces of a slice that are left.
spec fn mask_holds(
    input: MeshInput,
    quads: Seq<Quad>,
    face: int,
    s: int,
    mask: Seq<Option<FaceKey>>,
) -> bool {
    mask.len() == 1024 && forall|u: int, v: int|
        0 <= u < 32 && 0 <= v < 32 ==> #[trigger] open_key(input, quads, face, s, u, v) == mask[u
            + v * 32]
}

/// No face before a place of the scan is left.
spec fn done_before(input: MeshInput, quads: Seq<Quad>, f: int, s: int, u: int, v: int) -> bool {
    forall|g: int, t: int, a: int, b: int|
        in_slice(g, t, a, b) && scanned_before(g, t, a, b, f, s, u, v) ==> #[trigger] open_key(
            input,
            quads,
            g,
            t,
            a,
            b,
        ) is None
}

/// Every quad so far is the greedy choice.
spec fn greedy_so_far(input: MeshInput, quads: Seq<Quad>) -> bool {
    forall|k: int|
        0 <= k < quads.len() ==> is_greedy_step(input, quads.take(k), #[trigger] quads[k])
}

proof fn lemma_greedy_push(input: MeshInput, quads: Seq<Quad>, q: Quad)
    requires
        greedy_so_far(input, quads),
        is_greedy_step(input, quads, q),
    ensures
        greedy_so_far(input, quads.push(q)),
{
    let next = quads.push(q);
    assert forall|k: int| 0 <= k < next.len() implies is_greedy_step(
        input,
        next.take(k),
        #[trigger] next[k],
    ) by {
        if k < quads.len() {
            assert(next.take(k) =~= quads.take(k));
            assert(next[k] == quads[k]);
        } else {
            assert(next.take(k) =~= quads);
        }
    }
}

/// The mask of the visible faces of a slice.
fn build_mask(input: &MeshInput, face: usize, slice: usize) -> (mask: Vec<Option<FaceKey>>)
    requires
        face < 6,
        slice < 32,
    ensures
        mask.len() == 1024,
        forall|u: int, v: int|
            0 <= u < 32 && 0 <= v < 32 ==> #[trigger] input.face_key(
                face as int,
                slice as int,
                u,
                v,
            ) == mask[u + v * 32],
{
    let mut mask: Vec<Option<FaceKey>> = Vec::with_capacity(1024);
    let mut i: usize = 0;
    while i < 1024
        invariant
            i <= 1024,
            face < 6,
            slice < 32,
            mask.len() == i,
            forall|j: int|
                0 <= j < i ==> #[trigger] mask[j] == input.face_key(
                    face as int,
                    slice as int,
                    j % 32,
                    j / 32,
                ),
        decreases 1024 - i,
    {
        mask.push(key_of_face(input, face, slice as i32, (i % 32) as i32, (i / 32) as i32));
        i += 1;
    }
    assert forall|u: int, v: int| 0 <= u < 32 && 0 <= v < 32 implies #[trigger] input.face_key(
        face as int,
        slice as int,
        u,
        v,
    ) == mask[u + v * 32] by {
        let j = u + v * 32;
        assert(j % 32 == u && j / 32 == v);
    }
    mask
}

/// Whether a place of the mask holds the key.
fn holds_key(mask: &Vec<Option<FaceKey>>, i: usize, key: FaceKey) -> (r: bool)
    requires
        i < mask.len(),
    ensures
        r == (mask[i as int] == Some(key)),
{
    match mask[i] {
        Some(k) => k == key,
        None => false,
    }
}

/// How far equal faces go along `u`.
fn grow_width(mask: &Vec<Option<FaceKey>>, u0: usize, v0: usize, key: FaceKey) -> (w: usize)
    requires
        mask.len() == 1024,
        u0 < 32,
        v0 < 32,
        mask[u0 + v0 * 32] == Some(key),
    ensures
        1 <= w,
        u0 + w <= 32,
        forall|u: int| u0 <= u < u0 + w ==> #[trigger] mask[u + v0 * 32] == Some(key),
        u0 + w == 32 || mask[u0 + w + v0 * 32] != Some(key),
{
    let mut w: usize = 1;
    while u0 + w < 32 && holds_key(mask, u0 + w + v0 * 32, key)
        invariant
            mask.len() == 1024,
            u0 < 32,
            v0 < 32,
            1 <= w,
            u0 + w <= 32,
            forall|u: int| u0 <= u < u0 + w ==> #[trigger] mask[u + v0 * 32] == Some(key),
        decreases 32 - w,
    {
        w += 1;
    }
    w
}

/// Whether `w` places of a row hold the key.
fn row_holds(mask: &Vec<Option<FaceKey>>, u0: usize, v: usize, w: usize, key: FaceKey) -> (r: bool)
    requires
        mask.len() == 1024,
        u0 + w <= 32,
        v < 32,
    ensures
        r == (forall|u: int| u0 <= u < u0 + w ==> #[trigger] mask[u + v * 32] == Some(key)),
{
    let mut du: usize = 0;
    while du < w
        invariant
            du <= w,
            mask.len() == 1024,
            u0 + w <= 32,
            v < 32,
            forall|u: int| u0 <= u < u0 + du ==> #[trigger] mask[u + v * 32] == Some(key),
        decreases w - du,
    {
        if !holds_key(mask, u0 + du + v * 32, key) {
            assert(mask[(u0 + du) as int + v * 32] != Some(key));
            return false;
        }
        du += 1;
    }
    true
}

/// How far whole rows of equal faces go along `v`.
fn grow_height(mask: &Vec<Option<FaceKey>>, u0: usize, v0: usize, w: usize, key: FaceKey) -> (h:
    usize)
    requires
        mask.len() == 1024,
        1 <= w,
        u0 + w <= 32,
        v0 < 32,
        forall|u: int| u0 <= u < u0 + w ==> #[trigger] mask[u + v0 * 32] == Some(key),
    ensures
        1 <= h,
        v0 + h <= 32,
        forall|u: int, v: int|
            u0 <= u < u0 + w && v0 <= v < v0 + h ==> #[trigger] mask[u + v * 32] == Some(key),
        v0 + h == 32 || exists|u: int|
            u0 <= u < u0 + w && #[trigger] mask[u + (v0 + h) * 32] != Some(key),
{
    let mut h: usize = 1;
    while v0 + h < 32 && row_holds(mask, u0, v0 + h, w, key)
        invariant
            mask.len() == 1024,
            1 <= w,
            u0 + w <= 32,
            v0 < 32,
            1 <= h,
            v0 + h <= 32,
            forall|u: int, v: int|
                u0 <= u < u0 + w && v0 <= v < v0 + h ==> #[trigger] mask[u + v * 32] == Some(key),
        decreases 32 - h,
    {
        h += 1;
    }
    h
}

/// Takes a rectangle out of the mask.
fn consume(mask: &mut Vec<Option<FaceKey>>, u0: usize, v0: usize, w: usize, h: usize)
    requires
        old(mask).len() == 1024,
        u0 + w <= 32,
        v0 + h <= 32,
    ensures
        final(mask).len() == 1024,
        forall|u: int, v: int|
            0 <= u < 32 && 0 <= v < 32 ==> #[trigger] final(mask)[u + v * 32] == (if u0 <= u < u0
                + w && v0 <= v < v0 + h {
                None
            } else {
                old(mask)[u + v * 32]
            }),
{
    let ghost was = mask@;
    let mut dv: usize = 0;
    while dv < h
        invariant
            dv <= h,
            mask.len() == 1024,
            u0 + w <= 32,
            v0 + h <= 32,
            forall|u: int, v: int|
                0 <= u < 32 && 0 <= v < 32 ==> #[trigger] mask[u + v * 32] == (if u0 <= u < u0 + w
                    && v0 <= v < v0 + dv {
                    None
                } else {
                    was[u + v * 32]
                }),
        decreases h - dv,
    {
        let mut du: usize = 0;
        while du < w
            invariant
                du <= w,
                dv < h,
                mask.len() == 1024,
                u0 + w <= 32,
                v0 + h <= 32,
                forall|u: int, v: int|
                    0 <= u < 32 && 0 <= v < 32 ==> #[trigger] mask[u + v * 32] == (if (u0 <= u < u0
                        + w && v0 <= v < v0 + dv) || (v == v0 + dv && u0 <= u < u0 + du) {
                        None
                    } else {
                        was[u + v * 32]
                    }),
            decreases w - du,
        {
            let at: usize = u0 + du + (v0 + dv) * 32;
            let ghost mid = mask@;
            mask[at] = None;
            assert forall|u: int, v: int| 0 <= u < 32 && 0 <= v < 32 implies #[trigger] mask[u + v
                * 32] == (if (u0 <= u < u0 + w && v0 <= v < v0 + dv) || (v == v0 + dv && u0 <= u
                < u0 + du + 1) {
                None
            } else {
                was[u + v * 32]
            }) by {
                assert(mid[u + v * 32] == (if (u0 <= u < u0 + w && v0 <= v < v0 + dv) || (v == v0
                    + dv && u0 <= u < u0 + du) {
                    None
                } else {
                    was[u + v * 32]
                }));
                if u + v * 32 == at {
                    assert(u == u0 + du && v == v0 + dv);
                }
            }
            du += 1;
        }
        dv += 1;
    }
}

/// Merges the faces of one slice into rectangles.
fn merge_slice<F: Fn(BlockId, usize) -> u32>(
    input: &MeshInput,
    face: usize,
    slice: usize,
    quads: &mut Vec<Quad>,
    layer_of: &F,
)
    requires
        face < 6,
        slice < 32,
        forall|b: BlockId, f: usize| f < 6 ==> #[trigger] call_requires(*layer_of, (b, f)),
        greedy_so_far(*input, old(quads)@),
        done_before(*input, old(quads)@, face as int, slice as int, 0, 0),
        layers_given(*layer_of, old(quads)@),
        forall|k: int|
            0 <= k < old(quads).len() ==> (#[trigger] old(quads)[k]).face < face || (
            old(quads)[k].face == face && old(quads)[k].slice < slice),
    ensures
        greedy_so_far(*input, final(quads)@),
        done_before(*input, final(quads)@, face as int, slice + 1, 0, 0),
        layers_given(*layer_of, final(quads)@),
        forall|k: int|
            0 <= k < final(quads).len() ==> (#[trigger] final(quads)[k]).face < face || (
            final(quads)[k].face == face && final(quads)[k].slice <= slice),
{
    let ghost f = face as int;
    let ghost s = slice as int;
    let mut mask = build_mask(input, face, slice);
    assert(mask_holds(*input, quads@, f, s, mask@)) by {
        assert forall|u: int, v: int| 0 <= u < 32 && 0 <= v < 32 implies #[trigger] open_key(
            *input,
            quads@,
            f,
            s,
            u,
            v,
        ) == mask[u + v * 32] by {
            assert(input.face_key(f, s, u, v) == mask[u + v * 32]);
        }
    }
    let mut v0: usize = 0;
    while v0 < 32
        invariant
            v0 <= 32,
            face < 6,
            slice < 32,
            f == face,
            s == slice,
            forall|b: BlockId, f: usize| f < 6 ==> #[trigger] call_requires(*layer_of, (b, f)),
            mask_holds(*input, quads@, f, s, mask@),
            greedy_so_far(*input, quads@),
            done_before(*input, quads@, f, s, 0, v0 as int),
            layers_given(*layer_of, quads@),
            forall|k: int|
                0 <= k < quads.len() ==> (#[trigger] quads[k]).face < face || (quads[k].face
                    == face && quads[k].slice <= slice),
        decreases 32 - v0,
    {
        let mut u0: usize = 0;
        while u0 < 32
            invariant
                u0 <= 32,
                v0 < 32,
                face < 6,
                slice < 32,
                f == face,
                s == slice,
                forall|b: BlockId, f: usize| f < 6 ==> #[trigger] call_requires(*layer_of, (b, f)),
                mask_holds(*input, quads@, f, s, mask@),
                greedy_so_far(*input, quads@),
                done_before(*input, quads@, f, s, u0 as int, v0 as int),
                layers_given(*layer_of, quads@),
                forall|k: int|
                    0 <= k < quads.len() ==> (#[trigger] quads[k]).face < face || (quads[k].face
                        == face && quads[k].slice <= slice),
            decreases 32 - u0,
        {
            let ghost was = quads@;
            let ghost mask_was = mask@;
            assert(open_key(*input, quads@, f, s, u0 as int, v0 as int) == mask[u0 + v0 * 32]);
            if let Some(key) = mask[u0 + v0 * 32] {
                let w: usize = grow_width(&mask, u0, v0, key);
                let h: usize = grow_height(&mask, u0, v0, w, key);
                consume(&mut mask, u0, v0, w, h);
                let layer: u32 = layer_of(key.block, face);
                let q = Quad { face, slice, u0, v0, w, h, key, layer };
                proof {
                    assert forall|u: int, v: int|
                        q.u0 <= u < q.u0 + q.w && q.v0 <= v < q.v0 + q.h implies #[trigger] open_key(
                        *input,
                        was,
                        f,
                        s,
                        u,
                        v,
                    ) == Some(key) by {
                        assert(mask_was[u + v * 32] == Some(key));
                    }
                    if u0 + w < 32 {
                        assert(open_key(*input, was, f, s, u0 + w, v0 as int) == mask_was[u0 + w
                            + v0 * 32]);
                    }
                    if v0 + h < 32 {
                        let u = choose|u: int|
                            u0 <= u < u0 + w && #[trigger] mask_was[u + (v0 + h) * 32] != Some(key);
                        assert(open_key(*input, was, f, s, u, v0 + h) == mask_was[u + (v0 + h)
                            * 32]);
                    }
                    assert(is_greedy_step(*input, was, q));
                    lemma_greedy_push(*input, was, q);
                }
                quads.push(q);
                proof {
                    assert forall|u: int, v: int|
                        0 <= u < 32 && 0 <= v < 32 implies #[trigger] open_key(
                        *input,
                        quads@,
                        f,
                        s,
                        u,
                        v,
                    ) == mask[u + v * 32] by {
                        lemma_covered_push(was, q, f, s, u, v);
                        assert(open_key(*input, was, f, s, u, v) == mask_was[u + v * 32]);
                    }
                }
            }
            proof {
                assert forall|g: int, t: int, a: int, b: int|
                    in_slice(g, t, a, b) && scanned_before(
                        g,
                        t,
                        a,
                        b,
                        f,
                        s,
                        u0 + 1,
                        v0 as int,
                    ) implies #[trigger] open_key(*input, quads@, g, t, a, b) is None by {
                    if quads@ != was {
                        lemma_covered_push(was, quads@.last(), g, t, a, b);
                        assert(quads@ =~= was.push(quads@.last()));
                    }
                    if scanned_before(g, t, a, b, f, s, u0 as int, v0 as int) {
                        assert(open_key(*input, was, g, t, a, b) is None);
                    } else {
                        assert(g == f && t == s && a == u0 && b == v0);
                        assert(open_key(*input, quads@, f, s, a, b) == mask[a + b * 32]);
                    }
                }
            }
            u0 += 1;
        }
        assert(done_before(*input, quads@, f, s, 0, v0 + 1)) by {
            assert forall|g: int, t: int, a: int, b: int|
                in_slice(g, t, a, b) && scanned_before(g, t, a, b, f, s, 0, v0 + 1) implies #[trigger]
            open_key(*input, quads@, g, t, a, b) is None by {
                assert(scanned_before(g, t, a, b, f, s, 32, v0 as int));
            }
        }
        v0 += 1;
    }
    assert(done_before(*input, quads@, f, s + 1, 0, 0)) by {
        assert forall|g: int, t: int, a: int, b: int|
            in_slice(g, t, a, b) && scanned_before(g, t, a, b, f, s + 1, 0, 0) implies #[trigger]
        open_key(*input, quads@, g, t, a, b) is None by {
            assert(scanned_before(g, t, a, b, f, s, 0, 32));
        }
    }
}

/// Greedy meshing: for each of the six face directions, sweep the chunk one
/// slice at a time; in each slice merge equal visible faces into rectangles,
/// growing width along u, then height along v. Faces are equal if block, corner
/// light and corner occlusion are.
///
/// Produces the same visible surface as [`mesh_chunk_naive`] with far fewer
/// quads.
pub fn mesh_chunk<F: Fn(BlockId, usize) -> u32>(
    chunk: &Chunk,
    neighbors: &ChunkNeighbors,
    layer_of: F,
) -> (r: MeshData)
    requires
        forall|b: BlockId, f: usize| f < 6 ==> #[trigger] call_requires(layer_of, (b, f)),
    ensures
        exists|input: MeshInput| #[trigger]
            input.shows(*chunk, *neighbors) && is_greedy(input, r.quads@) && covers_once(
                input,
                r.quads@,
            ),
        layers_given(layer_of, r.quads@),
{
    let input = MeshInput::build(chunk, neighbors);
    let mut quads: Vec<Quad> = Vec::new();
    if input.all_air() {
        assert forall|face: int, s: int, u: int, v: int| in_slice(face, s, u, v) implies #[trigger]
        open_key(input, quads@, face, s, u, v) is None by {
            let c = plane_cell(face, s, u, v);
            assert(input.block_at(c.0, c.1, c.2) == BlockId(0));
        }
        proof {
            lemma_greedy_covers(input, quads@);
        }
        return MeshData { quads };
    }
    let mut face: usize = 0;
    while face < 6
        invariant
            face <= 6,
            forall|b: BlockId, f: usize| f < 6 ==> #[trigger] call_requires(layer_of, (b, f)),
            greedy_so_far(input, quads@),
            done_before(input, quads@, face as int, 0, 0, 0),
            layers_given(layer_of, quads@),
            forall|k: int| 0 <= k < quads.len() ==> (#[trigger] quads[k]).face < face,
        decreases 6 - face,
    {
        let mut slice: usize = 0;
        while slice < 32
            invariant
                slice <= 32,
                face < 6,
                forall|b: BlockId, f: usize| f < 6 ==> #[trigger] call_requires(layer_of, (b, f)),
                greedy_so_far(input, quads@),
                done_before(input, quads@, face as int, slice as int, 0, 0),
                layers_given(layer_of, quads@),
                forall|k: int|
                    0 <= k < quads.len() ==> (#[trigger] quads[k]).face < face || (quads[k].face
                        == face && quads[k].slice < slice),
            decreases 32 - slice,
        {
            merge_slice(&input, face, slice, &mut quads, &layer_of);
            slice += 1;
        }
        assert(done_before(input, quads@, face + 1, 0, 0, 0)) by {
            assert forall|g: int, t: int, a: int, b: int|
                in_slice(g, t, a, b) && scanned_before(
                    g,
                    t,
                    a,
                    b,
                    face + 1,
                    0,
                    0,
                    0,
                ) implies #[trigger] open_key(input, quads@, g, t, a, b) is None by {
                assert(scanned_before(g, t, a, b, face as int, 32, 0, 0));
            }
        }
        face += 1;
    }
    proof {
        assert forall|g: int, s: int, u: int, v: int| in_slice(g, s, u, v) implies #[trigger]
        open_key(input, quads@, g, s, u, v) is None by {
            assert(scanned_before(g, s, u, v, 6, 0, 0, 0));
        }
        assert(is_greedy(input, quads@));
        lemma_greedy_covers(input, quads@);
    }
    MeshData { quads }
}

/// The slice of a chunk that lies at a face.
pub open spec fn edge_slice(face: int) -> int {
    if face % 2 == 0 {
        31
    } else {
        0
    }
}

/// The offset of the neighbour across a face.
pub open spec fn face_offset(face: int) -> (int, int, int) {
    plane_cell(face, outward(face), 0, 0)
}

/// A sealed face has no face into the void, and the light in front of it is
/// that of the chunk's own edge: nothing fades toward what is not there.
pub proof fn lemma_sealed_edge(
    input: MeshInput,
    chunk: Chunk,
    neighbors: ChunkNeighbors,
    face: int,
    u: int,
    v: int,
)
    requires
        input.shows(chunk, neighbors),
        in_slice(face, edge_slice(face), u, v),
        ({
            let d = face_offset(face);
            neighbors.chunk_at(d.0, d.1, d.2) is None && neighbors.sealed_at(d.0, d.1, d.2)
        }),
    ensures
        !input.visible(face, edge_slice(face), u, v),
        ({
            let s = edge_slice(face);
            &&& input.light_on(face, s + outward(face), u, v) == input.light_on(face, s, u, v)
            &&& input.block_on(face, s + outward(face), u, v) == input.block_on(face, s, u, v)
        }),
{
    let s = edge_slice(face);
    let c = plane_cell(face, s, u, v);
    let d = plane_cell(face, s + outward(face), u, v);
    assert(in_view(c.0, c.1, c.2) && in_view(d.0, d.1, d.2));
    assert(input.block_at(c.0, c.1, c.2) == shown_block(chunk, neighbors, c.0, c.1, c.2));
    assert(input.block_at(d.0, d.1, d.2) == shown_block(chunk, neighbors, d.0, d.1, d.2));
    assert(input.light_at(c.0, c.1, c.2) == shown_light(chunk, neighbors, c.0, c.1, c.2));
    assert(input.light_at(d.0, d.1, d.2) == shown_light(chunk, neighbors, d.0, d.1, d.2));
    assert(shown_cell(chunk, neighbors, c.0, c.1, c.2) == shown_cell(
        chunk,
        neighbors,
        d.0,
        d.1,
        d.2,
    ));
}

/// Two snapshots of a chunk and its neighbours agree at every place.
proof fn lemma_same_place(
    a: MeshInput,
    b: MeshInput,
    chunk: Chunk,
    neighbors: ChunkNeighbors,
    face: int,
    s: int,
    u: int,
    v: int,
)
    requires
        a.shows(chunk, neighbors),
        b.shows(chunk, neighbors),
        0 <= face < 6,
        in_view(s, u, v),
    ensures
        a.block_on(face, s, u, v) == b.block_on(face, s, u, v),
        a.light_on(face, s, u, v) == b.light_on(face, s, u, v),
{
    let c = plane_cell(face, s, u, v);
    assert(in_view(c.0, c.1, c.2));
    assert(a.block_at(c.0, c.1, c.2) == b.block_at(c.0, c.1, c.2));
    assert(a.light_at(c.0, c.1, c.2) == b.light_at(c.0, c.1, c.2));
}

/// And so do the light and the occlusion of every corner.
proof fn lemma_same_corner(
    a: MeshInput,
    b: MeshInput,
    chunk: Chunk,
    neighbors: ChunkNeighbors,
    face: int,
    s: int,
    u: int,
    v: int,
    du: int,
    dv: int,
)
    requires
        a.shows(chunk, neighbors),
        b.shows(chunk, neighbors),
        in_slice(face, s, u, v),
        -1 <= du <= 1,
        -1 <= dv <= 1,
    ensures
        a.corner_sum(face, s, u, v, du, dv) == b.corner_sum(face, s, u, v, du, dv),
        a.corner_level(face, s, u, v, du, dv) == b.corner_level(face, s, u, v, du, dv),
{
    let f = s + outward(face);
    lemma_same_place(a, b, chunk, neighbors, face, f, u, v);
    lemma_same_place(a, b, chunk, neighbors, face, f, u + du, v);
    lemma_same_place(a, b, chunk, neighbors, face, f, u, v + dv);
    lemma_same_place(a, b, chunk, neighbors, face, f, u + du, v + dv);
    assert(u + 0 == u && v + 0 == v);
}

/// A chunk and its neighbours determine what is seen of every face.
pub proof fn lemma_surface_determined(
    a: MeshInput,
    b: MeshInput,
    chunk: Chunk,
    neighbors: ChunkNeighbors,
    face: int,
    s: int,
    u: int,
    v: int,
)
    requires
        a.shows(chunk, neighbors),
        b.shows(chunk, neighbors),
        in_slice(face, s, u, v),
    ensures
        a.face_key(face, s, u, v) == b.face_key(face, s, u, v),
{
    lemma_same_place(a, b, chunk, neighbors, face, s, u, v);
    lemma_same_place(a, b, chunk, neighbors, face, s + outward(face), u, v);
    lemma_same_corner(a, b, chunk, neighbors, face, s, u, v, -1, -1);
    lemma_same_corner(a, b, chunk, neighbors, face, s, u, v, 1, -1);
    lemma_same_corner(a, b, chunk, neighbors, face, s, u, v, 1, 1);
    lemma_same_corner(a, b, chunk, neighbors, face, s, u, v, -1, 1);
}

/// The two meshers show the same surface: a face is covered by the quads of one
/// iff it is by those of the other, and looks the same.
pub proof fn lemma_same_surface(
    input: MeshInput,
    a: Seq<Quad>,
    b: Seq<Quad>,
    j: int,
    k: int,
    face: int,
    s: int,
    u: int,
    v: int,
)
    requires
        covers_once(input, a),
        covers_once(input, b),
    ensures
        covered(a, face, s, u, v) == covered(b, face, s, u, v),
        0 <= j < a.len() && 0 <= k < b.len() && a[j].has(face, s, u, v) && b[k].has(face, s, u, v)
            ==> a[j].key == b[k].key,
{
    if covered(a, face, s, u, v) {
        let i = choose|i: int| 0 <= i < a.len() && #[trigger] a[i].has(face, s, u, v);
        assert(a[i].in_chunk());
        assert(input.face_key(face, s, u, v) == Some(a[i].key));
        assert(input.visible(face, s, u, v));
    }
    if covered(b, face, s, u, v) {
        let i = choose|i: int| 0 <= i < b.len() && #[trigger] b[i].has(face, s, u, v);
        assert(b[i].in_chunk());
        assert(input.face_key(face, s, u, v) == Some(b[i].key));
        assert(input.visible(face, s, u, v));
    }
}

/// Merging never needs more quads than one per face.
pub proof fn lemma_greedy_not_more(input: MeshInput, naive: Seq<Quad>, merged: Seq<Quad>)
    requires
        is_naive(input, naive),
        covers_once(input, merged),
    ensures
        merged.len() <= naive.len(),
{
    let pick = |k: int| choose|i: int|
        0 <= i < naive.len() && #[trigger] naive[i].has(
            merged[k].face as int,
            merged[k].slice as int,
            merged[k].u0 as int,
            merged[k].v0 as int,
        );
    let picks = Seq::new(merged.len(), pick);
    assert forall|k: int| 0 <= k < merged.len() implies 0 <= #[trigger] picks[k] < naive.len()
        && naive[picks[k]].has(
        merged[k].face as int,
        merged[k].slice as int,
        merged[k].u0 as int,
        merged[k].v0 as int,
    ) by {
        let q = merged[k];
        assert(q.in_chunk());
        assert(q.has(q.face as int, q.slice as int, q.u0 as int, q.v0 as int));
        assert(input.visible(q.face as int, q.slice as int, q.u0 as int, q.v0 as int));
        assert(covered(naive, q.face as int, q.slice as int, q.u0 as int, q.v0 as int));
    }
    assert(picks.no_duplicates()) by {
        assert forall|i: int, j: int| 0 <= i < picks.len() && 0 <= j < picks.len() && i
            != j implies picks[i] != picks[j] by {
            if picks[i] == picks[j] {
                let n = naive[picks[i]];
                let a = merged[i];
                let b = merged[j];
                assert(n.in_chunk() && n.w == 1 && n.h == 1);
                assert(a.face == b.face && a.slice == b.slice && a.u0 == b.u0 && a.v0 == b.v0);
                assert(a.in_chunk() && b.in_chunk());
                assert(a.has(a.face as int, a.slice as int, a.u0 as int, a.v0 as int));
                assert(b.has(a.face as int, a.slice as int, a.u0 as int, a.v0 as int));
            }
        }
    }
    picks.unique_seq_to_set();
    vstd::set_lib::lemma_int_range(0, naive.len() as int);
    assert(picks.to_set().subset_of(vstd::set_lib::set_int_range(0, naive.len() as int))) by {
        assert forall|x: int| #[trigger] picks.to_set().contains(x) implies 0 <= x
            < naive.len() by {
            let k = choose|k: int| 0 <= k < picks.len() && picks[k] == x;
            assert(0 <= picks[k] < naive.len());
        }
    }
    vstd::set_lib::lemma_len_subset(
        picks.to_set(),
        vstd::set_lib::set_int_range(0, naive.len() as int),
    );
}

/// A mesh has at most one quad per face of the chunk's cells, and each lies in
/// the chunk: its vertex and index lists can always be made.
pub proof fn lemma_mesh_is_small(input: MeshInput, quads: Seq<Quad>)
    requires
        covers_once(input, quads),
    ensures
        quads.len() <= 196608,
        4 * quads.len() <= u32::MAX,
        forall|k: int| 0 <= k < quads.len() ==> (#[trigger] quads[k]).in_chunk(),
{
    let ranks = Seq::new(quads.len(), |k: int| quad_rank(quads[k]));
    assert forall|k: int| 0 <= k < quads.len() implies 0 <= #[trigger] ranks[k] < 196608 by {
        let q = quads[k];
        assert(q.in_chunk());
        lemma_rank_bound(q.face as int, q.slice as int, q.u0 as int, q.v0 as int);
    }
    assert(ranks.no_duplicates()) by {
        assert forall|i: int, j: int| 0 <= i < ranks.len() && 0 <= j < ranks.len() && i
            != j implies ranks[i] != ranks[j] by {
            let a = quads[i];
            let b = quads[j];
            assert(a.in_chunk() && b.in_chunk());
            if ranks[i] == ranks[j] {
                lemma_rank_injective(
                    a.face as int,
                    a.slice as int,
                    a.u0 as int,
                    a.v0 as int,
                    b.face as int,
                    b.slice as int,
                    b.u0 as int,
                    b.v0 as int,
                );
                assert(a.has(a.face as int, a.slice as int, a.u0 as int, a.v0 as int));
                assert(b.has(a.face as int, a.slice as int, a.u0 as int, a.v0 as int));
            }
        }
    }
    ranks.unique_seq_to_set();
    let range = vstd::set_lib::set_int_range(0, 196608);
    vstd::set_lib::lemma_int_range(0, 196608);
    assert(ranks.to_set().subset_of(range)) by {
        assert forall|x: int| #[trigger] ranks.to_set().contains(x) implies 0 <= x < 196608 by {
            let k = choose|k: int| 0 <= k < ranks.len() && ranks[k] == x;
            assert(0 <= ranks[k] < 196608);
        }
    }
    vstd::set_lib::lemma_len_subset(ranks.to_set(), range);
}

/// Two quads have the same place, size and look.
pub open spec fn same_shape(a: Quad, b: Quad) -> bool {
    &&& a.face == b.face && a.slice == b.slice
    &&& a.u0 == b.u0 && a.v0 == b.v0
    &&& a.w == b.w && a.h == b.h
    &&& a.key == b.key
}

/// The greedy choices are determined by the surface: whatever the layers, two
/// greedy meshes of it have the same quads in the same order.
pub proof fn lemma_greedy_unique(input: MeshInput, a: Seq<Quad>, b: Seq<Quad>)
    requires
        is_greedy(input, a),
        is_greedy(input, b),
    ensures
        a.len() == b.len(),
        forall|k: int| 0 <= k < a.len() ==> same_shape(#[trigger] a[k], b[k]),
{
    if a.len() <= b.len() {
        lemma_greedy_agree(input, a, b, a.len() as int);
        lemma_greedy_ends(input, a, b);
    } else {
        lemma_greedy_agree(input, b, a, b.len() as int);
        lemma_greedy_ends(input, b, a);
    }
}

proof fn lemma_greedy_ends(input: MeshInput, a: Seq<Quad>, b: Seq<Quad>)
    requires
        is_greedy(input, a),
        is_greedy(input, b),
        a.len() <= b.len(),
        forall|k: int| 0 <= k < a.len() ==> same_shape(#[trigger] a[k], b[k]),
    ensures
        a.len() == b.len(),
{
    if a.len() < b.len() {
        let n = a.len() as int;
        let q = b[n];
        assert(is_greedy_step(input, b.take(n), q));
        lemma_same_cover(a, b, n, q.face as int, q.slice as int, q.u0 as int, q.v0 as int);
        assert(a.take(n) =~= a);
        assert(open_key(input, b.take(n), q.face as int, q.slice as int, q.u0 as int, q.v0 as int)
            == Some(q.key));
        assert(open_key(input, a, q.face as int, q.slice as int, q.u0 as int, q.v0 as int) is None);
    }
}

/// Lists whose first `n` quads have the same shapes cover the same with them.
proof fn lemma_same_cover(a: Seq<Quad>, b: Seq<Quad>, n: int, face: int, s: int, u: int, v: int)
    requires
        0 <= n <= a.len(),
        n <= b.len(),
        forall|k: int| 0 <= k < n ==> same_shape(#[trigger] a[k], b[k]),
    ensures
        covered(a.take(n), face, s, u, v) == covered(b.take(n), face, s, u, v),
{
    if covered(a.take(n), face, s, u, v) {
        let k = choose|k: int| 0 <= k < n && #[trigger] a.take(n)[k].has(face, s, u, v);
        assert(same_shape(a[k], b[k]));
        assert(b.take(n)[k].has(face, s, u, v));
    }
    if covered(b.take(n), face, s, u, v) {
        let k = choose|k: int| 0 <= k < n && #[trigger] b.take(n)[k].has(face, s, u, v);
        assert(same_shape(a[k], b[k]));
        assert(a.take(n)[k].has(face, s, u, v));
    }
}

proof fn lemma_greedy_agree(input: MeshInput, a: Seq<Quad>, b: Seq<Quad>, n: int)
    requires
        is_greedy(input, a),
        is_greedy(input, b),
        0 <= n <= a.len() <= b.len(),
    ensures
        forall|k: int| 0 <= k < n ==> same_shape(#[trigger] a[k], b[k]),
    decreases n,
{
    if n > 0 {
        lemma_greedy_agree(input, a, b, n - 1);
        let m = n - 1;
        let p = a.take(m);
        let r = b.take(m);
        let x = a[m];
        let y = b[m];
        assert(is_greedy_step(input, p, x));
        assert(is_greedy_step(input, r, y));
        assert forall|f: int, s: int, u: int, v: int| #[trigger]
            open_key(input, p, f, s, u, v) == open_key(input, r, f, s, u, v) by {
            lemma_same_cover(a, b, m, f, s, u, v);
        }
        let (xf, xs, xu, xv) = (x.face as int, x.slice as int, x.u0 as int, x.v0 as int);
        let (yf, ys, yu, yv) = (y.face as int, y.slice as int, y.u0 as int, y.v0 as int);
        assert(open_key(input, p, xf, xs, xu, xv) == Some(x.key));
        assert(open_key(input, r, yf, ys, yu, yv) == Some(y.key));
        assert(open_key(input, r, xf, xs, xu, xv) == Some(x.key));
        assert(open_key(input, p, yf, ys, yu, yv) == Some(y.key));
        assert(!scanned_before(xf, xs, xu, xv, yf, ys, yu, yv));
        assert(!scanned_before(yf, ys, yu, yv, xf, xs, xu, xv));
        assert(xf == yf && xs == ys && xu == yu && xv == yv);
        assert(x.key == y.key);
        if x.w < y.w {
            assert(open_key(input, r, xf, xs, xu + x.w, xv) == Some(y.key));
            assert(open_key(input, p, xf, xs, xu + x.w, xv) == open_key(
                input,
                r,
                xf,
                xs,
                xu + x.w,
                xv,
            ));
        }
        if y.w < x.w {
            assert(open_key(input, p, xf, xs, xu + y.w, xv) == Some(x.key));
            assert(open_key(input, p, xf, xs, xu + y.w, xv) == open_key(
                input,
                r,
                xf,
                xs,
                xu + y.w,
                xv,
            ));
        }
        assert(x.w == y.w);
        if x.h < y.h {
            let u = choose|u: int|
                xu <= u < xu + x.w && #[trigger] open_key(input, p, xf, xs, u, xv + x.h) != Some(
                    x.key,
                );
            assert(open_key(input, r, xf, xs, u, xv + x.h) == Some(y.key));
        }
        if y.h < x.h {
            let u = choose|u: int|
                yu <= u < yu + y.w && #[trigger] open_key(input, r, yf, ys, u, yv + y.h) != Some(
                    y.key,
                );
            assert(open_key(input, p, xf, xs, u, yv + y.h) == Some(x.key));
        }
        assert(same_shape(x, y));
    }
}

} // verus!
