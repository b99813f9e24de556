//! Vertex and index lists, as a renderer takes them, but for brightness.

use crate::mesh::quads::{quad_indices, MeshData, Quad};
use vstd::prelude::*;

verus! {

/// A corner of a quad, with what its brightness depends on.
#[derive(Clone, Copy, PartialEq, Eq, Debug)]
pub struct Corner {
    pub position: (i32, i32, i32),
    /// Runs over the quad in tiles of the texture.
    pub uv: (u32, u32),
    pub layer: u32,
    pub face: usize,
    /// The light of four cells, added up.
    pub sum: u16,
    /// Ambient occlusion, 0 the darkest.
    pub ao: u8,
}

impl Corner {
    /// Corner `k` of a quad.
    pub open spec fn is_of(self, q: Quad, k: int) -> bool {
        &&& (self.position.0 as int, self.position.1 as int, self.position.2 as int) == q.corner(k)
        &&& self.uv.0 == (if k == 1 || k == 2 {
            q.w as int
        } else {
            0
        })
        &&& self.uv.1 == (if k == 2 || k == 3 {
            q.h as int
        } else {
            0
        })
        &&& self.layer == q.layer
        &&& self.face == q.face
        &&& self.sum == seq![q.key.s0, q.key.s1, q.key.s2, q.key.s3][k]
        &&& self.ao == seq![q.key.a0, q.key.a1, q.key.a2, q.key.a3][k]
    }
}

/// The corner of its quad that index `k` of six names.
pub open spec fn triangle_corner(flip: bool, k: int) -> int {
    if flip {
        seq![1int, 2, 3, 1, 3, 0][k]
    } else {
        seq![0int, 1, 2, 0, 2, 3][k]
    }
}

impl MeshData {
    /// The vertices: the four corners of each quad, in order.
    pub fn vertices(&self) -> (r: Vec<Corner>)
        requires
            forall|i: int| 0 <= i < self.quads.len() ==> (#[trigger] self.quads[i]).in_chunk(),
        ensures
            r.len() == 4 * self.quads.len(),
            forall|i: int|
                0 <= i < r.len() ==> (#[trigger] r[i]).is_of(self.quads[i / 4], i % 4),
    {
        let mut out: Vec<Corner> = Vec::new();
        for q in 0..self.quads.len()
            invariant
                forall|i: int| 0 <= i < self.quads.len() ==> (#[trigger] self.quads[i]).in_chunk(),
                out.len() == 4 * q,
                forall|i: int|
                    0 <= i < out.len() ==> (#[trigger] out[i]).is_of(self.quads[i / 4], i % 4),
        {
            let quad: Quad = self.quads[q];
            let sums = quad.sums();
            let ao = quad.ao();
            for k in 0..4usize
                invariant
                    q < self.quads.len(),
                    quad == self.quads[q as int],
                    quad.in_chunk(),
                    sums@ == seq![quad.key.s0, quad.key.s1, quad.key.s2, quad.key.s3],
                    ao@ == seq![quad.key.a0, quad.key.a1, quad.key.a2, quad.key.a3],
                    out.len() == 4 * q + k,
                    forall|i: int|
                        0 <= i < out.len() ==> (#[trigger] out[i]).is_of(
                            self.quads[i / 4],
                            i % 4,
                        ),
            {
                let (position, uv) = quad.vertex(k);
                let corner = Corner {
                    position,
                    uv,
                    layer: quad.layer,
                    face: quad.face,
                    sum: sums[k],
                    ao: ao[k],
                };
                assert(corner.is_of(quad, k as int)) by {
                    assert(sums[k as int] == sums@[k as int]);
                    assert(ao[k as int] == ao@[k as int]);
                }
                assert((4 * q + k) / 4 == q && (4 * q + k) % 4 == k);
                out.push(corner);
            }
        }
        out
    }

    /// The indices: two triangles for each quad, each index naming a vertex.
    /// `flips` says which quads are cut along their other diagonal.
    pub fn indices(&self, flips: &[bool]) -> (r: Vec<u32>)
        requires
            flips.len() == self.quads.len(),
            4 * self.quads.len() <= u32::MAX,
        ensures
            r.len() == 6 * self.quads.len(),
            forall|i: int|
                0 <= i < r.len() ==> #[trigger] r[i] == 4 * (i / 6) + triangle_corner(
                    flips[i / 6],
                    i % 6,
                ) && r[i] < 4 * self.quads.len(),
    {
        let mut out: Vec<u32> = Vec::new();
        for q in 0..self.quads.len()
            invariant
                flips.len() == self.quads.len(),
                4 * self.quads.len() <= u32::MAX,
                out.len() == 6 * q,
                forall|i: int|
                    0 <= i < out.len() ==> #[trigger] out[i] == 4 * (i / 6) + triangle_corner(
                        flips[i / 6],
                        i % 6,
                    ) && out[i] < 4 * self.quads.len(),
        {
            let flip: bool = flips[q];
            let six = quad_indices(4 * q as u32, flip);
            for k in 0..6usize
                invariant
                    q < self.quads.len(),
                    flips.len() == self.quads.len(),
                    4 * self.quads.len() <= u32::MAX,
                    flip == flips[q as int],
                    six.len() == 6,
                    forall|j: int|
                        0 <= j < 6 ==> #[trigger] six[j] == 4 * q + triangle_corner(flip, j),
                    out.len() == 6 * q + k,
                    forall|i: int|
                        0 <= i < out.len() ==> #[trigger] out[i] == 4 * (i / 6) + triangle_corner(
                            flips[i / 6],
                            i % 6,
                        ) && out[i] < 4 * self.quads.len(),
            {
                assert((6 * q + k) / 6 == q && (6 * q + k) % 6 == k);
                assert(0 <= triangle_corner(flip, k as int) < 4);
                out.push(six[k]);
            }
        }
        out
    }
}

} // verus!
