//! What the quads of a mesh show, told in the chunk's own coordinates: where
//! their corners lie, which way they look, and which cells light them.

use crate::block::BlockId;
use crate::chunk::Chunk;
use crate::coords::{
    cell_in_world, cell_index, deep_in_range, in_front, lemma_local_at, ChunkPos, LocalPos, Point,
};
use crate::mesh::input::{in_view, shown_block, shown_light, ChunkNeighbors, MeshInput};
use crate::mesh::lists::{triangle_corner, Corner};
use crate::mesh::quads::{
    covered, covers_once, in_slice, is_greedy, is_greedy_step, is_naive, open_key, outward,
    layers_given, plane_cell, Quad,
};
use crate::world::block_at;
use vstd::prelude::*;

verus! {

/// The rectangle that a quad's corners span holds the side of a cell that looks
/// in the direction `face`: it lies in the plane between the cell and the one in
/// front of it, and the cell lies within its bounds along the other two axes.
pub open spec fn draws(q: Quad, face: int, c: Point) -> bool {
    let lo = q.corner(0);
    let hi = q.corner(2);
    &&& q.face == face
    &&& if face == 0 {
        lo.0 == c.0 + 1 && hi.0 == c.0 + 1 && lo.1 <= c.1 < hi.1 && lo.2 <= c.2 < hi.2
    } else if face == 1 {
        lo.0 == c.0 && hi.0 == c.0 && lo.1 <= c.1 < hi.1 && lo.2 <= c.2 < hi.2
    } else if face == 2 {
        lo.1 == c.1 + 1 && hi.1 == c.1 + 1 && lo.0 <= c.0 < hi.0 && lo.2 <= c.2 < hi.2
    } else if face == 3 {
        lo.1 == c.1 && hi.1 == c.1 && lo.0 <= c.0 < hi.0 && lo.2 <= c.2 < hi.2
    } else if face == 4 {
        lo.2 == c.2 + 1 && hi.2 == c.2 + 1 && lo.0 <= c.0 < hi.0 && lo.1 <= c.1 < hi.1
    } else {
        lo.2 == c.2 && hi.2 == c.2 && lo.0 <= c.0 < hi.0 && lo.1 <= c.1 < hi.1
    }
}

/// The place of a cell in a face direction.
proof fn lemma_place(face: int, c: Point) -> (p: (int, int, int))
    requires
        0 <= face < 6,
    ensures
        plane_cell(face, p.0, p.1, p.2) == c,
        0 <= c.0 < 32 && 0 <= c.1 < 32 && 0 <= c.2 < 32 ==> in_slice(face, p.0, p.1, p.2),
{
    if face == 0 {
        (c.0, c.1, c.2)
    } else if face == 1 {
        (c.0, c.2, c.1)
    } else if face == 2 {
        (c.1, c.2, c.0)
    } else if face == 3 {
        (c.1, c.0, c.2)
    } else if face == 4 {
        (c.2, c.0, c.1)
    } else {
        (c.2, c.1, c.0)
    }
}

/// In every face direction each cell has one place, and the place one further
/// outward is that of the cell in front.
pub proof fn lemma_places_are_cells(face: int, s: int, u: int, v: int, t: int, a: int, b: int)
    requires
        0 <= face < 6,
    ensures
        plane_cell(face, s + outward(face), u, v) == in_front(face, plane_cell(face, s, u, v)),
        plane_cell(face, s, u, v) == plane_cell(face, t, a, b) <==> s == t && u == a && v == b,
        outward(face) == 1 <==> face == 0 || face == 2 || face == 4,
        outward(face) == -1 <==> face == 1 || face == 3 || face == 5,
{
}

/// Every corner of a quad lies on the boundary between the cells it covers and
/// the cells in front of them.
pub proof fn lemma_corner_on_boundary(q: Quad, k: int)
    requires
        q.in_chunk(),
        0 <= k < 4,
    ensures
        q.face == 0 ==> q.corner(k).0 == q.slice + 1,
        q.face == 1 ==> q.corner(k).0 == q.slice,
        q.face == 2 ==> q.corner(k).1 == q.slice + 1,
        q.face == 3 ==> q.corner(k).1 == q.slice,
        q.face == 4 ==> q.corner(k).2 == q.slice + 1,
        q.face == 5 ==> q.corner(k).2 == q.slice,
        2 * q.plane() == (2 * q.slice + 1) + outward(q.face as int),
{
}

/// The difference of two points.
pub open spec fn from_to(a: Point, b: Point) -> Point {
    (b.0 - a.0, b.1 - a.1, b.2 - a.2)
}

/// The corners of a quad go round a rectangle of `w` by `h`, counter-clockwise
/// seen from in front of it: its sides' cross product points to the cell in
/// front.
pub proof fn lemma_corners_go_round(q: Quad)
    requires
        q.in_chunk(),
    ensures
        ({
            let a = from_to(q.corner(0), q.corner(1));
            let b = from_to(q.corner(0), q.corner(3));
            let d = from_to(q.corner(0), q.corner(2));
            let n = in_front(q.face as int, (0, 0, 0));
            let area = q.w * q.h;
            &&& d == (a.0 + b.0, a.1 + b.1, a.2 + b.2)
            &&& a.0 >= 0 && a.1 >= 0 && a.2 >= 0 && a.0 + a.1 + a.2 == q.w
            &&& b.0 >= 0 && b.1 >= 0 && b.2 >= 0 && b.0 + b.1 + b.2 == q.h
            &&& a.1 * b.2 - a.2 * b.1 == area * n.0
            &&& a.2 * b.0 - a.0 * b.2 == area * n.1
            &&& a.0 * b.1 - a.1 * b.0 == area * n.2
        }),
{
    let w = q.w as int;
    let h = q.h as int;
    let area = w * h;
    assert(w * h == h * w) by (nonlinear_arith);
    assert(0 * w == 0 && 0 * h == 0 && w * 0 == 0 && h * 0 == 0);
    assert(area * 0 == 0 && area * 1 == area && area * (-1) == -area) by (nonlinear_arith);
    assert(0 * h - w * h == -area && w * h - 0 * 0 == area);
}

/// A face's rectangle holds it, and no other.
proof fn lemma_draws(q: Quad, face: int, s: int, u: int, v: int)
    requires
        q.in_chunk(),
        0 <= face < 6,
    ensures
        draws(q, face, plane_cell(face, s, u, v)) == q.has(face, s, u, v),
{
}

/// A mesh draws a side of a cell iff the cell holds a block and the cell in front
/// of that side is air. It draws it once, in the plane between the two, with the
/// look of that cell's block.
pub proof fn lemma_mesh_draws_surface(input: MeshInput, quads: Seq<Quad>, face: int, c: Point)
    requires
        covers_once(input, quads),
        0 <= face < 6,
        0 <= c.0 < 32,
        0 <= c.1 < 32,
        0 <= c.2 < 32,
    ensures
        ({
            let f = in_front(face, c);
            (exists|k: int| 0 <= k < quads.len() && #[trigger] draws(quads[k], face, c)) <==> (
            input.block_at(c.0, c.1, c.2).0 != 0 && input.block_at(f.0, f.1, f.2).0 == 0)
        }),
        forall|k: int|
            0 <= k < quads.len() && #[trigger] draws(quads[k], face, c) ==> quads[k].key.block
                == input.block_at(c.0, c.1, c.2),
        forall|j: int, k: int|
            0 <= j < quads.len() && 0 <= k < quads.len() && #[trigger] draws(quads[j], face, c)
                && #[trigger] draws(quads[k], face, c) ==> j == k,
{
    let f = in_front(face, c);
    let p = lemma_place(face, c);
    let (s, u, v) = (p.0, p.1, p.2);
    lemma_places_are_cells(face, s, u, v, s, u, v);
    assert forall|k: int| 0 <= k < quads.len() implies #[trigger] draws(quads[k], face, c)
        == quads[k].has(face, s, u, v) by {
        assert(quads[k].in_chunk());
        lemma_draws(quads[k], face, s, u, v);
    }
    assert(input.visible(face, s, u, v) == (input.block_at(c.0, c.1, c.2).0 != 0 && input.block_at(
        f.0,
        f.1,
        f.2,
    ).0 == 0));
    if input.visible(face, s, u, v) {
        assert(covered(quads, face, s, u, v));
        let k = choose|k: int| 0 <= k < quads.len() && #[trigger] quads[k].has(face, s, u, v);
        assert(draws(quads[k], face, c));
    }
    assert forall|k: int| 0 <= k < quads.len() && #[trigger] draws(quads[k], face, c) implies
        input.visible(face, s, u, v) && quads[k].key.block == input.block_at(c.0, c.1, c.2) by {
        assert(input.face_key(face, s, u, v) == Some(quads[k].key));
    }
    assert forall|j: int, k: int|
        0 <= j < quads.len() && 0 <= k < quads.len() && #[trigger] draws(quads[j], face, c)
            && #[trigger] draws(quads[k], face, c) implies j == k by {
        assert(quads[j].has(face, s, u, v) && quads[k].has(face, s, u, v));
    }
}

/// One face of a quad, as a quad of its own.
pub open spec fn unit_face(q: Quad, u: int, v: int) -> Quad {
    Quad { u0: u as usize, v0: v as usize, w: 1, h: 1, ..q }
}

/// The four cells of the layer in front of a face that touch a point of it: the
/// sum of their values.
pub open spec fn sum_around(value: spec_fn(Point) -> int, face: int, front: Point, p: Point) -> int {
    if face == 0 || face == 1 {
        value((front.0, p.1 - 1, p.2 - 1)) + value((front.0, p.1, p.2 - 1)) + value(
            (front.0, p.1 - 1, p.2),
        ) + value((front.0, p.1, p.2))
    } else if face == 2 || face == 3 {
        value((p.0 - 1, front.1, p.2 - 1)) + value((p.0, front.1, p.2 - 1)) + value(
            (p.0 - 1, front.1, p.2),
        ) + value((p.0, front.1, p.2))
    } else {
        value((p.0 - 1, p.1 - 1, front.2)) + value((p.0, p.1 - 1, front.2)) + value(
            (p.0 - 1, p.1, front.2),
        ) + value((p.0, p.1, front.2))
    }
}

/// The light of each corner of a face is that of the four cells in front of the
/// face that touch the very point the corner lies at.
pub proof fn lemma_corner_takes_light_around(
    input: MeshInput,
    q: Quad,
    s: int,
    u: int,
    v: int,
    k: int,
)
    requires
        q.in_chunk(),
        q.has(q.face as int, s, u, v),
        q.key == input.key_on(q.face as int, s, u, v),
        0 <= k < 4,
    ensures
        ({
            let face = q.face as int;
            let front = in_front(face, plane_cell(face, s, u, v));
            let p = unit_face(q, u, v).corner(k);
            let sums = seq![q.key.s0, q.key.s1, q.key.s2, q.key.s3];
            sums[k] == sum_around(
                |c: Point| input.light_at(c.0, c.1, c.2) as int,
                face,
                front,
                p,
            ) as u16
        }),
{
    let face = q.face as int;
    lemma_places_are_cells(face, s, u, v, s, u, v);
}

/// 1 if the cell is not air.
pub open spec fn filled(input: MeshInput, c: Point) -> int {
    if input.block_at(c.0, c.1, c.2).0 != 0 {
        1
    } else {
        0
    }
}

/// The cell that lies across a point from a cell, along one axis.
pub open spec fn across_point(c: int, p: int) -> int {
    2 * p - 1 - c
}

/// The occlusion of each corner of a face comes from the cells around the point it
/// lies at, in the layer in front of the face: the two beside the front cell and
/// the one diagonally across. Both sides filled make it darkest; else each filled
/// cell takes one off.
pub proof fn lemma_corner_takes_occlusion_around(
    input: MeshInput,
    q: Quad,
    s: int,
    u: int,
    v: int,
    k: int,
)
    requires
        q.in_chunk(),
        q.has(q.face as int, s, u, v),
        q.key == input.key_on(q.face as int, s, u, v),
        0 <= k < 4,
    ensures
        ({
            let face = q.face as int;
            let f = in_front(face, plane_cell(face, s, u, v));
            let p = unit_face(q, u, v).corner(k);
            let x = across_point(f.0, p.0);
            let y = across_point(f.1, p.1);
            let z = across_point(f.2, p.2);
            let (one, two, both) = if face == 0 || face == 1 {
                ((f.0, y, f.2), (f.0, f.1, z), (f.0, y, z))
            } else if face == 2 || face == 3 {
                ((x, f.1, f.2), (f.0, f.1, z), (x, f.1, z))
            } else {
                ((x, f.1, f.2), (f.0, y, f.2), (x, y, f.2))
            };
            let level = seq![q.key.a0, q.key.a1, q.key.a2, q.key.a3][k];
            &&& filled(input, one) == 1 && filled(input, two) == 1 ==> level == 0
            &&& !(filled(input, one) == 1 && filled(input, two) == 1) ==> level == 3 - filled(
                input,
                one,
            ) - filled(input, two) - filled(input, both)
        }),
{
    let face = q.face as int;
    lemma_places_are_cells(face, s, u, v, s, u, v);
}

/// In a mesh, every quad's look is that of each face it covers, so the two laws
/// on corners hold of every quad that is drawn.
pub proof fn lemma_quad_looks_as_its_faces(
    input: MeshInput,
    quads: Seq<Quad>,
    k: int,
    s: int,
    u: int,
    v: int,
)
    requires
        covers_once(input, quads),
        0 <= k < quads.len(),
        quads[k].has(quads[k].face as int, s, u, v),
    ensures
        quads[k].in_chunk(),
        quads[k].key == input.key_on(quads[k].face as int, s, u, v),
{
    assert(quads[k].in_chunk());
    assert(input.face_key(quads[k].face as int, s, u, v) == Some(quads[k].key));
}

/// Texture coordinates measure a quad from its first corner: `u` along its width
/// and `v` along its height, so that a texture tiles once per block.
pub proof fn lemma_texture_tiles(q: Quad, a: Corner, b: Corner, c: Corner, d: Corner)
    requires
        q.in_chunk(),
        a.is_of(q, 0),
        b.is_of(q, 1),
        c.is_of(q, 2),
        d.is_of(q, 3),
    ensures
        a.uv.0 == 0 && a.uv.1 == 0,
        ({
            let w = (b.position.0 - a.position.0) + (b.position.1 - a.position.1) + (b.position.2
                - a.position.2);
            let h = (d.position.0 - a.position.0) + (d.position.1 - a.position.1) + (d.position.2
                - a.position.2);
            &&& w == q.w && h == q.h
            &&& b.uv.0 == w && b.uv.1 == 0
            &&& c.uv.0 == w && c.uv.1 == h
            &&& d.uv.0 == 0 && d.uv.1 == h
        }),
        a.layer == q.layer && b.layer == q.layer && c.layer == q.layer && d.layer == q.layer,
{
}

/// Corner `k` of a unit square, in the order of a quad's corners.
pub open spec fn unit_corner(k: int) -> (int, int) {
    if k == 0 {
        (0, 0)
    } else if k == 1 {
        (1, 0)
    } else if k == 2 {
        (1, 1)
    } else {
        (0, 1)
    }
}

/// Twice the area of a triangle, positive if its corners go round
/// counter-clockwise.
pub open spec fn turn(a: (int, int), b: (int, int), c: (int, int)) -> int {
    (b.0 - a.0) * (c.1 - a.1) - (b.1 - a.1) * (c.0 - a.0)
}

/// Either way a quad is cut, its two triangles go round as the quad does, each
/// covers half of it, and they lie on the two sides of the diagonal: from the
/// first corner to the third, or, flipped, from the second to the fourth.
pub proof fn lemma_triangles_fill_quad(flip: bool)
    ensures
        ({
            let t = |k: int| triangle_corner(flip, k);
            let p = |k: int| unit_corner(triangle_corner(flip, k));
            let (off_first, off_second) = if flip { (0int, 2int) } else { (3int, 1int) };
            &&& turn(p(0), p(1), p(2)) == 1
            &&& turn(p(3), p(4), p(5)) == 1
            &&& 0 <= t(0) < 4 && 0 <= t(1) < 4 && 0 <= t(2) < 4
            &&& 0 <= t(3) < 4 && 0 <= t(4) < 4 && 0 <= t(5) < 4
            &&& t(0) != off_first && t(1) != off_first && t(2) != off_first
            &&& t(3) != off_second && t(4) != off_second && t(5) != off_second
        }),
{
    let (a, b, c, d) = (unit_corner(0), unit_corner(1), unit_corner(2), unit_corner(3));
    assert(turn(a, b, c) == 1 && turn(a, c, d) == 1 && turn(b, c, d) == 1 && turn(b, d, a) == 1)
        by (nonlinear_arith)
        requires
            a == (0int, 0int),
            b == (1int, 0int),
            c == (1int, 1int),
            d == (0int, 1int),
    ;
    let corners = if flip {
        seq![1int, 2, 3, 1, 3, 0]
    } else {
        seq![0int, 1, 2, 0, 2, 3]
    };
    assert forall|k: int| 0 <= k < 6 implies #[trigger] triangle_corner(flip, k) == corners[k] by {}
}

/// A greedy mesh leaves no row cut short: where a quad's first row ends within the
/// chunk, the next face of the row looks different or belongs to an earlier quad.
/// And where its height ends, so it is with some face of the row beyond.
pub proof fn lemma_greedy_grows(input: MeshInput, quads: Seq<Quad>, k: int)
    requires
        is_greedy(input, quads),
        0 <= k < quads.len(),
    ensures
        ({
            let q = quads[k];
            let f = q.face as int;
            let s = q.slice as int;
            &&& q.u0 + q.w < 32 ==> input.face_key(f, s, q.u0 + q.w, q.v0 as int) != Some(q.key)
                || covered(quads.take(k), f, s, q.u0 + q.w, q.v0 as int)
            &&& q.v0 + q.h < 32 ==> exists|u: int|
                q.u0 <= u < q.u0 + q.w && (#[trigger] input.face_key(f, s, u, q.v0 + q.h) != Some(
                    q.key,
                ) || covered(quads.take(k), f, s, u, q.v0 + q.h))
            &&& !covered(quads.take(k), f, s, q.u0 as int, q.v0 as int)
        }),
{
    let q = quads[k];
    let f = q.face as int;
    let s = q.slice as int;
    let before = quads.take(k);
    assert(is_greedy_step(input, before, q));
    assert(open_key(input, before, f, s, q.u0 as int, q.v0 as int) == Some(q.key));
    if q.v0 + q.h < 32 {
        let u = choose|u: int|
            q.u0 <= u < q.u0 + q.w && #[trigger] open_key(input, before, f, s, u, q.v0 + q.h)
                != Some(q.key);
        assert(input.face_key(f, s, u, q.v0 + q.h) != Some(q.key) || covered(
            before,
            f,
            s,
            u,
            q.v0 + q.h,
        ));
    }
}

/// The unmerged mesher draws one quad per side, cell by cell in the order of their
/// indices, and a cell's sides in the order of the directions.
pub proof fn lemma_naive_in_order(input: MeshInput, quads: Seq<Quad>, i: int, j: int)
    requires
        is_naive(input, quads),
        0 <= i < j < quads.len(),
    ensures
        quads[i].w == 1 && quads[i].h == 1,
        ({
            let a = quads[i];
            let b = quads[j];
            let c = plane_cell(a.face as int, a.slice as int, a.u0 as int, a.v0 as int);
            let d = plane_cell(b.face as int, b.slice as int, b.u0 as int, b.v0 as int);
            ||| c.1 < d.1
            ||| c.1 == d.1 && c.2 < d.2
            ||| c.1 == d.1 && c.2 == d.2 && c.0 < d.0
            ||| c == d && a.face < b.face
        }),
{
    let a = quads[i];
    let b = quads[j];
    assert(a.in_chunk() && b.in_chunk());
    let c = plane_cell(a.face as int, a.slice as int, a.u0 as int, a.v0 as int);
    let d = plane_cell(b.face as int, b.slice as int, b.u0 as int, b.v0 as int);
    let m = cell_index(c.0, c.1, c.2);
    let n = cell_index(d.0, d.1, d.2);
    assert(m * 6 + a.face < n * 6 + b.face);
    assert(m <= n);
}

/// What a mesher sees is the world: at every cell of the chunk and of the layer
/// around it, the block that stands there, and air where no chunk is loaded. The
/// light it sees is the brighter of the two that are stored there.
pub proof fn lemma_mesher_sees_world(
    chunks: Map<ChunkPos, Chunk>,
    pos: ChunkPos,
    neighbors: ChunkNeighbors,
    x: int,
    y: int,
    z: int,
)
    requires
        chunks.dom().contains(pos),
        neighbors.surrounds(chunks, pos),
        neighbors.unsealed(),
        deep_in_range(pos.x as int),
        deep_in_range(pos.y as int),
        deep_in_range(pos.z as int),
        in_view(x, y, z),
    ensures
        ({
            let p = cell_in_world(pos, x, y, z);
            let n = p.spec_chunk();
            let i = p.spec_local().idx();
            let light = shown_light(chunks[pos], neighbors, x, y, z);
            &&& shown_block(chunks[pos], neighbors, x, y, z) == block_at(chunks, p)
            &&& chunks.dom().contains(n) ==> light >= chunks[n]@.block_level(i) && light
                >= chunks[n]@.sky_level(i) && (light == chunks[n]@.block_level(i) || light
                == chunks[n]@.sky_level(i))
            &&& !chunks.dom().contains(n) ==> light == 0
        }),
{
    let p = cell_in_world(pos, x, y, z);
    let dx = if x < 0 { -1int } else if x > 31 { 1 } else { 0 };
    let dy = if y < 0 { -1int } else if y > 31 { 1 } else { 0 };
    let dz = if z < 0 { -1int } else if z > 31 { 1 } else { 0 };
    assert(p.spec_chunk() == (ChunkPos {
        x: (pos.x + dx) as i64,
        y: (pos.y + dy) as i64,
        z: (pos.z + dz) as i64,
    }));
    lemma_local_at(x - dx * 32, y - dy * 32, z - dz * 32);
    assert(p.spec_local() == LocalPos::at(x - dx * 32, y - dy * 32, z - dz * 32));
    let near = neighbors.chunk_at(dx, dy, dz);
}

/// Where a neighbour is absent but sealed, the mesher sees the chunk's own cell
/// that lies nearest.
pub proof fn lemma_sealed_goes_on(
    chunk: Chunk,
    neighbors: ChunkNeighbors,
    dx: int,
    dy: int,
    dz: int,
    x: int,
    y: int,
    z: int,
)
    requires
        -1 <= dx <= 1 && -1 <= dy <= 1 && -1 <= dz <= 1,
        !(dx == 0 && dy == 0 && dz == 0),
        neighbors.chunk_at(dx, dy, dz) is None,
        neighbors.sealed_at(dx, dy, dz),
        in_view(x, y, z),
        dx * 32 <= x < dx * 32 + 32,
        dy * 32 <= y < dy * 32 + 32,
        dz * 32 <= z < dz * 32 + 32,
    ensures
        ({
            let nx = if x < 0 { 0int } else if x > 31 { 31 } else { x };
            let ny = if y < 0 { 0int } else if y > 31 { 31 } else { y };
            let nz = if z < 0 { 0int } else if z > 31 { 31 } else { z };
            &&& shown_block(chunk, neighbors, x, y, z) == chunk@.block(cell_index(nx, ny, nz))
            &&& shown_block(chunk, neighbors, x, y, z) == shown_block(chunk, neighbors, nx, ny, nz)
            &&& shown_light(chunk, neighbors, x, y, z) == shown_light(chunk, neighbors, nx, ny, nz)
        }),
{
}

/// A quad carries the layer that was given for the block and the side it draws.
pub proof fn lemma_layers_of_blocks<F: Fn(BlockId, usize) -> u32>(
    input: MeshInput,
    quads: Seq<Quad>,
    layer_of: F,
    face: int,
    c: Point,
    k: int,
)
    requires
        covers_once(input, quads),
        layers_given(layer_of, quads),
        0 <= face < 6,
        0 <= c.0 < 32,
        0 <= c.1 < 32,
        0 <= c.2 < 32,
        0 <= k < quads.len(),
        draws(quads[k], face, c),
    ensures
        call_ensures(layer_of, (input.block_at(c.0, c.1, c.2), face as usize), quads[k].layer),
{
    lemma_mesh_draws_surface(input, quads, face, c);
}

/// A greedy mesh lists its quads by direction, then by slice, then by where they
/// begin along `v` and along `u`.
pub proof fn lemma_greedy_in_order(input: MeshInput, quads: Seq<Quad>, i: int, j: int)
    requires
        is_greedy(input, quads),
        0 <= i < j < quads.len(),
    ensures
        ({
            let a = quads[i];
            let b = quads[j];
            ||| a.face < b.face
            ||| a.face == b.face && a.slice < b.slice
            ||| a.face == b.face && a.slice == b.slice && a.v0 < b.v0
            ||| a.face == b.face && a.slice == b.slice && a.v0 == b.v0 && a.u0 < b.u0
        }),
{
    let a = quads[i];
    let b = quads[j];
    let (f, s, u, v) = (b.face as int, b.slice as int, b.u0 as int, b.v0 as int);
    assert(is_greedy_step(input, quads.take(i), a));
    assert(is_greedy_step(input, quads.take(j), b));
    assert(open_key(input, quads.take(j), f, s, u, v) == Some(b.key));
    assert(open_key(input, quads.take(i), a.face as int, a.slice as int, a.u0 as int, a.v0 as int)
        == Some(a.key));
    // What is open later was open before, and nothing open was passed over.
    assert(!covered(quads.take(j), f, s, u, v));
    if covered(quads.take(i), f, s, u, v) {
        let k = choose|k: int|
            0 <= k < quads.take(i).len() && #[trigger] quads.take(i)[k].has(f, s, u, v);
        assert(quads.take(j)[k].has(f, s, u, v));
    }
    assert(open_key(input, quads.take(i), f, s, u, v) == Some(b.key));
    assert(quads.take(j)[i] == a);
    if a.face == b.face && a.slice == b.slice && a.v0 == b.v0 && a.u0 == b.u0 {
        assert(quads.take(j)[i].has(f, s, u, v));
    }
}

} // verus!
