//! Light of a chunk cell by cell: within it, and between it and the planes of its
//! neighbours' light.

use crate::block::BlockId;
use crate::chunk::ChunkView;
use crate::coords::{cell_index, in_front, Point, CHUNK_VOLUME};
use crate::light::chunk_light::{
    columns_light, is_block_light, is_chunk_light, is_full_light, light_byte_of, light_bytes_of,
    lit_by_top_alone, no_block_inflow, no_extra_sky_inflow, open_top,
};
use crate::light::flood::{entering, sky_sources};
use crate::light::model::{
    adjacent, below, is_light_of, lemma_daylight_supported, lemma_light_bounded,
    lemma_light_supported, lit_by, passed_on, straight_down, Cell, Field, Scene,
};
use crate::light::padded::{
    block_sources, chunk_cell, inner, padded_cell, padded_scene, plane_value, NeighborLight,
    NeighborSky,
};
use crate::light::sky::ring_sky_sources;
use crate::registry::BlockRegistry;
use vstd::prelude::*;

verus! {

/// A cell of the chunk itself.
pub open spec fn in_chunk(c: Point) -> bool {
    0 <= c.0 < 32 && 0 <= c.1 < 32 && 0 <= c.2 < 32
}

/// A cell beside the chunk, across one of its faces.
pub open spec fn beside_chunk(c: Point) -> bool {
    exists|face: int, d: Point|
        0 <= face < 6 && in_chunk(d) && c == #[trigger] in_front(face, d) && !in_chunk(c)
}

/// The light that a neighbour's plane gives a cell beside the chunk: the plane of
/// its side, at the cell's two other coordinates, the first counting single steps
/// and the second steps of 32. Dark where there is no plane.
pub open spec fn plane_light_at(planes: NeighborLight, c: Point) -> int {
    let (face, i) = if c.0 == 32 {
        (0, c.1 + c.2 * 32)
    } else if c.0 == -1 {
        (1, c.1 + c.2 * 32)
    } else if c.1 == 32 {
        (2, c.0 + c.2 * 32)
    } else if c.1 == -1 {
        (3, c.0 + c.2 * 32)
    } else if c.2 == 32 {
        (4, c.0 + c.1 * 32)
    } else {
        (5, c.0 + c.1 * 32)
    };
    match planes@[face] {
        Some(p) => p@[i] as int,
        None => 0,
    }
}

/// The daylight that comes to a chunk from a cell beside it: none from below, from
/// above the brighter of the neighbour's and that of the open column, and from the
/// sides the neighbours'.
pub open spec fn daylight_beside(top: Seq<u8>, planes: NeighborSky, c: Point) -> int {
    if c.1 < 0 {
        0
    } else if c.1 == 32 && top[c.0 + c.2 * 32] as int > plane_light_at(planes, c) {
        top[c.0 + c.2 * 32] as int
    } else {
        plane_light_at(planes, c)
    }
}

/// Every plane that is there holds light levels.
pub open spec fn levels_in(planes: NeighborLight) -> bool {
    forall|c: Point| beside_chunk(c) ==> 0 <= #[trigger] plane_light_at(planes, c) <= 15
}

/// The block light of a cell in or beside a chunk.
pub open spec fn block_light_with(planes: NeighborLight, light: Seq<u8>, c: Point) -> int {
    if in_chunk(c) {
        light[cell_index(c.0, c.1, c.2)] as int % 16
    } else {
        plane_light_at(planes, c)
    }
}

/// The daylight of a cell in or beside a chunk.
pub open spec fn daylight_with(top: Seq<u8>, planes: NeighborSky, light: Seq<u8>, c: Point) -> int {
    if in_chunk(c) {
        light[cell_index(c.0, c.1, c.2)] as int / 16
    } else {
        daylight_beside(top, planes, c)
    }
}

/// A cell, in the padded volume.
spec fn padded(c: Point) -> Cell {
    (c.0 + 1, c.1 + 1, c.2 + 1)
}

proof fn lemma_padded(c: Point)
    requires
        in_chunk(c),
    ensures
        padded_cell(cell_index(c.0, c.1, c.2)) == padded(c),
        chunk_cell(padded(c)) == cell_index(c.0, c.1, c.2),
        0 <= cell_index(c.0, c.1, c.2) < CHUNK_VOLUME,
        inner(padded(c)),
{
}

/// A cell that shares a face with another is in front of it, on some side.
proof fn lemma_adjacent_in_front(a: Cell, b: Cell) -> (face: int)
    requires
        adjacent(a, b),
    ensures
        0 <= face < 6,
        a == in_front(face, b),
        straight_down(a, b) == (face == 2),
{
    if a == in_front(0, b) {
        0
    } else if a == in_front(1, b) {
        1
    } else if a == in_front(2, b) {
        2
    } else if a == in_front(3, b) {
        3
    } else if a == in_front(4, b) {
        4
    } else {
        5
    }
}

/// On the ring light is what the sources give.
proof fn lemma_ring_keeps(scene: Scene, sky: bool, sources: Field, field: Field, c: Cell)
    requires
        is_light_of(scene, sky, sources, field),
        scene.has(c),
        !(scene.accepts)(c),
    ensures
        field(c) == sources(c),
{
    let other: Field = |d: Cell|
        if d == c {
            sources(c)
        } else {
            field(d)
        };
    assert(below(scene, sources, field));
    assert forall|a: Cell, b: Cell| #[trigger] scene.edge(a, b) implies other(b) >= passed_on(
        sky,
        a,
        b,
        other(a),
    ) by {
        assert(b != c);
        assert(field(b) >= passed_on(sky, a, b, field(a)));
        assert(sources(c) <= field(c));
    }
    assert forall|d: Cell| #[trigger] scene.has(d) implies sources(d) <= other(d) by {}
    assert(lit_by(scene, sky, sources, other));
    assert(below(scene, field, other));
}

/// Beside the chunk the sources are the planes' light.
proof fn lemma_sources_beside(
    v: ChunkView,
    registry: BlockRegistry,
    borders: NeighborLight,
    sky: NeighborSky,
    top: Seq<u8>,
    c: Point,
)
    requires
        beside_chunk(c),
    ensures
        block_sources(v, registry, borders)(padded(c)) == plane_light_at(borders, c),
        ring_sky_sources(top, sky)(padded(c)) == daylight_beside(top, sky, c),
        padded_scene(v, registry).has(padded(c)),
        !inner(padded(c)),
{
    let (face, d) = choose|face: int, d: Point|
        0 <= face < 6 && in_chunk(d) && c == #[trigger] in_front(face, d) && !in_chunk(c);
}

/// A cell of the ring that is on no face gives no light.
proof fn lemma_sources_bounded(
    v: ChunkView,
    registry: BlockRegistry,
    borders: NeighborLight,
    sky: NeighborSky,
    top: Seq<u8>,
    e: Cell,
)
    requires
        padded_scene(v, registry).has(e),
    ensures
        ({
            let c = (e.0 - 1, e.1 - 1, e.2 - 1);
            &&& in_chunk(c) || beside_chunk(c) || block_sources(v, registry, borders)(e) == 0
            &&& beside_chunk(c) || ring_sky_sources(top, sky)(e) == 0
            &&& in_chunk(c) ==> block_sources(v, registry, borders)(e) == registry.emits(
                v.block(cell_index(c.0, c.1, c.2)),
            )
        }),
{
    let c = (e.0 - 1, e.1 - 1, e.2 - 1);
    let in_x = 0 <= c.0 < 32;
    let in_y = 0 <= c.1 < 32;
    let in_z = 0 <= c.2 < 32;
    if !in_chunk(c) {
        if in_y && in_z {
            assert(c.0 == 32 ==> c == in_front(0, (31, c.1, c.2)));
            assert(c.0 == -1 ==> c == in_front(1, (0, c.1, c.2)));
        } else if in_x && in_z {
            assert(c.1 == 32 ==> c == in_front(2, (c.0, 31, c.2)));
            assert(c.1 == -1 ==> c == in_front(3, (c.0, 0, c.2)));
        } else if in_x && in_y {
            assert(c.2 == 32 ==> c == in_front(4, (c.0, c.1, 31)));
            assert(c.2 == -1 ==> c == in_front(5, (c.0, c.1, 0)));
        }
    }
}

/// Block light of a chunk, cell by cell. A cell is at least as bright as its block
/// glows. A cell that is not solid is at most one level dimmer than each of the six
/// cells around it, also across the chunk's border. And it is no brighter: what it
/// does not give itself it has from one of those six that is one level brighter.
pub proof fn lemma_block_light_by_cells(
    v: ChunkView,
    registry: BlockRegistry,
    borders: NeighborLight,
    sky: NeighborSky,
    top: Seq<u8>,
    do_sky: bool,
    light: Seq<u8>,
    c: Point,
    face: int,
)
    requires
        v.valid(),
        is_chunk_light(v, registry, borders, sky, top, do_sky, light),
        levels_in(borders),
        do_sky ==> forall|d: Point|
            beside_chunk(d) ==> 0 <= #[trigger] daylight_beside(top, sky, d) <= 15,
        do_sky ==> forall|i: int| 0 <= i < 1024 ==> #[trigger] top[i] <= 15,
        forall|b: BlockId| #[trigger] registry.emits(b) <= 15,
        in_chunk(c),
        0 <= face < 6,
    ensures
        ({
            let block = v.block(cell_index(c.0, c.1, c.2));
            let at = |d: Point| block_light_with(borders, light, d);
            &&& at(c) >= registry.emits(block)
            &&& !registry.solid(block) ==> at(c) >= at(in_front(face, c)) - 1
            &&& at(c) > registry.emits(block) ==> !registry.solid(block) && exists|g: int|
                0 <= g < 6 && at(#[trigger] in_front(g, c)) == at(c) + 1
            &&& !do_sky ==> light[cell_index(c.0, c.1, c.2)] as int / 16 == 0
        }),
{
    let scene = padded_scene(v, registry);
    let sources = block_sources(v, registry, borders);
    let i = cell_index(c.0, c.1, c.2);
    lemma_padded(c);
    assert forall|d: Point| beside_chunk(d) implies #[trigger] sources(padded(d))
        == plane_light_at(borders, d) by {
        lemma_sources_beside(v, registry, borders, sky, top, d);
    }
    let d = in_front(face, c);
    if lit_by_top_alone(v, registry, borders, sky, top, do_sky) {
        assert(v.indices[i] == 0);
        assert forall|q: Point| in_chunk(q) implies light[#[trigger] cell_index(q.0, q.1, q.2)] as int
            % 16 == 0 && (!do_sky ==> light[cell_index(q.0, q.1, q.2)] == 0) by {
            lemma_padded(q);
            let j = cell_index(q.0, q.1, q.2);
            assert(j % 32 == q.0 && j / 32 % 32 == q.2);
            if do_sky {
                assert(top[q.0 + q.2 * 32] <= 15);
            }
        }
        if in_chunk(d) {
            lemma_padded(d);
            assert(light[cell_index(d.0, d.1, d.2)] as int % 16 == 0);
        } else {
            assert(beside_chunk(d));
            assert(no_block_inflow(borders));
            lemma_sources_beside(v, registry, borders, sky, top, d);
            assert(sources(padded(d)) == 0);
        }
    } else {
        assert(is_full_light(v, registry, borders, sky, top, do_sky, light));
        let (b, s) = choose|b: Field, s: Field|
            #![trigger light_bytes_of(b, s, do_sky, light)]
            is_light_of(scene, false, sources, b) && (do_sky ==> is_light_of(
                scene,
                true,
                ring_sky_sources(top, sky),
                s,
            )) && light_bytes_of(b, s, do_sky, light);
        assert forall|e: Cell| #[trigger] scene.has(e) implies 0 <= sources(e) <= 15 by {
            lemma_sources_bounded(v, registry, borders, sky, top, e);
            let q = (e.0 - 1, e.1 - 1, e.2 - 1);
            if beside_chunk(q) {
                assert(sources(padded(q)) == plane_light_at(borders, q));
            }
        }
        lemma_light_bounded(scene, false, sources, b);
        if do_sky {
            lemma_daylight_bounded(v, registry, sky, top, s);
        }
        assert forall|q: Point| in_chunk(q) implies #[trigger] b(padded(q)) == block_light_with(
            borders,
            light,
            q,
        ) by {
            lemma_padded(q);
            assert(scene.has(padded(q)));
            assert(light[cell_index(q.0, q.1, q.2)] == light_byte_of(
                if do_sky {
                    s(padded(q))
                } else {
                    0
                },
                b(padded(q)),
            ));
        }
        assert forall|g: int| 0 <= g < 6 implies b(padded(#[trigger] in_front(g, c)))
            == block_light_with(borders, light, in_front(g, c)) by {
            let q = in_front(g, c);
            if !in_chunk(q) {
                assert(beside_chunk(q));
                lemma_sources_beside(v, registry, borders, sky, top, q);
                lemma_ring_keeps(scene, false, sources, b, padded(q));
            }
        }
        let e = padded(c);
        assert(scene.has(e) && scene.has(padded(d)));
        assert(sources(e) == registry.emits(v.block(i)));
        assert(sources(e) <= b(e));
        assert(b(padded(c)) == block_light_with(borders, light, c));
        if !registry.solid(v.block(i)) {
            assert(scene.edge(padded(d), e));
            assert(b(e) >= passed_on(false, padded(d), e, b(padded(d))));
        }
        if b(e) > registry.emits(v.block(i)) {
            lemma_light_supported(scene, sources, b, e);
            let p = choose|p: Cell| #[trigger] scene.edge(p, e) && b(p) == b(e) + 1;
            let g = lemma_adjacent_in_front(p, e);
            assert(padded(in_front(g, c)) == p);
        }
        assert(light[i] == light_byte_of(
            if do_sky {
                s(padded(c))
            } else {
                0
            },
            b(padded(c)),
        ));
    }
}

proof fn lemma_daylight_bounded(
    v: ChunkView,
    registry: BlockRegistry,
    sky: NeighborSky,
    top: Seq<u8>,
    s: Field,
)
    requires
        is_light_of(padded_scene(v, registry), true, ring_sky_sources(top, sky), s),
        forall|d: Point| beside_chunk(d) ==> 0 <= #[trigger] daylight_beside(top, sky, d) <= 15,
    ensures
        forall|c: Cell| #[trigger] padded_scene(v, registry).has(c) ==> 0 <= s(c) <= 15,
{
    let scene = padded_scene(v, registry);
    let sources = ring_sky_sources(top, sky);
    assert forall|e: Cell| #[trigger] scene.has(e) implies 0 <= sources(e) <= 15 by {
        lemma_sources_bounded(v, registry, sky, sky, top, e);
        let q = (e.0 - 1, e.1 - 1, e.2 - 1);
        if beside_chunk(q) {
            lemma_sources_beside(v, registry, sky, sky, top, q);
            assert(padded(q) == e);
            assert(0 <= daylight_beside(top, sky, q) <= 15);
        }
    }
    lemma_light_bounded(scene, true, sources, s);
}

/// Daylight of a chunk, cell by cell. Solid cells have none. A cell that is not
/// solid has full daylight if the cell above it has, and is at most one level dimmer
/// than the cells beside it across the chunk's border. In a chunk of more than one
/// kind of block, or with daylight from the side, so it is within the chunk too, and
/// every level is owed to one of the six cells around.
pub proof fn lemma_daylight_by_cells(
    v: ChunkView,
    registry: BlockRegistry,
    borders: NeighborLight,
    sky: NeighborSky,
    top: Seq<u8>,
    light: Seq<u8>,
    c: Point,
    face: int,
)
    requires
        v.valid(),
        is_chunk_light(v, registry, borders, sky, top, true, light),
        forall|d: Point| beside_chunk(d) ==> 0 <= #[trigger] daylight_beside(top, sky, d) <= 15,
        forall|i: int| 0 <= i < 1024 ==> #[trigger] top[i] <= 15,
        in_chunk(c),
        0 <= face < 6,
    ensures
        ({
            let open = !registry.solid(v.block(cell_index(c.0, c.1, c.2)));
            let at = |d: Point| daylight_with(top, sky, light, d);
            let mixed = !v.uniform() || exists|d: Point|
                beside_chunk(d) && d.1 != 32 && #[trigger] daylight_with(top, sky, light, d) > 0;
            &&& !open ==> at(c) == 0
            &&& open && at(in_front(2, c)) == 15 ==> at(c) == 15
            &&& open && (mixed || !in_chunk(in_front(face, c))) ==> at(c) >= at(in_front(face, c))
                - 1
            &&& mixed && at(c) > 0 ==> at(in_front(2, c)) == 15 && at(c) == 15 || exists|g: int|
                0 <= g < 6 && at(#[trigger] in_front(g, c)) == at(c) + 1
        }),
{
    let scene = padded_scene(v, registry);
    let sources = ring_sky_sources(top, sky);
    let i = cell_index(c.0, c.1, c.2);
    lemma_padded(c);
    if lit_by_top_alone(v, registry, borders, sky, top, true) {
        lemma_column_daylight(v, registry, borders, sky, top, light, c, face);
        lemma_column_daylight(v, registry, borders, sky, top, light, c, 2);
        assert forall|d: Point| beside_chunk(d) && d.1 != 32 implies #[trigger] daylight_with(
            top,
            sky,
            light,
            d,
        ) == 0 by {
            let (g, e) = choose|g: int, e: Point|
                0 <= g < 6 && in_chunk(e) && d == #[trigger] in_front(g, e) && !in_chunk(d);
            assert(no_extra_sky_inflow(sky, top));
            if g == 0 || g == 1 {
                assert(plane_value(sky, g, d.1, d.2) == 0);
            } else if g == 4 || g == 5 {
                assert(plane_value(sky, g, d.0, d.1) == 0);
            }
        }
    } else {
        assert(is_full_light(v, registry, borders, sky, top, true, light));
        let (b, s) = choose|b: Field, s: Field|
            #![trigger light_bytes_of(b, s, true, light)]
            is_light_of(scene, false, block_sources(v, registry, borders), b) && (true
                ==> is_light_of(scene, true, sources, s)) && light_bytes_of(b, s, true, light);
        lemma_daylight_bounded(v, registry, sky, top, s);
        assert forall|q: Point| in_chunk(q) implies #[trigger] s(padded(q)) == daylight_with(
            top,
            sky,
            light,
            q,
        ) by {
            lemma_padded(q);
            assert(scene.has(padded(q)));
            assert(light[cell_index(q.0, q.1, q.2)] == light_byte_of(s(padded(q)), b(padded(q))));
        }
        assert forall|g: int| 0 <= g < 6 implies s(padded(#[trigger] in_front(g, c)))
            == daylight_with(top, sky, light, in_front(g, c)) by {
            let q = in_front(g, c);
            if !in_chunk(q) {
                assert(beside_chunk(q));
                lemma_sources_beside(v, registry, borders, sky, top, q);
                lemma_ring_keeps(scene, true, sources, s, padded(q));
            }
        }
        let e = padded(c);
        assert(scene.has(e));
        assert(s(padded(c)) == daylight_with(top, sky, light, c));
        let above = padded(in_front(2, c));
        let d = padded(in_front(face, c));
        if !registry.solid(v.block(i)) {
            assert(scene.edge(above, e));
            assert(s(e) >= passed_on(true, above, e, s(above)));
            assert(scene.edge(d, e));
            assert(s(e) >= passed_on(true, d, e, s(d)));
        }
        if s(e) > 0 {
            lemma_daylight_supported(scene, sources, s, e);
            let p = choose|p: Cell| #[trigger]
                scene.edge(p, e) && passed_on(true, p, e, s(p)) == s(e);
            let g = lemma_adjacent_in_front(p, e);
            assert(padded(in_front(g, c)) == p);
        }
    }
}

/// The same for a chunk that only its top boundary lights.
proof fn lemma_column_daylight(
    v: ChunkView,
    registry: BlockRegistry,
    borders: NeighborLight,
    sky: NeighborSky,
    top: Seq<u8>,
    light: Seq<u8>,
    c: Point,
    face: int,
)
    requires
        v.valid(),
        in_chunk(c),
        0 <= face < 6,
        forall|i: int| 0 <= i < 1024 ==> #[trigger] top[i] <= 15,
        lit_by_top_alone(v, registry, borders, sky, top, true),
        light == columns_light(v, registry, top, true),
    ensures
        ({
            let open = !registry.solid(v.block(cell_index(c.0, c.1, c.2)));
            let at = |d: Point| daylight_with(top, sky, light, d);
            &&& !open ==> at(c) == 0
            &&& open && face == 2 ==> at(in_front(2, c)) == at(c)
            &&& open && !in_chunk(in_front(face, c)) ==> at(c) >= at(in_front(face, c)) - 1
        }),
{
    let i = cell_index(c.0, c.1, c.2);
    lemma_padded(c);
    assert(v.indices[i] == 0);
    assert(i % 32 == c.0 && i / 32 % 32 == c.2);
    assert(top[c.0 + c.2 * 32] <= 15);
    let d = in_front(face, c);
    if in_chunk(d) {
        lemma_padded(d);
        let j = cell_index(d.0, d.1, d.2);
        assert(j % 32 == d.0 && j / 32 % 32 == d.2);
    } else {
        assert(beside_chunk(d));
        assert(no_extra_sky_inflow(sky, top));
        if face == 0 || face == 1 {
            assert(plane_value(sky, face, d.1, d.2) == 0);
        } else if face == 2 {
            assert(plane_value(sky, 2, d.0, d.2) <= top[d.0 + d.2 * 32]);
        } else if face == 4 || face == 5 {
            assert(plane_value(sky, face, d.0, d.1) == 0);
        }
    }
}

/// Where only block light is wanted, the law on it holds and there is no daylight.
pub proof fn lemma_block_light_alone(
    v: ChunkView,
    registry: BlockRegistry,
    borders: NeighborLight,
    light: Seq<u8>,
    c: Point,
    face: int,
)
    requires
        v.valid(),
        is_block_light(v, registry, borders, light),
        levels_in(borders),
        forall|b: BlockId| #[trigger] registry.emits(b) <= 15,
        in_chunk(c),
        0 <= face < 6,
    ensures
        ({
            let block = v.block(cell_index(c.0, c.1, c.2));
            let at = |d: Point| block_light_with(borders, light, d);
            &&& at(c) >= registry.emits(block)
            &&& !registry.solid(block) ==> at(c) >= at(in_front(face, c)) - 1
            &&& at(c) > registry.emits(block) ==> !registry.solid(block) && exists|g: int|
                0 <= g < 6 && at(#[trigger] in_front(g, c)) == at(c) + 1
            &&& light[cell_index(c.0, c.1, c.2)] as int / 16 == 0
        }),
{
    let top: Seq<u8> = open_top();
    assert(is_chunk_light(v, registry, borders, borders, top, false, light));
    lemma_block_light_by_cells(v, registry, borders, borders, top, false, light, c, face);
}

/// An open sky gives full daylight above every column.
pub proof fn lemma_open_top(x: int, z: int)
    requires
        0 <= x < 32,
        0 <= z < 32,
    ensures
        open_top().len() == 1024,
        open_top()[x + z * 32] == 15,
{
}

/// Daylight enters the open cells of a volume's top layer: full daylight stays
/// full, anything else enters one level dimmer. Nowhere else does any enter.
pub proof fn lemma_daylight_enters(scene: Scene, top: Seq<u8>, field: Field, c: Cell)
    requires
        is_light_of(scene, true, sky_sources(scene, top), field),
        scene.has(c),
    ensures
        ({
            let above = top[c.0 + c.2 * scene.size.0] as int;
            let at_top = c.1 == scene.size.1 - 1 && !(scene.solid)(c);
            let enters = sky_sources(scene, top)(c);
            &&& at_top && above == 15 ==> enters == 15
            &&& at_top && 0 < above && above != 15 ==> enters == above - 1
            &&& at_top && above == 0 ==> enters == 0
            &&& !at_top ==> enters == 0
            &&& field(c) >= enters
        }),
{
    assert(below(scene, sky_sources(scene, top), field));
}

} // verus!
