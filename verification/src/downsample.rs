//! Build a coarse LOD node from the **real world's** surface heights.
//!
//! The far LOD rings are sampled from the seed. The innermost ring abuts the
//! full-resolution region, where an approximation is visible, and seed sampling
//! cannot see player edits: so the near ring is built from the world's own
//! column heightmap.
//!
//! Each coarse cell takes the *minimum* height over its footprint and is filled
//! by a round-down rule, so that coarse terrain never rises above real terrain.

use crate::block::BlockId;
use crate::chunk::Chunk;
use crate::chunk::ChunkView;
use crate::coords::{cell_index, LocalPos, WorldPos};
use crate::registry::{grass, stone};
use vstd::prelude::*;

verus! {

/// The lowest height among `n` columns along X.
pub open spec fn row_min(heights: Map<(i64, i64), i64>, x: int, z: int, n: int) -> int
    decreases n,
{
    let h = heights[((x + n - 1) as i64, z as i64)] as int;
    if n <= 1 {
        h
    } else if row_min(heights, x, z, n - 1) < h {
        row_min(heights, x, z, n - 1)
    } else {
        h
    }
}

/// The lowest height among `n` rows of `w` columns.
pub open spec fn area_min(heights: Map<(i64, i64), i64>, x: int, z: int, w: int, n: int) -> int
    decreases n,
{
    let h = row_min(heights, x, z + n - 1, w);
    if n <= 1 {
        h
    } else if area_min(heights, x, z, w, n - 1) < h {
        area_min(heights, x, z, w, n - 1)
    } else {
        h
    }
}

/// The heights are ones that the query gave for a square of columns.
pub open spec fn heights_given<F: Fn(i64, i64) -> Option<i64>>(
    height_at: F,
    heights: Map<(i64, i64), i64>,
    x: int,
    z: int,
    size: int,
) -> bool {
    forall|wx: i64, wz: i64|
        x <= wx < x + size && z <= wz < z + size ==> call_ensures(
            height_at,
            (wx, wz),
            Some(#[trigger] heights[(wx, wz)]),
        )
}

/// `m` is the lowest height that the query gave for a cell's square.
pub open spec fn is_cell_min<F: Fn(i64, i64) -> Option<i64>>(
    height_at: F,
    x: int,
    z: int,
    size: int,
    m: i64,
) -> bool {
    exists|heights: Map<(i64, i64), i64>| #[trigger]
        heights_given(height_at, heights, x, z, size) && m == area_min(heights, x, z, size, size)
}

/// `mins` holds the lowest height of each cell of the node, z-major.
pub open spec fn are_cell_mins<F: Fn(i64, i64) -> Option<i64>>(
    height_at: F,
    origin: WorldPos,
    h_stride: int,
    mins: Seq<i64>,
) -> bool {
    mins.len() == 1024 && forall|j: int|
        0 <= j < 1024 ==> is_cell_min(
            height_at,
            origin.x + (j % 32) * h_stride,
            origin.z + (j / 32) * h_stride,
            h_stride,
            #[trigger] mins[j],
        )
}

/// The topmost block layer of the cells at height `cy`.
pub open spec fn cell_top(origin_y: int, v_stride: int, cy: int) -> int {
    origin_y + cy * v_stride + v_stride - 1
}

/// What fills a cell with the given top over ground of the given height: air
/// unless the cell lies wholly at or below the ground, grass in the topmost
/// such cell, stone below.
pub open spec fn coarse_block(top: int, v_stride: int, height: int) -> BlockId {
    if top > height {
        BlockId(0)
    } else if top + v_stride > height {
        BlockId(3)
    } else {
        BlockId(1)
    }
}

/// `v` is the node over cells of the given lowest heights: open cells have full
/// sky light, and nothing counts as an edit.
pub open spec fn is_coarse_node(origin_y: int, v_stride: int, mins: Seq<i64>, v: ChunkView) -> bool {
    &&& !v.modified
    &&& forall|cx: int, cy: int, cz: int|
        0 <= cx < 32 && 0 <= cy < 32 && 0 <= cz < 32 ==> {
            let i = #[trigger] cell_index(cx, cy, cz);
            let b = coarse_block(
                cell_top(origin_y, v_stride, cy),
                v_stride,
                mins[cx + 32 * cz] as int,
            );
            &&& v.block(i) == b
            &&& v.sky_level(i) == (if b.0 == 0 {
                15
            } else {
                0int
            })
            &&& v.block_level(i) == 0
        }
}

proof fn lemma_row_same(a: Map<(i64, i64), i64>, b: Map<(i64, i64), i64>, x: int, z: int, n: int)
    requires
        i64::MIN <= x,
        x + n - 1 <= i64::MAX,
        n >= 1,
        forall|wx: i64| x <= wx < x + n ==> a[(wx, z as i64)] == #[trigger] b[(wx, z as i64)],
    ensures
        row_min(a, x, z, n) == row_min(b, x, z, n),
    decreases n,
{
    assert(b[((x + n - 1) as i64, z as i64)] == a[((x + n - 1) as i64, z as i64)]);
    if n > 1 {
        lemma_row_same(a, b, x, z, n - 1);
    }
}

proof fn lemma_area_same(
    a: Map<(i64, i64), i64>,
    b: Map<(i64, i64), i64>,
    x: int,
    z: int,
    w: int,
    n: int,
)
    requires
        i64::MIN <= x,
        x + w - 1 <= i64::MAX,
        i64::MIN <= z,
        z + n - 1 <= i64::MAX,
        w >= 1,
        n >= 1,
        forall|wx: i64, wz: i64|
            x <= wx < x + w && z <= wz < z + n ==> a[(wx, wz)] == #[trigger] b[(wx, wz)],
    ensures
        area_min(a, x, z, w, n) == area_min(b, x, z, w, n),
    decreases n,
{
    lemma_row_same(a, b, x, z + n - 1, w);
    if n > 1 {
        lemma_area_same(a, b, x, z, w, n - 1);
    }
}

/// The lowest height over a cell's square, or `None` if a column is unknown.
fn cell_height<F: Fn(i64, i64) -> Option<i64>>(height_at: &F, bx: i64, bz: i64, size: i64) -> (r:
    Option<i64>)
    requires
        size >= 1,
        bx + size - 1 <= i64::MAX,
        bz + size - 1 <= i64::MAX,
        forall|c: (i64, i64)| call_requires(*height_at, c),
    ensures
        match r {
            Some(m) => is_cell_min(*height_at, bx as int, bz as int, size as int, m),
            None => exists|wx: i64, wz: i64|
                bx <= wx < bx + size && bz <= wz < bz + size && #[trigger] call_ensures(
                    *height_at,
                    (wx, wz),
                    None,
                ),
        },
{
    let mut height: i64 = i64::MAX;
    let ghost mut hs: Map<(i64, i64), i64> = Map::empty();
    let mut dz: i64 = 0;
    while dz < size
        invariant
            0 <= dz <= size,
            size >= 1,
            bx + size - 1 <= i64::MAX,
            bz + size - 1 <= i64::MAX,
            forall|c: (i64, i64)| call_requires(*height_at, c),
            forall|wx: i64, wz: i64|
                bx <= wx < bx + size && bz <= wz < bz + dz ==> call_ensures(
                    *height_at,
                    (wx, wz),
                    Some(#[trigger] hs[(wx, wz)]),
                ),
            dz > 0 ==> height == area_min(hs, bx as int, bz as int, size as int, dz as int),
            dz == 0 ==> height == i64::MAX,
        decreases size - dz,
    {
        let ghost before = height;
        let ghost hs_before = hs;
        let ghost z = bz + dz;
        let mut dx: i64 = 0;
        while dx < size
            invariant
                0 <= dx <= size,
                0 <= dz < size,
                size >= 1,
                bx + size - 1 <= i64::MAX,
                bz + size - 1 <= i64::MAX,
                z == bz + dz,
                forall|c: (i64, i64)| call_requires(*height_at, c),
                forall|wx: i64, wz: i64|
                    bx <= wx < bx + size && bz <= wz < z ==> #[trigger] hs[(wx, wz)]
                        == hs_before[(wx, wz)],
                forall|wx: i64, wz: i64|
                    bx <= wx < bx + size && bz <= wz < z ==> call_ensures(
                        *height_at,
                        (wx, wz),
                        Some(#[trigger] hs[(wx, wz)]),
                    ),
                forall|wx: i64|
                    bx <= wx < bx + dx ==> call_ensures(
                        *height_at,
                        (wx, z as i64),
                        Some(#[trigger] hs[(wx, z as i64)]),
                    ),
                dx == 0 ==> height == before,
                dx > 0 ==> height == (if row_min(hs, bx as int, z, dx as int) < before {
                    row_min(hs, bx as int, z, dx as int)
                } else {
                    before as int
                }),
            decreases size - dx,
        {
            let got = height_at(bx + dx, bz + dz);
            match got {
                None => {
                    assert(call_ensures(*height_at, ((bx + dx) as i64, (bz + dz) as i64), None));
                    return None;
                },
                Some(h) => {
                    proof {
                        let was = hs;
                        hs = hs.insert(((bx + dx) as i64, z as i64), h);
                        if dx > 0 {
                            lemma_row_same(was, hs, bx as int, z, dx as int);
                        }
                    }
                    if h < height {
                        height = h;
                    }
                },
            }
            dx += 1;
        }
        proof {
            if dz > 0 {
                lemma_area_same(hs_before, hs, bx as int, bz as int, size as int, dz as int);
            }
        }
        dz += 1;
    }
    assert(heights_given(*height_at, hs, bx as int, bz as int, size as int));
    Some(height)
}

/// Build a coarse LOD node from real surface heights.
///
/// `height_at(wx, wz)` returns the world's surface height for a block column,
/// or `None` if that column is not known. Any unknown column in the node's
/// footprint gives `None` overall, and the caller falls back to the seed.
///
/// Cells are `h_stride` blocks wide and `v_stride` blocks tall.
pub fn downsample_node_from_heights<F: Fn(i64, i64) -> Option<i64>>(
    origin: WorldPos,
    h_stride: i64,
    v_stride: i64,
    height_at: F,
) -> (r: Option<Chunk>)
    requires
        1 <= h_stride && 31 * h_stride <= i64::MAX,
        1 <= v_stride && 31 * v_stride <= i64::MAX,
        origin.x + 32 * h_stride - 1 <= i64::MAX,
        origin.z + 32 * h_stride - 1 <= i64::MAX,
        origin.y + 33 * v_stride - 1 <= i64::MAX,
        forall|c: (i64, i64)| call_requires(height_at, c),
    ensures
        r matches Some(chunk) ==> is_node_of(
            height_at,
            origin,
            h_stride as int,
            v_stride as int,
            chunk@,
        ),
        r is None ==> has_unknown_column(height_at, origin, h_stride as int),
{
    let mut mins: Vec<i64> = Vec::new();
    let mut i: usize = 0;
    while i < 1024
        invariant
            i <= 1024,
            mins.len() == i,
            h_stride >= 1,
            31 * h_stride <= i64::MAX,
            origin.x + 32 * h_stride - 1 <= i64::MAX,
            origin.z + 32 * h_stride - 1 <= i64::MAX,
            forall|c: (i64, i64)| call_requires(height_at, c),
            forall|j: int|
                0 <= j < i ==> is_cell_min(
                    height_at,
                    origin.x + (j % 32) * h_stride,
                    origin.z + (j / 32) * h_stride,
                    h_stride as int,
                    #[trigger] mins[j],
                ),
        decreases 1024 - i,
    {
        let cx: i64 = (i % 32) as i64;
        let cz: i64 = (i / 32) as i64;
        proof {
            lemma_cell_span(cx as int, h_stride as int);
            lemma_cell_span(cz as int, h_stride as int);
        }
        let bx: i64 = origin.x + cx * h_stride;
        let bz: i64 = origin.z + cz * h_stride;
        match cell_height(&height_at, bx, bz, h_stride) {
            Some(m) => {
                mins.push(m);
            },
            None => {
                return None;
            },
        }
        i += 1;
    }
    let mut chunk = Chunk::new_air();
    let mut i: usize = 0;
    while i < 32768
        invariant
            i <= 32768,
            mins.len() == 1024,
            v_stride >= 1,
            31 * v_stride <= i64::MAX,
            origin.y + 33 * v_stride - 1 <= i64::MAX,
            forall|k: int|
                0 <= k < 32768 ==> cell_filled(
                    #[trigger] chunk@.block(k),
                    chunk@.sky_level(k),
                    chunk@.block_level(k),
                    coarse_block(
                        cell_top(origin.y as int, v_stride as int, k / 1024),
                        v_stride as int,
                        mins[k % 32 + 32 * (k / 32 % 32)] as int,
                    ),
                    k < i,
                ),
        decreases 32768 - i,
    {
        let lp = LocalPos::from_index(i);
        let cy: i64 = (i / 1024) as i64;
        let height: i64 = mins[i % 32 + 32 * (i / 32 % 32)];
        proof {
            lemma_cell_span(cy as int, v_stride as int);
            assert(33 * v_stride == 32 * v_stride + v_stride);
        }
        let ghost before = chunk@;
        let top: i64 = origin.y + cy * v_stride + v_stride - 1;
        assert(top == cell_top(origin.y as int, v_stride as int, i as int / 1024));
        if top > height {
            chunk.set_sky_light(lp, 15);
            assert forall|k: int| 0 <= k < 32768 implies chunk@.block(k) == before.block(k) by {}
        } else {
            let block: BlockId = if top + v_stride > height {
                grass()
            } else {
                stone()
            };
            chunk.set(lp, block);
            assert forall|k: int| 0 <= k < 32768 implies chunk@.block(k) == (if k == i {
                block
            } else {
                before.block(k)
            }) && chunk@.sky_level(k) == before.sky_level(k) && chunk@.block_level(k)
                == before.block_level(k) by {
                assert(chunk@.blocks()[k] == chunk@.block(k));
                assert(before.blocks()[k] == before.block(k));
            }
        }
        assert forall|k: int| 0 <= k < 32768 implies cell_filled(
            #[trigger] chunk@.block(k),
            chunk@.sky_level(k),
            chunk@.block_level(k),
            coarse_block(
                cell_top(origin.y as int, v_stride as int, k / 1024),
                v_stride as int,
                mins[k % 32 + 32 * (k / 32 % 32)] as int,
            ),
            k < i + 1,
        ) by {
            let b = before.block(k);
            let s = chunk@.sky_level(k);
            let t = chunk@.block_level(k);
        }
        i += 1;
    }
    let ghost done = chunk@;
    chunk.mark_unmodified();
    proof {
        assert(are_cell_mins(height_at, origin, h_stride as int, mins@));
        assert forall|cx: int, cy: int, cz: int|
            0 <= cx < 32 && 0 <= cy < 32 && 0 <= cz < 32 implies ({
            let i = #[trigger] cell_index(cx, cy, cz);
            let b = coarse_block(
                cell_top(origin.y as int, v_stride as int, cy),
                v_stride as int,
                mins[cx + 32 * cz] as int,
            );
            &&& chunk@.block(i) == b
            &&& chunk@.sky_level(i) == (if b.0 == 0 {
                15
            } else {
                0int
            })
            &&& chunk@.block_level(i) == 0
        }) by {
            let k = cell_index(cx, cy, cz);
            assert(k % 32 == cx && k / 1024 == cy && k / 32 % 32 == cz);
            assert(chunk@.block(k) == done.block(k));
            assert(chunk@.sky_level(k) == done.sky_level(k));
            assert(chunk@.block_level(k) == done.block_level(k));
        }
        assert(is_coarse_node(origin.y as int, v_stride as int, mins@, chunk@));
    }
    Some(chunk)
}

/// `v` is the coarse node over the heights that the query gave.
pub open spec fn is_node_of<F: Fn(i64, i64) -> Option<i64>>(
    height_at: F,
    origin: WorldPos,
    h_stride: int,
    v_stride: int,
    v: ChunkView,
) -> bool {
    exists|mins: Seq<i64>|
        are_cell_mins(height_at, origin, h_stride, mins) && #[trigger] is_coarse_node(
            origin.y as int,
            v_stride,
            mins,
            v,
        )
}

/// The query knew nothing of some column under the node.
pub open spec fn has_unknown_column<F: Fn(i64, i64) -> Option<i64>>(
    height_at: F,
    origin: WorldPos,
    h_stride: int,
) -> bool {
    exists|wx: i64, wz: i64|
        origin.x <= wx < origin.x + 32 * h_stride && origin.z <= wz < origin.z + 32 * h_stride
            && #[trigger] call_ensures(height_at, (wx, wz), None)
}

/// What a cell holds before and after it is filled.
spec fn cell_filled(block: BlockId, sky: int, light: int, want: BlockId, done: bool) -> bool {
    &&& light == 0
    &&& done ==> block == want && sky == (if want.0 == 0 {
        15
    } else {
        0int
    })
    &&& !done ==> block == BlockId(0) && sky == 0
}

proof fn lemma_cell_span(c: int, stride: int)
    requires
        0 <= c < 32,
        stride >= 1,
    ensures
        0 <= c * stride,
        c * stride + stride <= 32 * stride,
{
    assert(0 <= c * stride && c * stride + stride <= 32 * stride) by (nonlinear_arith)
        requires
            0 <= c < 32,
            stride >= 1,
    ;
}

/// The lowest height of a row is a height of the row, and none is lower.
proof fn lemma_row_min(hs: Map<(i64, i64), i64>, x: int, z: int, n: int, wx: int)
    requires
        n >= 1,
        x <= wx < x + n,
    ensures
        row_min(hs, x, z, n) <= hs[(wx as i64, z as i64)],
    decreases n,
{
    if n > 1 && wx < x + n - 1 {
        lemma_row_min(hs, x, z, n - 1, wx);
    }
}

/// No column of an area is lower than its lowest height.
pub proof fn lemma_area_min(
    hs: Map<(i64, i64), i64>,
    x: int,
    z: int,
    w: int,
    n: int,
    wx: int,
    wz: int,
)
    requires
        w >= 1,
        n >= 1,
        x <= wx < x + w,
        z <= wz < z + n,
    ensures
        area_min(hs, x, z, w, n) <= hs[(wx as i64, wz as i64)],
    decreases n,
{
    if wz == z + n - 1 {
        lemma_row_min(hs, x, wz, w, wx);
    } else {
        lemma_area_min(hs, x, z, w, n - 1, wx, wz);
    }
}

/// Coarse terrain never rises above the real terrain of its cell, and is never
/// a whole cell below the lowest of it: a cell is solid iff it lies wholly at
/// or below every column under it.
pub proof fn lemma_coarse_below_real(
    hs: Map<(i64, i64), i64>,
    x: int,
    z: int,
    size: int,
    origin_y: int,
    v_stride: int,
    cy: int,
)
    requires
        size >= 1,
        v_stride >= 1,
    ensures
        ({
            let m = area_min(hs, x, z, size, size);
            let top = cell_top(origin_y, v_stride, cy);
            let b = coarse_block(top, v_stride, m);
            &&& b.0 != 0 ==> forall|wx: int, wz: int|
                x <= wx < x + size && z <= wz < z + size ==> top <= #[trigger] hs[(
                    wx as i64,
                    wz as i64,
                )]
            &&& b.0 == 0 ==> top > m
        }),
{
    let m = area_min(hs, x, z, size, size);
    let top = cell_top(origin_y, v_stride, cy);
    assert forall|wx: int, wz: int| x <= wx < x + size && z <= wz < z + size implies m
        <= #[trigger] hs[(wx as i64, wz as i64)] by {
        lemma_area_min(hs, x, z, size, size, wx, wz);
    }
}

/// The lowest height of a row is the height of some column of it.
proof fn lemma_row_min_met(hs: Map<(i64, i64), i64>, x: int, z: int, n: int) -> (wx: int)
    requires
        n >= 1,
    ensures
        x <= wx < x + n,
        row_min(hs, x, z, n) == hs[(wx as i64, z as i64)],
    decreases n,
{
    if n > 1 && row_min(hs, x, z, n - 1) < hs[((x + n - 1) as i64, z as i64)] {
        lemma_row_min_met(hs, x, z, n - 1)
    } else {
        x + n - 1
    }
}

/// The lowest height of an area is the height of some column of it.
proof fn lemma_area_min_met(hs: Map<(i64, i64), i64>, x: int, z: int, w: int, n: int) -> (c: (
    int,
    int,
))
    requires
        w >= 1,
        n >= 1,
    ensures
        x <= c.0 < x + w,
        z <= c.1 < z + n,
        area_min(hs, x, z, w, n) == hs[(c.0 as i64, c.1 as i64)],
    decreases n,
{
    if n > 1 && area_min(hs, x, z, w, n - 1) < row_min(hs, x, z + n - 1, w) {
        lemma_area_min_met(hs, x, z, w, n - 1)
    } else {
        (lemma_row_min_met(hs, x, z + n - 1, w), z + n - 1)
    }
}

/// Every column under a cell reaches at least up to `level`, as the query says.
pub open spec fn ground_reaches<F: Fn(i64, i64) -> Option<i64>>(
    height_at: F,
    x: int,
    z: int,
    size: int,
    level: int,
) -> bool {
    forall|wx: i64, wz: i64|
        x <= wx < x + size && z <= wz < z + size ==> #[trigger] reaches(height_at, wx, wz, level)
}

/// The query gives a column a height of at least `level`.
pub open spec fn reaches<F: Fn(i64, i64) -> Option<i64>>(
    height_at: F,
    wx: i64,
    wz: i64,
    level: int,
) -> bool {
    exists|h: i64| #[trigger] call_ensures(height_at, (wx, wz), Some(h)) && h >= level
}

/// The query gives some column under a cell a height below `level`.
pub open spec fn ground_below<F: Fn(i64, i64) -> Option<i64>>(
    height_at: F,
    x: int,
    z: int,
    size: int,
    level: int,
) -> bool {
    exists|wx: i64, wz: i64, h: i64|
        x <= wx < x + size && z <= wz < z + size && #[trigger] call_ensures(
            height_at,
            (wx, wz),
            Some(h),
        ) && h < level
}

/// What a node shows of the ground. A cell is solid only if every column under it
/// reaches to the cell's top layer, and air only if one does not. A solid cell is
/// stone only if every column reaches on to the top layer of the cell above, and
/// grass only if one does not. Air is in full daylight, ground is dark, and
/// nothing counts as an edit.
pub proof fn lemma_node_shows_ground<F: Fn(i64, i64) -> Option<i64>>(
    height_at: F,
    origin: WorldPos,
    h_stride: int,
    v_stride: int,
    v: ChunkView,
    cx: int,
    cy: int,
    cz: int,
)
    requires
        is_node_of(height_at, origin, h_stride, v_stride, v),
        h_stride >= 1,
        v_stride >= 1,
        origin.x + 32 * h_stride - 1 <= i64::MAX,
        origin.z + 32 * h_stride - 1 <= i64::MAX,
        0 <= cx < 32,
        0 <= cy < 32,
        0 <= cz < 32,
    ensures
        ({
            let b = v.block(cell_index(cx, cy, cz)).0;
            let x = origin.x + cx * h_stride;
            let z = origin.z + cz * h_stride;
            let top = origin.y + (cy + 1) * v_stride - 1;
            &&& b == 0 || b == 1 || b == 3
            &&& b != 0 ==> ground_reaches(height_at, x, z, h_stride, top)
            &&& b == 0 ==> ground_below(height_at, x, z, h_stride, top)
            &&& b == 1 ==> ground_reaches(height_at, x, z, h_stride, top + v_stride)
            &&& b == 3 ==> ground_below(height_at, x, z, h_stride, top + v_stride)
            &&& v.sky_level(cell_index(cx, cy, cz)) == (if b == 0 { 15int } else { 0 })
            &&& v.block_level(cell_index(cx, cy, cz)) == 0
            &&& !v.modified
        }),
{
    let mins = choose|mins: Seq<i64>|
        are_cell_mins(height_at, origin, h_stride, mins) && #[trigger] is_coarse_node(
            origin.y as int,
            v_stride,
            mins,
            v,
        );
    let j = cx + 32 * cz;
    assert(j % 32 == cx && j / 32 == cz);
    let x = origin.x + cx * h_stride;
    let z = origin.z + cz * h_stride;
    let m = mins[j];
    let top = cell_top(origin.y as int, v_stride, cy);
    assert((cy + 1) * v_stride == cy * v_stride + v_stride) by (nonlinear_arith);
    assert(is_cell_min(height_at, x, z, h_stride, m));
    let hs = choose|hs: Map<(i64, i64), i64>| #[trigger]
        heights_given(height_at, hs, x, z, h_stride) && m == area_min(
            hs,
            x,
            z,
            h_stride,
            h_stride,
        );
    lemma_cell_span(cx, h_stride);
    lemma_cell_span(cz, h_stride);
    let low = lemma_area_min_met(hs, x, z, h_stride, h_stride);
    assert(call_ensures(height_at, (low.0 as i64, low.1 as i64), Some(hs[(low.0 as i64, low.1 as i64)])));
    assert forall|wx: i64, wz: i64, level: int|
        x <= wx < x + h_stride && z <= wz < z + h_stride && level <= m implies #[trigger] reaches(
        height_at,
        wx,
        wz,
        level,
    ) by {
        lemma_area_min(hs, x, z, h_stride, h_stride, wx as int, wz as int);
        assert(call_ensures(height_at, (wx, wz), Some(hs[(wx, wz)])));
    }
    assert(is_coarse_node(origin.y as int, v_stride, mins, v));
    let i = cell_index(cx, cy, cz);
    assert(v.block(i) == coarse_block(top, v_stride, m as int));
}

/// In a column of a node, a solid cell with a solid cell above it is stone, and
/// one with air above it is grass. Nothing solid stands on air.
pub proof fn lemma_grass_on_top<F: Fn(i64, i64) -> Option<i64>>(
    height_at: F,
    origin: WorldPos,
    h_stride: int,
    v_stride: int,
    v: ChunkView,
    cx: int,
    cy: int,
    cz: int,
)
    requires
        is_node_of(height_at, origin, h_stride, v_stride, v),
        v_stride >= 1,
        0 <= cx < 32,
        0 <= cy < 31,
        0 <= cz < 32,
    ensures
        ({
            let here = v.block(cell_index(cx, cy, cz)).0;
            let above = v.block(cell_index(cx, cy + 1, cz)).0;
            &&& above != 0 ==> here == 1
            &&& here == 3 <==> here != 0 && above == 0
            &&& here == 1 <==> here != 0 && above != 0
        }),
{
    let mins = choose|mins: Seq<i64>|
        are_cell_mins(height_at, origin, h_stride, mins) && #[trigger] is_coarse_node(
            origin.y as int,
            v_stride,
            mins,
            v,
        );
    assert((cy + 1) * v_stride == cy * v_stride + v_stride) by (nonlinear_arith);
    let m = mins[cx + 32 * cz] as int;
    assert(v.block(cell_index(cx, cy, cz)) == coarse_block(
        cell_top(origin.y as int, v_stride, cy),
        v_stride,
        m,
    ));
    assert(v.block(cell_index(cx, cy + 1, cz)) == coarse_block(
        cell_top(origin.y as int, v_stride, cy + 1),
        v_stride,
        m,
    ));
}

/// Where the query knows every column under a node, the node can be built.
pub proof fn lemma_known_ground<F: Fn(i64, i64) -> Option<i64>>(
    height_at: F,
    origin: WorldPos,
    h_stride: int,
)
    requires
        forall|wx: i64, wz: i64|
            origin.x <= wx < origin.x + 32 * h_stride && origin.z <= wz < origin.z + 32 * h_stride
                ==> !#[trigger] call_ensures(height_at, (wx, wz), None),
    ensures
        !has_unknown_column(height_at, origin, h_stride),
{
}

} // verus!
