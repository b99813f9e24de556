//! Questions about terrain: where a column's surface is, and whether a box
//! meets solid ground.

use crate::arith::{div_floor, max_i64, min_i64};
use crate::coords::{chunk_in_range, WorldPos};
use crate::registry::BlockRegistry;
use crate::world::{block_at, World};
use vstd::prelude::*;

verus! {

/// Where the surface is sampled within a chunk column: its four corners and its
/// centre. A column can hold a cliff, which a single sample would miss.
pub open spec fn sample_at(k: int) -> (int, int) {
    if k == 0 {
        (0, 0)
    } else if k == 1 {
        (31, 0)
    } else if k == 2 {
        (0, 31)
    } else if k == 3 {
        (31, 31)
    } else {
        (15, 15)
    }
}

/// `h` holds the surface heights at the samples of a chunk column.
pub open spec fn sampled<F: Fn(i64, i64) -> i64>(surface: F, cx: i64, cz: i64, h: Seq<i64>) -> bool {
    &&& h.len() == 5
    &&& forall|k: int|
        0 <= k < 5 ==> call_ensures(
            surface,
            ((cx * 32 + sample_at(k).0) as i64, (cz * 32 + sample_at(k).1) as i64),
            #[trigger] h[k],
        )
}

/// `span` holds the layers of the lowest and the highest of the heights.
pub open spec fn is_span(h: Seq<i64>, span: (i64, i64)) -> bool {
    &&& exists|k: int| 0 <= k < h.len() && span.0 == #[trigger] h[k] as int / 32
    &&& exists|k: int| 0 <= k < h.len() && span.1 == #[trigger] h[k] as int / 32
    &&& forall|k: int| 0 <= k < h.len() ==> span.0 <= #[trigger] h[k] as int / 32 <= span.1
}

/// The inclusive span of chunk layers that hold a chunk column's terrain
/// surface, by its samples.
pub fn surface_span_chunks<F: Fn(i64, i64) -> i64>(surface: &F, cx: i64, cz: i64) -> (r: (i64, i64))
    requires
        chunk_in_range(cx as int),
        chunk_in_range(cz as int),
        forall|x: i64, z: i64| #[trigger] call_requires(surface, (x, z)),
    ensures
        exists|h: Seq<i64>| #[trigger] sampled(*surface, cx, cz, h) && is_span(h, r),
{
    let bx: i64 = cx * 32;
    let bz: i64 = cz * 32;
    let mut heights: Vec<i64> = Vec::with_capacity(5);
    let mut lo: i64 = i64::MAX;
    let mut hi: i64 = i64::MIN;
    let ghost mut low: int = -1;
    let ghost mut high: int = -1;
    let mut k: usize = 0;
    while k < 5
        invariant
            k <= 5,
            heights.len() == k,
            chunk_in_range(cx as int),
            chunk_in_range(cz as int),
            bx == cx * 32,
            bz == cz * 32,
            forall|x: i64, z: i64| #[trigger] call_requires(surface, (x, z)),
            forall|j: int|
                0 <= j < k ==> call_ensures(
                    surface,
                    ((cx * 32 + sample_at(j).0) as i64, (cz * 32 + sample_at(j).1) as i64),
                    #[trigger] heights[j],
                ),
            forall|j: int| 0 <= j < k ==> lo <= #[trigger] heights[j] <= hi,
            k > 0 ==> 0 <= low < k && lo == heights[low],
            k > 0 ==> 0 <= high < k && hi == heights[high],
            k == 0 ==> lo == i64::MAX && hi == i64::MIN,
        decreases 5 - k,
    {
        let (ox, oz): (i64, i64) = match k {
            0 => (0, 0),
            1 => (31, 0),
            2 => (0, 31),
            3 => (31, 31),
            _ => (15, 15),
        };
        let h: i64 = surface(bx + ox, bz + oz);
        heights.push(h);
        proof {
            if k == 0 || h <= lo {
                low = k as int;
            }
            if k == 0 || h >= hi {
                high = k as int;
            }
        }
        lo = min_i64(lo, h);
        hi = max_i64(hi, h);
        k += 1;
    }
    proof {
        assert(sampled(*surface, cx, cz, heights@));
        let span = ((lo as int / 32) as i64, (hi as int / 32) as i64);
        assert(span.0 == heights@[low] as int / 32);
        assert(span.1 == heights@[high] as int / 32);
        assert(is_span(heights@, span));
    }
    (div_floor(lo, 32), div_floor(hi, 32))
}

/// The cell lies within the box.
pub open spec fn in_box(lo: WorldPos, hi: WorldPos, p: WorldPos) -> bool {
    lo.x <= p.x <= hi.x && lo.y <= p.y <= hi.y && lo.z <= p.z <= hi.z
}

/// Whether a solid block within a box of cells overlaps a shape. Chunks that
/// are not resident read as air.
pub fn box_hits_solid<F: Fn(WorldPos) -> bool>(
    world: &World,
    registry: &BlockRegistry,
    lo: WorldPos,
    hi: WorldPos,
    overlaps: &F,
) -> (r: bool)
    requires
        world.wf(),
        hi.x < i64::MAX,
        hi.y < i64::MAX,
        hi.z < i64::MAX,
        forall|p: WorldPos| #[trigger] call_requires(overlaps, (p,)),
    ensures
        r ==> exists|p: WorldPos| #[trigger]
            in_box(lo, hi, p) && registry.solid(block_at(world@, p)) && call_ensures(
                overlaps,
                (p,),
                true,
            ),
        !r ==> forall|p: WorldPos| #[trigger]
            in_box(lo, hi, p) && registry.solid(block_at(world@, p)) ==> call_ensures(
                overlaps,
                (p,),
                false,
            ),
{
    let mut x: i64 = lo.x;
    while x <= hi.x
        invariant
            lo.x <= x,
            x <= hi.x + 1 || x == lo.x,
            hi.x < i64::MAX,
            hi.y < i64::MAX,
            hi.z < i64::MAX,
            world.wf(),
            forall|p: WorldPos| #[trigger] call_requires(overlaps, (p,)),
            forall|p: WorldPos| #[trigger]
                in_box(lo, hi, p) && p.x < x && registry.solid(block_at(world@, p))
                    ==> call_ensures(overlaps, (p,), false),
        decreases hi.x + 1 - x,
    {
        let mut y: i64 = lo.y;
        while y <= hi.y
            invariant
                lo.x <= x <= hi.x,
                lo.y <= y,
                y <= hi.y + 1 || y == lo.y,
                hi.x < i64::MAX,
                hi.y < i64::MAX,
                hi.z < i64::MAX,
                world.wf(),
                forall|p: WorldPos| #[trigger] call_requires(overlaps, (p,)),
                forall|p: WorldPos| #[trigger]
                    in_box(lo, hi, p) && (p.x < x || (p.x == x && p.y < y)) && registry.solid(
                        block_at(world@, p),
                    ) ==> call_ensures(overlaps, (p,), false),
            decreases hi.y + 1 - y,
        {
            let mut z: i64 = lo.z;
            while z <= hi.z
                invariant
                    lo.x <= x <= hi.x,
                    lo.y <= y <= hi.y,
                    lo.z <= z,
                    z <= hi.z + 1 || z == lo.z,
                    hi.x < i64::MAX,
                    hi.y < i64::MAX,
                    hi.z < i64::MAX,
                    world.wf(),
                    forall|p: WorldPos| #[trigger] call_requires(overlaps, (p,)),
                    forall|p: WorldPos| #[trigger]
                        in_box(lo, hi, p) && (p.x < x || (p.x == x && (p.y < y || (p.y == y && p.z
                            < z)))) && registry.solid(block_at(world@, p)) ==> call_ensures(
                            overlaps,
                            (p,),
                            false,
                        ),
                decreases hi.z + 1 - z,
            {
                let p = WorldPos::new(x, y, z);
                if registry.is_solid(world.get_block(p)) {
                    let hit: bool = overlaps(p);
                    if hit {
                        assert(in_box(lo, hi, p));
                        return true;
                    }
                }
                z += 1;
            }
            y += 1;
        }
        x += 1;
    }
    false
}

/// The span of a chunk column takes in the surface at its four corners and at its
/// centre, and reaches no farther than the surface somewhere in the column does.
pub proof fn lemma_span_takes_in_samples<F: Fn(i64, i64) -> i64>(
    surface: F,
    cx: i64,
    cz: i64,
    h: Seq<i64>,
    span: (i64, i64),
    dx: int,
    dz: int,
)
    requires
        sampled(surface, cx, cz, h),
        is_span(h, span),
        (dx == 0 || dx == 31) && (dz == 0 || dz == 31) || dx == 15 && dz == 15,
    ensures
        exists|y: i64| #[trigger]
            call_ensures(surface, ((cx * 32 + dx) as i64, (cz * 32 + dz) as i64), y) && span.0
                <= y as int / 32 <= span.1,
        exists|x: int, z: int, y: i64|
            0 <= x < 32 && 0 <= z < 32 && span.0 == y as int / 32 && #[trigger] call_ensures(
                surface,
                ((cx * 32 + x) as i64, (cz * 32 + z) as i64),
                y,
            ),
        exists|x: int, z: int, y: i64|
            0 <= x < 32 && 0 <= z < 32 && span.1 == y as int / 32 && #[trigger] call_ensures(
                surface,
                ((cx * 32 + x) as i64, (cz * 32 + z) as i64),
                y,
            ),
        span.0 <= span.1,
{
    let k = if dx == 0 && dz == 0 {
        0int
    } else if dx == 31 && dz == 0 {
        1
    } else if dx == 0 && dz == 31 {
        2
    } else if dx == 31 {
        3
    } else {
        4
    };
    assert(sample_at(k) == (dx, dz));
    assert(span.0 <= h[k] as int / 32 <= span.1);
    let i = choose|i: int| 0 <= i < h.len() && span.0 == #[trigger] h[i] as int / 32;
    let j = choose|j: int| 0 <= j < h.len() && span.1 == #[trigger] h[j] as int / 32;
    let a = sample_at(i);
    let b = sample_at(j);
    assert(call_ensures(surface, ((cx * 32 + a.0) as i64, (cz * 32 + a.1) as i64), h[i]));
    assert(call_ensures(surface, ((cx * 32 + b.0) as i64, (cz * 32 + b.1) as i64), h[j]));
}

/// A box holds its two corners and every cell between them, and no other.
pub proof fn lemma_box_is_closed(lo: WorldPos, hi: WorldPos, p: WorldPos)
    ensures
        in_box(lo, hi, p) <==> (lo.x <= p.x && p.x <= hi.x) && (lo.y <= p.y && p.y <= hi.y) && (lo.z
            <= p.z && p.z <= hi.z),
        lo.x <= hi.x && lo.y <= hi.y && lo.z <= hi.z ==> in_box(lo, hi, lo) && in_box(lo, hi, hi),
{
}

} // verus!
