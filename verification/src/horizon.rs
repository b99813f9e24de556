//! How far the view reaches: the levels of coarse terrain that the settings ask
//! for, and the streaming radii.

use crate::arith::{lemma_div_floor, lemma_div_is, max_i64};
use crate::coarse::{Coarse, CoarseView, MAX_REACH_CHUNKS};
use crate::lod::{
    cfgs_of, config_error, first_level_error, first_radii_error, inner_of, level_error,
    power_of_two, LodLevel, LodRing, RingView,
};
use crate::planet::{WORLD_Y_MAX_BLOCKS, WORLD_Y_MIN_BLOCKS};
use crate::residency::{Residency, ResidencyView};
use crate::settings::ViewSettings;
use crate::streaming::StreamerView;
use vstd::prelude::*;

verus! {

/// Where coarse terrain begins. It underlaps the full-resolution terrain.
pub const LOD_INNER_CHUNKS: i64 = 0;

/// Slack before a node is unloaded, in chunks, before it is rounded up to the
/// coarsest stride.
pub const LOD_UNLOAD_MARGIN_CHUNKS: i64 = 8;

/// How many levels there are without extra ones.
pub const BASE_LEVELS: usize = 3;

/// How many extra levels the coordinates allow for.
pub const EXTRA_LEVELS_LIMIT: i32 = 24;

/// Layers loaded below the surface.
pub const LOAD_BELOW_CHUNKS: i64 = 3;

/// Layers loaded above the surface.
pub const LOAD_ABOVE_CHUNKS: i64 = 3;

/// Layers loaded either side of the camera.
pub const LOAD_AROUND_CAMERA_CHUNKS: i64 = 3;

/// Chunks per node side of level `i`: 2, doubling with each level.
pub open spec fn stride_at(i: int) -> int
    decreases i,
{
    if i <= 0 {
        2
    } else {
        2 * stride_at(i - 1)
    }
}

/// `v` rounded up to a multiple of `m`.
pub open spec fn round_up(v: int, m: int) -> int {
    ((v + m - 1) / m) * m
}

/// The outer edge of level `i`: eight of its nodes out, rounded up to the
/// coarsest stride, and beyond the level before by at least one of that.
pub open spec fn outer_at(i: int, coarsest: int) -> int
    decreases i,
{
    let aligned = round_up(8 * stride_at(i), coarsest);
    let least = coarsest + (if i <= 0 {
        LOD_INNER_CHUNKS as int
    } else {
        outer_at(i - 1, coarsest)
    });
    if aligned > least {
        aligned
    } else {
        least
    }
}

/// The levels of coarse terrain, `n` of them.
pub open spec fn levels_at(n: nat) -> Seq<LodLevel> {
    Seq::new(
        n,
        |i: int|
            LodLevel {
                stride: stride_at(i) as i64,
                outer_chunks: outer_at(i, stride_at(n - 1)) as i64,
            },
    )
}

/// How many levels the settings ask for.
pub open spec fn level_count(extra: int) -> nat {
    if extra > 0 {
        (BASE_LEVELS + extra) as nat
    } else {
        BASE_LEVELS as nat
    }
}

proof fn lemma_stride(i: int)
    requires
        0 <= i <= 26,
    ensures
        power_of_two(stride_at(i)),
        2 <= stride_at(i) <= 0x800_0000,
        i < 26 ==> stride_at(i) <= 0x400_0000,
    decreases i,
{
    lemma_stride_bound(i);
    reveal_with_fuel(power_of_two, 3);
    if i > 0 {
        lemma_stride(i - 1);
    }
}

/// Each level further leaves one doubling less.
proof fn lemma_stride_bound(i: int)
    requires
        0 <= i <= 26,
    ensures
        2 <= stride_at(i),
        stride_at(i) * stride_at(26 - i) == 0x1000_0000,
        stride_at(i) <= 0x800_0000,
        i < 26 ==> stride_at(i) <= 0x400_0000,
    decreases i,
{
    lemma_stride_least(26 - i);
    if i > 0 {
        lemma_stride_bound(i - 1);
        let a = stride_at(i - 1);
        let b = stride_at(26 - i);
        assert(stride_at(26 - (i - 1)) == 2 * b);
        assert(a * (2 * b) == (2 * a) * b) by (nonlinear_arith);
    } else {
        reveal_with_fuel(stride_at, 28);
    }
    let s = stride_at(i);
    let t = stride_at(26 - i);
    assert(s <= 0x800_0000) by (nonlinear_arith)
        requires
            s * t == 0x1000_0000,
            t >= 2,
            s >= 0,
    ;
    if i < 26 {
        lemma_stride_least(25 - i);
        assert(t >= 4);
        assert(s <= 0x400_0000) by (nonlinear_arith)
            requires
                s * t == 0x1000_0000,
                t >= 4,
                s >= 0,
        ;
    }
}

proof fn lemma_stride_least(i: int)
    ensures
        stride_at(i) >= 2,
    decreases i,
{
    if i > 0 {
        lemma_stride_least(i - 1);
    }
}

proof fn lemma_stride_divides(i: int, j: int)
    requires
        0 <= i <= j,
    ensures
        stride_at(j) % stride_at(i) == 0,
        stride_at(j) >= stride_at(i) >= 2,
    decreases j - i,
{
    lemma_stride_least(i);
    if i < j {
        lemma_stride_divides(i, j - 1);
        let m = stride_at(i);
        let a = stride_at(j - 1);
        lemma_div_floor(a, m);
        let q = a / m;
        assert(2 * (q * m) == (2 * q) * m) by (nonlinear_arith);
        lemma_div_is(2 * a, m, 2 * q);
    } else {
        assert(1 * stride_at(j) == stride_at(j));
        lemma_div_is(stride_at(j), stride_at(i), 1);
    }
}

proof fn lemma_round_up(v: int, m: int)
    requires
        m > 0,
    ensures
        v <= round_up(v, m) < v + m,
        round_up(v, m) % m == 0,
{
    lemma_div_floor(v + m - 1, m);
    lemma_div_is(round_up(v, m), m, (v + m - 1) / m);
}

/// A multiple of a multiple.
proof fn lemma_divides(a: int, k: int, m: int)
    requires
        k > 0,
        m > 0,
        a % k == 0,
        k % m == 0,
    ensures
        a % m == 0,
{
    lemma_div_floor(a, k);
    lemma_div_floor(k, m);
    let p = a / k;
    let q = k / m;
    assert(p * (q * m) == (p * q) * m) by (nonlinear_arith);
    lemma_div_is(a, m, p * q);
}

proof fn lemma_outer(i: int, n: int)
    requires
        0 <= i < n <= 27,
    ensures
        0 < outer_at(i, stride_at(n - 1)) <= 8 * stride_at(i) + (i + 1) * stride_at(n - 1),
        outer_at(i, stride_at(n - 1)) % stride_at(n - 1) == 0,
        i > 0 ==> outer_at(i - 1, stride_at(n - 1)) < outer_at(i, stride_at(n - 1)),
        outer_at(i, stride_at(n - 1)) <= 0x2_0000_0000,
    decreases i,
{
    let k = stride_at(n - 1);
    lemma_stride(n - 1);
    lemma_stride(i);
    lemma_round_up(8 * stride_at(i), k);
    if i > 0 {
        lemma_outer(i - 1, n);
        let o = outer_at(i - 1, k);
        lemma_div_floor(o, k);
        assert((o / k) * k + k == (o / k + 1) * k) by (nonlinear_arith);
        lemma_div_is(o + k, k, o / k + 1);
        assert(i * k + k == (i + 1) * k) by (nonlinear_arith);
        assert(i * k >= 0) by (nonlinear_arith)
            requires
                i >= 0,
                k >= 0,
        ;
        assert(stride_at(i) == 2 * stride_at(i - 1));
    } else {
        assert(1 * k == k);
        lemma_div_is(k, k, 1);
    }
    assert((i + 1) * k <= 27 * 0x800_0000) by (nonlinear_arith)
        requires
            0 <= i < 27,
            0 <= k <= 0x800_0000,
    ;
}

proof fn lemma_no_errors_from(n: nat, i: int)
    requires
        1 <= n <= 27,
        0 <= i <= n,
    ensures
        first_level_error(LOD_INNER_CHUNKS as int, levels_at(n), i) is None,
        first_radii_error(LOD_INNER_CHUNKS as int, levels_at(n), i) is None,
    decreases n - i,
{
    let levels = levels_at(n);
    let k = stride_at(n - 1);
    if i < n {
        lemma_no_errors_from(n, i + 1);
        lemma_stride(i);
        lemma_stride(n - 1);
        lemma_outer(i, n as int);
        lemma_stride_divides(i, n - 1);
        lemma_divides(outer_at(i, k), k, stride_at(i));
        if i > 0 {
            lemma_stride_divides(i - 1, i);
            lemma_stride(i - 1);
            lemma_outer(i - 1, n as int);
            lemma_divides(outer_at(i - 1, k), k, stride_at(i));
        }
        let inner = inner_of(LOD_INNER_CHUNKS as int, levels, i);
        if i == 0 {
            lemma_div_is(0, k, 0);
            lemma_div_is(0, stride_at(0), 0);
        }
        assert(levels.last().stride == k);
        assert(levels[i].stride == stride_at(i) && levels[i].outer_chunks == outer_at(i, k));
        assert(inner % k == 0 && inner % stride_at(i) == 0);
        assert(level_error(LOD_INNER_CHUNKS as int, levels, i) is None);
        assert(inner % (levels.last().stride as int) == 0);
        assert(levels[i].outer_chunks as int % (levels.last().stride as int) == 0);
    }
}

/// The levels that any number of extra ones gives make a ring: extending the
/// view never breaks its partition.
pub proof fn lemma_levels_make_ring(extra: int)
    requires
        extra <= EXTRA_LEVELS_LIMIT,
    ensures
        ({
            let n = level_count(extra);
            config_error(
                LOD_INNER_CHUNKS as int,
                levels_at(n),
                round_up(LOD_UNLOAD_MARGIN_CHUNKS as int, stride_at(n - 1)),
                (WORLD_Y_MIN_BLOCKS, WORLD_Y_MAX_BLOCKS),
            ) is None
        }),
{
    let n = level_count(extra);
    lemma_no_errors_from(n, 0);
    lemma_stride(n - 1);
    lemma_round_up(LOD_UNLOAD_MARGIN_CHUNKS as int, stride_at(n - 1));
}

/// The levels of coarse terrain and their slack.
pub struct ViewPlan {
    pub levels: Vec<LodLevel>,
    pub margin: i64,
    /// Outer edge of the last level, in chunks.
    pub far_chunks: i64,
}

/// Plan the levels of coarse terrain. The view is extended by appending coarser
/// levels, each of which doubles both its stride and its radius, so that
/// distance costs in proportion to the number of levels.
pub fn view_plan(extra: i32) -> (r: ViewPlan)
    requires
        extra <= EXTRA_LEVELS_LIMIT,
    ensures
        ({
            let n = level_count(extra as int);
            &&& r.levels@ == levels_at(n)
            &&& r.margin == round_up(LOD_UNLOAD_MARGIN_CHUNKS as int, stride_at(n - 1))
            &&& r.far_chunks == outer_at(n - 1, stride_at(n - 1))
        }),
        config_error(
            LOD_INNER_CHUNKS as int,
            r.levels@,
            r.margin as int,
            (WORLD_Y_MIN_BLOCKS, WORLD_Y_MAX_BLOCKS),
        ) is None,
        0 < r.far_chunks <= MAX_REACH_CHUNKS,
{
    let n: usize = if extra > 0 {
        BASE_LEVELS + extra as usize
    } else {
        BASE_LEVELS
    };
    let mut strides: Vec<i64> = Vec::with_capacity(n);
    let mut i: usize = 0;
    let mut s: i64 = 2;
    while i < n
        invariant
            i <= n <= 27,
            strides.len() == i,
            i < n ==> s == stride_at(i as int),
            forall|j: int| 0 <= j < i ==> #[trigger] strides[j] == stride_at(j),
        decreases n - i,
    {
        strides.push(s);
        proof {
            lemma_stride(i as int);
        }
        s = s * 2;
        i += 1;
    }
    let coarsest: i64 = strides[n - 1];
    proof {
        lemma_stride(n - 1);
    }
    let mut levels: Vec<LodLevel> = Vec::with_capacity(n);
    let mut prev: i64 = LOD_INNER_CHUNKS;
    let mut i: usize = 0;
    while i < n
        invariant
            i <= n <= 27,
            n >= 1,
            strides.len() == n,
            forall|j: int| 0 <= j < n ==> #[trigger] strides[j] == stride_at(j),
            coarsest == stride_at(n - 1),
            2 <= coarsest <= 0x800_0000,
            levels.len() == i,
            0 <= prev <= 0x2_0000_0000,
            prev == (if i == 0 {
                LOD_INNER_CHUNKS as int
            } else {
                outer_at(i - 1, coarsest as int)
            }),
            forall|j: int| 0 <= j < i ==> #[trigger] levels[j] == levels_at(n as nat)[j],
        decreases n - i,
    {
        let stride: i64 = strides[i];
        proof {
            lemma_stride(i as int);
            lemma_round_up(8 * stride, coarsest as int);
            lemma_outer(i as int, n as int);
        }
        let aligned: i64 = round_up_to(8 * stride, coarsest);
        let outer: i64 = max_i64(aligned, prev + coarsest);
        levels.push(LodLevel { stride, outer_chunks: outer });
        prev = outer;
        i += 1;
    }
    let margin: i64 = round_up_to(LOD_UNLOAD_MARGIN_CHUNKS, coarsest);
    proof {
        assert(levels@ =~= levels_at(n as nat));
        lemma_levels_make_ring(extra as int);
        lemma_outer(n - 1, n as int);
    }
    ViewPlan { levels, margin, far_chunks: prev }
}

fn round_up_to(v: i64, m: i64) -> (r: i64)
    requires
        0 <= v <= 0x1_0000_0000_0000,
        0 < m <= 0x1_0000_0000_0000,
    ensures
        r == round_up(v as int, m as int),
{
    proof {
        lemma_round_up(v as int, m as int);
    }
    let q: i64 = (v + m - 1) / m;
    q * m
}

/// Stream full-resolution terrain as the settings ask for it. What is loaded
/// stays loaded until it is out of range.
pub fn apply_view(residency: &mut Residency, settings: &ViewSettings)
    requires
        old(residency).wf(),
        1 <= settings.load_radius <= i64::MAX - 2,
    ensures
        final(residency).wf(),
        final(residency).blocks() == old(residency).blocks(),
        final(residency)@ == (ResidencyView {
            streamer: StreamerView {
                loaded: old(residency)@.streamer.loaded,
                load_radius: settings.load_radius as int,
                unload_radius: settings.load_radius + 2,
                below: LOAD_BELOW_CHUNKS as int,
                above: LOAD_ABOVE_CHUNKS as int,
                camera: LOAD_AROUND_CAMERA_CHUNKS as int,
            },
            ..old(residency)@
        }),
{
    residency.reconfigure(
        settings.load_radius,
        settings.load_radius + 2,
        LOAD_BELOW_CHUNKS,
        LOAD_ABOVE_CHUNKS,
        LOAD_AROUND_CAMERA_CHUNKS,
    );
}

/// Coarse terrain as the settings ask for it, with nothing loaded yet.
pub fn coarse_terrain(settings: &ViewSettings) -> (r: Coarse)
    requires
        settings.lod_extra_levels <= EXTRA_LEVELS_LIMIT,
    ensures
        r.wf(),
        ({
            let n = level_count(settings.lod_extra_levels as int);
            r@ == (CoarseView {
                ring: RingView {
                    levels: cfgs_of(LOD_INNER_CHUNKS as int, levels_at(n)),
                    loaded: Set::empty(),
                    margin: round_up(LOD_UNLOAD_MARGIN_CHUNKS as int, stride_at(n - 1)),
                    band: (WORLD_Y_MIN_BLOCKS, WORLD_Y_MAX_BLOCKS),
                    last_center: None,
                },
                pending: Set::empty(),
                in_flight: Set::empty(),
                retired: Set::empty(),
                age: 0,
            })
        }),
{
    let plan = view_plan(settings.lod_extra_levels);
    let ring = LodRing::new(
        LOD_INNER_CHUNKS,
        &plan.levels,
        plan.margin,
        (WORLD_Y_MIN_BLOCKS, WORLD_Y_MAX_BLOCKS),
    );
    proof {
        let n = level_count(settings.lod_extra_levels as int);
        assert(ring@ =~= (RingView {
            levels: cfgs_of(LOD_INNER_CHUNKS as int, levels_at(n)),
            loaded: Set::empty(),
            margin: round_up(LOD_UNLOAD_MARGIN_CHUNKS as int, stride_at(n - 1)),
            band: (WORLD_Y_MIN_BLOCKS, WORLD_Y_MAX_BLOCKS),
            last_center: None,
        }));
        assert(ring@.levels.last().outer_chunks == plan.far_chunks);
    }
    Coarse::new(ring)
}

/// Every level's nodes are twice as wide as those of the level before, the first
/// two chunks.
pub proof fn lemma_strides_double(i: int)
    requires
        i >= 0,
    ensures
        stride_at(0) == 2,
        stride_at(i + 1) == 2 * stride_at(i),
{
}

/// Rounding up gives the least multiple that is not below.
pub proof fn lemma_rounds_up(v: int, m: int)
    requires
        m > 0,
    ensures
        v <= round_up(v, m) < v + m,
        round_up(v, m) % m == 0,
{
    lemma_round_up(v, m);
}

/// A level's outer edge is a multiple of the coarsest stride, at least eight of
/// its own nodes out and at least one coarsest node beyond the level before it,
/// and no farther than these ask for.
pub proof fn lemma_outer_edges(i: int, n: int)
    requires
        0 <= i < n <= 27,
    ensures
        ({
            let big = stride_at(n - 1);
            let edge = outer_at(i, big);
            let before = if i == 0 { 0 } else { outer_at(i - 1, big) };
            &&& edge % big == 0
            &&& edge >= 8 * stride_at(i)
            &&& edge >= before + big
            &&& edge < 8 * stride_at(i) + big || edge == before + big
        }),
{
    lemma_stride_least(n - 1);
    lemma_outer(i, n);
    lemma_round_up(8 * stride_at(i), stride_at(n - 1));
}

/// The view begins under the camera, is kept for eight chunks of slack, and terrain
/// is loaded for three layers below and above the surface and around the camera.
pub proof fn lemma_view_margins()
    ensures
        LOD_INNER_CHUNKS == 0 && LOD_UNLOAD_MARGIN_CHUNKS == 8,
        LOAD_BELOW_CHUNKS == 3 && LOAD_ABOVE_CHUNKS == 3 && LOAD_AROUND_CAMERA_CHUNKS == 3,
{
}

/// There are three levels, and as many more as the settings ask for; each has its
/// stride and its outer edge.
pub proof fn lemma_level_list(extra: int, i: int)
    requires
        extra <= 24,
        0 <= i < level_count(extra),
    ensures
        level_count(extra) == 3 + (if extra > 0 { extra } else { 0 }),
        levels_at(level_count(extra)).len() == level_count(extra),
        levels_at(level_count(extra))[i].stride == stride_at(i),
        levels_at(level_count(extra))[i].outer_chunks == outer_at(
            i,
            stride_at(level_count(extra) - 1),
        ),
{
    lemma_stride_bound(i);
    lemma_outer(i, level_count(extra) as int);
}

} // verus!
