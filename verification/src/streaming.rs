//! Chunk streaming policy.
//!
//! Pure bookkeeping: the [`Streamer`] tracks which chunk positions are loaded
//! and, given the camera's chunk, computes which chunks should be loaded and
//! which unloaded. How a load request is fulfilled is the caller's concern.
//!
//! ## Radii and hysteresis
//!
//! Streaming is *cylindrical*: the radii are horizontal distances in chunks.
//!
//! - `load_radius`: chunks within this distance should be loaded.
//! - `unload_radius` (greater): chunks beyond this should be unloaded.
//!
//! Chunks in the gap are left in whatever state they are in.
//!
//! ## Vertically, streaming follows the surface and the camera
//!
//! Each column loads a window around its *own* terrain height. The caller
//! supplies the surface as a **span** of chunk-Y per chunk column: a chunk
//! column can hold a cliff face spanning many layers.
//!
//! Every column of the disc also loads a window around the camera's own layer,
//! so that digging or building never walks out of the loaded world. This window
//! moves, so it has one layer of hysteresis.
//!
//! The camera is in unwrapped coordinates: nothing here knows the world wraps.

use crate::coords::ChunkPos;
use crate::order::{
    dist_less, dist_lt, in_order, lemma_push_multiset, lemma_sorted_unique, sort_keys, DistKey,
};
use crate::planet::{chunk_in_vertical_bounds, WORLD_Y_MAX_CHUNK, WORLD_Y_MIN_CHUNK};
use crate::seqs::{lemma_contains_push, lemma_ordered_unique};
use crate::sorted::{key_lt, Key, SortedMap, SortedSet};
use vstd::multiset::Multiset;
use vstd::prelude::*;

verus! {

/// What the [`Streamer`] wants the caller to do this update.
#[derive(Debug, Clone, PartialEq, Eq)]
pub struct StreamUpdate {
    /// Chunks newly in range that the caller should load and then confirm via
    /// [`Streamer::mark_loaded`].
    pub to_load: Vec<ChunkPos>,
    /// Chunks now out of range that the caller should unload (and, if modified,
    /// persist) and then confirm via [`Streamer::mark_unloaded`].
    pub to_unload: Vec<ChunkPos>,
}

impl Default for StreamUpdate {
    fn default() -> (r: Self)
        ensures
            r.to_load.len() == 0,
            r.to_unload.len() == 0,
    {
        StreamUpdate { to_load: Vec::new(), to_unload: Vec::new() }
    }
}

impl StreamUpdate {
    pub fn is_empty(&self) -> (r: bool)
        ensures
            r == (self.to_load.len() == 0 && self.to_unload.len() == 0),
    {
        self.to_load.len() == 0 && self.to_unload.len() == 0
    }
}

/// `y` lies in the inclusive range.
pub open spec fn in_range(r: (i64, i64), y: int) -> bool {
    r.0 <= y <= r.1
}

/// The chunk layers one column keeps resident: its surface window together with
/// the camera window.
///
/// Up to two disjoint, ascending, inclusive ranges. Overlapping or adjacent
/// windows are merged into one. The camera window may be empty.
#[derive(Debug, Clone, Copy, PartialEq, Eq)]
pub struct ColumnWindow {
    ranges: [(i64, i64); 2],
    len: usize,
}

impl ColumnWindow {
    #[verifier::type_invariant]
    spec fn inv(self) -> bool {
        self.len <= 2 && normal(self.parts())
    }

    /// Its ranges.
    pub closed spec fn parts(self) -> Seq<(i64, i64)> {
        self.ranges@.take(self.len as int)
    }

    /// Layer `y` is in the window.
    pub open spec fn has(self, y: int) -> bool {
        exists|i: int| 0 <= i < self.parts().len() && in_range(#[trigger] self.parts()[i], y)
    }

    /// Union of two inclusive ranges; a range with `lo > hi` is empty.
    pub fn union(a: (i64, i64), b: (i64, i64)) -> (r: Self)
        ensures
            forall|y: int| #[trigger] r.has(y) <==> in_range(a, y) || in_range(b, y),
            normal(r.parts()),
    {
        let none: (i64, i64) = (0, -1);
        let a_empty: bool = a.0 > a.1;
        let b_empty: bool = b.0 > b.1;
        let r = if a_empty && b_empty {
            ColumnWindow { ranges: [none, none], len: 0 }
        } else if b_empty {
            ColumnWindow { ranges: [a, none], len: 1 }
        } else if a_empty {
            ColumnWindow { ranges: [b, none], len: 1 }
        } else {
            let (lower, upper): ((i64, i64), (i64, i64)) = if a.0 <= b.0 {
                (a, b)
            } else {
                (b, a)
            };
            if upper.0 <= lower.1 || upper.0 - 1 <= lower.1 {
                let top: i64 = if lower.1 > upper.1 {
                    lower.1
                } else {
                    upper.1
                };
                ColumnWindow { ranges: [(lower.0, top), none], len: 1 }
            } else {
                ColumnWindow { ranges: [lower, upper], len: 2 }
            }
        };
        proof {
            let p = r.parts();
            assert forall|y: int| #[trigger] r.has(y) <==> in_range(a, y) || in_range(b, y) by {
                if in_range(a, y) || in_range(b, y) {
                    if in_range(p[0], y) {
                        assert(r.has(y));
                    } else {
                        assert(in_range(p[1], y));
                        assert(r.has(y));
                    }
                }
                if r.has(y) {
                    let i = choose|i: int| 0 <= i < p.len() && in_range(#[trigger] p[i], y);
                    assert(i == 0 || i == 1);
                }
            }
        }
        r
    }

    /// Whether chunk layer `y` is in the window.
    pub fn contains(&self, y: i64) -> (r: bool)
        ensures
            r == self.has(y as int),
    {
        proof {
            use_type_invariant(self);
        }
        let mut i: usize = 0;
        while i < self.len
            invariant
                i <= self.len <= 2,
                forall|j: int| 0 <= j < i ==> !in_range(#[trigger] self.parts()[j], y as int),
            decreases self.len - i,
        {
            let (lo, hi) = self.ranges[i];
            assert(self.parts()[i as int] == (lo, hi));
            if lo <= y && y <= hi {
                return true;
            }
            i += 1;
        }
        false
    }

    /// The disjoint inclusive ranges, ascending.
    pub fn ranges(&self) -> (r: &[(i64, i64)])
        ensures
            r@ == self.parts(),
            normal(r@),
    {
        proof {
            use_type_invariant(self);
        }
        let all: &[(i64, i64)] = vstd::array::array_as_slice(&self.ranges);
        let r = vstd::slice::slice_subrange(all, 0, self.len);
        assert(r@ =~= self.parts());
        r
    }

    /// Every layer in the window, ascending.
    pub fn layers(self) -> (r: Vec<i64>)
        ensures
            forall|y: int| #[trigger] self.has(y) <==> exists|i: int|
                0 <= i < r.len() && #[trigger] r[i] == y,
            forall|i: int, j: int| 0 <= i < j < r.len() ==> #[trigger] r[i] < #[trigger] r[j],
    {
        proof {
            use_type_invariant(&self);
        }
        let mut out: Vec<i64> = Vec::new();
        let mut i: usize = 0;
        while i < self.len
            invariant
                i <= self.len <= 2,
                normal(self.parts()),
                self.parts().len() == self.len,
                lists(out@, |y: int| exists|k: int|
                    0 <= k < i && in_range(#[trigger] self.parts()[k], y)),
            decreases self.len - i,
        {
            let (lo, hi) = self.ranges[i];
            assert(self.parts()[i as int] == (lo, hi));
            let ghost before = |y: int| exists|k: int|
                0 <= k < i && in_range(#[trigger] self.parts()[k], y);
            assert forall|y: int| #[trigger] before(y) implies y < lo by {
                let k = choose|k: int| 0 <= k < i && in_range(#[trigger] self.parts()[k], y);
                assert(self.parts()[k].1 + 1 < self.parts()[i as int].0);
            }
            let mut y: i64 = lo;
            let mut more: bool = true;
            while more
                invariant
                    lo <= y <= hi,
                    forall|z: int| #[trigger] before(z) ==> z < lo,
                    more ==> lists(out@, |z: int| before(z) || lo <= z < y),
                    !more ==> y == hi && lists(out@, |z: int| before(z) || lo <= z <= y),
                decreases hi - y, more as int,
            {
                let ghost was = out@;
                out.push(y);
                proof {
                    lemma_lists_push(
                        was,
                        |z: int| before(z) || lo <= z < y,
                        |z: int| before(z) || lo <= z <= y,
                        y,
                    );
                }
                if y == hi {
                    more = false;
                } else {
                    y += 1;
                    proof {
                        lemma_lists_same(
                            out@,
                            |z: int| before(z) || lo <= z <= y - 1,
                            |z: int| before(z) || lo <= z < y,
                        );
                    }
                }
            }
            proof {
                let after = |z: int| exists|k: int|
                    0 <= k < i + 1 && in_range(#[trigger] self.parts()[k], z);
                assert forall|z: int| #[trigger] after(z) == (before(z) || lo <= z <= hi) by {
                    if after(z) {
                        let k = choose|k: int|
                            0 <= k < i + 1 && in_range(#[trigger] self.parts()[k], z);
                        assert(in_range(self.parts()[k], z));
                    }
                    if before(z) {
                        let k = choose|k: int|
                            0 <= k < i && in_range(#[trigger] self.parts()[k], z);
                        assert(in_range(self.parts()[k], z));
                    }
                    if lo <= z <= hi {
                        assert(in_range(self.parts()[i as int], z));
                    }
                }
                lemma_lists_same(out@, |z: int| before(z) || lo <= z <= y, after);
            }
            i += 1;
        }
        proof {
            let p = |y: int| exists|k: int|
                0 <= k < self.len && in_range(#[trigger] self.parts()[k], y);
            assert forall|y: int| #[trigger] self.has(y) <==> exists|i: int|
                0 <= i < out.len() && #[trigger] out[i] == y by {
                assert(self.has(y) == p(y));
            }
        }
        out
    }
}

/// `out` lists exactly the numbers of a set, ascending.
spec fn lists(out: Seq<i64>, set: spec_fn(int) -> bool) -> bool {
    &&& forall|i: int, j: int| 0 <= i < j < out.len() ==> #[trigger] out[i] < #[trigger] out[j]
    &&& forall|y: int| #[trigger] set(y) <==> exists|i: int| 0 <= i < out.len() && #[trigger] out[i]
        == y
}

proof fn lemma_lists_push(
    out: Seq<i64>,
    set: spec_fn(int) -> bool,
    more: spec_fn(int) -> bool,
    y: i64,
)
    requires
        lists(out, set),
        forall|z: int| #[trigger] set(z) ==> z < y,
        forall|z: int| #[trigger] more(z) == (set(z) || z == y),
    ensures
        lists(out.push(y), more),
{
    let next = out.push(y);
    assert forall|i: int, j: int| 0 <= i < j < next.len() implies #[trigger] next[i]
        < #[trigger] next[j] by {
        if j == out.len() {
            assert(out[i] == next[i]);
            assert(set(out[i] as int));
        }
    }
    assert forall|z: int| #[trigger] more(z) <==> exists|i: int|
        0 <= i < next.len() && #[trigger] next[i] == z by {
        if set(z) {
            let i = choose|i: int| 0 <= i < out.len() && #[trigger] out[i] == z;
            assert(next[i] == z);
        }
        if z == y {
            assert(next[out.len() as int] == z);
        }
        if exists|i: int| 0 <= i < next.len() && #[trigger] next[i] == z {
            let i = choose|i: int| 0 <= i < next.len() && #[trigger] next[i] == z;
            if i < out.len() {
                assert(out[i] == z);
                assert(set(z));
            }
        }
    }
}

proof fn lemma_lists_same(out: Seq<i64>, a: spec_fn(int) -> bool, b: spec_fn(int) -> bool)
    requires
        lists(out, a),
        forall|z: int| #[trigger] a(z) == b(z),
    ensures
        lists(out, b),
{
    assert forall|y: int| #[trigger] b(y) <==> exists|i: int|
        0 <= i < out.len() && #[trigger] out[i] == y by {
        assert(a(y) == b(y));
    }
}

/// The ranges are not empty, ascend, and leave a gap between them.
pub open spec fn normal(parts: Seq<(i64, i64)>) -> bool {
    &&& parts.len() <= 2
    &&& forall|i: int| 0 <= i < parts.len() ==> (#[trigger] parts[i]).0 <= parts[i].1
    &&& forall|i: int, j: int|
        0 <= i < j < parts.len() ==> (#[trigger] parts[i]).1 + 1 < (#[trigger] parts[j]).0
}

/// Squared horizontal distance in chunks.
pub open spec fn horiz_dist(a: ChunkPos, b: ChunkPos) -> int {
    (a.x - b.x) * (a.x - b.x) + (a.z - b.z) * (a.z - b.z)
}

/// Squared distance in chunks.
pub open spec fn dist(a: ChunkPos, b: ChunkPos) -> int {
    (a.x - b.x) * (a.x - b.x) + (a.y - b.y) * (a.y - b.y) + (a.z - b.z) * (a.z - b.z)
}

/// `v` brought between the lowest and the highest layer of the world.
pub open spec fn clamp_layer(v: int) -> int {
    if v < WORLD_Y_MIN_CHUNK {
        WORLD_Y_MIN_CHUNK as int
    } else if v >= WORLD_Y_MAX_CHUNK {
        WORLD_Y_MAX_CHUNK - 1
    } else {
        v
    }
}

/// The layer lies in the world.
pub open spec fn world_layer(y: int) -> bool {
    WORLD_Y_MIN_CHUNK <= y < WORLD_Y_MAX_CHUNK
}

/// The settings and the resident set of a streamer.
#[verifier::ext_equal]
pub struct StreamerView {
    pub loaded: Set<ChunkPos>,
    pub load_radius: int,
    pub unload_radius: int,
    pub below: int,
    pub above: int,
    pub camera: int,
}

impl StreamerView {
    pub open spec fn valid(self) -> bool {
        &&& 1 <= self.load_radius < self.unload_radius <= i64::MAX
        &&& 0 <= self.below <= i64::MAX
        &&& 0 <= self.above <= i64::MAX
        &&& 0 <= self.camera <= i64::MAX
    }

    /// The layer is in the window around a column's surface.
    pub open spec fn near_surface(self, span: (i64, i64), y: int) -> bool {
        clamp_layer(span.0 - self.below) <= y <= clamp_layer(span.1 + self.above)
    }

    /// The layer is in the world and within `margin` of the camera's.
    pub open spec fn near_camera(self, center: ChunkPos, margin: int, y: int) -> bool {
        world_layer(y) && center.y - margin <= y <= center.y + margin
    }

    /// The layers a column loads.
    pub open spec fn loads_layer(self, center: ChunkPos, span: (i64, i64), y: int) -> bool {
        self.near_surface(span, y) || self.near_camera(center, self.camera, y)
    }

    /// The layers a column keeps once loaded: one more either side of the
    /// camera.
    pub open spec fn keeps_layer(self, center: ChunkPos, span: (i64, i64), y: int) -> bool {
        self.near_surface(span, y) || self.near_camera(center, self.camera + 1, y)
    }

    /// The chunk belongs to the set loaded for a camera at `center`.
    pub open spec fn wants(self, pos: ChunkPos, center: ChunkPos, span: (i64, i64)) -> bool {
        &&& horiz_dist(pos, center) <= self.load_radius * self.load_radius
        &&& world_layer(pos.y as int)
        &&& self.loads_layer(center, span, pos.y as int)
    }

    /// A loaded chunk may stay for a camera at `center`.
    pub open spec fn keeps(self, pos: ChunkPos, center: ChunkPos, span: (i64, i64)) -> bool {
        &&& horiz_dist(pos, center) <= self.unload_radius * self.unload_radius
        &&& world_layer(pos.y as int)
        &&& self.keeps_layer(center, span, pos.y as int)
    }
}

/// Tracks the loaded-chunk set and computes streaming deltas.
pub struct Streamer {
    loaded: SortedSet,
    load_radius: i64,
    unload_radius: i64,
    /// Chunk layers kept loaded below and above each column's surface span.
    below_chunks: i64,
    above_chunks: i64,
    /// Chunk layers kept loaded below and above the camera's layer.
    camera_chunks: i64,
}

/// A chunk's key.
pub open spec fn chunk_key(p: ChunkPos) -> Key {
    (p.x, p.y, p.z)
}

/// The chunk with a key.
pub open spec fn key_chunk(k: Key) -> ChunkPos {
    ChunkPos { x: k.0, y: k.1, z: k.2 }
}

impl View for Streamer {
    type V = StreamerView;

    closed spec fn view(&self) -> StreamerView {
        StreamerView {
            loaded: Set::new(|p: ChunkPos| self.loaded@.contains(chunk_key(p))),
            load_radius: self.load_radius as int,
            unload_radius: self.unload_radius as int,
            below: self.below_chunks as int,
            above: self.above_chunks as int,
            camera: self.camera_chunks as int,
        }
    }
}

/// Whether the horizontal distance is at most `radius`.
fn within(a: ChunkPos, b: ChunkPos, radius: i64) -> (r: bool)
    requires
        radius >= 0,
    ensures
        r == (horiz_dist(a, b) <= radius * radius),
{
    let dx: i128 = a.x as i128 - b.x as i128;
    let dz: i128 = a.z as i128 - b.z as i128;
    let r: i128 = radius as i128;
    proof {
        lemma_square_bound(dx as int, dz as int, r as int);
    }
    if dx > r || dx < -r || dz > r || dz < -r {
        return false;
    }
    dx * dx + dz * dz <= r * r
}

proof fn lemma_square_bound(dx: int, dz: int, r: int)
    requires
        0 <= r <= i64::MAX,
    ensures
        dx > r || dx < -r || dz > r || dz < -r ==> dx * dx + dz * dz > r * r,
        -r <= dx <= r ==> 0 <= dx * dx <= r * r,
        -r <= dz <= r ==> 0 <= dz * dz <= r * r,
        0 <= r * r <= 0x3fff_ffff_ffff_ffff_0000_0000_0000_0001,
{
    assert(dx * dx >= 0) by (nonlinear_arith);
    assert(dz * dz >= 0) by (nonlinear_arith);
    assert(dx > r || dx < -r ==> dx * dx > r * r) by (nonlinear_arith)
        requires
            r >= 0,
    ;
    assert(dz > r || dz < -r ==> dz * dz > r * r) by (nonlinear_arith)
        requires
            r >= 0,
    ;
    assert(-r <= dx <= r ==> dx * dx <= r * r) by (nonlinear_arith)
        requires
            r >= 0,
    ;
    assert(-r <= dz <= r ==> dz * dz <= r * r) by (nonlinear_arith)
        requires
            r >= 0,
    ;
    assert(0 <= r * r <= 0x7fff_ffff_ffff_ffff * 0x7fff_ffff_ffff_ffff) by (nonlinear_arith)
        requires
            0 <= r <= 0x7fff_ffff_ffff_ffff,
    ;
}

fn clamp_to_world(v: i128) -> (r: i64)
    ensures
        r == clamp_layer(v as int),
{
    if v < WORLD_Y_MIN_CHUNK as i128 {
        WORLD_Y_MIN_CHUNK
    } else if v >= WORLD_Y_MAX_CHUNK as i128 {
        WORLD_Y_MAX_CHUNK - 1
    } else {
        v as i64
    }
}

impl Streamer {
    #[verifier::type_invariant]
    pub open spec fn inv(self) -> bool {
        self@.valid()
    }

    /// Create a streamer that keeps `below_chunks` layers beneath and
    /// `above_chunks` layers above each column's terrain surface, plus
    /// `camera_chunks` layers either side of the camera's own layer.
    pub fn surface_following(
        load_radius: i64,
        unload_radius: i64,
        below_chunks: i64,
        above_chunks: i64,
        camera_chunks: i64,
    ) -> (r: Self)
        requires
            1 <= load_radius < unload_radius,
            below_chunks >= 0,
            above_chunks >= 0,
            camera_chunks >= 0,
        ensures
            r@ == (StreamerView {
                loaded: Set::empty(),
                load_radius: load_radius as int,
                unload_radius: unload_radius as int,
                below: below_chunks as int,
                above: above_chunks as int,
                camera: camera_chunks as int,
            }),
    {
        let r = Streamer {
            loaded: SortedSet::new(),
            load_radius,
            unload_radius,
            below_chunks,
            above_chunks,
            camera_chunks,
        };
        assert(r@.loaded =~= Set::<ChunkPos>::empty());
        r
    }

    /// A streamer whose vertical margins are its load radius.
    pub fn new(load_radius: i64, unload_radius: i64) -> (r: Self)
        requires
            1 <= load_radius < unload_radius,
        ensures
            r@ == (StreamerView {
                loaded: Set::empty(),
                load_radius: load_radius as int,
                unload_radius: unload_radius as int,
                below: load_radius as int,
                above: load_radius as int,
                camera: load_radius as int,
            }),
    {
        Self::surface_following(load_radius, unload_radius, load_radius, load_radius, load_radius)
    }

    /// Change the radii and margins, *keeping* the resident set.
    ///
    /// A change of view settings must go through this, never through a new
    /// streamer, which would request every resident chunk again and never
    /// release those it did not load.
    pub fn reconfigure(
        &mut self,
        load_radius: i64,
        unload_radius: i64,
        below_chunks: i64,
        above_chunks: i64,
        camera_chunks: i64,
    )
        requires
            1 <= load_radius < unload_radius,
            below_chunks >= 0,
            above_chunks >= 0,
            camera_chunks >= 0,
        ensures
            final(self)@ == old(self)@.reconfigured(
                load_radius as int,
                unload_radius as int,
                below_chunks as int,
                above_chunks as int,
                camera_chunks as int,
            ),
    {
        proof {
            use_type_invariant(&*self);
        }
        let mut loaded = SortedSet::new();
        core::mem::swap(&mut self.loaded, &mut loaded);
        *self = Streamer {
            loaded,
            load_radius,
            unload_radius,
            below_chunks,
            above_chunks,
            camera_chunks,
        };
        assert(self@ =~= (StreamerView {
            loaded: old(self)@.loaded,
            load_radius: load_radius as int,
            unload_radius: unload_radius as int,
            below: below_chunks as int,
            above: above_chunks as int,
            camera: camera_chunks as int,
        }));
    }

    /// Chunk layers kept below and above each column's surface span.
    pub fn vertical_margins(&self) -> (r: (i64, i64))
        ensures
            r.0 == self@.below,
            r.1 == self@.above,
    {
        (self.below_chunks, self.above_chunks)
    }

    /// Chunk layers kept loaded either side of the camera's layer.
    pub fn camera_margin(&self) -> (r: i64)
        ensures
            r == self@.camera,
    {
        self.camera_chunks
    }

    /// The chunk-Y range kept loaded around this column's terrain surface,
    /// given its surface span, clamped to the world's vertical bounds. This is
    /// the part of a column's residency that belongs to the *terrain*.
    pub fn surface_window(&self, surface_span: (i64, i64)) -> (r: (i64, i64))
        ensures
            r.0 == clamp_layer(surface_span.0 - self@.below),
            r.1 == clamp_layer(surface_span.1 + self@.above),
            forall|y: int| #[trigger] in_range(r, y) <==> self@.near_surface(surface_span, y),
    {
        let lo: i64 = clamp_to_world(surface_span.0 as i128 - self.below_chunks as i128);
        let hi: i64 = clamp_to_world(surface_span.1 as i128 + self.above_chunks as i128);
        (lo, hi)
    }

    /// The camera window, `margin` layers either side of `center.y`,
    /// intersected with the world: empty when the camera is far enough outside
    /// the world's vertical bounds.
    fn camera_window(&self, center: ChunkPos, margin: i128) -> (r: (i64, i64))
        requires
            0 <= margin <= 0x8000_0000_0000_0000,
        ensures
            forall|y: int| #[trigger]
                in_range(r, y) <==> self@.near_camera(center, margin as int, y),
    {
        let lo: i128 = center.y as i128 - margin;
        let hi: i128 = center.y as i128 + margin;
        if hi < WORLD_Y_MIN_CHUNK as i128 || lo >= WORLD_Y_MAX_CHUNK as i128 {
            return (0, -1);
        }
        (clamp_to_world(lo), clamp_to_world(hi))
    }

    /// Every chunk layer this column *loads* for a camera at `center`: its
    /// surface window together with the camera window.
    pub fn column_window(&self, center: ChunkPos, surface_span: (i64, i64)) -> (r: ColumnWindow)
        ensures
            forall|y: int| #[trigger]
                r.has(y) <==> self@.loads_layer(center, surface_span, y),
    {
        proof {
            use_type_invariant(self);
        }
        let a = self.surface_window(surface_span);
        let b = self.camera_window(center, self.camera_chunks as i128);
        let r = ColumnWindow::union(a, b);
        assert forall|y: int| #[trigger] r.has(y) <==> self@.loads_layer(
            center,
            surface_span,
            y,
        ) by {
            assert(in_range(a, y) <==> self@.near_surface(surface_span, y));
            assert(in_range(b, y) <==> self@.near_camera(center, self@.camera, y));
        }
        r
    }

    /// The wider window a column *keeps* once loaded.
    fn keep_window(&self, center: ChunkPos, surface_span: (i64, i64)) -> (r: ColumnWindow)
        ensures
            forall|y: int| #[trigger]
                r.has(y) <==> self@.keeps_layer(center, surface_span, y),
    {
        proof {
            use_type_invariant(self);
        }
        let a = self.surface_window(surface_span);
        let b = self.camera_window(center, self.camera_chunks as i128 + 1);
        let r = ColumnWindow::union(a, b);
        assert forall|y: int| #[trigger] r.has(y) <==> self@.keeps_layer(
            center,
            surface_span,
            y,
        ) by {
            assert(in_range(a, y) <==> self@.near_surface(surface_span, y));
            assert(in_range(b, y) <==> self@.near_camera(center, self@.camera + 1, y));
        }
        r
    }

    /// Whether `pos` is in the set this streamer loads for a camera at
    /// `center`. `surface_span` is the span of `pos`'s column. An absent chunk
    /// for which it is false will not arrive while the camera stays where it
    /// is, so nothing should wait on it.
    pub fn wants(&self, pos: ChunkPos, center: ChunkPos, surface_span: (i64, i64)) -> (r: bool)
        ensures
            r == self@.wants(pos, center, surface_span),
    {
        proof {
            use_type_invariant(self);
        }
        within(pos, center, self.load_radius) && chunk_in_vertical_bounds(pos)
            && self.column_window(center, surface_span).contains(pos.y)
    }

    pub fn load_radius(&self) -> (r: i64)
        ensures
            r == self@.load_radius,
    {
        self.load_radius
    }

    pub fn unload_radius(&self) -> (r: i64)
        ensures
            r == self@.unload_radius,
    {
        self.unload_radius
    }

    pub fn loaded_count(&self) -> (r: usize)
        ensures
            self@.loaded.finite(),
            r == self@.loaded.len(),
    {
        let n: usize = self.loaded.len();
        proof {
            lemma_chunk_set(self.loaded@, self@.loaded);
        }
        n
    }

    pub fn is_loaded(&self, pos: ChunkPos) -> (r: bool)
        ensures
            r == self@.loaded.contains(pos),
    {
        self.loaded.contains((pos.x, pos.y, pos.z))
    }

    /// The loaded chunks, by x, then y, then z.
    pub fn loaded(&self) -> (r: Vec<ChunkPos>)
        ensures
            forall|p: ChunkPos| #[trigger] r@.contains(p) <==> self@.loaded.contains(p),
            forall|i: int, j: int|
                0 <= i < j < r.len() ==> key_lt(
                    chunk_key(#[trigger] r[i]),
                    chunk_key(#[trigger] r[j]),
                ),
    {
        let keys = self.loaded.list_keys();
        let r = chunks_of_keys(&keys);
        proof {
            lemma_chunks_of(keys@, r@, self.loaded@, self@.loaded);
        }
        r
    }

    /// Confirm a chunk has been loaded (data is resident). Idempotent.
    pub fn mark_loaded(&mut self, pos: ChunkPos)
        ensures
            final(self)@ == (StreamerView {
                loaded: old(self)@.loaded.insert(pos),
                ..old(self)@
            }),
    {
        proof {
            use_type_invariant(&*self);
        }
        let mut loaded = SortedSet::new();
        core::mem::swap(&mut self.loaded, &mut loaded);
        loaded.insert((pos.x, pos.y, pos.z));
        self.loaded = loaded;
        assert(self@ =~= (StreamerView { loaded: old(self)@.loaded.insert(pos), ..old(self)@ }));
    }

    /// Confirm a chunk has been unloaded (data released). Idempotent.
    pub fn mark_unloaded(&mut self, pos: ChunkPos)
        ensures
            final(self)@ == (StreamerView {
                loaded: old(self)@.loaded.remove(pos),
                ..old(self)@
            }),
    {
        proof {
            use_type_invariant(&*self);
        }
        let mut loaded = SortedSet::new();
        core::mem::swap(&mut self.loaded, &mut loaded);
        loaded.remove((pos.x, pos.y, pos.z));
        self.loaded = loaded;
        assert(self@ =~= (StreamerView { loaded: old(self)@.loaded.remove(pos), ..old(self)@ }));
    }

    /// Apply an update's loads and unloads immediately, as a synchronous caller
    /// would.
    pub fn apply(&mut self, update: &StreamUpdate)
        ensures
            final(self)@ == (StreamerView {
                loaded: old(self)@.loaded.union(update.to_load@.to_set()).difference(
                    update.to_unload@.to_set(),
                ),
                ..old(self)@
            }),
    {
        let mut i: usize = 0;
        while i < update.to_load.len()
            invariant
                i <= update.to_load.len(),
                self@ == (StreamerView {
                    loaded: old(self)@.loaded.union(update.to_load@.take(i as int).to_set()),
                    ..old(self)@
                }),
            decreases update.to_load.len() - i,
        {
            let p = update.to_load[i];
            self.mark_loaded(p);
            proof {
                lemma_take_set(update.to_load@, i as int);
            }
            assert(self@ =~= (StreamerView {
                loaded: old(self)@.loaded.union(update.to_load@.take(i + 1).to_set()),
                ..old(self)@
            }));
            i += 1;
        }
        assert(update.to_load@.take(i as int) =~= update.to_load@);
        let ghost mid = self@.loaded;
        let mut i: usize = 0;
        assert(self@ =~= (StreamerView {
            loaded: mid.difference(update.to_unload@.take(0).to_set()),
            ..old(self)@
        }));
        while i < update.to_unload.len()
            invariant
                i <= update.to_unload.len(),
                self@ == (StreamerView {
                    loaded: mid.difference(update.to_unload@.take(i as int).to_set()),
                    ..old(self)@
                }),
            decreases update.to_unload.len() - i,
        {
            let p = update.to_unload[i];
            self.mark_unloaded(p);
            proof {
                lemma_take_set(update.to_unload@, i as int);
            }
            assert(self@ =~= (StreamerView {
                loaded: mid.difference(update.to_unload@.take(i + 1).to_set()),
                ..old(self)@
            }));
            i += 1;
        }
        assert(update.to_unload@.take(i as int) =~= update.to_unload@);
    }
}

proof fn lemma_take_set<A>(s: Seq<A>, i: int)
    requires
        0 <= i < s.len(),
    ensures
        s.take(i + 1).to_set() == s.take(i).to_set().insert(s[i]),
{
    let a = s.take(i + 1);
    let b = s.take(i);
    assert forall|x: A| #[trigger] a.to_set().contains(x) <==> b.to_set().insert(s[i]).contains(
        x,
    ) by {
        if a.contains(x) {
            let k = choose|k: int| 0 <= k < a.len() && a[k] == x;
            if k < i {
                assert(b[k] == x);
            }
        }
        if b.contains(x) {
            let k = choose|k: int| 0 <= k < b.len() && b[k] == x;
            assert(a[k] == x);
        }
        assert(a[i] == s[i]);
    }
    assert(a.to_set() =~= b.to_set().insert(s[i]));
}

/// A set of keys and the set of chunks they stand for have the same size.
proof fn lemma_chunk_set(keys: Set<Key>, chunks: Set<ChunkPos>)
    requires
        keys.finite(),
        chunks =~= Set::new(|p: ChunkPos| keys.contains(chunk_key(p))),
    ensures
        chunks.finite(),
        chunks.len() == keys.len(),
{
    let f = |k: Key| key_chunk(k);
    assert(keys.map(f) =~= chunks) by {
        assert forall|p: ChunkPos| #[trigger] chunks.contains(p) implies keys.map(f).contains(p) by {
            assert(keys.contains(chunk_key(p)) && f(chunk_key(p)) == p);
        }
        assert forall|p: ChunkPos| #[trigger] keys.map(f).contains(p) implies chunks.contains(p) by {
            let k = choose|k: Key| keys.contains(k) && f(k) == p;
            assert(chunk_key(p) == k);
        }
    }
    vstd::set_lib::lemma_map_size(keys, chunks, f);
}

/// The chunks that keys stand for.
pub(crate) fn chunks_of_keys(keys: &Vec<Key>) -> (r: Vec<ChunkPos>)
    ensures
        r@ == keys@.map_values(|k: Key| key_chunk(k)),
{
    let mut r: Vec<ChunkPos> = Vec::with_capacity(keys.len());
    let mut i: usize = 0;
    while i < keys.len()
        invariant
            i <= keys.len(),
            r@ == keys@.take(i as int).map_values(|k: Key| key_chunk(k)),
        decreases keys.len() - i,
    {
        let k = keys[i];
        r.push(ChunkPos::new(k.0, k.1, k.2));
        assert(r@ =~= keys@.take(i + 1).map_values(|k: Key| key_chunk(k)));
        i += 1;
    }
    assert(keys@.take(i as int) =~= keys@);
    r
}

pub(crate) proof fn lemma_chunks_of(
    keys: Seq<Key>,
    chunks: Seq<ChunkPos>,
    key_set: Set<Key>,
    chunk_set: Set<ChunkPos>,
)
    requires
        chunks == keys.map_values(|k: Key| key_chunk(k)),
        forall|k: Key| #[trigger] key_set.contains(k) <==> keys.contains(k),
        chunk_set =~= Set::new(|p: ChunkPos| key_set.contains(chunk_key(p))),
    ensures
        forall|p: ChunkPos| #[trigger] chunks.contains(p) <==> chunk_set.contains(p),
        forall|i: int|
            0 <= i < chunks.len() ==> chunk_key(#[trigger] chunks[i]) == keys[i],
{
    assert forall|p: ChunkPos| #[trigger] chunks.contains(p) <==> chunk_set.contains(p) by {
        if chunks.contains(p) {
            let i = choose|i: int| 0 <= i < chunks.len() && chunks[i] == p;
            assert(keys.contains(keys[i]));
            assert(chunk_key(p) == keys[i]);
        }
        if chunk_set.contains(p) {
            assert(keys.contains(chunk_key(p)));
            let i = choose|i: int| 0 <= i < keys.len() && keys[i] == chunk_key(p);
            assert(chunks[i] == p);
        }
    }
}

/// What orders chunks to load: distance from the camera, ties by z, x and y.
pub open spec fn load_key(p: ChunkPos, center: ChunkPos) -> DistKey {
    (dist(p, center) as i128, p.z, p.x, p.y)
}

/// The surface spans of columns.
pub type Spans = Map<(i64, i64), (i64, i64)>;

/// The update asks for what a camera at `center` needs, given the spans that
/// the query gave: it loads the wanted chunks that are not resident, nearest
/// first, and unloads the resident ones that may not stay.
pub open spec fn is_update(
    v: StreamerView,
    center: ChunkPos,
    spans: Spans,
    to_load: Seq<ChunkPos>,
    to_unload: Seq<ChunkPos>,
) -> bool {
    &&& forall|p: ChunkPos| #[trigger]
        to_load.contains(p) <==> v.wants(p, center, spans[(p.x, p.z)]) && !v.loaded.contains(p)
    &&& forall|i: int, j: int|
        0 <= i < j < to_load.len() ==> dist_lt(
            load_key(#[trigger] to_load[i], center),
            load_key(#[trigger] to_load[j], center),
        )
    &&& forall|p: ChunkPos| #[trigger]
        to_unload.contains(p) <==> v.loaded.contains(p) && !v.keeps(p, center, spans[(p.x, p.z)])
    &&& forall|i: int, j: int|
        0 <= i < j < to_unload.len() ==> key_lt(
            chunk_key(#[trigger] to_unload[i]),
            chunk_key(#[trigger] to_unload[j]),
        )
}

/// An update may ask for the span of this column: it lies within the load
/// radius, or holds a resident chunk within the unload radius.
pub open spec fn may_ask(v: StreamerView, center: ChunkPos, c: (i64, i64)) -> bool {
    let d = horiz_dist(ChunkPos { x: c.0, y: 0, z: c.1 }, center);
    ||| d <= v.load_radius * v.load_radius
    ||| d <= v.unload_radius * v.unload_radius && exists|p: ChunkPos| #[trigger]
        v.loaded.contains(p) && p.x == c.0 && p.z == c.1
}

/// Every column whose span matters was asked for, and has a span that the query
/// gave.
pub open spec fn spans_given<F: Fn(i64, i64) -> (i64, i64)>(
    v: StreamerView,
    center: ChunkPos,
    surface_span: F,
    spans: Spans,
) -> bool {
    &&& forall|c: (i64, i64)| #[trigger]
        spans.dom().contains(c) ==> call_ensures(surface_span, c, spans[c])
    &&& forall|p: ChunkPos| #[trigger]
        horiz_dist(p, center) <= v.load_radius * v.load_radius ==> spans.dom().contains((p.x, p.z))
    &&& forall|p: ChunkPos|
        #[trigger] v.loaded.contains(p) && horiz_dist(p, center) <= v.unload_radius
            * v.unload_radius ==> spans.dom().contains((p.x, p.z))
}

spec fn memo_ok<F: Fn(i64, i64) -> (i64, i64)>(memo: Map<Key, (i64, i64)>, f: F) -> bool {
    forall|k: Key| #[trigger]
        memo.dom().contains(k) ==> k.1 == 0 && call_ensures(f, (k.0, k.2), memo[k])
}

/// `b` has every entry of `a`.
spec fn extends(a: Map<Key, (i64, i64)>, b: Map<Key, (i64, i64)>) -> bool {
    forall|k: Key| #[trigger] a.dom().contains(k) ==> b.dom().contains(k) && b[k] == a[k]
}

/// The span of a column, asked for once.
fn span_of<F: Fn(i64, i64) -> (i64, i64)>(
    memo: &mut SortedMap<(i64, i64)>,
    f: &F,
    cx: i64,
    cz: i64,
) -> (r: (i64, i64))
    requires
        call_requires(*f, (cx, cz)),
        memo_ok(old(memo)@, *f),
    ensures
        memo_ok(final(memo)@, *f),
        final(memo)@.dom().contains((cx, 0, cz)),
        r == final(memo)@[(cx, 0, cz)],
        extends(old(memo)@, final(memo)@),
{
    if let Some(s) = memo.get((cx, 0, cz)) {
        return *s;
    }
    let s = f(cx, cz);
    memo.insert((cx, 0, cz), s);
    s
}

/// Among the first `n` resident keys, exactly those that may not stay are
/// listed, and the spans that matter are known.
spec fn unload_listed(
    v: StreamerView,
    center: ChunkPos,
    memo: Map<Key, (i64, i64)>,
    keys: Seq<Key>,
    n: int,
    out: Seq<Key>,
) -> bool {
    &&& forall|k: Key| #[trigger]
        out.contains(k) <==> keys.take(n).contains(k) && !v.keeps(
            key_chunk(k),
            center,
            memo[(k.0, 0, k.2)],
        )
    &&& forall|i: int, j: int|
        0 <= i < j < out.len() ==> key_lt(#[trigger] out[i], #[trigger] out[j])
    &&& forall|i: int|
        0 <= i < n && horiz_dist(key_chunk(#[trigger] keys[i]), center) <= v.unload_radius
            * v.unload_radius ==> memo.dom().contains((keys[i].0, 0, keys[i].2))
}

/// The column comes before `(z, x)`.
spec fn column_before(p: ChunkPos, z: int, x: int) -> bool {
    p.z < z || (p.z == z && p.x < x)
}

/// The keys of the wanted chunks that are not resident, in the columns of the
/// disc before `(z, x)` and, of that column, in the first `n` layers listed.
spec fn load_listed(
    v: StreamerView,
    center: ChunkPos,
    memo: Map<Key, (i64, i64)>,
    z: int,
    x: int,
    layers: Seq<i64>,
    n: int,
    out: Seq<DistKey>,
) -> bool {
    &&& forall|p: ChunkPos| #[trigger]
        out.contains(load_key(p, center)) <==> v.wants(p, center, memo[(p.x, 0, p.z)])
            && !v.loaded.contains(p) && (column_before(p, z, x) || (p.z == z && p.x == x
            && layers.take(n).contains(p.y)))
    &&& forall|k: DistKey| #[trigger]
        out.contains(k) ==> k == load_key(ChunkPos { x: k.2, y: k.3, z: k.1 }, center)
    &&& out.no_duplicates()
    &&& forall|p: ChunkPos| #[trigger]
        horiz_dist(p, center) <= v.load_radius * v.load_radius && column_before(p, z, x)
            ==> memo.dom().contains((p.x, 0, p.z))
}

/// The squared distance of two chunks.
fn dist_of(a: ChunkPos, b: ChunkPos) -> (r: i128)
    requires
        dist(a, b) <= i128::MAX,
    ensures
        r == dist(a, b),
{
    let dx: i128 = a.x as i128 - b.x as i128;
    let dy: i128 = a.y as i128 - b.y as i128;
    let dz: i128 = a.z as i128 - b.z as i128;
    assert(dx * dx >= 0 && dy * dy >= 0 && dz * dz >= 0) by (nonlinear_arith);
    dx * dx + dy * dy + dz * dz
}

/// A wanted chunk's distance fits.
proof fn lemma_wanted_dist(v: StreamerView, p: ChunkPos, center: ChunkPos)
    requires
        0 <= v.load_radius <= 0x4000_0000_0000_0000,
        horiz_dist(p, center) <= v.load_radius * v.load_radius,
        world_layer(p.y as int),
    ensures
        0 <= dist(p, center) <= i128::MAX,
{
    let r = v.load_radius;
    let dy = p.y - center.y;
    let dx = p.x - center.x;
    let dz = p.z - center.z;
    assert(dx * dx >= 0 && dz * dz >= 0) by (nonlinear_arith);
    assert(0 <= r * r <= 0x4000_0000_0000_0000 * 0x4000_0000_0000_0000) by (nonlinear_arith)
        requires
            0 <= r <= 0x4000_0000_0000_0000,
    ;
    assert(0 <= dy * dy <= 0x8000_0000_0000_1000 * 0x8000_0000_0000_1000) by (nonlinear_arith)
        requires
            -0x8000_0000_0000_1000 <= dy <= 0x8000_0000_0000_1000,
    ;
}

/// The disc fits in the square of its radius.
proof fn lemma_disc_bounds(p: ChunkPos, center: ChunkPos, r: int)
    requires
        0 <= r,
        horiz_dist(p, center) <= r * r,
    ensures
        center.x - r <= p.x <= center.x + r,
        center.z - r <= p.z <= center.z + r,
{
    let dx = p.x - center.x;
    let dz = p.z - center.z;
    assert(-r <= dx <= r && -r <= dz <= r) by (nonlinear_arith)
        requires
            0 <= r,
            dx * dx + dz * dz <= r * r,
    ;
}

impl Streamer {
    /// Compute what to load and unload for the camera at chunk `center`.
    ///
    /// - `to_load`: chunks in the load set that are not resident, nearest first.
    /// - `to_unload`: resident chunks that may not stay.
    ///
    /// The resident set is not changed: the caller confirms completion via
    /// [`Streamer::mark_loaded`] and [`Streamer::mark_unloaded`].
    ///
    /// `surface_span(cx, cz)` returns the inclusive chunk-Y span of terrain
    /// surface within that chunk column. It is called at most once per column,
    /// and only for columns that [`may_ask`] names.
    pub fn update<F: Fn(i64, i64) -> (i64, i64)>(
        &mut self,
        center: ChunkPos,
        surface_span: F,
    ) -> (r: StreamUpdate)
        requires
            forall|c: (i64, i64)|
                may_ask(old(self)@, center, c) ==> #[trigger] call_requires(surface_span, c),
            old(self)@.load_radius <= 0x4000_0000_0000_0000,
            i64::MIN <= center.x - old(self)@.load_radius,
            center.x + old(self)@.load_radius <= i64::MAX,
            i64::MIN <= center.z - old(self)@.load_radius,
            center.z + old(self)@.load_radius <= i64::MAX,
        ensures
            final(self)@ == old(self)@,
            exists|spans: Spans| #[trigger]
                spans_given(old(self)@, center, surface_span, spans) && is_update(
                    old(self)@,
                    center,
                    spans,
                    r.to_load@,
                    r.to_unload@,
                ),
    {
        proof {
            use_type_invariant(&*self);
        }
        let ghost v = self@;
        let mut memo: SortedMap<(i64, i64)> = SortedMap::new();
        let gone = self.list_unloads(center, &surface_span, &mut memo);
        let ghost memo1 = memo@;
        let found = self.list_loads(center, &surface_span, &mut memo);
        let ghost memo2 = memo@;
        let ghost spans: Spans = Map::new(
            |c: (i64, i64)| memo2.dom().contains((c.0, 0, c.1)),
            |c: (i64, i64)| memo2[(c.0, 0, c.1)],
        );
        let sorted = sort_keys(found);
        let mut to_load: Vec<ChunkPos> = Vec::with_capacity(sorted.len());
        let mut i: usize = 0;
        while i < sorted.len()
            invariant
                i <= sorted.len(),
                to_load.len() == i,
                forall|j: int|
                    0 <= j < i ==> #[trigger] to_load[j] == (ChunkPos {
                        x: sorted[j].2,
                        y: sorted[j].3,
                        z: sorted[j].1,
                    }),
            decreases sorted.len() - i,
        {
            let k = sorted[i];
            to_load.push(ChunkPos::new(k.2, k.3, k.1));
            i += 1;
        }
        let to_unload = chunks_of_keys(&gone);
        proof {
            lemma_sorted_keeps(found@, sorted@);
            assert forall|j: int| 0 <= j < sorted.len() implies load_key(
                #[trigger] to_load[j],
                center,
            ) == sorted[j] by {
                assert(sorted@.contains(sorted[j]));
                assert(found@.contains(sorted[j]));
            }
            assert forall|p: ChunkPos| #[trigger] to_load@.contains(p) <==> v.wants(
                p,
                center,
                spans[(p.x, p.z)],
            ) && !v.loaded.contains(p) by {
                if to_load@.contains(p) {
                    let j = choose|j: int| 0 <= j < to_load.len() && to_load[j] == p;
                    assert(sorted@.contains(sorted[j]));
                    assert(found@.contains(load_key(p, center)));
                }
                if v.wants(p, center, spans[(p.x, p.z)]) && !v.loaded.contains(p) {
                    lemma_disc_bounds(p, center, v.load_radius);
                    assert(found@.contains(load_key(p, center)));
                    assert(sorted@.contains(load_key(p, center)));
                    let j = choose|j: int|
                        0 <= j < sorted.len() && sorted[j] == load_key(p, center);
                    assert(to_load[j] == p);
                }
            }
            assert forall|p: ChunkPos| #[trigger] to_unload@.contains(p) <==> v.loaded.contains(p)
                && !v.keeps(p, center, spans[(p.x, p.z)]) by {
                lemma_unload_meaning(
                    v,
                    center,
                    self.loaded.keys(),
                    self.loaded@,
                    memo1,
                    memo2,
                    gone@,
                    to_unload@,
                    p,
                );
            }
            assert forall|p: ChunkPos| #[trigger]
                horiz_dist(p, center) <= v.load_radius * v.load_radius implies spans.dom().contains(
                (p.x, p.z),
            ) by {
                lemma_disc_bounds(p, center, v.load_radius);
            }
            assert forall|p: ChunkPos|
                #[trigger] v.loaded.contains(p) && horiz_dist(p, center) <= v.unload_radius
                    * v.unload_radius implies spans.dom().contains((p.x, p.z)) by {
                assert(self.loaded@.contains(chunk_key(p)));
                assert(self.loaded.keys().contains(chunk_key(p)));
                let j = choose|j: int|
                    0 <= j < self.loaded.keys().len() && self.loaded.keys()[j] == chunk_key(p);
                assert(key_chunk(self.loaded.keys()[j]) == p);
                assert(memo1.dom().contains((p.x, 0, p.z)));
            }
            assert(spans_given(v, center, surface_span, spans));
            assert(is_update(v, center, spans, to_load@, to_unload@));
        }
        StreamUpdate { to_load, to_unload }
    }
}

/// Sorting keeps the elements, and orders distinct ones strictly.
proof fn lemma_sorted_keeps(a: Seq<DistKey>, b: Seq<DistKey>)
    requires
        a.no_duplicates(),
        in_order(b),
        a.to_multiset() == b.to_multiset(),
    ensures
        forall|k: DistKey| #[trigger] b.contains(k) <==> a.contains(k),
        forall|k: DistKey| #[trigger] a.contains(k) <==> b.contains(k),
        forall|i: int, j: int|
            0 <= i < j < b.len() ==> dist_lt(#[trigger] b[i], #[trigger] b[j]),
{
    a.to_multiset_ensures();
    b.to_multiset_ensures();
    a.lemma_multiset_has_no_duplicates();
    b.lemma_multiset_has_no_duplicates_conv();
    assert forall|k: DistKey| b.contains(k) <==> a.contains(k) by {
        assert(a.contains(k) <==> a.to_multiset().count(k) > 0);
        assert(b.contains(k) <==> b.to_multiset().count(k) > 0);
    }
    assert forall|i: int, j: int| 0 <= i < j < b.len() implies dist_lt(
        #[trigger] b[i],
        #[trigger] b[j],
    ) by {
        assert(b[i] != b[j]);
    }
}

proof fn lemma_unload_meaning(
    v: StreamerView,
    center: ChunkPos,
    keys: Seq<Key>,
    loaded: Set<Key>,
    memo1: Map<Key, (i64, i64)>,
    memo2: Map<Key, (i64, i64)>,
    gone: Seq<Key>,
    to_unload: Seq<ChunkPos>,
    p: ChunkPos,
)
    requires
        unload_listed(v, center, memo1, keys, keys.len() as int, gone),
        extends(memo1, memo2),
        forall|k: Key| #[trigger] loaded.contains(k) <==> keys.contains(k),
        v.loaded.contains(p) == loaded.contains(chunk_key(p)),
        to_unload == gone.map_values(|k: Key| key_chunk(k)),
    ensures
        to_unload.contains(p) <==> v.loaded.contains(p) && !v.keeps(
            p,
            center,
            memo2[(p.x, 0, p.z)],
        ),
{
    let k = chunk_key(p);
    assert(keys.take(keys.len() as int) =~= keys);
    assert(gone.contains(k) <==> keys.contains(k) && !v.keeps(
        key_chunk(k),
        center,
        memo1[(k.0, 0, k.2)],
    ));
    if keys.contains(k) && horiz_dist(p, center) <= v.unload_radius * v.unload_radius {
        let i = choose|i: int| 0 <= i < keys.len() && keys[i] == k;
        assert(key_chunk(keys[i]) == p);
        assert(memo1.dom().contains((k.0, 0, k.2)));
    }
    if to_unload.contains(p) {
        let i = choose|i: int| 0 <= i < to_unload.len() && to_unload[i] == p;
        assert(gone[i] == k);
        assert(gone.contains(gone[i]));
    }
    if gone.contains(k) {
        let i = choose|i: int| 0 <= i < gone.len() && gone[i] == k;
        assert(to_unload[i] == p);
    }
}

impl Streamer {
    /// The keys of the resident chunks that may not stay.
    fn list_unloads<F: Fn(i64, i64) -> (i64, i64)>(
        &self,
        center: ChunkPos,
        surface_span: &F,
        memo: &mut SortedMap<(i64, i64)>,
    ) -> (out: Vec<Key>)
        requires
            forall|c: (i64, i64)|
                may_ask(self@, center, c) ==> #[trigger] call_requires(*surface_span, c),
            memo_ok(old(memo)@, *surface_span),
        ensures
            memo_ok(final(memo)@, *surface_span),
            unload_listed(
                self@,
                center,
                final(memo)@,
                self.loaded.keys(),
                self.loaded.keys().len() as int,
                out@,
            ),
            self.loaded.keys_listed(),
    {
        proof {
            use_type_invariant(self);
        }
        let ghost v = self@;
        let ghost keys = self.loaded.keys();
        let n: usize = self.loaded.len();
        let mut out: Vec<Key> = Vec::new();
        let mut i: usize = 0;
        while i < n
            invariant
                i <= n,
                n == keys.len(),
                v == self@,
                v.valid(),
                keys == self.loaded.keys(),
                self.loaded.keys_listed(),
                forall|c: (i64, i64)|
                    may_ask(v, center, c) ==> #[trigger] call_requires(*surface_span, c),
                memo_ok(memo@, *surface_span),
                unload_listed(v, center, memo@, keys, i as int, out@),
            decreases n - i,
        {
            let k: Key = self.loaded.key_at(i);
            let p = ChunkPos::new(k.0, k.1, k.2);
            let ghost memo_was = memo@;
            let ghost was = out@;
            let mut stays: bool = within(p, center, self.unload_radius);
            if stays {
                proof {
                    assert(self.loaded.keys().contains(k));
                    assert(v.loaded.contains(p));
                    assert(horiz_dist(p, center) == horiz_dist(
                        ChunkPos { x: k.0, y: 0, z: k.2 },
                        center,
                    ));
                    assert(may_ask(v, center, (k.0, k.2)));
                }
                let span = span_of(memo, surface_span, k.0, k.2);
                stays = self.keep_window(center, span).contains(k.1) && chunk_in_vertical_bounds(p);
            }
            assert(stays == v.keeps(p, center, memo@[(k.0, 0, k.2)]));
            if !stays {
                out.push(k);
            }
            proof {
                let done = keys.take(i as int);
                let next = keys.take(i + 1);
                assert(next =~= done.push(k));
                lemma_contains_push(done, k);
                lemma_contains_push(was, k);
                assert forall|m: Key| #[trigger] out@.contains(m) <==> next.contains(m) && !v.keeps(
                    key_chunk(m),
                    center,
                    memo@[(m.0, 0, m.2)],
                ) by {
                    assert(next.contains(m) <==> done.contains(m) || k == m);
                    assert(was.push(k).contains(m) <==> was.contains(m) || k == m);
                    if m == k {
                        assert(key_chunk(m) == p);
                        if done.contains(k) {
                            let j = choose|j: int| 0 <= j < done.len() && done[j] == k;
                            assert(keys[j] != keys[i as int]);
                        }
                    } else if done.contains(m) {
                        let j = choose|j: int| 0 <= j < done.len() && done[j] == m;
                        assert(keys[j] == m);
                        assert(v.keeps(key_chunk(m), center, memo@[(m.0, 0, m.2)]) == v.keeps(
                            key_chunk(m),
                            center,
                            memo_was[(m.0, 0, m.2)],
                        ));
                    }
                }
                assert forall|a: int, b: int| 0 <= a < b < out.len() implies key_lt(
                    #[trigger] out[a],
                    #[trigger] out[b],
                ) by {
                    if b == was.len() {
                        assert(was.contains(was[a]));
                        assert(done.contains(was[a]));
                        let j = choose|j: int| 0 <= j < done.len() && done[j] == was[a];
                        assert(key_lt(keys[j], keys[i as int]));
                    }
                }
            }
            i += 1;
        }
        out
    }

    /// The keys of the wanted chunks that are not resident.
    fn list_loads<F: Fn(i64, i64) -> (i64, i64)>(
        &self,
        center: ChunkPos,
        surface_span: &F,
        memo: &mut SortedMap<(i64, i64)>,
    ) -> (out: Vec<DistKey>)
        requires
            forall|c: (i64, i64)|
                may_ask(self@, center, c) ==> #[trigger] call_requires(*surface_span, c),
            memo_ok(old(memo)@, *surface_span),
            self@.load_radius <= 0x4000_0000_0000_0000,
            i64::MIN <= center.x - self@.load_radius,
            center.x + self@.load_radius <= i64::MAX,
            i64::MIN <= center.z - self@.load_radius,
            center.z + self@.load_radius <= i64::MAX,
        ensures
            memo_ok(final(memo)@, *surface_span),
            extends(old(memo)@, final(memo)@),
            load_listed(
                self@,
                center,
                final(memo)@,
                center.z + self@.load_radius + 1,
                center.x - self@.load_radius,
                Seq::empty(),
                0,
                out@,
            ),
    {
        proof {
            use_type_invariant(self);
        }
        let ghost v = self@;
        let r: i64 = self.load_radius;
        let x0: i128 = center.x as i128 - r as i128;
        let x1: i128 = center.x as i128 + r as i128 + 1;
        let z1: i128 = center.z as i128 + r as i128 + 1;
        let mut out: Vec<DistKey> = Vec::new();
        let mut cz: i128 = center.z as i128 - r as i128;
        assert(load_listed(v, center, memo@, cz as int, x0 as int, Seq::empty(), 0, out@)) by {
            assert forall|p: ChunkPos| #[trigger]
                horiz_dist(p, center) <= v.load_radius * v.load_radius implies !column_before(
                p,
                cz as int,
                x0 as int,
            ) by {
                lemma_disc_bounds(p, center, v.load_radius);
            }
        }
        while cz < z1
            invariant
                v == self@,
                v.valid(),
                r == v.load_radius,
                r <= 0x4000_0000_0000_0000,
                x0 == center.x - r,
                x1 == center.x + r + 1,
                z1 == center.z + r + 1,
                i64::MIN <= x0,
                x1 <= i64::MAX + 1,
                i64::MIN <= center.z - r,
                z1 <= i64::MAX + 1,
                center.z - r <= cz <= z1,
                forall|c: (i64, i64)|
                    may_ask(v, center, c) ==> #[trigger] call_requires(*surface_span, c),
                memo_ok(memo@, *surface_span),
                extends(old(memo)@, memo@),
                load_listed(v, center, memo@, cz as int, x0 as int, Seq::empty(), 0, out@),
            decreases z1 - cz,
        {
            let mut cx: i128 = x0;
            while cx < x1
                invariant
                    v == self@,
                    v.valid(),
                    r == v.load_radius,
                    r <= 0x4000_0000_0000_0000,
                    x0 == center.x - r,
                    x1 == center.x + r + 1,
                    z1 == center.z + r + 1,
                    i64::MIN <= x0,
                    x1 <= i64::MAX + 1,
                    i64::MIN <= center.z - r,
                    z1 <= i64::MAX + 1,
                    center.z - r <= cz < z1,
                    x0 <= cx <= x1,
                    forall|c: (i64, i64)|
                    may_ask(v, center, c) ==> #[trigger] call_requires(*surface_span, c),
                    memo_ok(memo@, *surface_span),
                    extends(old(memo)@, memo@),
                    load_listed(v, center, memo@, cz as int, cx as int, Seq::empty(), 0, out@),
                decreases x1 - cx,
            {
                let qx: i64 = cx as i64;
                let qz: i64 = cz as i64;
                let column = ChunkPos::new(qx, 0, qz);
                let ghost memo_was = memo@;
                if within(column, center, r) {
                    assert(may_ask(v, center, (qx, qz)));
                    let span = span_of(memo, surface_span, qx, qz);
                    proof {
                        lemma_load_memo(
                            v,
                            center,
                            memo_was,
                            memo@,
                            qz as int,
                            qx as int,
                            out@,
                        );
                    }
                    self.list_column(center, qx, qz, span, &mut out, Ghost(memo@));
                }
                assert(load_listed(v, center, memo@, qz as int, qx + 1, Seq::empty(), 0, out@)) by {
                    assert forall|p: ChunkPos| #[trigger] out@.contains(load_key(p, center)) <==> v.wants(
                        p,
                        center,
                        memo@[(p.x, 0, p.z)],
                    ) && !v.loaded.contains(p) && (column_before(p, qz as int, qx + 1) || (p.z
                        == qz && p.x == qx + 1 && Seq::<i64>::empty().take(0).contains(p.y))) by {
                        if p.z == qz && p.x == qx {
                            assert(horiz_dist(p, center) == horiz_dist(column, center));
                        }
                    }
                    assert forall|p: ChunkPos| #[trigger]
                        horiz_dist(p, center) <= v.load_radius * v.load_radius && column_before(
                            p,
                            qz as int,
                            qx + 1,
                        ) implies memo@.dom().contains((p.x, 0, p.z)) by {
                        if p.z == qz && p.x == qx {
                            assert(horiz_dist(p, center) == horiz_dist(column, center));
                        }
                    }
                }
                cx += 1;
            }
            assert(load_listed(v, center, memo@, cz + 1, x0 as int, Seq::empty(), 0, out@)) by {
                assert forall|p: ChunkPos| #[trigger] out@.contains(load_key(p, center)) <==> v.wants(
                    p,
                    center,
                    memo@[(p.x, 0, p.z)],
                ) && !v.loaded.contains(p) && (column_before(p, cz + 1, x0 as int) || (p.z == cz + 1
                    && p.x == x0 && Seq::<i64>::empty().take(0).contains(p.y))) by {
                    if v.wants(p, center, memo@[(p.x, 0, p.z)]) {
                        lemma_disc_bounds(p, center, v.load_radius);
                    }
                }
                assert forall|p: ChunkPos| #[trigger]
                    horiz_dist(p, center) <= v.load_radius * v.load_radius && column_before(
                        p,
                        cz + 1,
                        x0 as int,
                    ) implies memo@.dom().contains((p.x, 0, p.z)) by {
                    lemma_disc_bounds(p, center, v.load_radius);
                }
            }
            cz += 1;
        }
        out
    }

    /// The keys of the wanted chunks of one column that are not resident.
    fn list_column(
        &self,
        center: ChunkPos,
        cx: i64,
        cz: i64,
        span: (i64, i64),
        out: &mut Vec<DistKey>,
        Ghost(memo): Ghost<Map<Key, (i64, i64)>>,
    )
        requires
            self@.load_radius <= 0x4000_0000_0000_0000,
            memo.dom().contains((cx, 0, cz)),
            span == memo[(cx, 0, cz)],
            horiz_dist(ChunkPos { x: cx, y: 0, z: cz }, center) <= self@.load_radius
                * self@.load_radius,
            load_listed(
                self@,
                center,
                memo,
                cz as int,
                cx as int,
                Seq::empty(),
                0,
                old(out)@,
            ),
        ensures
            load_listed(
                self@,
                center,
                memo,
                cz as int,
                cx + 1,
                Seq::empty(),
                0,
                final(out)@,
            ),
    {
        proof {
            use_type_invariant(self);
        }
        let ghost v = self@;
        let window = self.column_window(center, span);
        let layers = window.layers();
        let ghost column = ChunkPos { x: cx, y: 0, z: cz };
        let mut i: usize = 0;
        assert(load_listed(v, center, memo, cz as int, cx as int, layers@, 0, out@)) by {
            assert(layers@.take(0) =~= Seq::<i64>::empty().take(0));
            assert forall|p: ChunkPos| #[trigger] out@.contains(load_key(p, center)) <==> v.wants(
                p,
                center,
                memo[(p.x, 0, p.z)],
            ) && !v.loaded.contains(p) && (column_before(p, cz as int, cx as int) || (p.z == cz
                && p.x == cx && layers@.take(0).contains(p.y))) by {}
        }
        while i < layers.len()
            invariant
                i <= layers.len(),
                v == self@,
                v.valid(),
                v.load_radius <= 0x4000_0000_0000_0000,
                memo.dom().contains((cx, 0, cz)),
                span == memo[(cx, 0, cz)],
                column == (ChunkPos { x: cx, y: 0, z: cz }),
                horiz_dist(column, center) <= v.load_radius * v.load_radius,
                forall|y: int| #[trigger] window.has(y) <==> v.loads_layer(center, span, y),
                forall|y: int| #[trigger] window.has(y) <==> exists|k: int|
                    0 <= k < layers.len() && #[trigger] layers[k] == y,
                forall|a: int, b: int|
                    0 <= a < b < layers.len() ==> #[trigger] layers[a] < #[trigger] layers[b],
                load_listed(v, center, memo, cz as int, cx as int, layers@, i as int, out@),
            decreases layers.len() - i,
        {
            let y: i64 = layers[i];
            let p = ChunkPos::new(cx, y, cz);
            let ghost was = out@;
            let ghost done = layers@.take(i as int);
            let ghost next = layers@.take(i + 1);
            proof {
                assert(next =~= done.push(y));
                lemma_contains_push(done, y);
                assert(layers[i as int] == y);
                assert(window.has(y as int));
                assert(horiz_dist(p, center) == horiz_dist(column, center));
                assert(!done.contains(y)) by {
                    if done.contains(y) {
                        let j = choose|j: int| 0 <= j < done.len() && done[j] == y;
                        assert(layers[j] < layers[i as int]);
                    }
                }
            }
            let add: bool = chunk_in_vertical_bounds(p) && !self.is_loaded(p);
            if add {
                proof {
                    lemma_wanted_dist(v, p, center);
                }
                let d: i128 = dist_of(p, center);
                out.push((d, cz, cx, y));
            }
            proof {
                lemma_contains_push(was, load_key(p, center));
                assert(v.wants(p, center, span) == world_layer(y as int));
                assert(!was.contains(load_key(p, center)));
                assert forall|q: ChunkPos| #[trigger] out@.contains(load_key(q, center)) <==> v.wants(
                    q,
                    center,
                    memo[(q.x, 0, q.z)],
                ) && !v.loaded.contains(q) && (column_before(q, cz as int, cx as int) || (q.z == cz
                    && q.x == cx && next.contains(q.y))) by {
                    assert(was.contains(load_key(q, center)) <==> v.wants(
                        q,
                        center,
                        memo[(q.x, 0, q.z)],
                    ) && !v.loaded.contains(q) && (column_before(q, cz as int, cx as int) || (q.z
                        == cz && q.x == cx && done.contains(q.y))));
                    if load_key(q, center) == load_key(p, center) {
                        assert(q == p);
                    }
                    assert(next.contains(q.y) <==> done.contains(q.y) || y == q.y);
                }
            }
            i += 1;
        }
        assert(load_listed(v, center, memo, cz as int, cx + 1, Seq::empty(), 0, out@)) by {
            assert(layers@.take(i as int) =~= layers@);
            assert forall|p: ChunkPos| #[trigger] out@.contains(load_key(p, center)) <==> v.wants(
                p,
                center,
                memo[(p.x, 0, p.z)],
            ) && !v.loaded.contains(p) && (column_before(p, cz as int, cx + 1) || (p.z == cz && p.x
                == cx + 1 && Seq::<i64>::empty().take(0).contains(p.y))) by {
                if p.z == cz && p.x == cx && v.wants(p, center, span) {
                    assert(window.has(p.y as int));
                    let k = choose|k: int| 0 <= k < layers.len() && #[trigger] layers[k] == p.y;
                    assert(layers@.contains(p.y));
                }
            }
            assert forall|p: ChunkPos| #[trigger]
                horiz_dist(p, center) <= v.load_radius * v.load_radius && column_before(
                    p,
                    cz as int,
                    cx + 1,
                ) implies memo.dom().contains((p.x, 0, p.z)) by {}
        }
    }
}

/// Learning more spans changes nothing about the columns already listed.
proof fn lemma_load_memo(
    v: StreamerView,
    center: ChunkPos,
    before: Map<Key, (i64, i64)>,
    after: Map<Key, (i64, i64)>,
    z: int,
    x: int,
    out: Seq<DistKey>,
)
    requires
        load_listed(v, center, before, z, x, Seq::empty(), 0, out),
        extends(before, after),
    ensures
        load_listed(v, center, after, z, x, Seq::empty(), 0, out),
{
    assert forall|p: ChunkPos| #[trigger] out.contains(load_key(p, center)) <==> v.wants(
        p,
        center,
        after[(p.x, 0, p.z)],
    ) && !v.loaded.contains(p) && (column_before(p, z, x) || (p.z == z && p.x == x && Seq::<
        i64,
    >::empty().take(0).contains(p.y))) by {
        assert(out.contains(load_key(p, center)) <==> v.wants(p, center, before[(p.x, 0, p.z)])
            && !v.loaded.contains(p) && column_before(p, z, x));
        if horiz_dist(p, center) <= v.load_radius * v.load_radius && column_before(p, z, x) {
            assert(before.dom().contains((p.x, 0, p.z)));
        }
    }
}

/// What orders chunks for [`nearest_first`]: distance from the camera, ties by
/// position.
pub open spec fn near_key(p: ChunkPos, camera: ChunkPos) -> DistKey {
    (dist(p, camera) as i128, p.x, p.y, p.z)
}

/// `r` is the first `n` of the positions in the order of their keys.
pub open spec fn nearest_of(
    positions: Seq<ChunkPos>,
    camera: ChunkPos,
    n: int,
    r: Seq<ChunkPos>,
) -> bool {
    let all = positions.map_values(|p: ChunkPos| near_key(p, camera)).to_multiset();
    let kept = r.map_values(|p: ChunkPos| near_key(p, camera));
    &&& r.len() == (if positions.len() < n {
        positions.len() as int
    } else {
        n
    })
    &&& in_order(kept)
    &&& kept.to_multiset().subset_of(all)
    &&& forall|k: DistKey, i: int|
        #![trigger all.sub(kept.to_multiset()).count(k), kept[i]]
        all.sub(kept.to_multiset()).count(k) > 0 && 0 <= i < kept.len() ==> !dist_lt(k, kept[i])
}

/// Select the `n` positions nearest `camera`, returned nearest-first.
///
/// Draining work nearest-first makes the player's immediate surroundings
/// converge first. At most `n` positions are held at a time, and ties are
/// broken by position, so that the result does not depend on the order of the
/// input.
pub fn nearest_first(positions: &[ChunkPos], camera: ChunkPos, n: usize) -> (r: Vec<ChunkPos>)
    requires
        forall|i: int|
            0 <= i < positions.len() ==> dist(#[trigger] positions[i], camera) <= i128::MAX,
    ensures
        nearest_of(positions@, camera, n as int, r@),
{
    let ghost key = |p: ChunkPos| near_key(p, camera);
    let ghost all = positions@.map_values(key);
    let mut best: Vec<DistKey> = Vec::new();
    let ghost mut rest: Multiset<DistKey> = Multiset::empty();
    let mut i: usize = 0;
    proof {
        assert(all.take(0) =~= Seq::empty());
        assert(best@.to_multiset().add(rest) =~= all.take(0).to_multiset());
    }
    while i < positions.len() && n > 0
        invariant
            i <= positions.len(),
            n == 0 ==> i == 0,
            forall|i: int|
                0 <= i < positions.len() ==> dist(#[trigger] positions[i], camera) <= i128::MAX,
            key == (|p: ChunkPos| near_key(p, camera)),
            all == positions@.map_values(key),
            in_order(best@),
            best.len() == (if i < n {
                i
            } else {
                n
            }),
            best@.to_multiset().add(rest) == all.take(i as int).to_multiset(),
            forall|k: DistKey, j: int|
                #![trigger rest.count(k), best[j]]
                rest.count(k) > 0 && 0 <= j < best.len() ==> !dist_lt(k, best[j]),
            forall|j: int|
                0 <= j < best.len() ==> #[trigger] best[j] == near_key(
                    ChunkPos { x: best[j].1, y: best[j].2, z: best[j].3 },
                    camera,
                ),
            i < n ==> rest =~= Multiset::empty(),
        decreases positions.len() - i,
    {
        let p = positions[i];
        let k: DistKey = (dist_of(p, camera), p.x, p.y, p.z);
        assert(k == all[i as int]);
        assert(all.take(i + 1) =~= all.take(i as int).push(k));
        proof {
            lemma_push_multiset(all.take(i as int), k);
        }
        if best.len() < n {
            let ghost was = best@;
            insert_sorted(&mut best, k);
            proof {
                assert(best@.to_multiset().add(rest) =~= all.take(i + 1).to_multiset());
            }
        } else {
            let last: usize = best.len() - 1;
            let worst = best[last];
            if dist_less(k, worst) {
                let ghost was = best@;
                let ghost rest_was = rest;
                best.pop();
                proof {
                    assert(was =~= best@.push(worst));
                    lemma_push_multiset(best@, worst);
                    rest = rest.insert(worst);
                }
                let ghost mid = best@;
                insert_sorted(&mut best, k);
                proof {
                    assert(best@.to_multiset().add(rest) =~= all.take(i + 1).to_multiset());
                    assert forall|m: DistKey, j: int|
                        #![trigger rest.count(m), best[j]]
                        rest.count(m) > 0 && 0 <= j < best.len() implies !dist_lt(m, best[j]) by {
                        lemma_inserted_from(mid, best@, k, j);
                        assert(was[last as int] == worst);
                        if rest_was.count(m) > 0 {
                            assert(!dist_lt(m, was[last as int]));
                        }
                        if best[j] != k {
                            let q = choose|q: int| 0 <= q < mid.len() && mid[q] == best[j];
                            assert(was[q] == best[j]);
                            assert(!dist_lt(was[last as int], was[q]));
                            if rest_was.count(m) > 0 {
                                assert(!dist_lt(m, was[q]));
                            }
                        }
                    }
                }
            } else {
                proof {
                    let rest_was = rest;
                    rest = rest.insert(k);
                    assert(best@.to_multiset().add(rest) =~= all.take(i + 1).to_multiset());
                    assert forall|m: DistKey, j: int|
                        #![trigger rest.count(m), best[j]]
                        rest.count(m) > 0 && 0 <= j < best.len() implies !dist_lt(m, best[j]) by {
                        if rest_was.count(m) == 0 {
                            assert(m == k);
                            if j < last {
                                assert(!dist_lt(best[last as int], best[j]));
                            }
                        }
                    }
                }
            }
        }
        i += 1;
    }
    let mut out: Vec<ChunkPos> = Vec::with_capacity(best.len());
    let mut j: usize = 0;
    while j < best.len()
        invariant
            j <= best.len(),
            out.len() == j,
            forall|m: int|
                0 <= m < j ==> #[trigger] out[m] == (ChunkPos {
                    x: best[m].1,
                    y: best[m].2,
                    z: best[m].3,
                }),
        decreases best.len() - j,
    {
        let k = best[j];
        out.push(ChunkPos::new(k.1, k.2, k.3));
        j += 1;
    }
    proof {
        if n == 0 {
            let none = out@.map_values(key);
            none.to_multiset_ensures();
            assert forall|k: DistKey| none.to_multiset().count(k) == 0 by {
                assert(!none.contains(k));
            }
        } else {
            assert(all.take(i as int) =~= all);
            assert(out@.map_values(key) =~= best@);
            assert(all.to_multiset().sub(best@.to_multiset()) =~= rest);
        }
    }
    out
}

/// An element after insertion is the new one or an old one.
proof fn lemma_inserted_from(old_keys: Seq<DistKey>, new_keys: Seq<DistKey>, k: DistKey, j: int)
    requires
        new_keys.to_multiset() == old_keys.to_multiset().insert(k),
        0 <= j < new_keys.len(),
    ensures
        new_keys[j] == k || old_keys.contains(new_keys[j]),
{
    new_keys.to_multiset_ensures();
    old_keys.to_multiset_ensures();
    assert(new_keys.contains(new_keys[j]));
    assert(new_keys.to_multiset().count(new_keys[j]) > 0);
}

/// Inserts a key into a sorted sequence.
fn insert_sorted(v: &mut Vec<DistKey>, k: DistKey)
    requires
        in_order(old(v)@),
    ensures
        in_order(final(v)@),
        final(v).len() == old(v).len() + 1,
        final(v)@.to_multiset() == old(v)@.to_multiset().insert(k),
        forall|j: int|
            0 <= j < final(v).len() ==> #[trigger] final(v)[j] == k || old(v)@.contains(
                final(v)[j],
            ),
{
    let ghost was = v@;
    let mut i: usize = v.len();
    while i > 0 && dist_less(k, v[i - 1])
        invariant
            i <= v.len(),
            v@ == was,
            in_order(was),
            forall|j: int| i <= j < was.len() ==> dist_lt(k, #[trigger] was[j]),
        decreases i,
    {
        i -= 1;
    }
    v.insert(i, k);
    proof {
        let now = v@;
        assert(now == was.insert(i as int, k));
        assert forall|a: int, b: int| 0 <= a < b < now.len() implies !dist_lt(
            #[trigger] now[b],
            #[trigger] now[a],
        ) by {
            let pa = if a < i {
                a
            } else {
                a - 1
            };
            let pb = if b < i {
                b
            } else {
                b - 1
            };
            if a != i && b != i {
                assert(now[a] == was[pa] && now[b] == was[pb]);
            } else if a == i {
                assert(now[b] == was[pb]);
                assert(dist_lt(k, was[pb]));
            } else {
                assert(now[a] == was[pa]);
                assert(!dist_lt(k, was[i - 1]));
                if pa < i - 1 {
                    assert(!dist_lt(was[i - 1], was[pa]));
                }
            }
        }
        was.to_multiset_ensures();
        now.to_multiset_ensures();
        assert(now.remove(i as int) =~= was);
        assert(now[i as int] == k);
        assert(now.contains(k));
        assert(now.to_multiset() =~= was.to_multiset().insert(k));
        assert forall|j: int| 0 <= j < now.len() implies #[trigger] now[j] == k || was.contains(
            now[j],
        ) by {
            if j < i {
                assert(now[j] == was[j]);
            } else if j > i {
                assert(now[j] == was[j - 1]);
            }
        }
    }
}

/// The selection is determined by the positions, whatever their order.
pub proof fn lemma_nearest_unique(
    a: Seq<ChunkPos>,
    b: Seq<ChunkPos>,
    camera: ChunkPos,
    n: int,
    r: Seq<ChunkPos>,
    s: Seq<ChunkPos>,
)
    requires
        a.to_multiset() == b.to_multiset(),
        forall|i: int| 0 <= i < r.len() ==> 0 <= dist(#[trigger] r[i], camera) <= i128::MAX,
        forall|i: int| 0 <= i < s.len() ==> 0 <= dist(#[trigger] s[i], camera) <= i128::MAX,
        nearest_of(a, camera, n, r),
        nearest_of(b, camera, n, s),
    ensures
        r == s,
{
    let key = |p: ChunkPos| near_key(p, camera);
    let ka = a.map_values(key);
    let kb = b.map_values(key);
    lemma_map_multiset(a, b, key);
    a.to_multiset_ensures();
    b.to_multiset_ensures();
    let kr = r.map_values(key);
    let ks = s.map_values(key);
    lemma_least_unique(ka.to_multiset(), kr, ks);
    assert forall|i: int| 0 <= i < r.len() implies r[i] == s[i] by {
        assert(kr[i] == ks[i]);
    }
    assert(r =~= s);
}

/// Mapping two sequences of the same elements gives the same elements.
proof fn lemma_map_multiset(a: Seq<ChunkPos>, b: Seq<ChunkPos>, f: spec_fn(ChunkPos) -> DistKey)
    requires
        a.to_multiset() == b.to_multiset(),
    ensures
        a.map_values(f).to_multiset() == b.map_values(f).to_multiset(),
    decreases a.len(),
{
    a.to_multiset_ensures();
    b.to_multiset_ensures();
    if a.len() == 0 {
        assert(a.map_values(f) =~= b.map_values(f));
    } else {
        let x = a.last();
        assert(a.contains(x));
        assert(b.to_multiset().count(x) > 0);
        let i = choose|i: int| 0 <= i < b.len() && b[i] == x;
        let a1 = a.remove(a.len() - 1);
        let b1 = b.remove(i);
        lemma_map_multiset(a1, b1, f);
        let fa = a.map_values(f);
        let fb = b.map_values(f);
        fa.to_multiset_ensures();
        fb.to_multiset_ensures();
        assert(fa.remove(a.len() - 1) =~= a1.map_values(f));
        assert(fb.remove(i) =~= b1.map_values(f));
        assert(fa[a.len() - 1] == f(x) && fb[i] == f(x));
        assert(fa.contains(f(x)) && fb.contains(f(x)));
        assert(fa.to_multiset() =~= fa.to_multiset().remove(f(x)).insert(f(x)));
        assert(fb.to_multiset() =~= fb.to_multiset().remove(f(x)).insert(f(x)));
    }
}

/// Two sorted selections of the same size that leave out nothing smaller agree.
proof fn lemma_least_unique(all: Multiset<DistKey>, r: Seq<DistKey>, s: Seq<DistKey>)
    requires
        r.len() == s.len(),
        in_order(r),
        in_order(s),
        r.to_multiset().subset_of(all),
        s.to_multiset().subset_of(all),
        forall|k: DistKey, i: int|
            #![trigger all.sub(r.to_multiset()).count(k), r[i]]
            all.sub(r.to_multiset()).count(k) > 0 && 0 <= i < r.len() ==> !dist_lt(k, r[i]),
        forall|k: DistKey, i: int|
            #![trigger all.sub(s.to_multiset()).count(k), s[i]]
            all.sub(s.to_multiset()).count(k) > 0 && 0 <= i < s.len() ==> !dist_lt(k, s[i]),
    ensures
        r == s,
{
    r.to_multiset_ensures();
    s.to_multiset_ensures();
    let mr = r.to_multiset();
    let ms = s.to_multiset();
    if mr != ms {
        assert(!(mr =~= ms));
        let x = choose|x: DistKey| mr.count(x) != ms.count(x);
        let (k, more, less) = if mr.count(x) > ms.count(x) {
            (x, r, s)
        } else {
            (x, s, r)
        };
        lemma_other_excess(more.to_multiset(), less.to_multiset(), k);
        let m = choose|m: DistKey| less.to_multiset().count(m) > more.to_multiset().count(m);
        assert(more.contains(k));
        assert(less.contains(m));
        let i = choose|i: int| 0 <= i < more.len() && more[i] == k;
        let j = choose|j: int| 0 <= j < less.len() && less[j] == m;
        assert(all.count(k) >= more.to_multiset().count(k));
        assert(all.count(m) >= less.to_multiset().count(m));
        assert(all.sub(less.to_multiset()).count(k) > 0);
        assert(all.sub(more.to_multiset()).count(m) > 0);
        assert(!dist_lt(k, less[j]));
        assert(!dist_lt(m, more[i]));
        assert(k == m);
        assert(false);
    }
    lemma_sorted_unique(r, s);
}

/// Of two multisets of one size, if the first has more of one element, the
/// second has more of another.
proof fn lemma_other_excess(a: Multiset<DistKey>, b: Multiset<DistKey>, k: DistKey)
    requires
        a.len() == b.len(),
        a.count(k) > b.count(k),
    ensures
        exists|m: DistKey| b.count(m) > a.count(m),
{
    if !(exists|m: DistKey| b.count(m) > a.count(m)) {
        assert forall|m: DistKey| b.count(m) <= a.count(m) by {}
        assert(b.subset_of(a));
        let d = a.sub(b);
        assert(a =~= b.add(d));
        assert(d.count(k) > 0);
        assert(d.len() == a.len() - b.len());
        assert(d.len() > 0) by {
            if d.len() == 0 {
                assert(d =~= Multiset::empty());
            }
        }
    }
}

/// What is loaded may stay: the load radius and the load windows lie within the
/// keep ones.
pub proof fn lemma_wanted_is_kept(
    v: StreamerView,
    p: ChunkPos,
    center: ChunkPos,
    span: (i64, i64),
)
    requires
        v.valid(),
        v.wants(p, center, span),
    ensures
        v.keeps(p, center, span),
{
    let r = v.load_radius;
    let u = v.unload_radius;
    assert(r * r <= u * u) by (nonlinear_arith)
        requires
            1 <= r < u,
    ;
}

/// Once an update is applied, a camera that stays where it is causes no further
/// work: everything wanted is resident, and everything resident may stay.
pub proof fn lemma_settled_camera(
    v: StreamerView,
    center: ChunkPos,
    spans: Spans,
    to_load: Seq<ChunkPos>,
    to_unload: Seq<ChunkPos>,
    after: StreamerView,
    next_load: Seq<ChunkPos>,
    next_unload: Seq<ChunkPos>,
)
    requires
        v.valid(),
        is_update(v, center, spans, to_load, to_unload),
        after == (StreamerView {
            loaded: v.loaded.union(to_load.to_set()).difference(to_unload.to_set()),
            ..v
        }),
        is_update(after, center, spans, next_load, next_unload),
    ensures
        next_load.len() == 0,
        next_unload.len() == 0,
        forall|p: ChunkPos| #[trigger]
            after.loaded.contains(p) ==> v.keeps(p, center, spans[(p.x, p.z)]),
        forall|p: ChunkPos|
            v.wants(p, center, spans[(p.x, p.z)]) ==> #[trigger] after.loaded.contains(p),
{
    assert forall|p: ChunkPos|
        v.wants(p, center, spans[(p.x, p.z)]) implies #[trigger] after.loaded.contains(p) by {
        lemma_wanted_is_kept(v, p, center, spans[(p.x, p.z)]);
        assert(to_load.contains(p) <==> !v.loaded.contains(p));
        assert(!to_unload.contains(p));
    }
    assert forall|p: ChunkPos| #[trigger] after.loaded.contains(p) implies v.keeps(
        p,
        center,
        spans[(p.x, p.z)],
    ) by {
        if to_load.contains(p) {
            lemma_wanted_is_kept(v, p, center, spans[(p.x, p.z)]);
        } else {
            assert(!to_unload.contains(p));
        }
    }
    if next_load.len() > 0 {
        let p = next_load[0];
        assert(next_load.contains(p));
        assert(after.wants(p, center, spans[(p.x, p.z)]) == v.wants(
            p,
            center,
            spans[(p.x, p.z)],
        ));
        assert(after.loaded.contains(p));
    }
    if next_unload.len() > 0 {
        let p = next_unload[0];
        assert(next_unload.contains(p));
        assert(after.loaded.contains(p));
        assert(after.keeps(p, center, spans[(p.x, p.z)]) == v.keeps(
            p,
            center,
            spans[(p.x, p.z)],
        ));
    }
}

/// Climbing or digging never unloads the ground: a resident chunk around its
/// column's surface stays, at whatever height the camera is, while its column
/// is within the unload radius.
pub proof fn lemma_ground_stays(
    v: StreamerView,
    p: ChunkPos,
    center: ChunkPos,
    span: (i64, i64),
)
    requires
        v.valid(),
        horiz_dist(p, center) <= v.unload_radius * v.unload_radius,
        v.near_surface(span, p.y as int),
    ensures
        v.keeps(p, center, span),
{
}

/// What a streamer holds, and where the surface is, determine its update: equal
/// calls give equal updates.
pub proof fn lemma_update_determined<F: Fn(i64, i64) -> (i64, i64)>(
    v: StreamerView,
    center: ChunkPos,
    surface_span: F,
    spans_a: Spans,
    load_a: Seq<ChunkPos>,
    unload_a: Seq<ChunkPos>,
    spans_b: Spans,
    load_b: Seq<ChunkPos>,
    unload_b: Seq<ChunkPos>,
)
    requires
        forall|c: (i64, i64), s: (i64, i64), t: (i64, i64)| #[trigger]
            call_ensures(surface_span, c, s) && #[trigger] call_ensures(surface_span, c, t) ==> s
                == t,
        spans_given(v, center, surface_span, spans_a),
        is_update(v, center, spans_a, load_a, unload_a),
        spans_given(v, center, surface_span, spans_b),
        is_update(v, center, spans_b, load_b, unload_b),
    ensures
        load_a == load_b,
        unload_a == unload_b,
{
    assert forall|p: ChunkPos| #[trigger] load_a.contains(p) <==> load_b.contains(p) by {
        let c = (p.x, p.z);
        if horiz_dist(p, center) <= v.load_radius * v.load_radius {
            assert(spans_a.dom().contains(c) && spans_b.dom().contains(c));
            assert(spans_a[c] == spans_b[c]);
        }
        assert(load_a.contains(p) <==> v.wants(p, center, spans_a[c]) && !v.loaded.contains(p));
        assert(load_b.contains(p) <==> v.wants(p, center, spans_b[c]) && !v.loaded.contains(p));
    }
    assert forall|p: ChunkPos| #[trigger] unload_a.contains(p) <==> unload_b.contains(p) by {
        let c = (p.x, p.z);
        if v.loaded.contains(p) && horiz_dist(p, center) <= v.unload_radius * v.unload_radius {
            assert(spans_a.dom().contains(c) && spans_b.dom().contains(c));
            assert(spans_a[c] == spans_b[c]);
        }
        assert(unload_a.contains(p) <==> v.loaded.contains(p) && !v.keeps(p, center, spans_a[c]));
        assert(unload_b.contains(p) <==> v.loaded.contains(p) && !v.keeps(p, center, spans_b[c]));
    }
    let nearer = |a: ChunkPos, b: ChunkPos| dist_lt(load_key(a, center), load_key(b, center));
    let lower = |a: ChunkPos, b: ChunkPos| key_lt(chunk_key(a), chunk_key(b));
    lemma_ordered_unique(load_a, load_b, nearer);
    lemma_ordered_unique(unload_a, unload_b, lower);
}

impl StreamerView {
    /// With other radii and margins.
    pub open spec fn reconfigured(
        self,
        load_radius: int,
        unload_radius: int,
        below: int,
        above: int,
        camera: int,
    ) -> StreamerView {
        StreamerView { loaded: self.loaded, load_radius, unload_radius, below, above, camera }
    }

    /// After chunks were marked loaded, one after the other.
    pub open spec fn marked(self, chunks: Seq<ChunkPos>) -> StreamerView
        decreases chunks.len(),
    {
        if chunks.len() == 0 {
            self
        } else {
            let before = self.marked(chunks.drop_last());
            StreamerView { loaded: before.loaded.insert(chunks.last()), ..before }
        }
    }
}

proof fn lemma_marked(v: StreamerView, chunks: Seq<ChunkPos>)
    ensures
        v.marked(chunks) == (StreamerView {
            loaded: v.loaded.union(chunks.to_set()),
            ..v
        }),
    decreases chunks.len(),
{
    if chunks.len() > 0 {
        let rest = chunks.drop_last();
        lemma_marked(v, rest);
        assert(chunks =~= rest.push(chunks.last()));
        lemma_contains_push(rest, chunks.last());
        assert(chunks.to_set() =~= rest.to_set().insert(chunks.last()));
        assert(v.loaded.union(rest.to_set()).insert(chunks.last()) =~= v.loaded.union(
            chunks.to_set(),
        ));
    } else {
        assert(v.loaded.union(chunks.to_set()) =~= v.loaded);
    }
}

/// A reconfigured streamer is as a new one with the same arguments that has the
/// same chunks marked: its next update is the same. No resident chunk is asked
/// for again, and those that the new windows do not keep are unloaded.
pub proof fn lemma_reconfigured_is_fresh<F: Fn(i64, i64) -> (i64, i64)>(
    v: StreamerView,
    fresh: StreamerView,
    resident: Seq<ChunkPos>,
    center: ChunkPos,
    surface_span: F,
    spans_a: Spans,
    load_a: Seq<ChunkPos>,
    unload_a: Seq<ChunkPos>,
    spans_b: Spans,
    load_b: Seq<ChunkPos>,
    unload_b: Seq<ChunkPos>,
)
    requires
        forall|c: (i64, i64), s: (i64, i64), t: (i64, i64)| #[trigger]
            call_ensures(surface_span, c, s) && #[trigger] call_ensures(surface_span, c, t) ==> s
                == t,
        fresh.loaded == Set::<ChunkPos>::empty(),
        resident.to_set() == v.loaded,
        ({
            let w = v.reconfigured(
                fresh.load_radius,
                fresh.unload_radius,
                fresh.below,
                fresh.above,
                fresh.camera,
            );
            spans_given(w, center, surface_span, spans_a) && is_update(
                w,
                center,
                spans_a,
                load_a,
                unload_a,
            )
        }),
        spans_given(fresh.marked(resident), center, surface_span, spans_b),
        is_update(fresh.marked(resident), center, spans_b, load_b, unload_b),
    ensures
        load_a == load_b,
        unload_a == unload_b,
        forall|p: ChunkPos| #[trigger] load_a.contains(p) ==> !v.loaded.contains(p),
{
    let w = v.reconfigured(
        fresh.load_radius,
        fresh.unload_radius,
        fresh.below,
        fresh.above,
        fresh.camera,
    );
    lemma_marked(fresh, resident);
    assert(fresh.loaded.union(resident.to_set()) =~= v.loaded);
    assert(fresh.marked(resident) == w);
    lemma_update_determined(
        w,
        center,
        surface_span,
        spans_a,
        load_a,
        unload_a,
        spans_b,
        load_b,
        unload_b,
    );
}

/// Streaming knows nothing of laps: moving the camera and a chunk together
/// changes nothing.
pub proof fn lemma_streaming_same_everywhere(
    v: StreamerView,
    p: ChunkPos,
    center: ChunkPos,
    span: (i64, i64),
    q: ChunkPos,
    moved: ChunkPos,
)
    requires
        q.x - p.x == moved.x - center.x,
        q.z - p.z == moved.z - center.z,
        q.y == p.y,
        moved.y == center.y,
    ensures
        v.wants(q, moved, span) == v.wants(p, center, span),
        v.keeps(q, moved, span) == v.keeps(p, center, span),
{
    assert(q.x - moved.x == p.x - center.x && q.z - moved.z == p.z - center.z);
}

/// A camera that bobs across one layer boundary unloads nothing: what was
/// loaded for it at one layer may stay at the layers next to it.
pub proof fn lemma_bobbing_camera(
    v: StreamerView,
    p: ChunkPos,
    center: ChunkPos,
    moved: ChunkPos,
    span: (i64, i64),
)
    requires
        v.valid(),
        v.wants(p, center, span),
        moved.x == center.x,
        moved.z == center.z,
        center.y - 1 <= moved.y <= center.y + 1,
    ensures
        v.keeps(p, moved, span),
{
    lemma_wanted_is_kept(v, p, center, span);
}

/// With one chunk of difference between the radii at least, a camera that moves
/// to a neighbouring column unloads nothing that was loaded for it.
pub proof fn lemma_hysteresis(
    v: StreamerView,
    p: ChunkPos,
    center: ChunkPos,
    moved: ChunkPos,
    span: (i64, i64),
)
    requires
        v.valid(),
        v.wants(p, center, span),
        moved.y == center.y,
        (moved.x == center.x && center.z - 1 <= moved.z <= center.z + 1) || (moved.z == center.z
            && center.x - 1 <= moved.x <= center.x + 1),
    ensures
        v.keeps(p, moved, span),
{
    let r = v.load_radius;
    let u = v.unload_radius;
    let a = p.x - center.x;
    let b = p.z - center.z;
    let s = moved.x - center.x;
    let t = moved.z - center.z;
    assert(-r <= a <= r && -r <= b <= r) by (nonlinear_arith)
        requires
            a * a + b * b <= r * r,
            r >= 1,
    ;
    assert((a - s) * (a - s) + (b - t) * (b - t) <= (r + 1) * (r + 1)) by (nonlinear_arith)
        requires
            a * a + b * b <= r * r,
            -r <= a <= r,
            -r <= b <= r,
            (s == 0 && -1 <= t <= 1) || (t == 0 && -1 <= s <= 1),
    ;
    assert((r + 1) * (r + 1) <= u * u) by (nonlinear_arith)
        requires
            1 <= r,
            r + 1 <= u,
    ;
    assert(p.x - moved.x == a - s && p.z - moved.z == b - t);
}

/// The layer of the world nearest to a layer.
pub proof fn lemma_clamped_layer(v: int, y: int)
    requires
        -352 <= y < 288,
    ensures
        -352 <= clamp_layer(v) < 288,
        v <= y ==> v <= clamp_layer(v) <= y,
        v >= y ==> y <= clamp_layer(v) <= v,
        world_layer(v) <==> -352 <= v < 288,
{
}

/// What is loaded, layer by layer: a chunk within the load radius, in the world,
/// that lies no deeper below its column's surface and no higher above it than the
/// margins say, or within the camera's margin of the camera. Where the surface's
/// window misses the world, the nearest layer stands for it.
pub proof fn lemma_what_is_loaded(
    v: StreamerView,
    pos: ChunkPos,
    center: ChunkPos,
    span: (i64, i64),
)
    requires
        v.valid(),
        span.0 <= span.1,
    ensures
        ({
            let dx = pos.x - center.x;
            let dz = pos.z - center.z;
            let far = dx * dx + dz * dz;
            let y = pos.y as int;
            let lo = span.0 - v.below;
            let hi = span.1 + v.above;
            let ground = lo <= y <= hi || y == -352 && hi < -352 || y == 287 && lo > 287;
            let beside = |margin: int| center.y - margin <= y <= center.y + margin;
            let world = -352 <= y < 288;
            &&& v.wants(pos, center, span) <==> far <= v.load_radius * v.load_radius && world && (
            ground || beside(v.camera))
            &&& v.keeps(pos, center, span) <==> far <= v.unload_radius * v.unload_radius && world
                && (ground || beside(v.camera + 1))
        }),
{
}

/// Of two chunks in the list to load, the nearer one comes first; at one distance
/// the order is by z, x and y. No chunk is listed twice, and none that is loaded.
pub proof fn lemma_loads_nearest_first(
    v: StreamerView,
    center: ChunkPos,
    spans: Spans,
    to_load: Seq<ChunkPos>,
    to_unload: Seq<ChunkPos>,
    i: int,
    j: int,
)
    requires
        is_update(v, center, spans, to_load, to_unload),
        v.valid(),
        v.load_radius <= 0x4000_0000_0000_0000,
        0 <= i < j < to_load.len(),
    ensures
        ({
            let a = to_load[i];
            let b = to_load[j];
            let da = (a.x - center.x) * (a.x - center.x) + (a.y - center.y) * (a.y - center.y) + (
            a.z - center.z) * (a.z - center.z);
            let db = (b.x - center.x) * (b.x - center.x) + (b.y - center.y) * (b.y - center.y) + (
            b.z - center.z) * (b.z - center.z);
            &&& da <= db
            &&& da == db ==> a.z < b.z || a.z == b.z && a.x < b.x || a.z == b.z && a.x == b.x && a.y
                < b.y
            &&& a != b
            &&& !v.loaded.contains(a) && !to_unload.contains(a)
        }),
{
    let a = to_load[i];
    let b = to_load[j];
    assert(to_load.contains(a) && to_load.contains(b));
    lemma_wanted_dist(v, a, center);
    lemma_wanted_dist(v, b, center);
    assert(dist_lt(load_key(a, center), load_key(b, center)));
}

/// What is unloaded is what is resident and may not stay, listed by x, y and z.
pub proof fn lemma_unloads_in_order(
    v: StreamerView,
    center: ChunkPos,
    spans: Spans,
    to_load: Seq<ChunkPos>,
    to_unload: Seq<ChunkPos>,
    i: int,
    j: int,
)
    requires
        is_update(v, center, spans, to_load, to_unload),
        0 <= i < j < to_unload.len(),
    ensures
        ({
            let a = to_unload[i];
            let b = to_unload[j];
            &&& a.x < b.x || a.x == b.x && a.y < b.y || a.x == b.x && a.y == b.y && a.z < b.z
            &&& v.loaded.contains(a) && !v.keeps(a, center, spans[(a.x, a.z)])
        }),
{
    assert(to_unload.contains(to_unload[i]));
}

/// The selection holds as many positions as were asked for, as far as there are
/// so many. Each is one of those given, the nearer ones come first, at one distance
/// by x, y and z, and none that is left out is nearer than one that is kept.
pub proof fn lemma_selection_is_nearest(
    positions: Seq<ChunkPos>,
    camera: ChunkPos,
    n: int,
    r: Seq<ChunkPos>,
    i: int,
    p: ChunkPos,
)
    requires
        nearest_of(positions, camera, n, r),
        forall|k: int|
            0 <= k < positions.len() ==> 0 <= dist(#[trigger] positions[k], camera) <= i128::MAX,
        n >= 0,
        0 <= i < r.len(),
        positions.contains(p),
    ensures
        r.len() == n || r.len() == positions.len() && r.len() < n,
        positions.contains(r[i]),
        ({
            let d = |q: ChunkPos|
                (q.x - camera.x) * (q.x - camera.x) + (q.y - camera.y) * (q.y - camera.y) + (q.z
                    - camera.z) * (q.z - camera.z);
            &&& !r.contains(p) ==> d(r[i]) <= d(p)
            &&& i + 1 < r.len() ==> d(r[i]) <= d(r[i + 1])
            &&& i + 1 < r.len() && d(r[i]) == d(r[i + 1]) ==> {
                let a = r[i];
                let b = r[i + 1];
                a == b || a.x < b.x || a.x == b.x && a.y < b.y || a.x == b.x && a.y == b.y && a.z
                    < b.z
            }
        }),
{
    broadcast use vstd::seq_lib::group_to_multiset_ensures;

    let f = |p: ChunkPos| near_key(p, camera);
    let keys = positions.map_values(f);
    let all = keys.to_multiset();
    let kept = r.map_values(f);
    assert forall|k: int| 0 <= k < r.len() implies positions.contains(#[trigger] r[k]) && 0 <= dist(
        r[k],
        camera,
    ) <= i128::MAX by {
        assert(kept.contains(kept[k]));
        assert(kept.to_multiset().count(kept[k]) > 0);
        assert(all.count(kept[k]) > 0);
        assert(keys.contains(kept[k]));
        let m = choose|m: int| 0 <= m < keys.len() && keys[m] == kept[k];
        assert(positions[m] == r[k]);
    }
    let m = choose|m: int| 0 <= m < positions.len() && positions[m] == p;
    assert(keys[m] == f(p));
    assert(keys.contains(f(p)));
    assert(all.count(f(p)) > 0);
    if !r.contains(p) {
        assert(!kept.contains(f(p))) by {
            if kept.contains(f(p)) {
                let k = choose|k: int| 0 <= k < kept.len() && kept[k] == f(p);
                assert(r[k] == p);
            }
        }
        assert(kept.to_multiset().count(f(p)) == 0);
        assert(all.sub(kept.to_multiset()).count(f(p)) > 0);
        assert(!dist_lt(f(p), kept[i]));
        assert(positions.contains(r[i]));
    }
    if i + 1 < r.len() {
        assert(!dist_lt(kept[i + 1], kept[i]));
        assert(positions.contains(r[i]) && positions.contains(r[i + 1]));
    }
}

} // verus!
