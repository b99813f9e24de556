//! Coarse terrain that full-resolution terrain covers, and which must not be
//! drawn: a coarse node cannot show a hole that the player dug.

use crate::coarse::{central, placed, Coarse};
use crate::coords::ChunkPos;
use crate::lod::{node_covers, LevelCfg, LodNodeId};
use crate::residency::{Residency, ResidencyView};
use crate::seqs::lemma_contains_push;
use vstd::prelude::*;

verus! {

/// How far the further end of a node's side is from the camera, along one axis.
pub open spec fn far_end(origin: int, stride: int, cam: int) -> int {
    let a = if origin >= cam {
        origin - cam
    } else {
        cam - origin
    };
    let b = if origin + stride - 1 >= cam {
        origin + stride - 1 - cam
    } else {
        cam - (origin + stride - 1)
    };
    if a > b {
        a
    } else {
        b
    }
}

/// Every chunk column of the node is within the radius.
pub open spec fn within_radius(
    levels: Seq<LevelCfg>,
    n: LodNodeId,
    cam: ChunkPos,
    radius: int,
) -> bool {
    let s = levels[n.level as int].stride as int;
    let fx = far_end(n.x * s, s, cam.x as int);
    let fz = far_end(n.z * s, s, cam.z as int);
    fx * fx + fz * fz <= radius * radius
}

/// The chunk is drawn: resident and meshed.
pub open spec fn shown(v: ResidencyView, p: ChunkPos) -> bool {
    v.chunks.dom().contains(p) && v.meshed.contains(p)
}

/// All of the column's ground is drawn.
pub open spec fn column_shown<F: Fn(i64, i64) -> (i64, i64)>(
    v: ResidencyView,
    surface_span: F,
    x: i64,
    z: i64,
) -> bool {
    exists|span: (i64, i64)| #[trigger]
        call_ensures(surface_span, (x, z), span) && forall|y: i64|
            v.streamer.near_surface(span, y as int) ==> #[trigger] shown(v, ChunkPos { x, y, z })
}

/// Some of the column's ground is not drawn.
pub open spec fn column_bare<F: Fn(i64, i64) -> (i64, i64)>(
    v: ResidencyView,
    surface_span: F,
    x: i64,
    z: i64,
) -> bool {
    exists|span: (i64, i64), y: i64|
        call_ensures(surface_span, (x, z), span) && v.streamer.near_surface(span, y as int)
            && !#[trigger] shown(v, ChunkPos { x, y, z }) && #[trigger] v.streamer.near_surface(
            span,
            y as int,
        )
}

/// The chunk column is one of the node's.
pub open spec fn node_column(levels: Seq<LevelCfg>, n: LodNodeId, x: i64, z: i64) -> bool {
    let s = levels[n.level as int].stride as int;
    n.x * s <= x < n.x * s + s && n.z * s <= z < n.z * s + s
}

/// All of the node's ground is drawn.
pub open spec fn ground_shown<F: Fn(i64, i64) -> (i64, i64)>(
    v: ResidencyView,
    levels: Seq<LevelCfg>,
    surface_span: F,
    n: LodNodeId,
) -> bool {
    forall|x: i64, z: i64| #[trigger]
        node_column(levels, n, x, z) ==> column_shown(v, surface_span, x, z)
}

/// Some of the node's ground is not drawn.
pub open spec fn ground_bare<F: Fn(i64, i64) -> (i64, i64)>(
    v: ResidencyView,
    levels: Seq<LevelCfg>,
    surface_span: F,
    n: LodNodeId,
) -> bool {
    exists|x: i64, z: i64| #[trigger]
        node_column(levels, n, x, z) && column_bare(v, surface_span, x, z)
}

/// Whether all of a column's ground is drawn.
fn is_column_shown<F: Fn(i64, i64) -> (i64, i64)>(
    residency: &Residency,
    surface_span: &F,
    x: i64,
    z: i64,
) -> (r: bool)
    requires
        residency.wf(),
        forall|x: i64, z: i64| #[trigger] call_requires(surface_span, (x, z)),
    ensures
        r ==> column_shown(residency@, *surface_span, x, z),
        !r ==> column_bare(residency@, *surface_span, x, z),
{
    let span = surface_span(x, z);
    let (lo, hi) = residency.streamer().surface_window(span);
    let ghost v = residency@;
    let mut y: i64 = lo;
    assert forall|y: i64| #[trigger] v.streamer.near_surface(span, y as int) <==> lo <= y <= hi by {
        assert(crate::streaming::in_range((lo, hi), y as int) <==> v.streamer.near_surface(
            span,
            y as int,
        ));
    }
    while y <= hi
        invariant
            residency.wf(),
            v == residency@,
            lo <= y,
            hi < i64::MAX,
            y <= hi + 1 || y == lo,
            call_ensures(surface_span, (x, z), span),
            forall|y: i64| #[trigger]
                v.streamer.near_surface(span, y as int) <==> lo <= y <= hi,
            forall|w: i64| lo <= w < y ==> #[trigger] shown(v, ChunkPos { x, y: w, z }),
        decreases hi + 1 - y,
    {
        let p = ChunkPos::new(x, y, z);
        if residency.world().chunk(p).is_none() || !residency.is_meshed(p) {
            assert(v.streamer.near_surface(span, y as int));
            assert(!shown(v, ChunkPos { x, y, z }));
            return false;
        }
        y += 1;
    }
    assert forall|w: i64| v.streamer.near_surface(span, w as int) implies #[trigger] shown(
        v,
        ChunkPos { x, y: w, z },
    ) by {
        assert(lo <= w <= hi);
    }
    true
}

fn far_of(origin: i128, stride: i128, cam: i128) -> (r: i128)
    requires
        -0x1000_0000_0000_0000 <= origin <= 0x1000_0000_0000_0000,
        1 <= stride <= 0x1000_0000_0000_0000,
        -0x1000_0000_0000_0000 <= cam <= 0x1000_0000_0000_0000,
    ensures
        r == far_end(origin as int, stride as int, cam as int),
        0 <= r <= 0x3000_0000_0000_0000,
{
    let a: i128 = if origin >= cam {
        origin - cam
    } else {
        cam - origin
    };
    let end: i128 = origin + stride - 1;
    let b: i128 = if end >= cam {
        end - cam
    } else {
        cam - end
    };
    if a > b {
        a
    } else {
        b
    }
}

impl Coarse {
    /// Whether every chunk column of a node is within the radius.
    fn is_within(&self, n: LodNodeId, cam: ChunkPos, radius: i64) -> (r: bool)
        requires
            self.wf(),
            placed(self@.ring.levels, n),
            central(cam),
        ensures
            r == within_radius(self@.ring.levels, n, cam, radius as int),
    {
        proof {
            self.lemma_wf();
            crate::coarse::lemma_key_fits(self@.ring, n, cam);
        }
        let s: i64 = self.ring().stride(n.level);
        let (ox, oz) = self.ring().node_origin_chunk_xz(n);
        let fx: i128 = far_of(ox as i128, s as i128, cam.x as i128);
        let fz: i128 = far_of(oz as i128, s as i128, cam.z as i128);
        let r: i128 = radius as i128;
        proof {
            assert(0 <= fx * fx <= 0x3000_0000_0000_0000 * 0x3000_0000_0000_0000)
                by (nonlinear_arith)
                requires
                    0 <= fx <= 0x3000_0000_0000_0000,
            ;
            assert(0 <= fz * fz <= 0x3000_0000_0000_0000 * 0x3000_0000_0000_0000)
                by (nonlinear_arith)
                requires
                    0 <= fz <= 0x3000_0000_0000_0000,
            ;
            assert(0 <= r * r <= 0x8000_0000_0000_0000 * 0x8000_0000_0000_0000)
                by (nonlinear_arith)
                requires
                    -0x8000_0000_0000_0000 <= r <= 0x8000_0000_0000_0000,
            ;
        }
        fx * fx + fz * fz <= r * r
    }

    /// Whether all of a node's ground is drawn.
    fn is_ground_shown<F: Fn(i64, i64) -> (i64, i64)>(
        &self,
        residency: &Residency,
        surface_span: &F,
        n: LodNodeId,
    ) -> (r: bool)
        requires
            self.wf(),
            residency.wf(),
            placed(self@.ring.levels, n),
            forall|x: i64, z: i64| #[trigger] call_requires(surface_span, (x, z)),
        ensures
            r ==> ground_shown(residency@, self@.ring.levels, *surface_span, n),
            !r ==> ground_bare(residency@, self@.ring.levels, *surface_span, n),
    {
        let ghost levels = self@.ring.levels;
        let ghost v = residency@;
        proof {
            self.lemma_wf();
            crate::coarse::lemma_key_fits(self@.ring, n, ChunkPos { x: 0, y: 0, z: 0 });
        }
        let s: i64 = self.ring().stride(n.level);
        let (ox, oz) = self.ring().node_origin_chunk_xz(n);
        let mut z: i64 = oz;
        while z < oz + s
            invariant
                oz <= z <= oz + s,
                ox + s <= i64::MAX,
                oz + s <= i64::MAX,
                levels == self@.ring.levels,
                n.level < levels.len(),
                s == levels[n.level as int].stride,
                ox == n.x * s,
                oz == n.z * s,
                s >= 1,
                v == residency@,
                residency.wf(),
                forall|x: i64, z: i64| #[trigger] call_requires(surface_span, (x, z)),
                forall|a: i64, b: i64| #[trigger]
                    node_column(levels, n, a, b) && b < z ==> column_shown(v, *surface_span, a, b),
            decreases oz + s - z,
        {
            let mut x: i64 = ox;
            while x < ox + s
                invariant
                    oz <= z < oz + s,
                    ox <= x <= ox + s,
                    ox + s <= i64::MAX,
                    oz + s <= i64::MAX,
                    levels == self@.ring.levels,
                    n.level < levels.len(),
                    s == levels[n.level as int].stride,
                    ox == n.x * s,
                    oz == n.z * s,
                    s >= 1,
                    v == residency@,
                    residency.wf(),
                    forall|x: i64, z: i64| #[trigger] call_requires(surface_span, (x, z)),
                    forall|a: i64, b: i64| #[trigger]
                        node_column(levels, n, a, b) && (b < z || (b == z && a < x))
                            ==> column_shown(v, *surface_span, a, b),
                decreases ox + s - x,
            {
                if !is_column_shown(residency, surface_span, x, z) {
                    assert(node_column(levels, n, x, z));
                    return false;
                }
                x += 1;
            }
            z += 1;
        }
        true
    }

    /// The nodes on screen that full-resolution terrain covers, within the
    /// radius to which it is streamed: the ground of every chunk column under
    /// them is resident and was meshed. Residency alone does not do: a chunk
    /// whose first mesh is held back draws nothing yet.
    pub fn covered_nodes<F: Fn(i64, i64) -> (i64, i64)>(
        &self,
        residency: &Residency,
        cam: ChunkPos,
        radius: i64,
        surface_span: &F,
    ) -> (r: Vec<LodNodeId>)
        requires
            self.wf(),
            residency.wf(),
            central(cam),
            forall|x: i64, z: i64| #[trigger] call_requires(surface_span, (x, z)),
        ensures
            forall|n: LodNodeId| #[trigger]
                r@.contains(n) ==> self@.drawn(n) && within_radius(
                    self@.ring.levels,
                    n,
                    cam,
                    radius as int,
                ) && ground_shown(residency@, self@.ring.levels, *surface_span, n),
            forall|n: LodNodeId| #[trigger]
                self@.drawn(n) && within_radius(self@.ring.levels, n, cam, radius as int)
                    && !r@.contains(n) ==> ground_bare(
                    residency@,
                    self@.ring.levels,
                    *surface_span,
                    n,
                ),
    {
        let all = self.drawn();
        let ghost levels = self@.ring.levels;
        let ghost v = residency@;
        let mut out: Vec<LodNodeId> = Vec::new();
        let mut i: usize = 0;
        proof {
            self.lemma_wf();
        }
        while i < all.len()
            invariant
                i <= all.len(),
                self.wf(),
                self@.valid(),
                residency.wf(),
                central(cam),
                levels == self@.ring.levels,
                v == residency@,
                forall|x: i64, z: i64| #[trigger] call_requires(surface_span, (x, z)),
                forall|n: LodNodeId| #[trigger] all@.contains(n) <==> self@.drawn(n),
                forall|n: LodNodeId| #[trigger]
                    out@.contains(n) ==> self@.drawn(n) && within_radius(
                        levels,
                        n,
                        cam,
                        radius as int,
                    ) && ground_shown(v, levels, *surface_span, n),
                forall|n: LodNodeId| #[trigger]
                    all@.take(i as int).contains(n) && within_radius(levels, n, cam, radius as int)
                        && !out@.contains(n) ==> ground_bare(v, levels, *surface_span, n),
            decreases all.len() - i,
        {
            let n = all[i];
            proof {
                assert(all@.contains(n));
                assert(self@.ring.loaded.contains(n) || self@.retired.contains(n));
                assert(all@.take(i + 1) =~= all@.take(i as int).push(n));
                lemma_contains_push(all@.take(i as int), n);
                lemma_contains_push(out@, n);
            }
            if self.is_within(n, cam, radius) && self.is_ground_shown(residency, surface_span, n) {
                out.push(n);
            }
            i += 1;
        }
        proof {
            assert(all@.take(i as int) =~= all@);
            assert forall|n: LodNodeId| #[trigger] self@.drawn(n) implies all@.contains(n) by {}
        }
        out
    }
}

/// The nearer columns of a node are within the radius if its far corner is.
pub proof fn lemma_within_radius(
    levels: Seq<LevelCfg>,
    n: LodNodeId,
    cam: ChunkPos,
    radius: int,
    x: i64,
    z: i64,
)
    requires
        within_radius(levels, n, cam, radius),
        node_column(levels, n, x, z),
    ensures
        (x - cam.x) * (x - cam.x) + (z - cam.z) * (z - cam.z) <= radius * radius,
{
    let s = levels[n.level as int].stride as int;
    let fx = far_end(n.x * s, s, cam.x as int);
    let fz = far_end(n.z * s, s, cam.z as int);
    let dx = x - cam.x;
    let dz = z - cam.z;
    assert(dx * dx <= fx * fx) by (nonlinear_arith)
        requires
            -fx <= dx <= fx,
    ;
    assert(dz * dz <= fz * fz) by (nonlinear_arith)
        requires
            -fz <= dz <= fz,
    ;
}

/// A node is within the radius iff each of its chunk columns is.
pub proof fn lemma_within_radius_by_columns(
    levels: Seq<LevelCfg>,
    n: LodNodeId,
    cam: ChunkPos,
    radius: int,
)
    requires
        levels[n.level as int].stride >= 1,
        ({
            let s = levels[n.level as int].stride as int;
            i64::MIN <= n.x * s && n.x * s + s <= i64::MAX && i64::MIN <= n.z * s && n.z * s + s
                <= i64::MAX
        }),
        forall|x: i64, z: i64| #[trigger]
            node_column(levels, n, x, z) ==> (x - cam.x) * (x - cam.x) + (z - cam.z) * (z - cam.z)
                <= radius * radius,
    ensures
        within_radius(levels, n, cam, radius),
{
    let s = levels[n.level as int].stride as int;
    let ox = n.x * s;
    let oz = n.z * s;
    let ex = far_end(ox, s, cam.x as int);
    let ez = far_end(oz, s, cam.z as int);
    let x = if ox - cam.x == ex || cam.x - ox == ex { ox } else { ox + s - 1 };
    let z = if oz - cam.z == ez || cam.z - oz == ez { oz } else { oz + s - 1 };
    assert(node_column(levels, n, x as i64, z as i64));
    assert((x - cam.x) * (x - cam.x) == ex * ex) by (nonlinear_arith)
        requires
            x - cam.x == ex || cam.x - x == ex,
    ;
    assert((z - cam.z) * (z - cam.z) == ez * ez) by (nonlinear_arith)
        requires
            z - cam.z == ez || cam.z - z == ez,
    ;
}

/// A chunk shows its terrain iff it is resident and was meshed; a column of a node
/// is one that the node covers. With one answer to where the surface is, a column
/// whose ground is all shown has none that is bare.
pub proof fn lemma_shown_or_bare<F: Fn(i64, i64) -> (i64, i64)>(
    v: ResidencyView,
    levels: Seq<LevelCfg>,
    surface_span: F,
    n: LodNodeId,
    p: ChunkPos,
)
    requires
        forall|c: (i64, i64), s: (i64, i64), t: (i64, i64)| #[trigger]
            call_ensures(surface_span, c, s) && #[trigger] call_ensures(surface_span, c, t) ==> s
                == t,
    ensures
        shown(v, p) <==> v.chunks.dom().contains(p) && v.meshed.contains(p),
        node_column(levels, n, p.x, p.z) == node_covers(
            levels[n.level as int],
            n,
            p.x as int,
            p.z as int,
        ),
        !(ground_shown(v, levels, surface_span, n) && ground_bare(v, levels, surface_span, n)),
        ground_shown(v, levels, surface_span, n) && node_column(levels, n, p.x, p.z) ==> exists|
            span: (i64, i64),
        | #[trigger]
            call_ensures(surface_span, (p.x, p.z), span) && (v.streamer.near_surface(
                span,
                p.y as int,
            ) ==> v.chunks.dom().contains(p) && v.meshed.contains(p)),
{
    if ground_shown(v, levels, surface_span, n) && node_column(levels, n, p.x, p.z) {
        assert(column_shown(v, surface_span, p.x, p.z));
        let span = choose|span: (i64, i64)| #[trigger]
            call_ensures(surface_span, (p.x, p.z), span) && forall|y: i64|
                v.streamer.near_surface(span, y as int) ==> #[trigger] shown(
                    v,
                    ChunkPos { x: p.x, y, z: p.z },
                );
        assert(v.streamer.near_surface(span, p.y as int) ==> shown(
            v,
            ChunkPos { x: p.x, y: p.y, z: p.z },
        ));
    }
    if ground_shown(v, levels, surface_span, n) && ground_bare(v, levels, surface_span, n) {
        let (x, z) = choose|x: i64, z: i64| #[trigger]
            node_column(levels, n, x, z) && column_bare(v, surface_span, x, z);
        assert(column_shown(v, surface_span, x, z));
    }
}

} // verus!
