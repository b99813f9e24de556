//! Handover between the levels of coarse terrain: as the camera moves and the
//! ring's updates are carried out, every chunk column within the rings is
//! covered by exactly one loaded node, and none by two.

use crate::arith::{lemma_div_floor, lemma_div_is};
use crate::coords::ChunkPos;
use crate::lod::{
    in_square, lemma_aligned_sum, lemma_center_aligned, lemma_levels_partition, lemma_outer_grows,
    lemma_owned_column, node_covers, node_over, owns, LevelCfg, LodNodeId, RingView,
};
use vstd::prelude::*;

verus! {

/// The cell of the coarsest grid that a node lies in.
pub open spec fn cell_of(v: RingView, id: LodNodeId) -> (int, int) {
    let s = v.levels[id.level as int].stride as int;
    ((id.x * s) / v.coarsest(), (id.z * s) / v.coarsest())
}

impl RingView {
    /// Every cell of the coarsest grid is held by one level at most, and by all
    /// of its nodes.
    pub open spec fn crisp(self) -> bool {
        &&& forall|a: LodNodeId, b: LodNodeId|
            self.loaded.contains(a) && b.level == a.level && #[trigger] cell_of(self, a)
                == #[trigger] cell_of(self, b) ==> self.loaded.contains(b)
        &&& forall|a: LodNodeId, b: LodNodeId|
            self.loaded.contains(a) && self.loaded.contains(b) && #[trigger] cell_of(self, a)
                == #[trigger] cell_of(self, b) ==> a.level == b.level
    }

    /// A loaded node covers the column.
    pub open spec fn covered(self, x: int, z: int) -> bool {
        exists|k: LodNodeId|
            self.loaded.contains(k) && #[trigger] node_covers(
                self.levels[k.level as int],
                k,
                x,
                z,
            )
    }

    /// No two loaded nodes cover the column.
    pub open spec fn covered_at_most_once(self, x: int, z: int) -> bool {
        forall|a: LodNodeId, b: LodNodeId|
            self.loaded.contains(a) && self.loaded.contains(b) && #[trigger] node_covers(
                self.levels[a.level as int],
                a,
                x,
                z,
            ) && #[trigger] node_covers(self.levels[b.level as int], b, x, z) ==> a == b
    }

    /// The column lies within the rings around a camera.
    pub open spec fn in_rings(self, cam: ChunkPos, x: int, z: int) -> bool {
        let cx = self.snapped(cam.x as int);
        let cz = self.snapped(cam.z as int);
        &&& in_square(cx, cz, self.levels.last().outer_chunks as int, x, z)
        &&& !in_square(cx, cz, self.levels[0].inner_chunks as int, x, z)
    }

    /// After an update for a camera was carried out: what it asks to load is
    /// loaded, what it asks to unload is not. Nothing changes while the snapped
    /// center stays.
    pub open spec fn carried_out(self, cam: ChunkPos) -> RingView {
        let center = (self.snapped(cam.x as int) as i64, self.snapped(cam.z as int) as i64);
        if self.last_center == Some(center) {
            self
        } else {
            RingView {
                loaded: Set::new(|id: LodNodeId| self.keeps(id, cam) || self.wants(id, cam)),
                last_center: Some(center),
                ..self
            }
        }
    }

    /// After updates for cameras were carried out, one after the other.
    pub open spec fn after_moves(self, cams: Seq<ChunkPos>) -> RingView
        decreases cams.len(),
    {
        if cams.len() == 0 {
            self
        } else {
            self.after_moves(cams.drop_last()).carried_out(cams.last())
        }
    }
}

/// A node lies within one cell of the coarsest grid, along one axis.
proof fn lemma_in_cell(n: int, s: int, k: int, x: int)
    requires
        s > 0,
        k > 0,
        k % s == 0,
        n * s <= x < n * s + s,
    ensures
        x / k == (n * s) / k,
        ((n * s) / k) * k <= n * s,
        n * s + s <= ((n * s) / k) * k + k,
{
    lemma_div_floor(k, s);
    lemma_div_floor(n * s, k);
    let m = k / s;
    let q = (n * s) / k;
    assert(q * k == (q * m) * s) by (nonlinear_arith)
        requires
            k == m * s,
    ;
    assert(q * k + k == (q * m + m) * s) by (nonlinear_arith)
        requires
            k == m * s,
    ;
    assert(n + 1 <= q * m + m) by (nonlinear_arith)
        requires
            n * s < (q * m + m) * s,
            s > 0,
    ;
    assert(n * s + s <= (q * m + m) * s) by (nonlinear_arith)
        requires
            n + 1 <= q * m + m,
            s > 0,
    ;
    lemma_div_is(x, k, q);
}

/// A column and a node that covers it lie in the same cell.
proof fn lemma_column_cell(v: RingView, id: LodNodeId, x: int, z: int)
    requires
        v.valid(),
        id.level < v.levels.len(),
        node_covers(v.levels[id.level as int], id, x, z),
    ensures
        cell_of(v, id) == (x / v.coarsest(), z / v.coarsest()),
{
    let c = v.levels[id.level as int];
    let last = v.levels[v.levels.len() - 1];
    assert(last.stride >= 1);
    lemma_in_cell(id.x as int, c.stride as int, v.coarsest(), x);
    lemma_in_cell(id.z as int, c.stride as int, v.coarsest(), z);
}

/// A grid line does not tell the nodes of one cell apart.
proof fn lemma_line(n: int, m: int, s: int, k: int, edge: int)
    requires
        s > 0,
        k > 0,
        k % s == 0,
        edge % k == 0,
        (n * s) / k == (m * s) / k,
    ensures
        (edge <= n * s) == (edge <= m * s),
        (n * s + s <= edge) == (m * s + s <= edge),
{
    lemma_in_cell(n, s, k, n * s);
    lemma_in_cell(m, s, k, m * s);
    lemma_div_floor(edge, k);
    let q = (n * s) / k;
    let e = edge / k;
    let a = n * s;
    let b = m * s;
    assert(edge == e * k);
    if e <= q {
        assert(e * k <= q * k) by (nonlinear_arith)
            requires
                e <= q,
                k > 0,
        ;
    } else {
        assert(q * k + k <= e * k) by (nonlinear_arith)
            requires
                q + 1 <= e,
                k > 0,
        ;
    }
}

/// The nodes of a level that share a cell are in the level's annulus together.
proof fn lemma_cell_annulus(v: RingView, cam: ChunkPos, a: LodNodeId, b: LodNodeId, extra: int)
    requires
        v.valid(),
        a.level < v.levels.len(),
        b.level == a.level,
        cell_of(v, a) == cell_of(v, b),
        extra % v.coarsest() == 0,
    ensures
        v.in_annulus(a, cam, extra) == v.in_annulus(b, cam, extra),
{
    let cfg = v.levels[a.level as int];
    let s = cfg.stride as int;
    let k = v.coarsest();
    let last = v.levels[v.levels.len() - 1];
    assert(last.stride >= 1 && k >= 1);
    let cx = v.snapped(cam.x as int);
    let cz = v.snapped(cam.z as int);
    lemma_center_aligned(v, cam.x as int, v.levels.len() - 1);
    lemma_center_aligned(v, cam.z as int, v.levels.len() - 1);
    let outer = cfg.outer_chunks + extra;
    let inner = cfg.inner_chunks as int;
    lemma_aligned_sum(cfg.outer_chunks as int, extra, k);
    lemma_aligned_sum(cx, outer, k);
    lemma_aligned_sum(cz, outer, k);
    lemma_aligned_sum(cx, inner, k);
    lemma_aligned_sum(cz, inner, k);
    lemma_line(a.x as int, b.x as int, s, k, cx - outer);
    lemma_line(a.x as int, b.x as int, s, k, cx + outer);
    lemma_line(a.x as int, b.x as int, s, k, cx - inner);
    lemma_line(a.x as int, b.x as int, s, k, cx + inner);
    lemma_line(a.z as int, b.z as int, s, k, cz - outer);
    lemma_line(a.z as int, b.z as int, s, k, cz + outer);
    lemma_line(a.z as int, b.z as int, s, k, cz - inner);
    lemma_line(a.z as int, b.z as int, s, k, cz + inner);
    assert(owns(cfg, cx, cz, a.x as int, a.z as int, extra) == owns(
        cfg,
        cx,
        cz,
        b.x as int,
        b.z as int,
        extra,
    ));
}

/// Nodes in their annuli that share a cell are of one level.
proof fn lemma_one_level(v: RingView, cam: ChunkPos, a: LodNodeId, b: LodNodeId)
    requires
        v.valid(),
        v.in_annulus(a, cam, 0),
        v.in_annulus(b, cam, 0),
        cell_of(v, a) == cell_of(v, b),
    ensures
        a.level == b.level,
{
    let k = v.coarsest();
    let last = v.levels[v.levels.len() - 1];
    assert(last.stride >= 1 && k >= 1);
    let ca = v.levels[a.level as int];
    let cb = v.levels[b.level as int];
    let (ax, az) = (a.x * ca.stride, a.z * ca.stride);
    let (bx, bz) = (b.x * cb.stride, b.z * cb.stride);
    if a.level != b.level {
        lemma_in_cell(a.x as int, ca.stride as int, k, ax);
        lemma_in_cell(a.z as int, ca.stride as int, k, az);
        lemma_in_cell(b.x as int, cb.stride as int, k, bx);
        lemma_in_cell(b.z as int, cb.stride as int, k, bz);
        lemma_square_of_cell(v, cam, a, ax, az, bx, bz);
        lemma_square_of_cell(v, cam, b, bx, bz, ax, az);
        lemma_owned_column(v, cam, a, ax, az);
        lemma_owned_column(v, cam, b, bx, bz);
        if a.level < b.level {
            lemma_outer_grows(v.levels, a.level as int, b.level as int);
        } else {
            lemma_outer_grows(v.levels, b.level as int, a.level as int);
        }
    }
}

/// The squares of a level hold all columns of a cell or none.
proof fn lemma_square_of_cell(
    v: RingView,
    cam: ChunkPos,
    id: LodNodeId,
    x: int,
    z: int,
    px: int,
    pz: int,
)
    requires
        v.valid(),
        id.level < v.levels.len(),
        x / v.coarsest() == px / v.coarsest(),
        z / v.coarsest() == pz / v.coarsest(),
    ensures
        ({
            let cfg = v.levels[id.level as int];
            let cx = v.snapped(cam.x as int);
            let cz = v.snapped(cam.z as int);
            let (o, i) = (cfg.outer_chunks as int, cfg.inner_chunks as int);
            &&& in_square(cx, cz, o, x, z) == in_square(cx, cz, o, px, pz)
            &&& in_square(cx, cz, i, x, z) == in_square(cx, cz, i, px, pz)
        }),
{
    let cfg = v.levels[id.level as int];
    let k = v.coarsest();
    let last = v.levels[v.levels.len() - 1];
    assert(last.stride >= 1 && k >= 1);
    let cx = v.snapped(cam.x as int);
    let cz = v.snapped(cam.z as int);
    lemma_center_aligned(v, cam.x as int, v.levels.len() - 1);
    lemma_center_aligned(v, cam.z as int, v.levels.len() - 1);
    let (o, i) = (cfg.outer_chunks as int, cfg.inner_chunks as int);
    lemma_aligned_sum(cx, o, k);
    lemma_aligned_sum(cz, o, k);
    lemma_aligned_sum(cx, i, k);
    lemma_aligned_sum(cz, i, k);
    lemma_side(x, px, k, cx - o);
    lemma_side(x, px, k, cx + o);
    lemma_side(x, px, k, cx - i);
    lemma_side(x, px, k, cx + i);
    lemma_side(z, pz, k, cz - o);
    lemma_side(z, pz, k, cz + o);
    lemma_side(z, pz, k, cz - i);
    lemma_side(z, pz, k, cz + i);
}

/// Numbers of one cell lie on the same side of a grid line.
proof fn lemma_side(x: int, y: int, k: int, edge: int)
    requires
        k > 0,
        edge % k == 0,
        x / k == y / k,
    ensures
        (edge <= x) == (edge <= y),
        (x < edge) == (y < edge),
{
    lemma_div_floor(x, k);
    lemma_div_floor(y, k);
    lemma_div_floor(edge, k);
    let q = x / k;
    let e = edge / k;
    if e <= q {
        assert(e * k <= q * k) by (nonlinear_arith)
            requires
                e <= q,
                k > 0,
        ;
    } else {
        assert(q * k + k <= e * k) by (nonlinear_arith)
            requires
                q + 1 <= e,
                k > 0,
        ;
    }
}

/// A node over a column of the coordinates.
proof fn lemma_node_over(v: RingView, level: int, x: int, z: int) -> (n: LodNodeId)
    requires
        v.valid(),
        0 <= level < v.levels.len(),
        i64::MIN <= x <= i64::MAX,
        i64::MIN <= z <= i64::MAX,
    ensures
        n.level == level,
        node_covers(v.levels[level], n, x, z),
{
    let cfg: LevelCfg = v.levels[level];
    let s = cfg.stride as int;
    lemma_div_floor(x, s);
    lemma_div_floor(z, s);
    assert(i64::MIN <= x / s <= i64::MAX) by (nonlinear_arith)
        requires
            s >= 1,
            i64::MIN <= x <= i64::MAX,
            (x / s) * s <= x < (x / s) * s + s,
    ;
    assert(i64::MIN <= z / s <= i64::MAX) by (nonlinear_arith)
        requires
            s >= 1,
            i64::MIN <= z <= i64::MAX,
            (z / s) * s <= z < (z / s) * s + s,
    ;
    node_over(cfg, level, x, z)
}

/// A column of a node in its annulus is within the coordinates.
proof fn lemma_annulus_column(v: RingView, cam: ChunkPos, id: LodNodeId, x: int, z: int)
    requires
        v.valid(),
        v.reaches(cam),
        v.in_annulus(id, cam, 0),
        node_covers(v.levels[id.level as int], id, x, z),
    ensures
        i64::MIN <= x <= i64::MAX,
        i64::MIN <= z <= i64::MAX,
{
    lemma_owned_column(v, cam, id, x, z);
    let n = v.levels.len() as int;
    if id.level < n - 1 {
        lemma_outer_grows(v.levels, id.level as int, n - 1);
    }
}

/// Where one node of a cell stays, every column of the cell is kept.
proof fn lemma_cell_kept(v: RingView, cam: ChunkPos, k: LodNodeId, x: int, z: int)
    requires
        v.valid(),
        v.crisp(),
        v.keeps(k, cam),
        cell_of(v, k) == (x / v.coarsest(), z / v.coarsest()),
        i64::MIN <= x <= i64::MAX,
        i64::MIN <= z <= i64::MAX,
    ensures
        v.kept_over(cam, x, z),
{
    let n = lemma_node_over(v, k.level as int, x, z);
    lemma_column_cell(v, n, x, z);
    assert(cell_of(v, k) == cell_of(v, n));
    assert(v.loaded.contains(n));
    lemma_cell_annulus(v, cam, k, n, v.margin);
    assert(v.keeps(n, cam));
}

/// What is wanted lies in no cell of which a node stays.
proof fn lemma_wanted_cell_free(v: RingView, cam: ChunkPos, k: LodNodeId, w: LodNodeId)
    requires
        v.valid(),
        v.crisp(),
        v.reaches(cam),
        v.keeps(k, cam),
        v.wants(w, cam),
    ensures
        cell_of(v, k) != cell_of(v, w),
{
    if cell_of(v, k) == cell_of(v, w) {
        assert forall|x: int, z: int| #[trigger]
            node_covers(v.levels[w.level as int], w, x, z) implies v.kept_over(cam, x, z) by {
            lemma_column_cell(v, w, x, z);
            lemma_annulus_column(v, cam, w, x, z);
            lemma_cell_kept(v, cam, k, x, z);
        }
        assert(v.taken(w, cam));
    }
}

/// Carrying out an update leaves every cell with one level, wholly.
pub proof fn lemma_handover_crisp(v: RingView, cam: ChunkPos)
    requires
        v.valid(),
        v.crisp(),
        v.reaches(cam),
    ensures
        v.carried_out(cam).valid(),
        v.carried_out(cam).crisp(),
{
    let w = v.carried_out(cam);
    if w != v {
        let k = v.coarsest();
        let last = v.levels[v.levels.len() - 1];
        assert(last.stride >= 1 && k >= 1);
        lemma_div_is(0, k, 0);
        assert forall|a: LodNodeId, b: LodNodeId|
            w.loaded.contains(a) && b.level == a.level && #[trigger] cell_of(w, a)
                == #[trigger] cell_of(w, b) implies w.loaded.contains(b) by {
            assert(cell_of(v, a) == cell_of(v, b));
            lemma_cell_annulus(v, cam, a, b, 0);
            lemma_cell_annulus(v, cam, a, b, v.margin);
            if v.keeps(a, cam) {
                assert(v.loaded.contains(b));
            } else {
                lemma_wider(v, cam, b);
                if v.loaded.contains(b) {
                    assert(v.keeps(b, cam));
                } else if v.taken(b, cam) {
                    let s = v.levels[b.level as int].stride as int;
                    let (x, z) = (b.x * s, b.z * s);
                    assert(node_covers(v.levels[b.level as int], b, x, z));
                    lemma_column_cell(v, b, x, z);
                    let n = choose|n: LodNodeId|
                        v.keeps(n, cam) && #[trigger] node_covers(v.levels[n.level as int], n, x, z);
                    lemma_column_cell(v, n, x, z);
                    lemma_wanted_cell_free(v, cam, n, a);
                }
            }
        }
        assert forall|a: LodNodeId, b: LodNodeId|
            w.loaded.contains(a) && w.loaded.contains(b) && #[trigger] cell_of(w, a)
                == #[trigger] cell_of(w, b) implies a.level == b.level by {
            assert(cell_of(v, a) == cell_of(v, b));
            if v.keeps(a, cam) && v.keeps(b, cam) {
            } else if v.keeps(a, cam) {
                lemma_wanted_cell_free(v, cam, a, b);
            } else if v.keeps(b, cam) {
                lemma_wanted_cell_free(v, cam, b, a);
            } else {
                lemma_one_level(v, cam, a, b);
            }
        }
    }
}

/// What is in its annulus is in it with the slack.
proof fn lemma_wider(v: RingView, cam: ChunkPos, id: LodNodeId)
    requires
        v.valid(),
        v.in_annulus(id, cam, 0),
    ensures
        v.in_annulus(id, cam, v.margin),
{
}

/// Where every cell is held by one level, no column is covered twice.
pub proof fn lemma_crisp_once(v: RingView, x: int, z: int)
    requires
        v.valid(),
        v.crisp(),
    ensures
        v.covered_at_most_once(x, z),
{
    assert forall|a: LodNodeId, b: LodNodeId|
        v.loaded.contains(a) && v.loaded.contains(b) && #[trigger] node_covers(
            v.levels[a.level as int],
            a,
            x,
            z,
        ) && #[trigger] node_covers(v.levels[b.level as int], b, x, z) implies a == b by {
        lemma_column_cell(v, a, x, z);
        lemma_column_cell(v, b, x, z);
        assert(cell_of(v, a) == cell_of(v, b));
        let s = v.levels[a.level as int].stride as int;
        lemma_div_is(x, s, a.x as int);
        lemma_div_is(x, s, b.x as int);
        lemma_div_is(z, s, a.z as int);
        lemma_div_is(z, s, b.z as int);
    }
}

/// Once an update for a new center is carried out, every column within the
/// rings is covered.
proof fn lemma_rings_covered(v: RingView, cam: ChunkPos, x: int, z: int)
    requires
        v.valid(),
        v.reaches(cam),
        v.last_center != Some(
            (v.snapped(cam.x as int) as i64, v.snapped(cam.z as int) as i64),
        ),
        v.in_rings(cam, x, z),
    ensures
        v.carried_out(cam).covered(x, z),
{
    let w = v.carried_out(cam);
    lemma_levels_partition(v, cam, x as i64, z as i64);
    let n = choose|n: LodNodeId|
        v.in_annulus(n, cam, 0) && #[trigger] node_covers(v.levels[n.level as int], n, x, z);
    lemma_wider(v, cam, n);
    if v.loaded.contains(n) || v.wants(n, cam) {
        assert(w.loaded.contains(n));
        assert(node_covers(w.levels[n.level as int], n, x, z));
    } else {
        assert(v.taken(n, cam));
        let k = choose|k: LodNodeId|
            v.keeps(k, cam) && #[trigger] node_covers(v.levels[k.level as int], k, x, z);
        assert(w.loaded.contains(k));
        assert(node_covers(w.levels[k.level as int], k, x, z));
    }
}

/// Loading and unloading what an update lists carries it out, and leaves no node
/// loaded beyond its annulus and the slack.
pub proof fn lemma_update_carried_out(
    v: RingView,
    cam: ChunkPos,
    to_load: Seq<LodNodeId>,
    to_unload: Seq<LodNodeId>,
)
    requires
        v.valid(),
        v.last_center != Some(
            (v.snapped(cam.x as int) as i64, v.snapped(cam.z as int) as i64),
        ),
        forall|n: LodNodeId| #[trigger] to_load.contains(n) <==> v.wants(n, cam),
        forall|n: LodNodeId| #[trigger] to_unload.contains(n) <==> v.drops(n, cam),
    ensures
        v.loaded.union(to_load.to_set()).difference(to_unload.to_set()) == v.carried_out(
            cam,
        ).loaded,
        forall|n: LodNodeId| #[trigger]
            v.carried_out(cam).loaded.contains(n) ==> v.in_annulus(n, cam, v.margin),
{
    let after = v.loaded.union(to_load.to_set()).difference(to_unload.to_set());
    assert forall|n: LodNodeId| #[trigger] after.contains(n) == v.carried_out(cam).loaded.contains(
        n,
    ) by {
        assert(to_load.contains(n) <==> v.wants(n, cam));
        assert(to_unload.contains(n) <==> v.drops(n, cam));
    }
    assert(after =~= v.carried_out(cam).loaded);
}

/// Moving the camera keeps the ring's configuration.
proof fn lemma_moves_keep(v: RingView, cams: Seq<ChunkPos>)
    ensures
        v.after_moves(cams).levels == v.levels,
        v.after_moves(cams).margin == v.margin,
        v.after_moves(cams).band == v.band,
    decreases cams.len(),
{
    if cams.len() > 0 {
        lemma_moves_keep(v, cams.drop_last());
    }
}

/// Handover is exact: however the camera moves, once each update is carried
/// out, no chunk column is covered by two loaded nodes, and every column within
/// the rings around the last camera is covered by one.
pub proof fn lemma_covered_by_one_level(v: RingView, cams: Seq<ChunkPos>, x: int, z: int)
    requires
        v.valid(),
        v.loaded == Set::<LodNodeId>::empty(),
        v.last_center is None,
        forall|i: int| 0 <= i < cams.len() ==> v.reaches(#[trigger] cams[i]),
    ensures
        v.after_moves(cams).covered_at_most_once(x, z),
        cams.len() > 0 && v.in_rings(cams.last(), x, z) ==> v.after_moves(cams).covered(x, z),
{
    lemma_moves(v, cams);
    lemma_crisp_once(v.after_moves(cams), x, z);
}

proof fn lemma_moves(v: RingView, cams: Seq<ChunkPos>)
    requires
        v.valid(),
        v.loaded == Set::<LodNodeId>::empty(),
        v.last_center is None,
        forall|i: int| 0 <= i < cams.len() ==> v.reaches(#[trigger] cams[i]),
    ensures
        v.after_moves(cams).valid(),
        v.after_moves(cams).crisp(),
        cams.len() == 0 ==> v.after_moves(cams).last_center is None,
        cams.len() > 0 ==> v.after_moves(cams).last_center == Some(
            (v.snapped(cams.last().x as int) as i64, v.snapped(cams.last().z as int) as i64),
        ),
        cams.len() > 0 ==> forall|x: int, z: int| #[trigger]
            v.in_rings(cams.last(), x, z) ==> v.after_moves(cams).covered(x, z),
    decreases cams.len(),
{
    if cams.len() > 0 {
        let rest = cams.drop_last();
        let cam = cams.last();
        assert forall|i: int| 0 <= i < rest.len() implies v.reaches(#[trigger] rest[i]) by {
            assert(rest[i] == cams[i]);
        }
        lemma_moves(v, rest);
        lemma_moves_keep(v, rest);
        let b = v.after_moves(rest);
        assert(v.reaches(cams[cams.len() - 1]));
        assert(b.reaches(cam));
        lemma_handover_crisp(b, cam);
        assert forall|x: int, z: int| #[trigger] v.in_rings(cam, x, z) implies v.after_moves(
            cams,
        ).covered(x, z) by {
            assert(b.in_rings(cam, x, z));
            if b.carried_out(cam) == b && b.last_center == Some(
                (b.snapped(cam.x as int) as i64, b.snapped(cam.z as int) as i64),
            ) {
                let was = rest.last();
                assert(v.reaches(cams[rest.len() - 1]));
                assert(v.snapped(was.x as int) == v.snapped(cam.x as int));
                assert(v.snapped(was.z as int) == v.snapped(cam.z as int));
                assert(v.in_rings(was, x, z));
            } else {
                lemma_rings_covered(b, cam, x, z);
            }
        }
    }
}

} // verus!
