//! The work owed for the resident world, nearest the camera first: relighting,
//! and meshing what is lit.

use crate::chunk::{Chunk, ChunkView};
use crate::coords::{ChunkPos, CHUNK_VOLUME};
use crate::light::chunk_light::{
    apply_chunk_light, face_bit, face_differs, face_value, mask_bit,
};
use crate::registry::BlockRegistry;
use crate::residency::relight::{changed_faces, is_relit, takes_over, Relit};
use crate::residency::sides::{across, neighbor};
use crate::residency::{in_world, near, stack, Residency, ResidencyView};
use crate::seqs::lemma_contains_push;
use crate::streaming::{dist, lemma_nearest_unique, near_key, nearest_first, nearest_of};
use vstd::prelude::*;

verus! {

/// How many chunks are relit between two looks at the clock.
pub const RELIGHT_SUBBATCH: usize = 32;

/// How many chunks are meshed between two looks at the clock.
pub const MESH_SUBBATCH: usize = 8;

/// How many chunks are candidates for relighting per step.
pub const RELIGHT_CANDIDATES: usize = 256;

/// How many chunks are candidates for meshing per step.
pub const MESH_CANDIDATES: usize = 64;

/// `r` lists the `n` positions of the set nearest the camera, nearest first.
pub open spec fn nearest_in(set: Set<ChunkPos>, camera: ChunkPos, n: int, r: Seq<ChunkPos>) -> bool {
    exists|s: Seq<ChunkPos>| #[trigger]
        s.no_duplicates() && s.to_set() == set && nearest_of(s, camera, n, r)
}

/// The order of work does not depend on how the set is walked: the nearest
/// positions of a set are one list.
pub proof fn lemma_nearest_in_unique(
    set: Set<ChunkPos>,
    camera: ChunkPos,
    n: int,
    r: Seq<ChunkPos>,
    s: Seq<ChunkPos>,
)
    requires
        in_world(camera),
        forall|p: ChunkPos| #[trigger] set.contains(p) ==> near(p),
        nearest_in(set, camera, n, r),
        nearest_in(set, camera, n, s),
    ensures
        r == s,
{
    broadcast use vstd::seq_lib::group_to_multiset_ensures;

    let a = choose|a: Seq<ChunkPos>| #[trigger]
        a.no_duplicates() && a.to_set() == set && nearest_of(a, camera, n, r);
    let b = choose|b: Seq<ChunkPos>| #[trigger]
        b.no_duplicates() && b.to_set() == set && nearest_of(b, camera, n, s);
    a.lemma_multiset_has_no_duplicates();
    b.lemma_multiset_has_no_duplicates();
    assert(a.to_multiset() =~= b.to_multiset()) by {
        assert forall|p: ChunkPos| #[trigger] a.to_multiset().count(p) == b.to_multiset().count(
            p,
        ) by {
            assert(a.contains(p) == set.contains(p)) by {
                assert(a.to_set().contains(p) == a.contains(p));
            }
            assert(b.contains(p) == set.contains(p)) by {
                assert(b.to_set().contains(p) == b.contains(p));
            }
            assert(a.to_multiset().count(p) > 0 <==> a.contains(p));
            assert(b.to_multiset().count(p) > 0 <==> b.contains(p));
            assert(a.to_multiset().count(p) <= 1 && b.to_multiset().count(p) <= 1) by {
                if a.contains(p) {
                    assert(a.to_multiset().contains(p));
                }
                if b.contains(p) {
                    assert(b.to_multiset().contains(p));
                }
            }
        }
    }
    lemma_kept_near(a, camera, n, r);
    lemma_kept_near(b, camera, n, s);
    lemma_nearest_unique(a, b, camera, n, r, s);
}

/// What is kept is of the set.
proof fn lemma_kept_near(a: Seq<ChunkPos>, camera: ChunkPos, n: int, r: Seq<ChunkPos>)
    requires
        in_world(camera),
        forall|p: ChunkPos| #[trigger] a.to_set().contains(p) ==> near(p),
        nearest_of(a, camera, n, r),
    ensures
        forall|i: int| 0 <= i < r.len() ==> 0 <= dist(#[trigger] r[i], camera) <= i128::MAX,
{
    broadcast use vstd::seq_lib::group_to_multiset_ensures;

    let key = |p: ChunkPos| near_key(p, camera);
    let all = a.map_values(key);
    let kept = r.map_values(key);
    assert forall|i: int| 0 <= i < r.len() implies 0 <= dist(#[trigger] r[i], camera)
        <= i128::MAX by {
        assert(kept[i] == near_key(r[i], camera));
        assert(kept.contains(kept[i]));
        assert(kept.to_multiset().count(kept[i]) > 0);
        assert(all.to_multiset().count(kept[i]) > 0);
        assert(all.contains(kept[i]));
        let j = all.index_of(kept[i]);
        assert(all[j] == near_key(a[j], camera));
        assert(a.contains(a[j]));
        assert(a.to_set().contains(a[j]));
        assert(a[j] == r[i]);
        lemma_near_dist(r[i], camera);
    }
}

/// The resident chunks across the faces of a mask: light crosses faces.
pub open spec fn lit_by_faces(chunks: Map<ChunkPos, Chunk>, pos: ChunkPos, mask: int) -> Set<
    ChunkPos,
> {
    Set::new(
        |p: ChunkPos|
            chunks.dom().contains(p) && exists|f: int|
                0 <= f < 6 && mask_bit(mask, f) && p == #[trigger] across(pos, f),
    )
}

/// The chunk shares an edge with a face of the mask.
pub open spec fn at_edge(pos: ChunkPos, mask: int, p: ChunkPos) -> bool {
    exists|f: int, g: int|
        0 <= f < 6 && 0 <= g < 6 && f / 2 != g / 2 && mask_bit(mask, f) && p == #[trigger] across(
            across(pos, f),
            g,
        )
}

/// The resident chunks whose mesh shows the faces of a mask: those across them,
/// and, since smooth lighting samples diagonally, those that share an edge with
/// them.
pub open spec fn shown_by_faces(chunks: Map<ChunkPos, Chunk>, pos: ChunkPos, mask: int) -> Set<
    ChunkPos,
> {
    Set::new(
        |p: ChunkPos|
            lit_by_faces(chunks, pos, mask).contains(p) || (chunks.dom().contains(p) && at_edge(
                pos,
                mask,
                p,
            )),
    )
}

impl ResidencyView {
    /// After a relit chunk was taken over: the chunk shows its new light, it is
    /// meshed again if any of it changed, and the chunks that the changed faces
    /// touch are relit or meshed again.
    pub open spec fn relit_step(self, job: Relit, chunks: Map<ChunkPos, Chunk>) -> Self {
        ResidencyView {
            chunks,
            dirty: (if job.interior_changed {
                self.dirty.insert(job.pos)
            } else {
                self.dirty
            }).union(shown_by_faces(self.chunks, job.pos, job.border_faces as int)),
            relight: self.relight.union(
                lit_by_faces(self.chunks, job.pos, job.border_faces as int),
            ),
            ..self
        }
    }

    /// After a batch was taken off the relighting queue.
    pub open spec fn relight_start(self, batch: Seq<ChunkPos>) -> Self {
        ResidencyView { relight: self.relight.difference(batch.to_set()), ..self }
    }

    /// After a batch was taken off the meshing queue: its chunks have had their
    /// first mesh.
    pub open spec fn mesh_start(self, batch: Seq<ChunkPos>) -> Self {
        ResidencyView {
            dirty: self.dirty.difference(batch.to_set()),
            meshed: self.meshed.union(batch.to_set()),
            ..self
        }
    }
}

/// An answer to where the surface is under which the chunk is still to come.
pub open spec fn may_come<F: Fn(i64, i64) -> (i64, i64)>(
    v: ResidencyView,
    surface_span: F,
    p: ChunkPos,
    camera: ChunkPos,
) -> bool {
    exists|span: (i64, i64)| #[trigger]
        call_ensures(surface_span, (p.x, p.z), span) && v.streamer.wants(p, camera, span)
}

/// An answer to where the surface is under which the chunk never comes.
pub open spec fn may_stay_away<F: Fn(i64, i64) -> (i64, i64)>(
    v: ResidencyView,
    surface_span: F,
    p: ChunkPos,
    camera: ChunkPos,
) -> bool {
    exists|span: (i64, i64)| #[trigger]
        call_ensures(surface_span, (p.x, p.z), span) && !v.streamer.wants(p, camera, span)
}

/// A first mesh waits for every neighbour that is absent and still to come; a
/// chunk that was meshed waits for none.
pub open spec fn is_ready<F: Fn(i64, i64) -> (i64, i64)>(
    v: ResidencyView,
    surface_span: F,
    p: ChunkPos,
    camera: ChunkPos,
) -> bool {
    v.meshed.contains(p) || forall|f: int|
        0 <= f < 6 ==> v.chunks.dom().contains(#[trigger] across(p, f)) || may_stay_away(
            v,
            surface_span,
            across(p, f),
            camera,
        )
}

/// A neighbour is absent and still to come.
pub open spec fn is_waiting<F: Fn(i64, i64) -> (i64, i64)>(
    v: ResidencyView,
    surface_span: F,
    p: ChunkPos,
    camera: ChunkPos,
) -> bool {
    !v.meshed.contains(p) && exists|f: int|
        0 <= f < 6 && !v.chunks.dom().contains(#[trigger] across(p, f)) && may_come(
            v,
            surface_span,
            across(p, f),
            camera,
        )
}

/// A face is sealed if its neighbour is absent and never comes.
pub open spec fn is_seal<F: Fn(i64, i64) -> (i64, i64)>(
    v: ResidencyView,
    surface_span: F,
    p: ChunkPos,
    camera: ChunkPos,
    face: int,
    sealed: bool,
) -> bool {
    if sealed {
        !v.chunks.dom().contains(across(p, face)) && may_stay_away(
            v,
            surface_span,
            across(p, face),
            camera,
        )
    } else {
        v.chunks.dom().contains(across(p, face)) || may_come(
            v,
            surface_span,
            across(p, face),
            camera,
        )
    }
}

/// A chunk ready for its first mesh has at every face a resident neighbour or
/// a seal: none opens onto a gap that will be filled.
pub proof fn lemma_ready_or_sealed<F: Fn(i64, i64) -> (i64, i64)>(
    v: ResidencyView,
    surface_span: F,
    p: ChunkPos,
    camera: ChunkPos,
    face: int,
    sealed: bool,
)
    requires
        0 <= face < 6,
        forall|c: (i64, i64), s: (i64, i64), t: (i64, i64)| #[trigger]
            call_ensures(surface_span, c, s) && #[trigger] call_ensures(surface_span, c, t) ==> s
                == t,
        !v.meshed.contains(p),
        is_ready(v, surface_span, p, camera),
        is_seal(v, surface_span, p, camera, face, sealed),
    ensures
        v.chunks.dom().contains(across(p, face)) != sealed,
{
    let n = across(p, face);
    if !v.chunks.dom().contains(n) && !sealed {
        let s = choose|s: (i64, i64)| #[trigger]
            call_ensures(surface_span, (n.x, n.z), s) && v.streamer.wants(n, camera, s);
        let t = choose|t: (i64, i64)| #[trigger]
            call_ensures(surface_span, (n.x, n.z), t) && !v.streamer.wants(n, camera, t);
        assert(s == t);
    }
}

/// With one answer per column, a chunk is ready or waiting and never both.
pub proof fn lemma_ready_xor_waiting<F: Fn(i64, i64) -> (i64, i64)>(
    v: ResidencyView,
    surface_span: F,
    p: ChunkPos,
    camera: ChunkPos,
)
    requires
        forall|c: (i64, i64), s: (i64, i64), t: (i64, i64)| #[trigger]
            call_ensures(surface_span, c, s) && #[trigger] call_ensures(surface_span, c, t) ==> s
                == t,
    ensures
        !(is_ready(v, surface_span, p, camera) && is_waiting(v, surface_span, p, camera)),
{
    if is_ready(v, surface_span, p, camera) && is_waiting(v, surface_span, p, camera) {
        let f = choose|f: int|
            0 <= f < 6 && !v.chunks.dom().contains(#[trigger] across(p, f)) && may_come(
                v,
                surface_span,
                across(p, f),
                camera,
            );
        lemma_ready_or_sealed(v, surface_span, p, camera, f, false);
    }
}

/// No first mesh waits forever: once every chunk that the streamer
/// wants is resident, no chunk waits.
pub proof fn lemma_first_mesh_comes<F: Fn(i64, i64) -> (i64, i64)>(
    v: ResidencyView,
    surface_span: F,
    p: ChunkPos,
    camera: ChunkPos,
)
    requires
        forall|n: ChunkPos, span: (i64, i64)| #[trigger]
            call_ensures(surface_span, (n.x, n.z), span) && #[trigger] v.streamer.wants(
                n,
                camera,
                span,
            ) ==> v.chunks.dom().contains(n),
    ensures
        !is_waiting(v, surface_span, p, camera),
{
    if is_waiting(v, surface_span, p, camera) {
        let f = choose|f: int|
            0 <= f < 6 && !v.chunks.dom().contains(#[trigger] across(p, f)) && may_come(
                v,
                surface_span,
                across(p, f),
                camera,
            );
        let n = across(p, f);
        let span = choose|span: (i64, i64)| #[trigger]
            call_ensures(surface_span, (n.x, n.z), span) && v.streamer.wants(n, camera, span);
        assert(v.streamer.wants(n, camera, span));
    }
}

/// A bit of the mask of changed faces says that its face changed.
proof fn lemma_changed_bit(c: ChunkView, light: Seq<u8>, f: int)
    requires
        0 <= f < 6,
    ensures
        mask_bit(changed_faces(c, light), f) == face_differs(c, light, f),
{
}

/// No border goes stale: where a chunk's light on a face changed, the resident
/// chunk across it is relit and meshed again, and the resident chunks at its
/// edges are meshed again.
pub proof fn lemma_border_change_spreads(
    v: ResidencyView,
    registry: BlockRegistry,
    job: Relit,
    chunks: Map<ChunkPos, Chunk>,
    f: int,
    g: int,
)
    requires
        is_relit(v.chunks, registry, v.heights, job),
        0 <= f < 6,
        0 <= g < 6,
        f / 2 != g / 2,
        face_differs(v.chunks[job.pos]@, job.light@, f),
    ensures
        ({
            let after = v.relit_step(job, chunks);
            let n = across(job.pos, f);
            let e = across(n, g);
            &&& v.chunks.dom().contains(n) ==> after.relight.contains(n) && after.dirty.contains(n)
            &&& v.chunks.dom().contains(e) ==> after.dirty.contains(e)
        }),
{
    lemma_changed_bit(v.chunks[job.pos]@, job.light@, f);
    let mask = job.border_faces as int;
    assert(mask_bit(mask, f));
    let n = across(job.pos, f);
    let e = across(n, g);
    if v.chunks.dom().contains(n) {
        assert(lit_by_faces(v.chunks, job.pos, mask).contains(n));
    }
    if v.chunks.dom().contains(e) {
        assert(at_edge(job.pos, mask, e));
        assert(shown_by_faces(v.chunks, job.pos, mask).contains(e));
    }
}

pub(crate) proof fn lemma_near_dist(p: ChunkPos, camera: ChunkPos)
    requires
        near(p),
        in_world(camera),
    ensures
        0 <= dist(p, camera) <= i128::MAX,
{
    let dx = p.x - camera.x;
    let dy = p.y - camera.y;
    let dz = p.z - camera.z;
    assert(0 <= dx * dx <= 0x2000_0000_0000_0000 * 0x2000_0000_0000_0000) by (nonlinear_arith)
        requires
            -0x2000_0000_0000_0000 <= dx <= 0x2000_0000_0000_0000,
    ;
    assert(0 <= dy * dy <= 0x2000_0000_0000_0000 * 0x2000_0000_0000_0000) by (nonlinear_arith)
        requires
            -0x2000_0000_0000_0000 <= dy <= 0x2000_0000_0000_0000,
    ;
    assert(0 <= dz * dz <= 0x2000_0000_0000_0000 * 0x2000_0000_0000_0000) by (nonlinear_arith)
        requires
            -0x2000_0000_0000_0000 <= dz <= 0x2000_0000_0000_0000,
    ;
}

/// The candidates for meshing: dirty, not waiting to be relit, and ready.
pub open spec fn is_mesh_queue<F: Fn(i64, i64) -> (i64, i64)>(
    v: ResidencyView,
    surface_span: F,
    camera: ChunkPos,
    queue: Set<ChunkPos>,
) -> bool {
    &&& forall|p: ChunkPos| #[trigger]
        queue.contains(p) ==> v.dirty.contains(p) && !v.relight.contains(p) && is_ready(
            v,
            surface_span,
            p,
            camera,
        )
    &&& forall|p: ChunkPos| #[trigger]
        v.dirty.contains(p) && !v.relight.contains(p) && !queue.contains(p) ==> is_waiting(
            v,
            surface_span,
            p,
            camera,
        )
}

/// `r` lists the candidates for meshing nearest the camera, nearest first.
pub open spec fn is_mesh_list<F: Fn(i64, i64) -> (i64, i64)>(
    v: ResidencyView,
    surface_span: F,
    camera: ChunkPos,
    r: Seq<ChunkPos>,
) -> bool {
    exists|queue: Set<ChunkPos>| #[trigger]
        is_mesh_queue(v, surface_span, camera, queue) && nearest_in(
            queue,
            camera,
            MESH_CANDIDATES as int,
            r,
        )
}

impl Residency {
    /// The chunks to relight in this step, nearest the camera first.
    pub fn relight_candidates(&self, camera: ChunkPos) -> (r: Vec<ChunkPos>)
        requires
            self.wf(),
            in_world(camera),
        ensures
            nearest_in(self@.relight, camera, RELIGHT_CANDIDATES as int, r@),
    {
        let all = self.relight.list();
        proof {
            assert forall|i: int| 0 <= i < all.len() implies dist(#[trigger] all[i], camera)
                <= i128::MAX by {
                assert(all@.contains(all[i]));
                assert(self@.relight.contains(all[i]));
                lemma_near_dist(all[i], camera);
            }
        }
        nearest_first(&all, camera, RELIGHT_CANDIDATES)
    }

    /// Take a batch off the relighting queue.
    pub fn start_relight(&mut self, batch: &[ChunkPos])
        requires
            old(self).wf(),
        ensures
            final(self).wf(),
            final(self).blocks() == old(self).blocks(),
            final(self)@ == old(self)@.relight_start(batch@),
    {
        let ghost before = self@;
        let mut i: usize = 0;
        assert(before.relight.difference(batch@.take(0).to_set()) =~= before.relight);
        while i < batch.len()
            invariant
                i <= batch.len(),
                self.parts_wf(),
                self.blocks() == old(self).blocks(),
                self@ == before.relight_start(batch@.take(i as int)),
            decreases batch.len() - i,
        {
            let p = batch[i];
            self.relight.remove(p);
            proof {
                assert(batch@.take(i + 1) =~= batch@.take(i as int).push(p));
                lemma_contains_push(batch@.take(i as int), p);
                assert(self@ =~= before.relight_start(batch@.take(i + 1)));
            }
            i += 1;
        }
        assert(batch@.take(i as int) =~= batch@);
        assert(self@.counted() == before.counted());
    }

    /// Take over a relit chunk. Its light is stored if any of it changed, and
    /// it is meshed again. Across each face whose light changed the neighbour
    /// is relit and meshed again; the chunks that share an edge with such a
    /// face are meshed again. Chunks that are not resident are left out.
    pub fn apply_relit(&mut self, job: &Relit)
        requires
            old(self).wf(),
            in_world(job.pos),
            job.light.len() == CHUNK_VOLUME,
        ensures
            final(self).wf(),
            final(self).blocks() == old(self).blocks(),
            final(self)@ == old(self)@.relit_step(*job, final(self)@.chunks),
            if old(self)@.chunks.dom().contains(job.pos) {
                takes_over(old(self)@.chunks, final(self)@.chunks, *job)
            } else {
                final(self)@.chunks == old(self)@.chunks
            },
    {
        let pos = job.pos;
        let ghost before = self@;
        if job.interior_changed {
            if let Some(chunk) = self.world.chunk_mut(pos) {
                apply_chunk_light(chunk, &job.light);
            }
            self.dirty.insert(pos);
        }
        let ghost mid = self@;
        proof {
            assert(mid.chunks.dom() =~= before.chunks.dom());
            assert forall|col: (i64, i64)| #[trigger]
                mid.heights.residents.dom().contains(col) implies mid.heights.residents[col]
                <= stack(mid.chunks, col.0, col.1).len() by {
                assert(before.heights.residents.dom().contains(col));
                assert(stack(mid.chunks, col.0, col.1) =~= stack(before.chunks, col.0, col.1));
            }
            assert(mid.chunks.dom().finite());
            assert(mid.counted());
            assert forall|p: ChunkPos| #[trigger] mid.chunks.dom().contains(p) implies in_world(
                p,
            ) by {
                assert(before.chunks.dom().contains(p));
            }
            assert forall|p: ChunkPos| #[trigger] mid.dirty.contains(p) implies near(p) by {
                assert(p == pos || before.dirty.contains(p));
            }
            assert(mid.relight == before.relight);
            assert(mid.valid());
        }
        let ghost mask = job.border_faces as int;
        let ghost lit = |n: int| Set::new(
            |p: ChunkPos|
                before.chunks.dom().contains(p) && exists|f: int|
                    0 <= f < n && mask_bit(mask, f) && p == #[trigger] across(pos, f),
        );
        let ghost edge = |n: int| Set::new(
            |p: ChunkPos|
                before.chunks.dom().contains(p) && exists|f: int, g: int|
                    0 <= f < n && 0 <= g < 6 && f / 2 != g / 2 && mask_bit(mask, f) && p
                        == #[trigger] across(across(pos, f), g),
        );
        proof {
            assert(mid.relight.union(lit(0)) =~= mid.relight);
            assert(mid.dirty.union(lit(0)).union(edge(0)) =~= mid.dirty);
        }
        let mut face: usize = 0;
        while face < 6
            invariant
                face <= 6,
                in_world(pos),
                mask == job.border_faces as int,
                self.parts_wf(),
                mid.valid(),
                mid.chunks.dom() == before.chunks.dom(),
                self.blocks() == old(self).blocks(),
                lit == (|n: int|
                    Set::new(
                        |p: ChunkPos|
                            before.chunks.dom().contains(p) && exists|f: int|
                                0 <= f < n && mask_bit(mask, f) && p == #[trigger] across(pos, f),
                    )),
                edge == (|n: int|
                    Set::new(
                        |p: ChunkPos|
                            before.chunks.dom().contains(p) && exists|f: int, g: int|
                                0 <= f < n && 0 <= g < 6 && f / 2 != g / 2 && mask_bit(mask, f) && p
                                    == #[trigger] across(across(pos, f), g),
                    )),
                self@ == (ResidencyView {
                    dirty: mid.dirty.union(lit(face as int)).union(edge(face as int)),
                    relight: mid.relight.union(lit(face as int)),
                    ..mid
                }),
            decreases 6 - face,
        {
            let ghost now = self@;
            if face_bit(job.border_faces, face) {
                let n = neighbor(pos, face);
                if self.world.chunk(n).is_some() {
                    self.relight.insert(n);
                    self.dirty.insert(n);
                }
                let ghost part = self@;
                let ghost around = |k: int| Set::new(
                    |p: ChunkPos|
                        before.chunks.dom().contains(p) && exists|g: int|
                            0 <= g < k && g / 2 != face as int / 2 && p == #[trigger] across(n, g),
                );
                assert(part.dirty.union(around(0)) =~= part.dirty);
                let mut side: usize = 0;
                while side < 6
                    invariant
                        side <= 6,
                        face < 6,
                        in_world(pos),
                        n == across(pos, face as int),
                        self.parts_wf(),
                        part.chunks.dom() == before.chunks.dom(),
                        self.blocks() == old(self).blocks(),
                        around == (|k: int|
                            Set::new(
                                |p: ChunkPos|
                                    before.chunks.dom().contains(p) && exists|g: int|
                                        0 <= g < k && g / 2 != face as int / 2 && p
                                            == #[trigger] across(n, g),
                            )),
                        self@ == (ResidencyView {
                            dirty: part.dirty.union(around(side as int)),
                            ..part
                        }),
                    decreases 6 - side,
                {
                    let ghost had = self@.dirty;
                    if side / 2 != face / 2 {
                        let e = neighbor(n, side);
                        if self.world.chunk(e).is_some() {
                            self.dirty.insert(e);
                        }
                    }
                    assert(self@.dirty =~= part.dirty.union(around(side + 1))) by {
                        let e = across(n, side as int);
                        assert forall|p: ChunkPos| #[trigger]
                            around(side + 1).contains(p) == (around(side as int).contains(p) || (
                            before.chunks.dom().contains(p) && side as int / 2 != face as int / 2
                                && p == e)) by {
                            if around(side as int).contains(p) {
                                let g = choose|g: int|
                                    0 <= g < side && g / 2 != face as int / 2 && p
                                        == #[trigger] across(n, g);
                                assert(0 <= g < side + 1 && p == across(n, g));
                            }
                        }
                        assert forall|p: ChunkPos| #[trigger]
                            self@.dirty.contains(p) == part.dirty.union(around(side + 1)).contains(
                                p,
                            ) by {
                            assert(around(side + 1).contains(p) == (around(side as int).contains(p)
                                || (before.chunks.dom().contains(p) && side as int / 2
                                != face as int / 2 && p == e)));
                        }
                    }
                    side += 1;
                }
                proof {
                    assert forall|p: ChunkPos| #[trigger]
                        edge(face + 1).contains(p) == (edge(face as int).contains(p) || around(
                            6,
                        ).contains(p)) by {
                        if edge(face as int).contains(p) {
                            let (f, g) = choose|f: int, g: int|
                                0 <= f < face && 0 <= g < 6 && f / 2 != g / 2 && mask_bit(mask, f)
                                    && p == #[trigger] across(across(pos, f), g);
                            assert(0 <= f < face + 1 && p == across(across(pos, f), g));
                        }
                        if edge(face + 1).contains(p) && !edge(face as int).contains(p) {
                            let (f, g) = choose|f: int, g: int|
                                0 <= f < face + 1 && 0 <= g < 6 && f / 2 != g / 2 && mask_bit(
                                    mask,
                                    f,
                                ) && p == #[trigger] across(across(pos, f), g);
                            assert(f == face);
                            assert(p == across(n, g));
                        }
                        if around(6).contains(p) {
                            let g = choose|g: int|
                                0 <= g < 6 && g / 2 != face as int / 2 && p == #[trigger] across(
                                    n,
                                    g,
                                );
                            assert(p == across(across(pos, face as int), g));
                        }
                    }
                    lemma_next_face(before.chunks, pos, mask, face as int, true, lit);
                    assert(self@.relight =~= mid.relight.union(lit(face + 1)));
                    assert(self@.dirty =~= mid.dirty.union(lit(face + 1)).union(edge(face + 1))) by {
                        assert forall|p: ChunkPos| #[trigger]
                            self@.dirty.contains(p) == mid.dirty.union(lit(face + 1)).union(
                                edge(face + 1),
                            ).contains(p) by {
                            assert(edge(face + 1).contains(p) == (edge(face as int).contains(p)
                                || around(6).contains(p)));
                        }
                    }
                }
            } else {
                proof {
                    lemma_next_face(before.chunks, pos, mask, face as int, false, lit);
                    assert(lit(face + 1) =~= lit(face as int));
                    assert(edge(face + 1) =~= edge(face as int)) by {
                        assert forall|p: ChunkPos| #[trigger]
                            edge(face + 1).contains(p) == edge(face as int).contains(p) by {
                            if edge(face as int).contains(p) {
                                let (f, g) = choose|f: int, g: int|
                                    0 <= f < face && 0 <= g < 6 && f / 2 != g / 2 && mask_bit(
                                        mask,
                                        f,
                                    ) && p == #[trigger] across(across(pos, f), g);
                                assert(0 <= f < face + 1 && p == across(across(pos, f), g));
                            }
                        }
                    }
                }
            }
            face += 1;
        }
        proof {
            assert(lit(6) =~= lit_by_faces(before.chunks, pos, mask));
            assert(lit(6).union(edge(6)) =~= shown_by_faces(before.chunks, pos, mask)) by {
                assert forall|p: ChunkPos| #[trigger]
                    lit(6).union(edge(6)).contains(p) == shown_by_faces(
                        before.chunks,
                        pos,
                        mask,
                    ).contains(p) by {
                    assert(edge(6).contains(p) == (before.chunks.dom().contains(p) && at_edge(
                        pos,
                        mask,
                        p,
                    )));
                }
            }
            assert(self@ =~= before.relit_step(*job, self@.chunks));
            assert(self@.counted() == mid.counted());
        }
    }

    /// Is this chunk ready for its first mesh? Meshing before the neighbours
    /// exist bakes in border faces against air that is not there and light that
    /// could not yet cross the seams.
    pub fn ready_for_first_mesh<F: Fn(i64, i64) -> (i64, i64)>(
        &self,
        p: ChunkPos,
        camera: ChunkPos,
        surface_span: &F,
    ) -> (r: bool)
        requires
            self.wf(),
            near(p),
            forall|x: i64, z: i64| #[trigger] call_requires(surface_span, (x, z)),
        ensures
            r ==> is_ready(self@, *surface_span, p, camera),
            !r ==> is_waiting(self@, *surface_span, p, camera),
    {
        if self.meshed_once.contains(p) {
            return true;
        }
        let mut face: usize = 0;
        while face < 6
            invariant
                face <= 6,
                self.wf(),
                near(p),
                forall|x: i64, z: i64| #[trigger] call_requires(surface_span, (x, z)),
                !self@.meshed.contains(p),
                forall|f: int|
                    0 <= f < face ==> self@.chunks.dom().contains(#[trigger] across(p, f))
                        || may_stay_away(self@, *surface_span, across(p, f), camera),
            decreases 6 - face,
        {
            let n = neighbor(p, face);
            if self.world.chunk(n).is_none() && self.neighbor_coming(n, camera, surface_span) {
                return false;
            }
            face += 1;
        }
        true
    }

    /// Will this absent chunk arrive while the camera stays where it is? The
    /// first-mesh gate and the sealing of faces both ask here.
    pub fn neighbor_coming<F: Fn(i64, i64) -> (i64, i64)>(
        &self,
        n: ChunkPos,
        camera: ChunkPos,
        surface_span: &F,
    ) -> (r: bool)
        requires
            forall|x: i64, z: i64| #[trigger] call_requires(surface_span, (x, z)),
        ensures
            r ==> may_come(self@, *surface_span, n, camera),
            !r ==> may_stay_away(self@, *surface_span, n, camera),
    {
        let span = surface_span(n.x, n.z);
        self.streamer.wants(n, camera, span)
    }

    /// The faces to seal for meshing: bit `f` set where the neighbour across
    /// face `f` is absent and not coming.
    #[verifier::rlimit(30)]
    pub fn sealed_faces<F: Fn(i64, i64) -> (i64, i64)>(
        &self,
        p: ChunkPos,
        camera: ChunkPos,
        surface_span: &F,
    ) -> (r: u8)
        requires
            self.wf(),
            near(p),
            forall|x: i64, z: i64| #[trigger] call_requires(surface_span, (x, z)),
        ensures
            r < 64,
            forall|f: int|
                0 <= f < 6 ==> is_seal(
                    self@,
                    *surface_span,
                    p,
                    camera,
                    f,
                    #[trigger] mask_bit(r as int, f),
                ),
    {
        let mut sealed: u8 = 0;
        let mut weight: u8 = 1;
        let mut face: usize = 0;
        while face < 6
            invariant
                face <= 6,
                self.wf(),
                near(p),
                forall|x: i64, z: i64| #[trigger] call_requires(surface_span, (x, z)),
                face < 6 ==> weight == face_value(face as int),
                sealed < (if face < 6 {
                    face_value(face as int)
                } else {
                    64
                }),
                forall|f: int|
                    0 <= f < face ==> is_seal(
                        self@,
                        *surface_span,
                        p,
                        camera,
                        f,
                        #[trigger] mask_bit(sealed as int, f),
                    ),
            decreases 6 - face,
        {
            let ghost old_mask = sealed as int;
            let n = neighbor(p, face);
            if self.world.chunk(n).is_none() && !self.neighbor_coming(n, camera, surface_span) {
                sealed = sealed + weight;
            }
            proof {
                assert forall|f: int| 0 <= f < face implies mask_bit(old_mask, f) == #[trigger] mask_bit(
                    sealed as int,
                    f,
                ) by {}
                assert(mask_bit(sealed as int, face as int) == (sealed as int != old_mask));
            }
            if face < 5 {
                weight = weight * 2;
            }
            face += 1;
        }
        sealed
    }

    /// The chunks to mesh in this step, nearest the camera first. Chunks still
    /// to be relit wait, so that each is meshed once, lit; so do chunks whose
    /// neighbourhood is still to come.
    pub fn mesh_candidates<F: Fn(i64, i64) -> (i64, i64)>(
        &self,
        camera: ChunkPos,
        surface_span: &F,
    ) -> (r: Vec<ChunkPos>)
        requires
            self.wf(),
            in_world(camera),
            forall|x: i64, z: i64| #[trigger] call_requires(surface_span, (x, z)),
        ensures
            is_mesh_list(self@, *surface_span, camera, r@),
    {
        let all = self.dirty.list();
        let mut queue: Vec<ChunkPos> = Vec::new();
        let mut i: usize = 0;
        assert(all@.take(0) =~= Seq::empty());
        while i < all.len()
            invariant
                i <= all.len(),
                self.wf(),
                all@.no_duplicates(),
                forall|p: ChunkPos| #[trigger] all@.contains(p) <==> self@.dirty.contains(p),
                forall|x: i64, z: i64| #[trigger] call_requires(surface_span, (x, z)),
                queue@.no_duplicates(),
                forall|p: ChunkPos| #[trigger]
                    queue@.contains(p) ==> all@.take(i as int).contains(p) && self@.dirty.contains(
                        p,
                    ) && !self@.relight.contains(p) && is_ready(self@, *surface_span, p, camera),
                forall|p: ChunkPos| #[trigger]
                    all@.take(i as int).contains(p) && !self@.relight.contains(p)
                        && !queue@.contains(p) ==> is_waiting(self@, *surface_span, p, camera),
            decreases all.len() - i,
        {
            let p = all[i];
            proof {
                assert(all@.contains(p));
                assert(all@.take(i + 1) =~= all@.take(i as int).push(p));
                lemma_contains_push(all@.take(i as int), p);
                lemma_contains_push(queue@, p);
                assert(!all@.take(i as int).contains(p)) by {
                    if all@.take(i as int).contains(p) {
                        let j = all@.take(i as int).index_of(p);
                        assert(all@[j] == all@[i as int]);
                    }
                }
                assert(!queue@.contains(p));
                assert forall|j: int| 0 <= j < queue.len() implies #[trigger] queue@[j] != p by {
                    assert(queue@.contains(queue@[j]));
                }
            }
            if !self.relight.contains(p) && self.ready_for_first_mesh(p, camera, surface_span) {
                queue.push(p);
            }
            i += 1;
        }
        proof {
            assert(all@.take(i as int) =~= all@);
            assert(is_mesh_queue(self@, *surface_span, camera, queue@.to_set())) by {
                assert forall|p: ChunkPos| #[trigger]
                    queue@.to_set().contains(p) == queue@.contains(p) by {}
                assert forall|p: ChunkPos| #[trigger]
                    self@.dirty.contains(p) && !self@.relight.contains(p)
                        && !queue@.to_set().contains(p) implies is_waiting(
                    self@,
                    *surface_span,
                    p,
                    camera,
                ) by {
                    assert(all@.contains(p));
                }
            }
            assert forall|i: int| 0 <= i < queue.len() implies dist(#[trigger] queue[i], camera)
                <= i128::MAX by {
                assert(queue@.contains(queue[i]));
                lemma_near_dist(queue[i], camera);
            }
        }
        let r = nearest_first(&queue, camera, MESH_CANDIDATES);
        proof {
            assert(queue@.no_duplicates() && nearest_in(
                queue@.to_set(),
                camera,
                MESH_CANDIDATES as int,
                r@,
            ));
        }
        r
    }

    /// Take a batch off the meshing queue.
    pub fn start_mesh(&mut self, batch: &[ChunkPos])
        requires
            old(self).wf(),
        ensures
            final(self).wf(),
            final(self).blocks() == old(self).blocks(),
            final(self)@ == old(self)@.mesh_start(batch@),
    {
        let ghost before = self@;
        let mut i: usize = 0;
        assert(before.mesh_start(batch@.take(0)) =~= before);
        while i < batch.len()
            invariant
                i <= batch.len(),
                self.parts_wf(),
                self.blocks() == old(self).blocks(),
                self@ == before.mesh_start(batch@.take(i as int)),
            decreases batch.len() - i,
        {
            let p = batch[i];
            self.dirty.remove(p);
            self.meshed_once.insert(p);
            proof {
                assert(batch@.take(i + 1) =~= batch@.take(i as int).push(p));
                lemma_contains_push(batch@.take(i as int), p);
                assert(self@ =~= before.mesh_start(batch@.take(i + 1)));
            }
            i += 1;
        }
        assert(batch@.take(i as int) =~= batch@);
        assert(self@.counted() == before.counted());
    }
}

proof fn lemma_next_face(
    chunks: Map<ChunkPos, Chunk>,
    pos: ChunkPos,
    mask: int,
    face: int,
    set: bool,
    lit: spec_fn(int) -> Set<ChunkPos>,
)
    requires
        0 <= face < 6,
        set == mask_bit(mask, face),
        lit == (|n: int|
            Set::new(
                |p: ChunkPos|
                    chunks.dom().contains(p) && exists|f: int|
                        0 <= f < n && mask_bit(mask, f) && p == #[trigger] across(pos, f),
            )),
    ensures
        lit(face + 1) == (if set && chunks.dom().contains(across(pos, face)) {
            lit(face).insert(across(pos, face))
        } else {
            lit(face)
        }),
{
    let next = if set && chunks.dom().contains(across(pos, face)) {
        lit(face).insert(across(pos, face))
    } else {
        lit(face)
    };
    assert forall|p: ChunkPos| #[trigger] lit(face + 1).contains(p) == next.contains(p) by {
        if lit(face).contains(p) {
            let f = choose|f: int|
                0 <= f < face && mask_bit(mask, f) && p == #[trigger] across(pos, f);
            assert(0 <= f < face + 1 && p == across(pos, f));
        }
    }
    assert(lit(face + 1) =~= next);
}

} // verus!
