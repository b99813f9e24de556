//! Chunks coming and going.

use crate::chunk::Chunk;
use crate::coords::ChunkPos;
use crate::posset::ChunkSet;
use crate::residency::sides::{across, neighbor, with_sides};
use crate::residency::{in_world, stack, Residency, ResidencyView};
use crate::seqs::lemma_contains_push;
use crate::streaming::{is_update, may_ask, spans_given, Spans, StreamUpdate, StreamerView};
use crate::world::World;
use vstd::prelude::*;

verus! {

/// How many chunks may start being generated or read per step.
pub const GEN_SPAWN_BUDGET: usize = 64;

/// The chunk's blocks all have coordinates.
pub fn is_in_world(pos: ChunkPos) -> (r: bool)
    ensures
        r == in_world(pos),
{
    let least: i64 = -0x400_0000_0000_0000;
    let most: i64 = 0x3ff_ffff_ffff_ffff;
    least <= pos.x && pos.x <= most && least <= pos.y && pos.y <= most && least <= pos.z && pos.z
        <= most
}

impl ResidencyView {
    /// After chunks were dropped one after the other.
    pub open spec fn unload_steps(self, gone: Seq<ChunkPos>) -> Self
        decreases gone.len(),
    {
        if gone.len() == 0 {
            self
        } else {
            self.unload_steps(gone.drop_last()).unload_step(gone.last())
        }
    }

    /// After the surroundings of dropped chunks were marked for meshing.
    pub open spec fn expose_steps(self, gone: Seq<ChunkPos>) -> Self
        decreases gone.len(),
    {
        if gone.len() == 0 {
            self
        } else {
            self.expose_steps(gone.drop_last()).expose_step(gone.last())
        }
    }

    /// What must be saved of chunks dropped one after the other: those that
    /// were modified.
    pub open spec fn saves(self, gone: Seq<ChunkPos>) -> Seq<(ChunkPos, Chunk)>
        decreases gone.len(),
    {
        if gone.len() == 0 {
            Seq::empty()
        } else {
            let rest = gone.drop_last();
            let p = gone.last();
            let before = self.unload_steps(rest).chunks;
            if before.dom().contains(p) && before[p]@.modified {
                self.saves(rest).push((p, before[p]))
            } else {
                self.saves(rest)
            }
        }
    }

    /// The chunks to start on: in the order given, those neither in flight nor
    /// loaded, as many as the budget allows.
    pub open spec fn spawns(self, wanted: Seq<ChunkPos>, budget: int) -> Seq<ChunkPos>
        decreases wanted.len(),
    {
        if wanted.len() == 0 {
            Seq::empty()
        } else {
            let before = self.spawns(wanted.drop_last(), budget);
            let p = wanted.last();
            if before.len() >= budget || self.in_flight.contains(p) || self.streamer.loaded.contains(
                p,
            ) || before.contains(p) {
                before
            } else {
                before.push(p)
            }
        }
    }
}

/// What may be started is within the budget, listed once, and neither in
/// flight nor loaded.
pub proof fn lemma_spawns(v: ResidencyView, wanted: Seq<ChunkPos>, budget: int)
    requires
        budget >= 0,
    ensures
        v.spawns(wanted, budget).len() <= budget,
        v.spawns(wanted, budget).no_duplicates(),
        forall|p: ChunkPos| #[trigger]
            v.spawns(wanted, budget).contains(p) ==> wanted.contains(p) && !v.in_flight.contains(p)
                && !v.streamer.loaded.contains(p),
        v.spawns(wanted, budget).len() < budget ==> forall|p: ChunkPos| #[trigger]
            wanted.contains(p) && !v.in_flight.contains(p) && !v.streamer.loaded.contains(p)
                ==> v.spawns(wanted, budget).contains(p),
    decreases wanted.len(),
{
    let r = v.spawns(wanted, budget);
    if wanted.len() > 0 {
        let rest = wanted.drop_last();
        let last = wanted.last();
        let before = v.spawns(rest, budget);
        lemma_spawns(v, rest, budget);
        assert forall|p: ChunkPos| #[trigger] r.contains(p) implies wanted.contains(p)
            && !v.in_flight.contains(p) && !v.streamer.loaded.contains(p) by {
            let i = r.index_of(p);
            if i < before.len() {
                assert(before[i] == p);
                assert(before.contains(p));
                let j = rest.index_of(p);
                assert(wanted[j] == p);
            } else {
                assert(wanted[wanted.len() - 1] == p);
            }
        }
        if r.len() < budget {
            assert forall|p: ChunkPos| #[trigger]
                wanted.contains(p) && !v.in_flight.contains(p) && !v.streamer.loaded.contains(
                    p,
                ) implies r.contains(p) by {
                let i = wanted.index_of(p);
                if i < rest.len() {
                    assert(rest[i] == p);
                    assert(rest.contains(p));
                    assert(before.contains(p));
                    let j = before.index_of(p);
                    assert(r[j] == p);
                } else if !before.contains(p) {
                    assert(r[r.len() - 1] == p);
                }
            }
        }
    }
}

proof fn lemma_unload_steps(v: ResidencyView, gone: Seq<ChunkPos>)
    ensures
        ({
            let w = v.unload_steps(gone);
            &&& forall|p: ChunkPos| #[trigger]
                w.chunks.dom().contains(p) <==> v.chunks.dom().contains(p) && !gone.contains(p)
            &&& forall|p: ChunkPos| #[trigger] w.chunks.dom().contains(p) ==> w.chunks[p]
                == v.chunks[p]
            &&& forall|p: ChunkPos| #[trigger]
                w.streamer.loaded.contains(p) <==> v.streamer.loaded.contains(p) && !gone.contains(
                    p,
                )
            &&& forall|p: ChunkPos| #[trigger]
                w.dirty.contains(p) <==> v.dirty.contains(p) && !gone.contains(p)
        }),
    decreases gone.len(),
{
    if gone.len() > 0 {
        let rest = gone.drop_last();
        let last = gone.last();
        lemma_unload_steps(v, rest);
        assert(gone =~= rest.push(last));
        lemma_contains_push(rest, last);
        let b = v.unload_steps(rest);
        let w = v.unload_steps(gone);
        assert(w == b.unload_step(last));
        assert forall|p: ChunkPos| #[trigger]
            w.chunks.dom().contains(p) <==> v.chunks.dom().contains(p) && !gone.contains(p) by {
            assert(gone.contains(p) == (rest.contains(p) || p == last));
            assert(w.chunks.dom().contains(p) == (b.chunks.dom().contains(p) && p != last));
        }
        assert forall|p: ChunkPos| #[trigger] w.chunks.dom().contains(p) implies w.chunks[p]
            == v.chunks[p] by {
            assert(b.chunks.dom().contains(p));
        }
        assert forall|p: ChunkPos| #[trigger]
            w.streamer.loaded.contains(p) <==> v.streamer.loaded.contains(p) && !gone.contains(
                p,
            ) by {
            assert(gone.contains(p) == (rest.contains(p) || p == last));
        }
        assert forall|p: ChunkPos| #[trigger]
            w.dirty.contains(p) <==> v.dirty.contains(p) && !gone.contains(p) by {
            assert(gone.contains(p) == (rest.contains(p) || p == last));
        }
    }
}

proof fn lemma_expose_steps(v: ResidencyView, gone: Seq<ChunkPos>)
    ensures
        ({
            let w = v.expose_steps(gone);
            &&& w == (ResidencyView { dirty: w.dirty, ..v })
            &&& forall|p: ChunkPos| #[trigger]
                w.dirty.contains(p) ==> v.dirty.contains(p) || v.streamer.loaded.contains(p)
            &&& forall|p: ChunkPos, f: int|
                gone.contains(p) && 0 <= f < 6 && across(p, f) != p && v.streamer.loaded.contains(
                    #[trigger] across(p, f),
                ) ==> w.dirty.contains(across(p, f))
            &&& v.dirty.subset_of(w.dirty)
        }),
    decreases gone.len(),
{
    if gone.len() > 0 {
        let rest = gone.drop_last();
        lemma_expose_steps(v, rest);
        assert(gone =~= rest.push(gone.last()));
        lemma_contains_push(rest, gone.last());
        let w = v.expose_steps(gone);
        let last = gone.last();
        assert forall|p: ChunkPos, f: int|
            gone.contains(p) && 0 <= f < 6 && across(p, f) != p && v.streamer.loaded.contains(
                #[trigger] across(p, f),
            ) implies w.dirty.contains(across(p, f)) by {
            if p == last {
                assert(with_sides(last).contains(across(last, f)));
            } else {
                assert(rest.contains(p));
            }
        }
    }
}

/// Dropped chunks are gone and owe no mesh, nothing else goes, and every loaded
/// chunk beside one is meshed again.
pub proof fn lemma_dropped(v: ResidencyView, gone: Seq<ChunkPos>)
    requires
        forall|i: int| 0 <= i < gone.len() ==> in_world(#[trigger] gone[i]),
    ensures
        ({
            let w = v.unload_steps(gone).expose_steps(gone);
            &&& forall|p: ChunkPos| #[trigger]
                w.chunks.dom().contains(p) <==> v.chunks.dom().contains(p) && !gone.contains(p)
            &&& forall|p: ChunkPos| #[trigger]
                w.streamer.loaded.contains(p) <==> v.streamer.loaded.contains(p) && !gone.contains(
                    p,
                )
            &&& forall|p: ChunkPos| #[trigger] gone.contains(p) ==> !w.dirty.contains(p)
            &&& forall|p: ChunkPos, f: int|
                gone.contains(p) && 0 <= f < 6 && w.streamer.loaded.contains(
                    #[trigger] across(p, f),
                ) ==> w.dirty.contains(across(p, f))
        }),
{
    lemma_unload_steps(v, gone);
    lemma_expose_steps(v.unload_steps(gone), gone);
    assert forall|p: ChunkPos, f: int|
        gone.contains(p) && 0 <= f < 6 && v.unload_steps(gone).streamer.loaded.contains(
            #[trigger] across(p, f),
        ) implies across(p, f) != p by {
        let i = gone.index_of(p);
        assert(in_world(gone[i]));
    }
}

/// No edit is lost with a dropped chunk: every modified chunk that goes is
/// handed back to be saved, as it was.
pub proof fn lemma_edits_saved(v: ResidencyView, gone: Seq<ChunkPos>)
    ensures
        forall|p: ChunkPos|
            gone.contains(p) && #[trigger] v.chunks.dom().contains(p) && v.chunks[p]@.modified
                ==> v.saves(gone).contains((p, v.chunks[p])),
    decreases gone.len(),
{
    if gone.len() > 0 {
        let rest = gone.drop_last();
        let last = gone.last();
        lemma_edits_saved(v, rest);
        lemma_unload_steps(v, rest);
        assert(gone =~= rest.push(last));
        lemma_contains_push(rest, last);
        let before = v.saves(rest);
        assert forall|p: ChunkPos|
            gone.contains(p) && #[trigger] v.chunks.dom().contains(p)
                && v.chunks[p]@.modified implies v.saves(gone).contains((p, v.chunks[p])) by {
            let kept = v.unload_steps(rest).chunks;
            lemma_contains_push(before, (last, kept[last]));
            if rest.contains(p) {
                assert(before.contains((p, v.chunks[p])));
            } else {
                assert(kept.dom().contains(p));
            }
        }
    }
}

proof fn lemma_stack(chunks: Map<ChunkPos, Chunk>, p: ChunkPos, c: Chunk, x: i64, z: i64)
    requires
        chunks.dom().finite(),
    ensures
        stack(chunks, x, z).finite(),
        stack(chunks.insert(p, c), x, z) == (if p.x == x && p.z == z {
            stack(chunks, x, z).insert(p)
        } else {
            stack(chunks, x, z)
        }),
        stack(chunks.remove(p), x, z) == (if p.x == x && p.z == z {
            stack(chunks, x, z).remove(p)
        } else {
            stack(chunks, x, z)
        }),
        stack(chunks, x, z).len() <= chunks.dom().len(),
{
    assert(stack(chunks, x, z).subset_of(chunks.dom()));
    vstd::set_lib::lemma_len_subset(stack(chunks, x, z), chunks.dom());
    assert(stack(chunks.insert(p, c), x, z) =~= (if p.x == x && p.z == z {
        stack(chunks, x, z).insert(p)
    } else {
        stack(chunks, x, z)
    }));
    assert(stack(chunks.remove(p), x, z) =~= (if p.x == x && p.z == z {
        stack(chunks, x, z).remove(p)
    } else {
        stack(chunks, x, z)
    }));
}

proof fn lemma_arrive_counted(v: ResidencyView, pos: ChunkPos, chunk: Chunk)
    requires
        v.counted(),
    ensures
        v.arrive_step(pos, chunk).counted(),
{
    let w = v.arrive_step(pos, chunk);
    assert forall|col: (i64, i64)| #[trigger]
        w.heights.residents.dom().contains(col) implies w.heights.residents[col] <= stack(
        w.chunks,
        col.0,
        col.1,
    ).len() by {
        lemma_stack(v.chunks, pos, chunk, col.0, col.1);
        if v.heights.residents.dom().contains(col) {
            assert(v.heights.residents[col] <= stack(v.chunks, col.0, col.1).len());
        }
    }
}

proof fn lemma_unload_counted(v: ResidencyView, pos: ChunkPos)
    requires
        v.counted(),
    ensures
        v.unload_step(pos).counted(),
{
    let w = v.unload_step(pos);
    assert forall|col: (i64, i64)| #[trigger]
        w.heights.residents.dom().contains(col) implies w.heights.residents[col] <= stack(
        w.chunks,
        col.0,
        col.1,
    ).len() by {
        assert(v.heights.residents.dom().contains(col));
        lemma_stack(v.chunks, pos, v.chunks[pos], col.0, col.1);
    }
}

/// The heightmap's per-column counts stay exact as chunks come and go.
pub proof fn lemma_counts_kept(v: ResidencyView, pos: ChunkPos, chunk: Chunk)
    requires
        v.counted_exactly(),
    ensures
        v.arrive_step(pos, chunk).counted_exactly(),
        v.unload_step(pos).counted_exactly(),
{
    let a = v.arrive_step(pos, chunk);
    let u = v.unload_step(pos);
    assert forall|x: i64, z: i64| #[trigger]
        stack(a.chunks, x, z).len() == (if a.heights.residents.dom().contains((x, z)) {
            a.heights.residents[(x, z)]
        } else {
            0
        }) by {
        lemma_stack(v.chunks, pos, chunk, x, z);
        let n = stack(v.chunks, x, z).len();
    }
    assert forall|x: i64, z: i64| #[trigger]
        stack(u.chunks, x, z).len() == (if u.heights.residents.dom().contains((x, z)) {
            u.heights.residents[(x, z)]
        } else {
            0
        }) by {
        lemma_stack(v.chunks, pos, chunk, x, z);
        let n = stack(v.chunks, x, z).len();
    }
}

/// What the streamer counts as loaded is what is resident, and stays so as
/// chunks come and go.
pub proof fn lemma_loaded_is_resident(v: ResidencyView, pos: ChunkPos, chunk: Chunk)
    requires
        v.streamer.loaded == v.chunks.dom(),
    ensures
        v.arrive_step(pos, chunk).streamer.loaded == v.arrive_step(pos, chunk).chunks.dom(),
        v.unload_step(pos).streamer.loaded == v.unload_step(pos).chunks.dom(),
{
    assert(v.arrive_step(pos, chunk).chunks.dom() =~= v.chunks.dom().insert(pos));
    assert(v.unload_step(pos).chunks.dom() =~= v.chunks.dom().remove(pos));
}

impl Residency {
    /// Drop a chunk. Hands back what must be saved: the chunk, if it was
    /// modified.
    pub fn unload(&mut self, pos: ChunkPos) -> (r: Option<Chunk>)
        requires
            old(self).wf(),
        ensures
            final(self).wf(),
            final(self).blocks() == old(self).blocks(),
            final(self)@ == old(self)@.unload_step(pos),
            r is Some <==> old(self)@.chunks.dom().contains(pos) && old(self)@.chunks[pos]@.modified,
            r matches Some(c) ==> c == old(self)@.chunks[pos],
    {
        let ghost before = self@;
        let gone = self.world.remove_chunk(pos);
        let mut save: Option<Chunk> = None;
        if let Some(chunk) = gone {
            self.heights.chunk_unloaded(pos);
            if chunk.is_modified() {
                save = Some(chunk);
            }
        }
        self.streamer.mark_unloaded(pos);
        self.dirty.remove(pos);
        proof {
            assert(self@ =~= before.unload_step(pos));
            lemma_unload_counted(before, pos);
        }
        save
    }

    /// Mark the loaded chunks around a dropped one for meshing: they may now
    /// show a border face.
    pub fn expose(&mut self, pos: ChunkPos)
        requires
            old(self).wf(),
            in_world(pos),
        ensures
            final(self).wf(),
            final(self).blocks() == old(self).blocks(),
            final(self)@ == old(self)@.expose_step(pos),
    {
        let ghost before = self@;
        let ghost loaded = before.streamer.loaded;
        let ghost upto = |n: int| Set::new(
            |p: ChunkPos|
                loaded.contains(p) && exists|f: int| 0 <= f < n && p == #[trigger] across(pos, f),
        );
        assert(before.dirty.union(upto(0)) =~= before.dirty);
        let mut face: usize = 0;
        while face < 6
            invariant
                face <= 6,
                in_world(pos),
                self.parts_wf(),
                self.blocks() == old(self).blocks(),
                loaded == before.streamer.loaded,
                upto == (|n: int|
                    Set::new(
                        |p: ChunkPos|
                            loaded.contains(p) && exists|f: int|
                                0 <= f < n && p == #[trigger] across(pos, f),
                    )),
                self@ == (ResidencyView { dirty: before.dirty.union(upto(face as int)), ..before }),
            decreases 6 - face,
        {
            let n = neighbor(pos, face);
            if self.streamer.is_loaded(n) {
                self.dirty.insert(n);
            }
            assert(self@.dirty =~= before.dirty.union(upto(face + 1))) by {
                assert forall|p: ChunkPos| #[trigger]
                    upto(face + 1).contains(p) == (upto(face as int).contains(p) || (loaded.contains(
                        n,
                    ) && p == n)) by {
                    if upto(face + 1).contains(p) {
                        let f = choose|f: int| 0 <= f < face + 1 && p == #[trigger] across(pos, f);
                        if f < face {
                            assert(upto(face as int).contains(p));
                        }
                    }
                    if upto(face as int).contains(p) {
                        let f = choose|f: int| 0 <= f < face && p == #[trigger] across(pos, f);
                        assert(0 <= f < face + 1 && p == across(pos, f));
                    }
                    assert(n == across(pos, face as int));
                }
                assert forall|p: ChunkPos| #[trigger]
                    self@.dirty.contains(p) == before.dirty.union(upto(face + 1)).contains(p) by {
                    assert(upto(face + 1).contains(p) == (upto(face as int).contains(p)
                        || (loaded.contains(n) && p == n)));
                }
            }
            face += 1;
        }
        proof {
            assert(upto(6) =~= with_sides(pos).remove(pos).intersect(loaded)) by {
                assert forall|p: ChunkPos| #[trigger]
                    upto(6).contains(p) == with_sides(pos).remove(pos).intersect(loaded).contains(
                        p,
                    ) by {}
            }
            assert(self@ =~= before.expose_step(pos));
            assert(self@.counted() == before.counted());
        }
    }

    /// Drop chunks, then mark what their going lays bare. Hands back what must
    /// be saved.
    pub fn unload_all(&mut self, gone: &[ChunkPos]) -> (r: Vec<(ChunkPos, Chunk)>)
        requires
            old(self).wf(),
            forall|i: int| 0 <= i < gone.len() ==> in_world(#[trigger] gone[i]),
        ensures
            final(self).wf(),
            final(self).blocks() == old(self).blocks(),
            final(self)@ == old(self)@.unload_steps(gone@).expose_steps(gone@),
            r@ == old(self)@.saves(gone@),
    {
        let ghost before = self@;
        let mut save: Vec<(ChunkPos, Chunk)> = Vec::new();
        let mut i: usize = 0;
        while i < gone.len()
            invariant
                i <= gone.len(),
                self.wf(),
                self.blocks() == old(self).blocks(),
                self@ == before.unload_steps(gone@.take(i as int)),
                save@ == before.saves(gone@.take(i as int)),
            decreases gone.len() - i,
        {
            proof {
                assert(gone@.take(i + 1).drop_last() =~= gone@.take(i as int));
            }
            let p = gone[i];
            if let Some(chunk) = self.unload(p) {
                save.push((p, chunk));
            }
            i += 1;
        }
        assert(gone@.take(i as int) =~= gone@);
        let ghost mid = self@;
        let mut j: usize = 0;
        while j < gone.len()
            invariant
                j <= gone.len(),
                forall|i: int| 0 <= i < gone.len() ==> in_world(#[trigger] gone[i]),
                self.wf(),
                self.blocks() == old(self).blocks(),
                self@ == mid.expose_steps(gone@.take(j as int)),
            decreases gone.len() - j,
        {
            proof {
                assert(gone@.take(j + 1).drop_last() =~= gone@.take(j as int));
            }
            self.expose(gone[j]);
            j += 1;
        }
        assert(gone@.take(j as int) =~= gone@);
        save
    }

    /// What should be loaded and unloaded for a camera.
    pub fn stream_update<F: Fn(i64, i64) -> (i64, i64)>(
        &mut self,
        center: ChunkPos,
        surface_span: F,
    ) -> (r: StreamUpdate)
        requires
            old(self).wf(),
            forall|c: (i64, i64)|
                may_ask(old(self)@.streamer, center, c) ==> #[trigger] call_requires(
                    surface_span,
                    c,
                ),
            old(self)@.streamer.load_radius <= 0x4000_0000_0000_0000,
            i64::MIN <= center.x - old(self)@.streamer.load_radius,
            center.x + old(self)@.streamer.load_radius <= i64::MAX,
            i64::MIN <= center.z - old(self)@.streamer.load_radius,
            center.z + old(self)@.streamer.load_radius <= i64::MAX,
        ensures
            final(self).wf(),
            final(self).blocks() == old(self).blocks(),
            final(self)@ == old(self)@,
            exists|spans: Spans| #[trigger]
                spans_given(old(self)@.streamer, center, surface_span, spans) && is_update(
                    old(self)@.streamer,
                    center,
                    spans,
                    r.to_load@,
                    r.to_unload@,
                ),
    {
        let ghost before = self@;
        let r = self.streamer.update(center, surface_span);
        assert(self@ =~= before);
        r
    }

    /// Change the streaming radii and margins. What is loaded stays known: a
    /// fresh start would ask for every resident chunk again and overwrite
    /// unsaved edits with what was saved.
    pub fn reconfigure(
        &mut self,
        load_radius: i64,
        unload_radius: i64,
        below_chunks: i64,
        above_chunks: i64,
        camera_chunks: i64,
    )
        requires
            old(self).wf(),
            1 <= load_radius < unload_radius,
            below_chunks >= 0,
            above_chunks >= 0,
            camera_chunks >= 0,
        ensures
            final(self).wf(),
            final(self).blocks() == old(self).blocks(),
            final(self)@ == (ResidencyView {
                streamer: StreamerView {
                    loaded: old(self)@.streamer.loaded,
                    load_radius: load_radius as int,
                    unload_radius: unload_radius as int,
                    below: below_chunks as int,
                    above: above_chunks as int,
                    camera: camera_chunks as int,
                },
                ..old(self)@
            }),
    {
        let ghost before = self@;
        self.streamer.reconfigure(
            load_radius,
            unload_radius,
            below_chunks,
            above_chunks,
            camera_chunks,
        );
        assert(self@.counted() == before.counted());
        assert(self@.chunks == before.chunks && self@.dirty == before.dirty && self@.relight
            == before.relight);
    }

    /// Choose what to start generating or reading, at most `budget` chunks,
    /// and note it as in flight.
    pub fn take_spawns(&mut self, wanted: &[ChunkPos], budget: usize) -> (r: Vec<ChunkPos>)
        requires
            old(self).wf(),
        ensures
            final(self).wf(),
            final(self).blocks() == old(self).blocks(),
            r@ == old(self)@.spawns(wanted@, budget as int),
            final(self)@ == (ResidencyView {
                in_flight: old(self)@.in_flight.union(r@.to_set()),
                ..old(self)@
            }),
    {
        let ghost before = self@;
        let mut out: Vec<ChunkPos> = Vec::new();
        let mut i: usize = 0;
        assert(before.in_flight.union(out@.to_set()) =~= before.in_flight);
        while i < wanted.len()
            invariant
                i <= wanted.len(),
                self.wf(),
                self.blocks() == old(self).blocks(),
                out@ == before.spawns(wanted@.take(i as int), budget as int),
                self@ == (ResidencyView {
                    in_flight: before.in_flight.union(out@.to_set()),
                    ..before
                }),
            decreases wanted.len() - i,
        {
            let p = wanted[i];
            let ghost had = out@;
            let ghost mid = self@;
            proof {
                assert(wanted@.take(i + 1).drop_last() =~= wanted@.take(i as int));
                assert(had.to_set().contains(p) == had.contains(p));
            }
            if out.len() < budget && !self.in_flight.contains(p) && !self.streamer.is_loaded(p) {
                self.in_flight.insert(p);
                out.push(p);
                proof {
                    lemma_contains_push(had, p);
                    assert(out@.to_set() =~= had.to_set().insert(p));
                    assert(self@.in_flight =~= before.in_flight.union(out@.to_set()));
                    assert(self@.chunks == mid.chunks);
                    assert(self@.heights == mid.heights);
                    assert(self@.dirty == mid.dirty && self@.relight == mid.relight);
                    assert(mid.valid());
                    assert(self@.valid());
                }
            }
            i += 1;
        }
        assert(wanted@.take(i as int) =~= wanted@);
        out
    }

    /// Take in a chunk that was generated or read.
    pub fn arrive(&mut self, pos: ChunkPos, chunk: Chunk)
        requires
            old(self).wf(),
            in_world(pos),
            old(self)@.chunks.dom().len() < u32::MAX,
        ensures
            final(self).wf(),
            final(self).blocks() == old(self).blocks(),
            final(self)@ == old(self)@.arrive_step(pos, chunk),
    {
        let ghost before = self@;
        proof {
            lemma_stack(before.chunks, pos, chunk, pos.x, pos.z);
            let col = (pos.x, pos.z);
            assert(before.heights.residents.dom().contains(col) ==> before.heights.residents[col]
                <= stack(before.chunks, col.0, col.1).len());
        }
        self.in_flight.remove(pos);
        let was = self.world.insert_chunk(pos, chunk);
        if was.is_none() {
            self.heights.chunk_loaded(pos);
        }
        self.streamer.mark_loaded(pos);
        proof {
            assert(self@ =~= before.arrive_step(pos, chunk));
            lemma_arrive_counted(before, pos, chunk);
        }
    }

    /// Fold an arrived chunk into the heightmap, then mark it and its
    /// neighbours: its first relight then has a correct sky boundary. True if
    /// it came with edits, so that what was built from the seed there is stale.
    pub fn settle(&mut self, pos: ChunkPos) -> (r: bool)
        requires
            old(self).wf(),
            in_world(pos),
            old(self)@.heights.heights.dom().len() + 1024 <= usize::MAX,
        ensures
            final(self).wf(),
            final(self).blocks() == old(self).blocks(),
            final(self)@ == old(self)@.heightmap_step(old(self).blocks(), pos).dirty_step(pos),
            r == (old(self)@.chunks.dom().contains(pos) && old(self)@.chunks[pos]@.modified),
    {
        let edited: bool = match self.world.chunk(pos) {
            Some(c) => c.is_modified(),
            None => false,
        };
        self.update_heightmap_for(pos);
        self.mark_dirty_with_neighbors(pos);
        edited
    }

    /// The resident chunks that were modified, which must be saved before the
    /// world goes.
    pub fn modified(&self) -> (r: Vec<ChunkPos>)
        requires
            self.wf(),
        ensures
            r@.no_duplicates(),
            forall|p: ChunkPos| #[trigger]
                r@.contains(p) <==> self@.chunks.dom().contains(p) && self@.chunks[p]@.modified,
    {
        let all = self.world.chunk_positions();
        let mut out: Vec<ChunkPos> = Vec::new();
        let mut i: usize = 0;
        while i < all.len()
            invariant
                i <= all.len(),
                self.wf(),
                all@.no_duplicates(),
                forall|p: ChunkPos| #[trigger]
                    all@.contains(p) <==> self@.chunks.dom().contains(p),
                out@.no_duplicates(),
                forall|p: ChunkPos| #[trigger]
                    out@.contains(p) <==> all@.take(i as int).contains(p)
                        && self@.chunks[p]@.modified,
            decreases all.len() - i,
        {
            let p = all[i];
            proof {
                assert(all@.contains(p));
                assert(all@.take(i + 1) =~= all@.take(i as int).push(p));
                lemma_contains_push(all@.take(i as int), p);
                lemma_contains_push(out@, p);
                assert forall|j: int| 0 <= j < out.len() implies #[trigger] out@[j] != p by {
                    assert(out@.contains(out@[j]));
                    let k = all@.take(i as int).index_of(out@[j]);
                    assert(all@[k] != all@[i as int]);
                }
            }
            if let Some(chunk) = self.world.chunk(p) {
                if chunk.is_modified() {
                    out.push(p);
                }
            }
            i += 1;
        }
        assert(all@.take(i as int) =~= all@);
        out
    }

    /// Drop the work owed for chunks that are not resident.
    pub fn prune(&mut self)
        requires
            old(self).wf(),
        ensures
            final(self).wf(),
            final(self).blocks() == old(self).blocks(),
            final(self)@ == old(self)@.prune_step(),
    {
        let ghost before = self@;
        retain_resident(&mut self.dirty, &self.world);
        retain_resident(&mut self.relight, &self.world);
        retain_resident(&mut self.meshed_once, &self.world);
        assert(self@ =~= before.prune_step());
        assert(self@.counted() == before.counted());
    }
}

/// Keeps only the positions of resident chunks.
fn retain_resident(set: &mut ChunkSet, world: &World)
    requires
        world.wf(),
    ensures
        final(set)@ == old(set)@.intersect(world@.dom()),
{
    let all = set.list();
    let ghost before = set@;
    let mut i: usize = 0;
    assert(all@.take(0) =~= Seq::empty());
    while i < all.len()
        invariant
            i <= all.len(),
            world.wf(),
            forall|p: ChunkPos| #[trigger]
                set@.contains(p) <==> before.contains(p) && (world@.dom().contains(p)
                    || !all@.take(i as int).contains(p)),
        decreases all.len() - i,
    {
        let p = all[i];
        if world.chunk(p).is_none() {
            set.remove(p);
        }
        proof {
            assert(all@.take(i + 1) =~= all@.take(i as int).push(p));
            lemma_contains_push(all@.take(i as int), p);
        }
        i += 1;
    }
    assert(all@.take(i as int) =~= all@);
    assert(set@ =~= before.intersect(world@.dom()));
}

} // verus!
