//! What the steps of the resident world do, told chunk by chunk and column by
//! column.

use crate::block::BlockId;
use crate::chunk::{Chunk, ChunkView};
use crate::coords::{cell_index, lemma_local_at, ChunkPos, LocalPos, WorldPos};
use crate::heightmap::{lemma_load_then_unload, HeightsView};
use crate::light::chunk_light::{
    column_top, face_differs, lemma_mask_bits, mask_bit, top_below,
};
use crate::registry::BlockRegistry;
use crate::residency::edit::{
    highest, in_hole, is_edit, is_highest, is_hole, is_punched, is_window_top, recorded_height,
    stack_and_sides,
};
use crate::residency::flow::GEN_SPAWN_BUDGET;
use crate::residency::light_flow::lemma_neighbours_mutual;
use crate::residency::relight::{is_relit, Relit};
use crate::residency::sides::{across, has_sides, with_sides};
use crate::residency::work::{
    is_mesh_list, is_mesh_queue, is_ready, lemma_near_dist, is_waiting, lemma_ready_xor_waiting, nearest_in, MESH_CANDIDATES,
    RELIGHT_CANDIDATES,
};
use crate::residency::{any_raised, in_world, raised, rise, stack, ResidencyView};
use crate::streaming::{dist, lemma_selection_is_nearest, near_key, nearest_of};
use crate::world::block_at;
use vstd::multiset::Multiset;
use vstd::prelude::*;

verus! {

/// A number without its sign.
pub open spec fn size(n: int) -> int {
    if n < 0 {
        -n
    } else {
        n
    }
}

/// A chunk and the six across its faces are the chunks at most one step away.
pub proof fn lemma_sides_are_one_step_away(c: ChunkPos, p: ChunkPos)
    requires
        has_sides(c),
    ensures
        with_sides(c).contains(p) <==> size(p.x - c.x) + size(p.y - c.y) + size(p.z - c.z) <= 1,
{
    if size(p.x - c.x) + size(p.y - c.y) + size(p.z - c.z) == 1 {
        let f = if p.x > c.x {
            0int
        } else if p.x < c.x {
            1
        } else if p.y > c.y {
            2
        } else if p.y < c.y {
            3
        } else if p.z > c.z {
            4
        } else {
            5
        };
        assert(p == across(c, f));
    }
    if with_sides(c).contains(p) && p != c {
        let f = choose|f: int| 0 <= f < 6 && p == #[trigger] across(c, f);
        lemma_neighbours_mutual(c, f);
    }
}

/// The height of the highest solid block at or below `y`, block by block.
proof fn lemma_top_below_is(v: ChunkView, registry: BlockRegistry, x: int, z: int, y: int)
    requires
        y < 32,
    ensures
        match top_below(v, registry, x, z, y) {
            Some(h) => 0 <= h <= y && registry.solid(v.block(cell_index(x, h as int, z))) && forall|
                k: int,
            |
                h < k <= y ==> !registry.solid(v.block(#[trigger] cell_index(x, k, z))),
            None => forall|k: int|
                0 <= k <= y ==> !registry.solid(v.block(#[trigger] cell_index(x, k, z))),
        },
    decreases y + 1,
{
    if y >= 0 && !registry.solid(v.block(cell_index(x, y, z))) {
        lemma_top_below_is(v, registry, x, z, y - 1);
    }
}

/// The highest solid block of a column in a chunk, and where there is none.
pub proof fn lemma_column_top_is(v: ChunkView, registry: BlockRegistry, x: int, z: int, y: int)
    requires
        0 <= y < 32,
    ensures
        match column_top(v, registry, x, z) {
            Some(h) => h < 32 && registry.solid(v.block(cell_index(x, h as int, z))) && (y > h
                ==> !registry.solid(v.block(cell_index(x, y, z)))),
            None => !registry.solid(v.block(cell_index(x, y, z))),
        },
{
    lemma_top_below_is(v, registry, x, z, 31);
    let c = cell_index(x, y, z);
}

/// What a chunk reports as a column's height is its highest solid block there, in
/// the world's coordinates.
proof fn lemma_rise_is(
    chunks: Map<ChunkPos, Chunk>,
    registry: BlockRegistry,
    pos: ChunkPos,
    x: i64,
    y: i64,
    z: i64,
)
    requires
        chunks.dom().contains(pos),
        in_world(pos),
        x as int / 32 == pos.x,
        z as int / 32 == pos.z,
    ensures
        match rise(chunks[pos]@, registry, pos, x as int, z as int) {
            Some(h) => h as int / 32 == pos.y && registry.solid(
                block_at(chunks, WorldPos { x, y: h, z }),
            ) && (y > h && y as int / 32 == pos.y ==> !registry.solid(
                block_at(chunks, WorldPos { x, y, z }),
            )),
            None => y as int / 32 == pos.y ==> !registry.solid(
                block_at(chunks, WorldPos { x, y, z }),
            ),
        },
{
    let v = chunks[pos]@;
    let lx = x as int % 32;
    let lz = z as int % 32;
    let ly = y as int % 32;
    lemma_column_top_is(v, registry, lx, lz, ly);
    let p = WorldPos { x, y, z };
    lemma_local_at(lx, ly, lz);
    assert(p.spec_local() == LocalPos::at(lx, ly, lz));
    if y as int / 32 == pos.y {
        assert(p.spec_chunk() == pos);
        assert(block_at(chunks, p) == v.block(cell_index(lx, ly, lz)));
    }
    if let Some(t) = column_top(v, registry, lx, lz) {
        let h = (pos.y * 32 + t) as i64;
        lemma_column_top_is(v, registry, lx, lz, t as int);
        assert(h as int / 32 == pos.y && h as int % 32 == t);
        let q = WorldPos { x, y: h, z };
        lemma_local_at(lx, t as int, lz);
        assert(q.spec_local() == LocalPos::at(lx, t as int, lz));
        assert(q.spec_chunk() == pos);
    }
}

/// The highest solid block of a column over the resident chunks is solid, and no
/// resident block above it is. Where there is none, no resident block of the column
/// is solid.
pub proof fn lemma_highest_is_highest(
    chunks: Map<ChunkPos, Chunk>,
    registry: BlockRegistry,
    x: i64,
    y: i64,
    z: i64,
)
    requires
        chunks.dom().finite(),
        forall|p: ChunkPos| #[trigger] chunks.dom().contains(p) ==> in_world(p),
    ensures
        ({
            let p = WorldPos { x, y, z };
            match highest(chunks, registry, x, z) {
                Some(h) => registry.solid(block_at(chunks, WorldPos { x, y: h, z })) && (y > h
                    && chunks.dom().contains(p.spec_chunk()) ==> !registry.solid(
                    block_at(chunks, p),
                )),
                None => chunks.dom().contains(p.spec_chunk()) ==> !registry.solid(
                    block_at(chunks, p),
                ),
            }
        }),
{
    let p = WorldPos { x, y, z };
    let n = p.spec_chunk();
    if chunks.dom().contains(n) {
        lemma_rise_is(chunks, registry, n, x, y, z);
    }
    match highest(chunks, registry, x, z) {
        Some(h) => {
            assert(is_highest(chunks, registry, x, z, h));
            let c = choose|c: ChunkPos|
                chunks.dom().contains(c) && #[trigger] rise(
                    chunks[c]@,
                    registry,
                    c,
                    x as int,
                    z as int,
                ) == Some(h);
            lemma_rise_is(chunks, registry, c, x, h, z);
        },
        None => {
            if chunks.dom().contains(n) && registry.solid(block_at(chunks, p)) {
                lemma_some_highest(chunks, registry, x, z, chunks.dom(), n);
            }
        },
    }
}

/// Where a chunk reports a height, one is the highest among a finite set.
proof fn lemma_some_highest(
    chunks: Map<ChunkPos, Chunk>,
    registry: BlockRegistry,
    x: i64,
    z: i64,
    set: Set<ChunkPos>,
    p: ChunkPos,
)
    requires
        set.finite(),
        set == chunks.dom(),
        set.contains(p),
        rise(chunks[p]@, registry, p, x as int, z as int) is Some,
    ensures
        exists|h: i64| is_highest(chunks, registry, x, z, h),
{
    let (q, h) = lemma_max_rise(chunks, registry, x, z, set, p);
    assert(is_highest(chunks, registry, x, z, h));
}

proof fn lemma_max_rise(
    chunks: Map<ChunkPos, Chunk>,
    registry: BlockRegistry,
    x: i64,
    z: i64,
    set: Set<ChunkPos>,
    p: ChunkPos,
) -> (r: (ChunkPos, i64))
    requires
        set.finite(),
        set.contains(p),
        rise(chunks[p]@, registry, p, x as int, z as int) is Some,
    ensures
        set.contains(r.0),
        rise(chunks[r.0]@, registry, r.0, x as int, z as int) == Some(r.1),
        forall|q: ChunkPos| #[trigger]
            set.contains(q) ==> (rise(chunks[q]@, registry, q, x as int, z as int) matches Some(y)
                ==> y <= r.1),
    decreases set.len(),
{
    let here = rise(chunks[p]@, registry, p, x as int, z as int)->0;
    let rest = set.remove(p);
    if exists|q: ChunkPos|
        rest.contains(q) && #[trigger] rise(chunks[q]@, registry, q, x as int, z as int) is Some {
        let q = choose|q: ChunkPos|
            rest.contains(q) && #[trigger] rise(chunks[q]@, registry, q, x as int, z as int) is Some;
        let r = lemma_max_rise(chunks, registry, x, z, rest, q);
        if r.1 >= here {
            r
        } else {
            (p, here)
        }
    } else {
        (p, here)
    }
}

/// Folding reports into the heights raises each resident column to what was
/// reported for it, if that is higher, and leaves every other as it is. Something
/// was raised iff some column stands higher than before.
pub proof fn lemma_raised_columns(
    h: HeightsView,
    rises: spec_fn(int, int) -> Option<i64>,
    x: i64,
    z: i64,
)
    ensures
        ({
            let w = raised(h, rises);
            let told = rises(x as int, z as int);
            let here = h.resident(x as int, z as int);
            &&& w.residents == h.residents
            &&& w.height_or_least(x, z) >= h.height_or_least(x, z)
            &&& here && told is Some ==> w.heights.dom().contains((x, z)) && w.height_or_least(x, z)
                >= told->0 && (w.height_or_least(x, z) == told->0 || w.height_or_least(x, z)
                == h.height_or_least(x, z))
            &&& !(here && told is Some) ==> w.heights.dom().contains((x, z))
                == h.heights.dom().contains((x, z)) && w.height_or_least(x, z)
                == h.height_or_least(x, z)
            &&& w.height_or_least(x, z) > h.height_or_least(x, z) ==> any_raised(h, rises)
        }),
        any_raised(h, rises) ==> exists|a: i64, b: i64|
            #[trigger] raised(h, rises).height_or_least(a, b) > h.height_or_least(a, b),
{
    let w = raised(h, rises);
    if w.height_or_least(x, z) > h.height_or_least(x, z) {
        assert(h.resident(x as int, z as int));
    }
    if any_raised(h, rises) {
        let (a, b) = choose|a: i64, b: i64| #[trigger]
            h.resident(a as int, b as int) && (rises(a as int, b as int) matches Some(y) && y
                > h.height_or_least(a, b));
        assert(raised(h, rises).height_or_least(a, b) > h.height_or_least(a, b));
    }
}

/// Where folding a chunk into the heightmap raised a column, every resident chunk
/// above and below it is relit. Otherwise nothing is, and no mesh is owed for it.
pub proof fn lemma_raised_stack_is_relit(
    v: ResidencyView,
    registry: BlockRegistry,
    pos: ChunkPos,
    p: ChunkPos,
    x: i64,
    z: i64,
)
    ensures
        ({
            let w = v.heightmap_step(registry, pos);
            let higher = w.heights.height_or_least(x, z) > v.heights.height_or_least(x, z);
            &&& w.heights.height_or_least(x, z) >= v.heights.height_or_least(x, z)
            &&& higher && v.chunks.dom().contains(p) && p.x == pos.x && p.z == pos.z
                ==> w.relight.contains(p)
            &&& higher ==> x as int / 32 == pos.x && z as int / 32 == pos.z
            &&& !(v.chunks.dom().contains(p) && p.x == pos.x && p.z == pos.z) ==> w.relight.contains(
                p,
            ) == v.relight.contains(p)
            &&& w.relight != v.relight ==> w.heights != v.heights
            &&& w.dirty == v.dirty && w.chunks == v.chunks && w.meshed == v.meshed && w.in_flight
                == v.in_flight && w.streamer == v.streamer
        }),
{
    if v.chunks.dom().contains(pos) {
        let c = v.chunks[pos]@;
        let rises = |a: int, b: int| rise(c, registry, pos, a, b);
        lemma_raised_columns(v.heights, rises, x, z);
        let w = v.heightmap_step(registry, pos);
        if w.relight != v.relight {
            assert(any_raised(v.heights, rises));
            let (a, b) = choose|a: i64, b: i64|
                #[trigger] raised(v.heights, rises).height_or_least(a, b)
                    > v.heights.height_or_least(a, b);
        }
    }
}

/// A chunk that arrives is resident, known to the streamer and no longer on its
/// way; other chunks and the work owed stay as they are.
pub proof fn lemma_arrival(v: ResidencyView, pos: ChunkPos, chunk: Chunk, q: ChunkPos)
    ensures
        ({
            let w = v.arrive_step(pos, chunk);
            &&& w.chunks.dom().contains(pos) && w.chunks[pos] == chunk
            &&& w.streamer.loaded.contains(pos) && !w.in_flight.contains(pos)
            &&& q != pos ==> w.chunks.dom().contains(q) == v.chunks.dom().contains(q) && (
            v.chunks.dom().contains(q) ==> w.chunks[q] == v.chunks[q])
                && w.streamer.loaded.contains(q) == v.streamer.loaded.contains(q)
                && w.in_flight.contains(q) == v.in_flight.contains(q)
            &&& w.dirty == v.dirty && w.relight == v.relight && w.meshed == v.meshed
            &&& w.heights.heights == v.heights.heights
            &&& v.chunks.dom().contains(pos) ==> w.heights == v.heights
        }),
{
}

/// A chunk that comes and goes leaves the resident world as it was.
pub proof fn lemma_come_and_go(v: ResidencyView, pos: ChunkPos, chunk: Chunk)
    requires
        v.heights.bounded(),
        v.heights.residents.dom().contains((pos.x, pos.z)) ==> v.heights.residents[(pos.x, pos.z)]
            >= 1,
        !v.chunks.dom().contains(pos),
        !v.streamer.loaded.contains(pos),
        !v.in_flight.contains(pos),
        !v.dirty.contains(pos),
    ensures
        v.arrive_step(pos, chunk).unload_step(pos) == v,
{
    lemma_load_then_unload(v.heights, pos);
    let w = v.arrive_step(pos, chunk).unload_step(pos);
    assert(w.chunks =~= v.chunks);
    assert(w.streamer.loaded =~= v.streamer.loaded);
    assert(w.streamer =~= v.streamer);
    assert(w.dirty =~= v.dirty);
    assert(w.in_flight =~= v.in_flight);
}

/// A chunk that is dropped is gone, and owes no mesh; its light and what is known
/// of other chunks stay.
pub proof fn lemma_departure(v: ResidencyView, pos: ChunkPos, q: ChunkPos)
    ensures
        ({
            let w = v.unload_step(pos);
            &&& !w.chunks.dom().contains(pos) && !w.streamer.loaded.contains(pos)
                && !w.dirty.contains(pos)
            &&& q != pos ==> w.chunks.dom().contains(q) == v.chunks.dom().contains(q) && (
            v.chunks.dom().contains(q) ==> w.chunks[q] == v.chunks[q])
                && w.streamer.loaded.contains(q) == v.streamer.loaded.contains(q)
                && w.dirty.contains(q) == v.dirty.contains(q)
            &&& w.relight == v.relight && w.meshed == v.meshed && w.in_flight == v.in_flight
            &&& !v.chunks.dom().contains(pos) ==> w.heights == v.heights
            &&& v.chunks.dom().contains(pos) ==> w.heights == v.heights.after_unload(pos)
        }),
{
}

/// What a dropped chunk lays bare: the loaded chunks one step away are meshed
/// again, and no other is newly.
pub proof fn lemma_laid_bare(v: ResidencyView, pos: ChunkPos, q: ChunkPos)
    requires
        has_sides(pos),
    ensures
        v.expose_step(pos).dirty.contains(q) <==> v.dirty.contains(q) || (
        v.streamer.loaded.contains(q) && size(q.x - pos.x) + size(q.y - pos.y) + size(q.z - pos.z)
            == 1),
        v.expose_step(pos).relight == v.relight && v.expose_step(pos).chunks == v.chunks,
{
    lemma_sides_are_one_step_away(pos, q);
}

/// Marking a chunk marks it and the chunks one step away, for light and for meshes.
pub proof fn lemma_marked(v: ResidencyView, pos: ChunkPos, q: ChunkPos)
    requires
        has_sides(pos),
    ensures
        ({
            let near = size(q.x - pos.x) + size(q.y - pos.y) + size(q.z - pos.z) <= 1;
            &&& v.dirty_step(pos).dirty.contains(q) <==> v.dirty.contains(q) || near
            &&& v.dirty_step(pos).relight.contains(q) <==> v.relight.contains(q) || near
            &&& v.dirty_step(pos).chunks == v.chunks && v.dirty_step(pos).heights == v.heights
            &&& v.dirty_step(pos).meshed == v.meshed
        }),
{
    lemma_sides_are_one_step_away(pos, q);
}

/// Pruning drops the work for chunks that are not resident, and no other.
pub proof fn lemma_pruned(v: ResidencyView, q: ChunkPos)
    ensures
        ({
            let w = v.prune_step();
            let here = v.chunks.dom().contains(q);
            &&& w.dirty.contains(q) == (here && v.dirty.contains(q))
            &&& w.relight.contains(q) == (here && v.relight.contains(q))
            &&& w.meshed.contains(q) == (here && v.meshed.contains(q))
            &&& w.chunks == v.chunks && w.heights == v.heights && w.streamer == v.streamer
                && w.in_flight == v.in_flight
        }),
{
}

/// Only edited chunks that go are handed back to be saved, as they were.
pub proof fn lemma_saves_only_edits(v: ResidencyView, gone: Seq<ChunkPos>, p: ChunkPos, c: Chunk)
    requires
        v.saves(gone).contains((p, c)),
    ensures
        gone.contains(p),
        v.chunks.dom().contains(p),
        v.chunks[p] == c,
        c@.modified,
    decreases gone.len(),
{
    if gone.len() > 0 {
        let rest = gone.drop_last();
        let last = gone.last();
        let before = v.unload_steps(rest).chunks;
        lemma_unloaded_chunks(v, rest);
        let k = choose|k: int| 0 <= k < v.saves(gone).len() && v.saves(gone)[k] == (p, c);
        if k < v.saves(rest).len() {
            assert(v.saves(rest)[k] == (p, c));
            assert(v.saves(rest).contains((p, c)));
            lemma_saves_only_edits(v, rest, p, c);
            let j = choose|j: int| 0 <= j < rest.len() && rest[j] == p;
            assert(gone[j] == p);
        } else {
            assert(p == last);
            assert(gone[gone.len() - 1] == p);
        }
    }
}

proof fn lemma_unloaded_chunks(v: ResidencyView, gone: Seq<ChunkPos>)
    ensures
        forall|p: ChunkPos| #[trigger]
            v.unload_steps(gone).chunks.dom().contains(p) ==> v.chunks.dom().contains(p)
                && v.unload_steps(gone).chunks[p] == v.chunks[p],
    decreases gone.len(),
{
    if gone.len() > 0 {
        lemma_unloaded_chunks(v, gone.drop_last());
        let before = v.unload_steps(gone.drop_last());
        assert forall|p: ChunkPos| #[trigger]
            v.unload_steps(gone).chunks.dom().contains(p) implies v.chunks.dom().contains(p)
            && v.unload_steps(gone).chunks[p] == v.chunks[p] by {
            assert(before.chunks.dom().contains(p));
        }
    }
}

/// Chunks are started in the order in which they are wanted: asking for more only
/// adds to the end of the list.
pub proof fn lemma_spawns_in_order(v: ResidencyView, wanted: Seq<ChunkPos>, more: ChunkPos, budget: int)
    ensures
        ({
            let a = v.spawns(wanted, budget);
            let b = v.spawns(wanted.push(more), budget);
            b == a || (b == a.push(more) && a.len() < budget)
        }),
        GEN_SPAWN_BUDGET > 0,
{
    assert(wanted.push(more).drop_last() =~= wanted);
}

/// A relit chunk is meshed again iff any of its light changed or it already was to
/// be. A chunk is newly relit only if it is resident and lies across a face whose
/// light changed.
pub proof fn lemma_relit_marks(
    v: ResidencyView,
    registry: BlockRegistry,
    job: Relit,
    chunks: Map<ChunkPos, Chunk>,
    p: ChunkPos,
)
    requires
        is_relit(v.chunks, registry, v.heights, job),
        has_sides(job.pos),
    ensures
        ({
            let w = v.relit_step(job, chunks);
            &&& (exists|i: int|
                0 <= i < 32768 && v.chunks[job.pos]@.light_bytes()[i] != #[trigger] job.light@[i])
                ==> w.dirty.contains(job.pos)
            &&& w.relight.contains(p) && !v.relight.contains(p) ==> v.chunks.dom().contains(p)
                && exists|f: int|
                0 <= f < 6 && p == #[trigger] across(job.pos, f) && face_differs(
                    v.chunks[job.pos]@,
                    job.light@,
                    f,
                )
            &&& v.dirty.subset_of(w.dirty) && v.relight.subset_of(w.relight)
            &&& w.meshed == v.meshed && w.heights == v.heights && w.streamer == v.streamer
        }),
{
    let w = v.relit_step(job, chunks);
    if w.relight.contains(p) && !v.relight.contains(p) {
        let f = choose|f: int|
            0 <= f < 6 && mask_bit(job.border_faces as int, f) && p == #[trigger] across(
                job.pos,
                f,
            );
        lemma_mask_bits(
            |g: int| face_differs(v.chunks[job.pos]@, job.light@, g),
            f,
        );
        assert(face_differs(v.chunks[job.pos]@, job.light@, f));
    }
}

/// Taking a batch off a queue takes just that batch off it; meshing notes that its
/// chunks were meshed.
pub proof fn lemma_batches(v: ResidencyView, batch: Seq<ChunkPos>, p: ChunkPos)
    ensures
        v.relight_start(batch).relight.contains(p) == (v.relight.contains(p) && !batch.contains(p)),
        v.mesh_start(batch).dirty.contains(p) == (v.dirty.contains(p) && !batch.contains(p)),
        v.mesh_start(batch).meshed.contains(p) == (v.meshed.contains(p) || batch.contains(p)),
        v.relight_start(batch).dirty == v.dirty && v.relight_start(batch).meshed == v.meshed,
        v.mesh_start(batch).relight == v.relight && v.mesh_start(batch).chunks == v.chunks,
        v.relight_start(batch).chunks == v.chunks,
{
}

/// The nearest of a set are of it, and while work is owed some is done: the list is
/// empty only if the set is.
pub proof fn lemma_some_work_is_done(
    set: Set<ChunkPos>,
    camera: ChunkPos,
    n: int,
    r: Seq<ChunkPos>,
    p: ChunkPos,
    q: ChunkPos,
)
    requires
        nearest_in(set, camera, n, r),
        n == RELIGHT_CANDIDATES || n == MESH_CANDIDATES,
        set.contains(p),
        forall|s: ChunkPos| #[trigger] set.contains(s) ==> 0 <= dist(s, camera) <= i128::MAX,
    ensures
        r.len() > 0,
        r.len() <= n,
        r.contains(q) ==> set.contains(q),
        r.len() < n ==> r.contains(p),
        r.contains(q) && !r.contains(p) ==> {
            let d = |c: ChunkPos|
                (c.x - camera.x) * (c.x - camera.x) + (c.y - camera.y) * (c.y - camera.y) + (c.z
                    - camera.z) * (c.z - camera.z);
            d(q) <= d(p)
        },
{
    let s = choose|s: Seq<ChunkPos>| #[trigger]
        s.no_duplicates() && s.to_set() == set && nearest_of(s, camera, n, r);
    assert(s.to_set().contains(p));
    assert(s.contains(p));
    assert forall|k: int| 0 <= k < s.len() implies 0 <= dist(#[trigger] s[k], camera)
        <= i128::MAX by {
        assert(s.contains(s[k]));
        assert(s.to_set().contains(s[k]));
    }
    lemma_selection_is_nearest(s, camera, n, r, 0, p);
    if r.contains(q) {
        let i = choose|i: int| 0 <= i < r.len() && r[i] == q;
        lemma_selection_is_nearest(s, camera, n, r, i, p);
        assert(s.to_set().contains(q));
    }
    if r.len() < n {
        lemma_all_kept(s, camera, n, r, p);
    }
}

/// Where there is room for all, all are kept.
proof fn lemma_all_kept(s: Seq<ChunkPos>, camera: ChunkPos, n: int, r: Seq<ChunkPos>, p: ChunkPos)
    requires
        nearest_of(s, camera, n, r),
        r.len() < n,
        s.contains(p),
    ensures
        r.contains(p),
{
    broadcast use vstd::seq_lib::group_to_multiset_ensures;

    let f = |c: ChunkPos| near_key(c, camera);
    let keys = s.map_values(f);
    let kept = r.map_values(f);
    assert(kept.to_multiset().subset_of(keys.to_multiset()));
    assert(kept.len() == keys.len());
    assert(kept.to_multiset().len() == keys.to_multiset().len());
    let m = choose|m: int| 0 <= m < s.len() && s[m] == p;
    assert(keys[m] == f(p));
    assert(keys.contains(f(p)));
    if !kept.contains(f(p)) {
        assert(kept.to_multiset().count(f(p)) == 0);
        let less = keys.to_multiset().sub(kept.to_multiset());
        assert(less.count(f(p)) > 0);
        assert(less.len() == keys.to_multiset().len() - kept.to_multiset().len());
        assert(less.len() == 0);
        assert(less =~= Multiset::empty()) by {
            broadcast use vstd::multiset::group_multiset_properties;

        }
    }
    let k = choose|k: int| 0 <= k < kept.len() && kept[k] == f(p);
    assert(r[k] == p);
}

/// With one answer to where the surface is, the candidates for meshing are just the
/// chunks that are to be meshed, are not waiting for light, and were meshed before
/// or have no neighbour still to come.
pub proof fn lemma_mesh_candidates_are<F: Fn(i64, i64) -> (i64, i64)>(
    v: ResidencyView,
    surface_span: F,
    camera: ChunkPos,
    queue: Set<ChunkPos>,
    p: ChunkPos,
)
    requires
        is_mesh_queue(v, surface_span, camera, queue),
        forall|c: (i64, i64), s: (i64, i64), t: (i64, i64)| #[trigger]
            call_ensures(surface_span, c, s) && #[trigger] call_ensures(surface_span, c, t) ==> s
                == t,
    ensures
        queue.contains(p) <==> v.dirty.contains(p) && !v.relight.contains(p) && is_ready(
            v,
            surface_span,
            p,
            camera,
        ),
        v.meshed.contains(p) ==> is_ready(v, surface_span, p, camera) && !is_waiting(
            v,
            surface_span,
            p,
            camera,
        ),
        v.meshed.contains(p) && v.dirty.contains(p) && !v.relight.contains(p) ==> queue.contains(p),
{
    lemma_ready_xor_waiting(v, surface_span, p, camera);
}

/// After an edit the column's height is that of its topmost block in the layers
/// loaded for it, and that is what is recorded, but no lower than the world. The
/// resident chunks of the column and those beside it are relit.
pub proof fn lemma_edit_follows<F: Fn(i64, i64) -> (i64, i64)>(
    before: ResidencyView,
    after: ResidencyView,
    registry: BlockRegistry,
    camera: ChunkPos,
    surface_span: F,
    pos: WorldPos,
    block: BlockId,
    height: i32,
    y: i64,
)
    requires
        is_edit(before, after, registry, camera, surface_span, pos, block, height),
    ensures
        block_at(after.chunks, pos) == block,
        height >= -11264,
        exists|span: (i64, i64)| #[trigger]
            call_ensures(surface_span, (pos.spec_chunk().x, pos.spec_chunk().z), span) && {
                &&& height > -11264 ==> block_at(
                    after.chunks,
                    WorldPos { x: pos.x, y: height as i64, z: pos.z },
                ).0 != 0
                &&& y > height && before.streamer.loads_layer(camera, span, y as int / 32)
                    ==> block_at(after.chunks, WorldPos { x: pos.x, y, z: pos.z }).0 == 0
            },
        after.heights.resident(pos.x as int, pos.z as int) && height > -11264
            ==> after.heights.heights.dom().contains((pos.x, pos.z)) && after.heights.heights[(
            pos.x,
            pos.z,
        )] == height,
        forall|p: WorldPos| #[trigger]
            block_at(after.chunks, p) == (if p == pos {
                block
            } else {
                block_at(before.chunks, p)
            }),
{
    let written = ResidencyView { chunks: after.chunks, ..before };
    let marked = written.height_column_step(registry, pos.x, pos.z).dirty_step(pos.spec_chunk());
    let (span, top) = choose|span: (i64, i64), top: i64|
        call_ensures(surface_span, (pos.spec_chunk().x, pos.spec_chunk().z), span)
            && #[trigger] is_window_top(marked, camera, span, pos.x, pos.z, top) && after
            == marked.column_set_step(pos.x, pos.z, top) && height == recorded_height(top);
    assert(call_ensures(surface_span, (pos.spec_chunk().x, pos.spec_chunk().z), span));
    assert(marked.chunks == after.chunks && marked.streamer == before.streamer);
    assert(block_at(marked.chunks, WorldPos { x: pos.x, y, z: pos.z }) == block_at(
        after.chunks,
        WorldPos { x: pos.x, y, z: pos.z },
    ));
    if height > -11264 {
        assert(top == height);
    }
}

/// Around an edited column every resident chunk of it is relit, and every resident
/// chunk one step to its side.
pub proof fn lemma_column_is_relit(
    v: ResidencyView,
    registry: BlockRegistry,
    x: i64,
    z: i64,
    q: ChunkPos,
    p: ChunkPos,
)
    requires
        v.chunks.dom().contains(q),
        has_sides(q),
        q.x == x as int / 32,
        q.z == z as int / 32,
        v.chunks.dom().contains(p),
        p.y == q.y,
        size(p.x - q.x) + size(p.z - q.z) <= 1,
    ensures
        v.height_column_step(registry, x, z).relight.contains(p),
        v.height_column_step(registry, x, z).dirty == v.dirty,
{
    assert(stack(v.chunks, q.x, q.z).contains(q));
    if p != q {
        let f = if p.x > q.x {
            0int
        } else if p.x < q.x {
            1
        } else if p.z > q.z {
            4
        } else {
            5
        };
        assert(p == across(q, f));
        assert(stack_and_sides(v.chunks, q.x, q.z).contains(p));
    }
}

/// The hole is a ball of six blocks around its center: every block in it is
/// cleared, and no other.
pub proof fn lemma_hole_is_a_ball(
    before: ResidencyView,
    after: ResidencyView,
    center: WorldPos,
    p: WorldPos,
)
    requires
        is_hole(before, after, center),
    ensures
        ({
            let d = (p.x - center.x) * (p.x - center.x) + (p.y - center.y) * (p.y - center.y) + (p.z
                - center.z) * (p.z - center.z);
            &&& d <= 36 ==> block_at(after.chunks, p) == BlockId(0)
            &&& d > 36 ==> block_at(after.chunks, p) == block_at(before.chunks, p)
            &&& d <= 36 && block_at(before.chunks, p).0 != 0 ==> after.dirty.contains(p.spec_chunk())
                && after.relight.contains(p.spec_chunk())
        }),
        after.chunks.dom() == before.chunks.dom(),
        before.dirty.subset_of(after.dirty),
{
    if in_hole(center, p) && block_at(before.chunks, p).0 != 0 {
        assert(is_punched(before.chunks, center, p.spec_chunk()));
        assert(with_sides(p.spec_chunk()).contains(p.spec_chunk()));
    }
}

/// What is meshed in a step is to be meshed, lit, and ready; and while any chunk is
/// certain to be, some is.
pub proof fn lemma_mesh_list_is<F: Fn(i64, i64) -> (i64, i64)>(
    v: ResidencyView,
    surface_span: F,
    camera: ChunkPos,
    r: Seq<ChunkPos>,
    p: ChunkPos,
)
    requires
        v.valid(),
        in_world(camera),
        is_mesh_list(v, surface_span, camera, r),
    ensures
        r.contains(p) ==> v.dirty.contains(p) && !v.relight.contains(p) && is_ready(
            v,
            surface_span,
            p,
            camera,
        ),
        v.dirty.contains(p) && !v.relight.contains(p) && !is_waiting(v, surface_span, p, camera)
            ==> r.len() > 0,
{
    let queue = choose|queue: Set<ChunkPos>| #[trigger]
        is_mesh_queue(v, surface_span, camera, queue) && nearest_in(
            queue,
            camera,
            MESH_CANDIDATES as int,
            r,
        );
    assert forall|s: ChunkPos| #[trigger] queue.contains(s) implies 0 <= dist(s, camera)
        <= i128::MAX by {
        assert(v.dirty.contains(s));
        lemma_near_dist(s, camera);
    }
    if r.contains(p) {
        let s = choose|s: Seq<ChunkPos>| #[trigger]
            s.no_duplicates() && s.to_set() == queue && nearest_of(
                s,
                camera,
                MESH_CANDIDATES as int,
                r,
            );
        let i = choose|i: int| 0 <= i < r.len() && r[i] == p;
        if s.len() > 0 {
            assert(s.to_set().contains(s[0]));
            assert(queue.contains(s[0]));
            lemma_some_work_is_done(queue, camera, MESH_CANDIDATES as int, r, s[0], p);
        }
    }
    if v.dirty.contains(p) && !v.relight.contains(p) && !is_waiting(v, surface_span, p, camera) {
        assert(queue.contains(p));
        lemma_some_work_is_done(queue, camera, MESH_CANDIDATES as int, r, p, p);
    }
}

/// An edited column that is resident rises to its highest solid block, if it stood
/// lower; no other column changes.
pub proof fn lemma_column_rises(
    v: ResidencyView,
    registry: BlockRegistry,
    x: i64,
    z: i64,
    h: i64,
    other: (i64, i64),
)
    requires
        highest(v.chunks, registry, x, z) == Some(h),
    ensures
        ({
            let w = v.height_column_step(registry, x, z).heights;
            &&& v.heights.resident(x as int, z as int) ==> w.height_or_least(x, z) >= h
                && w.height_or_least(x, z) >= v.heights.height_or_least(x, z)
            &&& v.heights.resident(x as int, z as int) ==> w.height_or_least(x, z) == h
                || w.height_or_least(x, z) == v.heights.height_or_least(x, z)
            &&& other != (x, z) ==> w.height_or_least(other.0, other.1) == v.heights.height_or_least(
                other.0,
                other.1,
            )
            &&& !v.heights.resident(x as int, z as int) ==> w == v.heights
        }),
{
}

} // verus!
