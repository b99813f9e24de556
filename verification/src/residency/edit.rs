//! Player edits: breaking and placing blocks, and what follows for heights,
//! light and meshes.

use crate::arith::{div_floor, max_i64};
use crate::block::BlockId;
use crate::chunk::Chunk;
use crate::coords::{ChunkPos, LocalPos, WorldPos};
use crate::heightmap::HeightsView;
use crate::light::chunk_light::{column_top, top_below};
use crate::planet::{WORLD_Y_MAX_CHUNK, WORLD_Y_MIN_BLOCKS, WORLD_Y_MIN_CHUNK};
use crate::posset::ChunkSet;
use crate::raycast::RayHit;
use crate::registry::BlockRegistry;
use crate::residency::sides::{across, neighbor, with_sides};
use crate::residency::{in_world, near, rise, stack, Residency, ResidencyView};
use crate::seqs::lemma_contains_push;
use crate::world::{block_at, block_set, lemma_local_in_range, World};
use vstd::prelude::*;

verus! {

/// The highest solid block of a column over the resident chunks.
pub open spec fn is_highest(
    chunks: Map<ChunkPos, Chunk>,
    registry: BlockRegistry,
    x: i64,
    z: i64,
    h: i64,
) -> bool {
    &&& exists|p: ChunkPos|
        chunks.dom().contains(p) && #[trigger] rise(
            chunks[p]@,
            registry,
            p,
            x as int,
            z as int,
        ) == Some(h)
    &&& forall|p: ChunkPos| #[trigger]
        chunks.dom().contains(p) ==> (rise(chunks[p]@, registry, p, x as int, z as int) matches Some(
            y,
        ) ==> y <= h)
}

/// The highest solid block of a column over the resident chunks, if any.
pub open spec fn highest(
    chunks: Map<ChunkPos, Chunk>,
    registry: BlockRegistry,
    x: i64,
    z: i64,
) -> Option<i64> {
    if exists|h: i64| is_highest(chunks, registry, x, z, h) {
        Some(choose|h: i64| is_highest(chunks, registry, x, z, h))
    } else {
        None
    }
}

/// The face looks along X or Z.
pub open spec fn is_side(face: int) -> bool {
    face == 0 || face == 1 || face == 4 || face == 5
}

/// The resident chunks of a stack and those beside them.
pub open spec fn stack_and_sides(chunks: Map<ChunkPos, Chunk>, x: i64, z: i64) -> Set<ChunkPos> {
    Set::new(
        |p: ChunkPos|
            stack(chunks, x, z).contains(p) || (chunks.dom().contains(p) && exists|q: ChunkPos, f: int|
                stack(chunks, x, z).contains(q) && is_side(f) && p == #[trigger] across(q, f)),
    )
}

/// The top block of a column over the layers that are loaded for it:
/// `i64::MIN` if all of it is air.
pub open spec fn is_window_top(
    v: ResidencyView,
    camera: ChunkPos,
    span: (i64, i64),
    x: i64,
    z: i64,
    top: i64,
) -> bool {
    &&& top == i64::MIN || (v.streamer.loads_layer(camera, span, top as int / 32) && block_at(
        v.chunks,
        WorldPos { x, y: top, z },
    ).0 != 0)
    &&& forall|y: i64|
        y > top && v.streamer.loads_layer(camera, span, y as int / 32) ==> #[trigger] block_at(
            v.chunks,
            WorldPos { x, y, z },
        ).0 == 0
}

impl ResidencyView {
    /// After the region lit by a column was marked for relighting, and the
    /// heightmap raised to what was built there. A column never sinks here:
    /// below the surface, light comes down from the chunk above, and a dug
    /// shaft must not count as open.
    pub open spec fn height_column_step(self, registry: BlockRegistry, x: i64, z: i64) -> Self {
        ResidencyView {
            heights: match highest(self.chunks, registry, x, z) {
                Some(h) => self.heights.after_raise(x, z, h),
                None => self.heights,
            },
            relight: self.relight.union(
                stack_and_sides(self.chunks, (x as int / 32) as i64, (z as int / 32) as i64),
            ),
            ..self
        }
    }

    /// After a column's height was replaced, if a chunk of it is resident.
    pub open spec fn column_set_step(self, x: i64, z: i64, top: i64) -> Self {
        ResidencyView {
            heights: if self.heights.resident(x as int, z as int) {
                HeightsView { heights: self.heights.heights.insert((x, z), top), ..self.heights }
            } else {
                self.heights
            },
            ..self
        }
    }
}

/// What a column's height is recorded as, no lower than the world.
pub open spec fn recorded_height(top: i64) -> int {
    if top < WORLD_Y_MIN_BLOCKS {
        WORLD_Y_MIN_BLOCKS as int
    } else {
        top as int
    }
}

/// A block was written, and the heights, light and meshes that follow were
/// brought up to date or marked.
pub open spec fn is_edit<F: Fn(i64, i64) -> (i64, i64)>(
    before: ResidencyView,
    after: ResidencyView,
    registry: BlockRegistry,
    camera: ChunkPos,
    surface_span: F,
    pos: WorldPos,
    block: BlockId,
    height: i32,
) -> bool {
    let written = ResidencyView { chunks: after.chunks, ..before };
    let marked = written.height_column_step(registry, pos.x, pos.z).dirty_step(pos.spec_chunk());
    &&& block_set(before.chunks, after.chunks, pos, block)
    &&& forall|p: WorldPos| #[trigger]
        block_at(after.chunks, p) == (if p == pos {
            block
        } else {
            block_at(before.chunks, p)
        })
    &&& exists|span: (i64, i64), top: i64|
        call_ensures(surface_span, (pos.spec_chunk().x, pos.spec_chunk().z), span)
            && #[trigger] is_window_top(marked, camera, span, pos.x, pos.z, top) && after
            == marked.column_set_step(pos.x, pos.z, top) && height == recorded_height(top)
}

/// An edit shows at once: its chunk and those across its faces are relit and
/// meshed again, and so is the light of the whole stack.
pub proof fn lemma_edit_marks<F: Fn(i64, i64) -> (i64, i64)>(
    before: ResidencyView,
    after: ResidencyView,
    registry: BlockRegistry,
    camera: ChunkPos,
    surface_span: F,
    pos: WorldPos,
    block: BlockId,
    height: i32,
)
    requires
        is_edit(before, after, registry, camera, surface_span, pos, block, height),
    ensures
        with_sides(pos.spec_chunk()).subset_of(after.dirty),
        with_sides(pos.spec_chunk()).subset_of(after.relight),
        stack(after.chunks, pos.spec_chunk().x, pos.spec_chunk().z).subset_of(after.relight),
        before.dirty.subset_of(after.dirty),
        before.relight.subset_of(after.relight),
{
}

/// Marking an edited column never lowers its height.
pub proof fn lemma_column_never_sinks(v: ResidencyView, registry: BlockRegistry, x: i64, z: i64)
    ensures
        forall|a: i64, b: i64| #[trigger]
            v.height_column_step(registry, x, z).heights.height_or_least(a, b)
                >= v.heights.height_or_least(a, b),
{
}

/// The cell is within the sphere that is cleared around a block.
pub open spec fn in_hole(center: WorldPos, p: WorldPos) -> bool {
    let dx = p.x - center.x;
    let dy = p.y - center.y;
    let dz = p.z - center.z;
    dx * dx + dy * dy + dz * dz <= PUNCH_RADIUS * PUNCH_RADIUS
}

/// Radius of the sphere that is cleared, in blocks.
pub const PUNCH_RADIUS: i64 = 6;

/// A chunk of which a block within the sphere is cleared.
pub open spec fn is_punched(chunks: Map<ChunkPos, Chunk>, center: WorldPos, c: ChunkPos) -> bool {
    exists|p: WorldPos| #[trigger]
        in_hole(center, p) && block_at(chunks, p).0 != 0 && p.spec_chunk() == c
}

impl Residency {
    /// Mark the region lit by an edited column for relighting: the column's
    /// chunks and those beside them, and raise the heightmap if the edit added
    /// solid above the recorded surface.
    pub fn recompute_height_column(&mut self, wx: i64, wz: i64)
        requires
            old(self).wf(),
            old(self)@.heights.heights.dom().len() < usize::MAX,
        ensures
            final(self).wf(),
            final(self).blocks() == old(self).blocks(),
            final(self)@ == old(self)@.height_column_step(old(self).blocks(), wx, wz),
    {
        let ghost before = self@;
        let ghost reg = self.registry;
        let cx: i64 = div_floor(wx, 32);
        let cz: i64 = div_floor(wz, 32);
        let top = highest_solid(&self.world, &self.registry, wx, wz);
        if let Some(h) = top {
            self.heights.raise(wx, wz, h);
        }
        let ghost mid = self@;
        let column = self.stack_chunks(cx, cz);
        let ghost st = stack(before.chunks, cx, cz);
        let ghost upto = |n: int| Set::new(
            |p: ChunkPos|
                column@.take(n).contains(p) || (before.chunks.dom().contains(p) && exists|
                    q: ChunkPos,
                    f: int,
                |
                    column@.take(n).contains(q) && is_side(f) && p == #[trigger] across(q, f)),
        );
        assert(mid.relight.union(upto(0)) =~= mid.relight);
        let mut i: usize = 0;
        while i < column.len()
            invariant
                i <= column.len(),
                self.parts_wf(),
                before.valid(),
                self.blocks() == old(self).blocks(),
                mid.chunks == before.chunks,
                forall|p: ChunkPos| #[trigger] column@.contains(p) ==> before.chunks.dom().contains(
                    p,
                ),
                upto == (|n: int|
                    Set::new(
                        |p: ChunkPos|
                            column@.take(n).contains(p) || (before.chunks.dom().contains(p)
                                && exists|q: ChunkPos, f: int|
                                column@.take(n).contains(q) && is_side(f) && p == #[trigger] across(
                                    q,
                                    f,
                                )),
                    )),
                self@ == (ResidencyView { relight: mid.relight.union(upto(i as int)), ..mid }),
            decreases column.len() - i,
        {
            let p = column[i];
            assert(column@.contains(p));
            assert(in_world(p));
            let ghost now = self@.relight;
            self.relight.insert(p);
            self.queue_if_resident(neighbor(p, 0));
            self.queue_if_resident(neighbor(p, 1));
            self.queue_if_resident(neighbor(p, 4));
            self.queue_if_resident(neighbor(p, 5));
            proof {
                let s = column@.take(i as int);
                assert(column@.take(i + 1) =~= s.push(p));
                lemma_contains_push(s, p);
                assert forall|q: ChunkPos| #[trigger]
                    upto(i + 1).contains(q) == (upto(i as int).contains(q) || q == p || (
                    before.chunks.dom().contains(q) && (q == across(p, 0) || q == across(p, 1) || q
                        == across(p, 4) || q == across(p, 5)))) by {
                    let t = column@.take(i + 1);
                    if upto(i as int).contains(q) && !s.contains(q) {
                        let (o, f) = choose|o: ChunkPos, f: int|
                            s.contains(o) && is_side(f) && q == #[trigger] across(o, f);
                        assert(t.contains(o));
                        assert(t.contains(o) && is_side(f) && q == across(o, f));
                    }
                    if upto(i + 1).contains(q) && !t.contains(q) {
                        let (o, f) = choose|o: ChunkPos, f: int|
                            t.contains(o) && is_side(f) && q == #[trigger] across(o, f);
                        if o != p {
                            assert(s.contains(o) && is_side(f) && q == across(o, f));
                        }
                    }
                    assert(t.contains(p));
                    if q == across(p, 0) {
                        assert(is_side(0) && q == across(p, 0));
                    }
                    if q == across(p, 1) {
                        assert(is_side(1) && q == across(p, 1));
                    }
                    if q == across(p, 4) {
                        assert(is_side(4) && q == across(p, 4));
                    }
                    if q == across(p, 5) {
                        assert(is_side(5) && q == across(p, 5));
                    }
                }
                assert(self@.relight =~= mid.relight.union(upto(i + 1))) by {
                    assert forall|q: ChunkPos| #[trigger]
                        self@.relight.contains(q) == mid.relight.union(upto(i + 1)).contains(q) by {
                        assert(upto(i + 1).contains(q) == (upto(i as int).contains(q) || q == p || (
                        before.chunks.dom().contains(q) && (q == across(p, 0) || q == across(p, 1)
                            || q == across(p, 4) || q == across(p, 5)))));
                    }
                }
            }
            i += 1;
        }
        proof {
            assert(column@.take(i as int) =~= column@);
            assert(upto(i as int) =~= stack_and_sides(before.chunks, cx, cz)) by {
                assert forall|p: ChunkPos| #[trigger]
                    upto(i as int).contains(p) == stack_and_sides(before.chunks, cx, cz).contains(
                        p,
                    ) by {
                    assert(column@.contains(p) == st.contains(p));
                    if upto(i as int).contains(p) && !column@.contains(p) {
                        let (q, f) = choose|q: ChunkPos, f: int|
                            column@.contains(q) && is_side(f) && p == #[trigger] across(q, f);
                        assert(st.contains(q) && is_side(f) && p == across(q, f));
                    }
                    if stack_and_sides(before.chunks, cx, cz).contains(p) && !st.contains(p) {
                        let (q, f) = choose|q: ChunkPos, f: int|
                            st.contains(q) && is_side(f) && p == #[trigger] across(q, f);
                        assert(column@.contains(q) && is_side(f) && p == across(q, f));
                    }
                }
            }
            assert(self@ =~= before.height_column_step(reg, wx, wz));
            assert(self@.counted() == before.counted());
            assert forall|p: ChunkPos| #[trigger] self@.relight.contains(p) implies near(p) by {
                if !before.relight.contains(p) {
                    assert(before.chunks.dom().contains(p));
                }
            }
        }
    }

    fn queue_if_resident(&mut self, p: ChunkPos)
        requires
            old(self).parts_wf(),
        ensures
            final(self).parts_wf(),
            final(self).blocks() == old(self).blocks(),
            final(self)@ == (ResidencyView {
                relight: if old(self)@.chunks.dom().contains(p) {
                    old(self)@.relight.insert(p)
                } else {
                    old(self)@.relight
                },
                ..old(self)@
            }),
    {
        if self.world.chunk(p).is_some() {
            self.relight.insert(p);
        }
    }

    fn stack_chunks(&self, x: i64, z: i64) -> (r: Vec<ChunkPos>)
        requires
            self.parts_wf(),
        ensures
            forall|p: ChunkPos| #[trigger]
                r@.contains(p) == stack(self@.chunks, x, z).contains(p),
    {
        let all = self.world.chunk_positions();
        let mut out: Vec<ChunkPos> = Vec::new();
        let mut i: usize = 0;
        while i < all.len()
            invariant
                i <= all.len(),
                forall|p: ChunkPos| #[trigger]
                    out@.contains(p) == (all@.take(i as int).contains(p) && p.x == x && p.z == z),
            decreases all.len() - i,
        {
            let p = all[i];
            proof {
                assert(all@.take(i + 1) =~= all@.take(i as int).push(p));
                lemma_contains_push(all@.take(i as int), p);
                lemma_contains_push(out@, p);
            }
            if p.x == x && p.z == z {
                out.push(p);
            }
            i += 1;
        }
        assert(all@.take(i as int) =~= all@);
        out
    }
}

/// The highest solid block of a column over the resident chunks.
pub fn highest_solid(world: &World, registry: &BlockRegistry, x: i64, z: i64) -> (r: Option<i64>)
    requires
        world.wf(),
        forall|p: ChunkPos| #[trigger] world@.dom().contains(p) ==> in_world(p),
    ensures
        r == highest(world@, *registry, x, z),
{
    let cx: i64 = div_floor(x, 32);
    let cz: i64 = div_floor(z, 32);
    let entries = world.chunks();
    let ghost keys = entries@.map_values(|e: (ChunkPos, Chunk)| e.0);
    let mut best: Option<i64> = None;
    let mut i: usize = 0;
    while i < entries.len()
        invariant
            i <= entries.len(),
            cx == x as int / 32,
            cz == z as int / 32,
            forall|p: ChunkPos| #[trigger] world@.dom().contains(p) ==> in_world(p),
            forall|k: int|
                0 <= k < entries.len() ==> world@.dom().contains((#[trigger] entries[k]).0)
                    && world@[entries[k].0] == entries[k].1,
            best matches Some(h) ==> exists|p: ChunkPos|
                world@.dom().contains(p) && #[trigger] rise(
                    world@[p]@,
                    *registry,
                    p,
                    x as int,
                    z as int,
                ) == Some(h),
            forall|k: int|
                0 <= k < i ==> (rise(
                    (#[trigger] entries[k]).1@,
                    *registry,
                    entries[k].0,
                    x as int,
                    z as int,
                ) matches Some(y) ==> (best matches Some(h) && y <= h)),
        decreases entries.len() - i,
    {
        let p = entries[i].0;
        let ghost e = entries[i as int];
        assert(world@.dom().contains(e.0));
        assert(in_world(p));
        if p.x == cx && p.z == cz {
            let top = top_of_column(&entries[i].1, registry, x, z);
            if let Some(ly) = top {
                let y: i64 = p.y * 32 + ly as i64;
                assert(rise(world@[p]@, *registry, p, x as int, z as int) == Some(y));
                best = match best {
                    Some(h) => Some(max_i64(h, y)),
                    None => Some(y),
                };
            }
        }
        i += 1;
    }
    proof {
        match best {
            Some(h) => {
                assert forall|p: ChunkPos| #[trigger] world@.dom().contains(p) implies (rise(
                    world@[p]@,
                    *registry,
                    p,
                    x as int,
                    z as int,
                ) matches Some(y) ==> y <= h) by {
                    assert(keys.contains(p));
                    let k = keys.index_of(p);
                    assert(entries[k].0 == p);
                }
                assert(is_highest(world@, *registry, x, z, h));
                let g = choose|g: i64| is_highest(world@, *registry, x, z, g);
                let p = choose|p: ChunkPos|
                    world@.dom().contains(p) && #[trigger] rise(
                        world@[p]@,
                        *registry,
                        p,
                        x as int,
                        z as int,
                    ) == Some(h);
                let q = choose|q: ChunkPos|
                    world@.dom().contains(q) && #[trigger] rise(
                        world@[q]@,
                        *registry,
                        q,
                        x as int,
                        z as int,
                    ) == Some(g);
                assert(world@.dom().contains(p) && world@.dom().contains(q));
                assert(g == h);
            },
            None => {
                if exists|h: i64| is_highest(world@, *registry, x, z, h) {
                    let h = choose|h: i64| is_highest(world@, *registry, x, z, h);
                    let p = choose|p: ChunkPos|
                        world@.dom().contains(p) && #[trigger] rise(
                            world@[p]@,
                            *registry,
                            p,
                            x as int,
                            z as int,
                        ) == Some(h);
                    assert(keys.contains(p));
                    let k = keys.index_of(p);
                    assert(entries[k].0 == p);
                }
            },
        }
    }
    best
}

/// The height of the highest solid block of one column of a chunk.
fn top_of_column(chunk: &Chunk, registry: &BlockRegistry, x: i64, z: i64) -> (r: Option<u8>)
    ensures
        r == column_top(chunk@, *registry, x as int % 32, z as int % 32),
        r matches Some(y) ==> y < 32,
{
    let p = WorldPos::new(x, 0, z).local();
    let lx: u8 = p.x();
    let lz: u8 = p.z();
    let mut y: u8 = 32;
    while y > 0
        invariant
            y <= 32,
            lx == x as int % 32,
            lz == z as int % 32,
            column_top(chunk@, *registry, x as int % 32, z as int % 32) == top_below(
                chunk@,
                *registry,
                x as int % 32,
                z as int % 32,
                y - 1,
            ),
        decreases y,
    {
        y = y - 1;
        let c = LocalPos::new(lx, y, lz);
        if registry.is_solid(chunk.get(c)) {
            return Some(y);
        }
    }
    None
}

impl Residency {
    /// Replace a column's height with a scan from the top down of the layers
    /// loaded for it: those around its surface and those around the camera.
    /// Returns the height to record for coarse terrain, no lower than the
    /// world.
    pub fn recompute_column_height<F: Fn(i64, i64) -> (i64, i64)>(
        &mut self,
        x: i64,
        z: i64,
        camera: ChunkPos,
        surface_span: &F,
    ) -> (r: i32)
        requires
            old(self).wf(),
            old(self)@.heights.heights.dom().len() < usize::MAX,
            forall|x: i64, z: i64| #[trigger] call_requires(surface_span, (x, z)),
        ensures
            final(self).wf(),
            final(self).blocks() == old(self).blocks(),
            exists|span: (i64, i64), top: i64|
                call_ensures(surface_span, ((x as int / 32) as i64, (z as int / 32) as i64), span)
                    && #[trigger] is_window_top(old(self)@, camera, span, x, z, top)
                    && final(self)@ == old(self)@.column_set_step(x, z, top) && r
                    == recorded_height(top),
    {
        let ghost before = self@;
        let cx: i64 = div_floor(x, 32);
        let cz: i64 = div_floor(z, 32);
        let span = surface_span(cx, cz);
        let window = self.streamer.column_window(camera, span);
        let layers = window.layers();
        assert forall|y: int| #[trigger]
            before.streamer.loads_layer(camera, span, y) <==> exists|i: int|
                0 <= i < layers.len() && #[trigger] layers[i] == y by {
            assert(window.has(y) <==> before.streamer.loads_layer(camera, span, y));
        }
        let mut top: i64 = i64::MIN;
        let mut i: usize = layers.len();
        while i > 0 && top == i64::MIN
            invariant
                i <= layers.len(),
                self.world.wf(),
                self.world@ == before.chunks,
                forall|y: int| #[trigger]
                    before.streamer.loads_layer(camera, span, y) <==> exists|i: int|
                        0 <= i < layers.len() && #[trigger] layers[i] == y,
                forall|i: int, j: int|
                    0 <= i < j < layers.len() ==> #[trigger] layers[i] < #[trigger] layers[j],
                top == i64::MIN ==> forall|k: int, y: i64|
                    i <= k < layers.len() && y as int / 32 == #[trigger] layers[k]
                        ==> #[trigger] block_at(before.chunks, WorldPos { x, y, z }).0 == 0,
                top != i64::MIN ==> is_window_top(before, camera, span, x, z, top)
                    && WORLD_Y_MIN_BLOCKS <= top <= i32::MAX,
            decreases i,
        {
            i = i - 1;
            let cy: i64 = layers[i];
            proof {
                assert(before.streamer.loads_layer(camera, span, cy as int));
            }
            let mut y: i64 = (cy + 1) * 32;
            while y > cy * 32 && top == i64::MIN
                invariant
                    i < layers.len(),
                    cy == layers[i as int],
                    WORLD_Y_MIN_CHUNK <= cy < WORLD_Y_MAX_CHUNK,
                    cy * 32 <= y <= (cy + 1) * 32,
                    self.world.wf(),
                    self.world@ == before.chunks,
                    before.streamer.loads_layer(camera, span, cy as int),
                    forall|y: int| #[trigger]
                        before.streamer.loads_layer(camera, span, y) <==> exists|i: int|
                            0 <= i < layers.len() && #[trigger] layers[i] == y,
                    forall|i: int, j: int|
                        0 <= i < j < layers.len() ==> #[trigger] layers[i] < #[trigger] layers[j],
                    forall|k: int, y: i64|
                        i < k < layers.len() && y as int / 32 == #[trigger] layers[k]
                            ==> #[trigger] block_at(before.chunks, WorldPos { x, y, z }).0 == 0,
                    top == i64::MIN ==> forall|w: i64|
                        y <= w < (cy + 1) * 32 ==> #[trigger] block_at(
                            before.chunks,
                            WorldPos { x, y: w, z },
                        ).0 == 0,
                    top != i64::MIN ==> is_window_top(before, camera, span, x, z, top)
                        && WORLD_Y_MIN_BLOCKS <= top <= i32::MAX,
                decreases y - cy * 32,
            {
                y = y - 1;
                if !self.world.get_block(WorldPos::new(x, y, z)).is_air() {
                    top = y;
                    proof {
                        assert(y as int / 32 == cy);
                        assert forall|w: i64|
                            w > y && before.streamer.loads_layer(
                                camera,
                                span,
                                w as int / 32,
                            ) implies #[trigger] block_at(
                            before.chunks,
                            WorldPos { x, y: w, z },
                        ).0 == 0 by {
                            let k = choose|k: int|
                                0 <= k < layers.len() && #[trigger] layers[k] == w as int / 32;
                            if k < i {
                                assert(layers[k] < layers[i as int]);
                            } else if k == i {
                                assert(w < (cy + 1) * 32);
                            }
                        }
                    }
                }
            }
            proof {
                if top == i64::MIN {
                    assert forall|k: int, y: i64|
                        i <= k < layers.len() && y as int / 32
                            == #[trigger] layers[k] implies #[trigger] block_at(
                        before.chunks,
                        WorldPos { x, y, z },
                    ).0 == 0 by {
                        if k == i {
                            assert(cy * 32 <= y < (cy + 1) * 32);
                        }
                    }
                }
            }
        }
        proof {
            if top == i64::MIN {
                assert(is_window_top(before, camera, span, x, z, top)) by {
                    assert forall|y: i64|
                        y > top && before.streamer.loads_layer(
                            camera,
                            span,
                            y as int / 32,
                        ) implies #[trigger] block_at(before.chunks, WorldPos { x, y, z }).0
                        == 0 by {
                        let k = choose|k: int|
                            0 <= k < layers.len() && #[trigger] layers[k] == y as int / 32;
                        assert(layers[k] == y as int / 32);
                    }
                }
            }
        }
        self.heights.set(x, z, top);
        proof {
            assert(self@ =~= before.column_set_step(x, z, top));
            assert(self@.counted() == before.counted());
        }
        max_i64(top, WORLD_Y_MIN_BLOCKS) as i32
    }

    /// Write a block, raise the heightmap if it grew, mark what is near for
    /// relighting and meshing, and replace the column's height.
    fn edit<F: Fn(i64, i64) -> (i64, i64)>(
        &mut self,
        pos: WorldPos,
        block: BlockId,
        camera: ChunkPos,
        surface_span: &F,
    ) -> (r: i32)
        requires
            old(self).wf(),
            old(self)@.heights.heights.dom().len() + 1 < usize::MAX,
            forall|x: i64, z: i64| #[trigger] call_requires(surface_span, (x, z)),
        ensures
            final(self).wf(),
            final(self).blocks() == old(self).blocks(),
            is_edit(
                old(self)@,
                final(self)@,
                old(self).blocks(),
                camera,
                *surface_span,
                pos,
                block,
                r,
            ),
    {
        let ghost before = self@;
        let ghost reg = self.registry;
        proof {
            self.heights.lemma_finite();
        }
        let c = pos.chunk();
        assert(in_world(c));
        self.world.set_block(pos, block);
        let ghost written = self@;
        proof {
            assert(written =~= (ResidencyView { chunks: written.chunks, ..before }));
            lemma_write_valid(before, written, pos, block);
        }
        self.recompute_height_column(pos.x, pos.z);
        proof {
            let h = highest(written.chunks, reg, pos.x, pos.z);
            assert(self@.heights.heights.dom().subset_of(
                before.heights.heights.dom().insert((pos.x, pos.z)),
            ));
            vstd::set_lib::lemma_len_subset(
                self@.heights.heights.dom(),
                before.heights.heights.dom().insert((pos.x, pos.z)),
            );
        }
        self.mark_dirty_with_neighbors(c);
        let ghost marked = self@;
        assert(marked == written.height_column_step(reg, pos.x, pos.z).dirty_step(c));
        self.recompute_column_height(pos.x, pos.z, camera, surface_span)
    }

    /// Break the targeted block. Does nothing if nothing is targeted or the
    /// cell is empty. Returns the cell and the height to record for its column.
    pub fn break_block<F: Fn(i64, i64) -> (i64, i64)>(
        &mut self,
        targeted: Option<RayHit>,
        camera: ChunkPos,
        surface_span: &F,
    ) -> (r: Option<(WorldPos, i32)>)
        requires
            old(self).wf(),
            old(self)@.heights.heights.dom().len() + 1 < usize::MAX,
            forall|x: i64, z: i64| #[trigger] call_requires(surface_span, (x, z)),
        ensures
            final(self).wf(),
            final(self).blocks() == old(self).blocks(),
            r is Some <==> (targeted matches Some(hit) && block_at(
                old(self)@.chunks,
                hit.block_pos,
            ).0 != 0),
            r is None ==> final(self)@ == old(self)@,
            r matches Some((pos, h)) ==> pos == targeted->0.block_pos && is_edit(
                old(self)@,
                final(self)@,
                old(self).blocks(),
                camera,
                *surface_span,
                pos,
                BlockId(0),
                h,
            ),
    {
        let hit = match targeted {
            Some(hit) => hit,
            None => {
                return None;
            },
        };
        let pos = hit.block_pos;
        if self.world.get_block(pos).is_air() {
            return None;
        }
        let h: i32 = self.edit(pos, BlockId::air(), camera, surface_span);
        Some((pos, h))
    }

    /// Place a block against the targeted face. Does nothing if nothing is
    /// targeted, if the cell is occupied, or if `blocked` (the cell overlaps
    /// the player). Returns the cell and the height to record for its column.
    pub fn place_block<F: Fn(i64, i64) -> (i64, i64)>(
        &mut self,
        targeted: Option<RayHit>,
        selected: BlockId,
        blocked: bool,
        camera: ChunkPos,
        surface_span: &F,
    ) -> (r: Option<(WorldPos, i32)>)
        requires
            old(self).wf(),
            old(self)@.heights.heights.dom().len() + 1 < usize::MAX,
            forall|x: i64, z: i64| #[trigger] call_requires(surface_span, (x, z)),
        ensures
            final(self).wf(),
            final(self).blocks() == old(self).blocks(),
            r is Some <==> !blocked && (targeted matches Some(hit) && (hit.place_pos matches Some(
                pos,
            ) && block_at(old(self)@.chunks, pos).0 == 0)),
            r is None ==> final(self)@ == old(self)@,
            r matches Some((pos, h)) ==> targeted->0.place_pos == Some(pos) && is_edit(
                old(self)@,
                final(self)@,
                old(self).blocks(),
                camera,
                *surface_span,
                pos,
                selected,
                h,
            ),
    {
        let hit = match targeted {
            Some(hit) => hit,
            None => {
                return None;
            },
        };
        let pos = match hit.place_pos {
            Some(pos) => pos,
            None => {
                return None;
            },
        };
        if !self.world.get_block(pos).is_air() {
            return None;
        }
        if blocked {
            return None;
        }
        let h: i32 = self.edit(pos, selected, camera, surface_span);
        Some((pos, h))
    }
}

proof fn lemma_write_valid(
    before: ResidencyView,
    after: ResidencyView,
    pos: WorldPos,
    block: BlockId,
)
    requires
        before.valid(),
        after == (ResidencyView { chunks: after.chunks, ..before }),
        block_set(before.chunks, after.chunks, pos, block),
    ensures
        after.valid(),
{
    let c = pos.spec_chunk();
    assert(in_world(c));
    assert(before.chunks.dom().subset_of(after.chunks.dom()));
    assert(after.chunks.dom().subset_of(before.chunks.dom().insert(c)));
    vstd::set_lib::lemma_len_subset(after.chunks.dom(), before.chunks.dom().insert(c));
    assert forall|col: (i64, i64)| #[trigger]
        after.heights.residents.dom().contains(col) implies after.heights.residents[col] <= stack(
        after.chunks,
        col.0,
        col.1,
    ).len() by {
        let a = stack(before.chunks, col.0, col.1);
        let b = stack(after.chunks, col.0, col.1);
        assert(b.subset_of(after.chunks.dom()));
        vstd::set_lib::lemma_len_subset(b, after.chunks.dom());
        assert(a.subset_of(b));
        vstd::set_lib::lemma_len_subset(a, b);
        assert(before.heights.residents.dom().contains(col));
    }
    assert forall|p: ChunkPos| #[trigger] after.chunks.dom().contains(p) implies in_world(p) by {
        assert(before.chunks.dom().insert(c).contains(p));
    }
}

/// The chunks of which a block within the sphere is cleared, and those across
/// their faces.
pub open spec fn punched_sides(chunks: Map<ChunkPos, Chunk>, center: WorldPos) -> Set<ChunkPos> {
    Set::new(
        |q: ChunkPos|
            exists|c: ChunkPos| #[trigger] is_punched(chunks, center, c) && with_sides(c).contains(q),
    )
}

/// The sphere was cleared: its cells are air and no other changed, the chunks
/// touched count as edited and keep their light, and they are marked with their
/// neighbours.
pub open spec fn is_hole(before: ResidencyView, after: ResidencyView, center: WorldPos) -> bool {
    &&& after == (ResidencyView {
        chunks: after.chunks,
        dirty: before.dirty.union(punched_sides(before.chunks, center)),
        relight: before.relight.union(punched_sides(before.chunks, center)),
        ..before
    })
    &&& after.chunks.dom() == before.chunks.dom()
    &&& forall|p: WorldPos| #[trigger]
        block_at(after.chunks, p) == (if in_hole(center, p) {
            BlockId(0)
        } else {
            block_at(before.chunks, p)
        })
    &&& forall|c: ChunkPos| #[trigger]
        before.chunks.dom().contains(c) ==> if is_punched(before.chunks, center, c) {
            after.chunks[c]@.modified && after.chunks[c]@.light == before.chunks[c]@.light
        } else {
            after.chunks[c] == before.chunks[c]
        }
}

/// The turn of a cell in the walk over the sphere.
spec fn turn(center: WorldPos, p: WorldPos) -> int {
    ((p.y - center.y + 6) * 13 + (p.z - center.z + 6)) * 13 + (p.x - center.x + 6)
}

/// The chunk had a block cleared before turn `n`.
spec fn touched_before(chunks: Map<ChunkPos, Chunk>, center: WorldPos, n: int, c: ChunkPos) -> bool {
    exists|p: WorldPos| #[trigger]
        in_hole(center, p) && turn(center, p) < n && block_at(chunks, p).0 != 0 && p.spec_chunk()
            == c
}

proof fn lemma_in_hole(center: WorldPos, p: WorldPos)
    requires
        in_hole(center, p),
    ensures
        -6 <= p.x - center.x <= 6,
        -6 <= p.y - center.y <= 6,
        -6 <= p.z - center.z <= 6,
        0 <= turn(center, p) < 2197,
{
    let dx = p.x - center.x;
    let dy = p.y - center.y;
    let dz = p.z - center.z;
    assert(-6 <= dx <= 6 && -6 <= dy <= 6 && -6 <= dz <= 6) by (nonlinear_arith)
        requires
            dx * dx + dy * dy + dz * dz <= 36,
    ;
}

impl Residency {
    /// Clear a sphere of blocks around a cell, and mark the chunks touched and
    /// their neighbours for relighting and meshing.
    pub fn debug_punch_hole(&mut self, center: WorldPos)
        requires
            old(self).wf(),
            i64::MIN + PUNCH_RADIUS <= center.x <= i64::MAX - PUNCH_RADIUS,
            i64::MIN + PUNCH_RADIUS <= center.y <= i64::MAX - PUNCH_RADIUS,
            i64::MIN + PUNCH_RADIUS <= center.z <= i64::MAX - PUNCH_RADIUS,
        ensures
            final(self).wf(),
            final(self).blocks() == old(self).blocks(),
            is_hole(old(self)@, final(self)@, center),
    {
        let ghost before = self@;
        let mut touched = ChunkSet::new();
        proof {
            assert forall|p: WorldPos| in_hole(center, p) implies #[trigger] turn(center, p) >= 0 by {
                lemma_in_hole(center, p);
            }
        }
        let mut n: i64 = 0;
        while n < 2197
            invariant
                0 <= n <= 2197,
                i64::MIN + PUNCH_RADIUS <= center.x <= i64::MAX - PUNCH_RADIUS,
                i64::MIN + PUNCH_RADIUS <= center.y <= i64::MAX - PUNCH_RADIUS,
                i64::MIN + PUNCH_RADIUS <= center.z <= i64::MAX - PUNCH_RADIUS,
                self.wf(),
                self.blocks() == old(self).blocks(),
                self@ == (ResidencyView { chunks: self@.chunks, ..before }),
                self@.chunks.dom() == before.chunks.dom(),
                forall|p: WorldPos| #[trigger]
                    block_at(self@.chunks, p) == (if in_hole(center, p) && turn(center, p) < n {
                        BlockId(0)
                    } else {
                        block_at(before.chunks, p)
                    }),
                forall|c: ChunkPos| #[trigger]
                    touched@.contains(c) <==> touched_before(before.chunks, center, n as int, c),
                forall|c: ChunkPos| #[trigger]
                    touched@.contains(c) ==> before.chunks.dom().contains(c),
                forall|c: ChunkPos| #[trigger]
                    before.chunks.dom().contains(c) ==> if touched@.contains(c) {
                        self@.chunks[c]@.modified && self@.chunks[c]@.light
                            == before.chunks[c]@.light
                    } else {
                        self@.chunks[c] == before.chunks[c]
                    },
            decreases 2197 - n,
        {
            let dx: i64 = n % 13 - 6;
            let dz: i64 = n / 13 % 13 - 6;
            let dy: i64 = n / 169 - 6;
            proof {
                assert(dx * dx <= 36 && dy * dy <= 36 && dz * dz <= 36) by (nonlinear_arith)
                    requires
                        -6 <= dx <= 6,
                        -6 <= dy <= 6,
                        -6 <= dz <= 6,
                ;
                assert(dx * dx >= 0 && dy * dy >= 0 && dz * dz >= 0) by (nonlinear_arith);
            }
            let pos = WorldPos::new(center.x + dx, center.y + dy, center.z + dz);
            let ghost now = self@;
            let ghost seen = touched@;
            proof {
                assert(turn(center, pos) == n);
                assert forall|p: WorldPos| in_hole(center, p) && turn(center, p) == n implies p
                    == pos by {
                    lemma_in_hole(center, p);
                }
                assert forall|p: WorldPos| #[trigger] in_hole(center, p) implies (turn(center, p)
                    < n + 1 <==> turn(center, p) < n || p == pos) by {}
            }
            if dx * dx + dy * dy + dz * dz <= PUNCH_RADIUS * PUNCH_RADIUS
                && !self.world.get_block(pos).is_air() {
                self.world.set_block(pos, BlockId::air());
                touched.insert(pos.chunk());
                proof {
                    let c = pos.spec_chunk();
                    assert(self@ =~= (ResidencyView { chunks: self@.chunks, ..now }));
                    lemma_write_valid(now, self@, pos, BlockId(0));
                    assert(now.chunks.dom().contains(c));
                    assert(self@.chunks.dom() =~= before.chunks.dom());
                    assert(in_hole(center, pos));
                    let v = now.chunks[c]@;
                    lemma_local_in_range(pos);
                    assert(block_at(now.chunks, pos).0 != 0);
                    assert(!(v.uniform() && v.palette[0] == BlockId(0))) by {
                        if v.uniform() && v.palette[0] == BlockId(0) {
                            assert(v.indices[pos.spec_local().idx()] == 0);
                        }
                    }
                    assert(touched_before(before.chunks, center, n + 1, c));
                }
            }
            proof {
                assert forall|c: ChunkPos| #[trigger]
                    touched@.contains(c) <==> touched_before(
                        before.chunks,
                        center,
                        n + 1,
                        c,
                    ) by {
                    if touched_before(before.chunks, center, n as int, c) {
                        let p = choose|p: WorldPos| #[trigger]
                            in_hole(center, p) && turn(center, p) < n && block_at(
                                before.chunks,
                                p,
                            ).0 != 0 && p.spec_chunk() == c;
                        assert(in_hole(center, p) && turn(center, p) < n + 1);
                    }
                    if touched_before(before.chunks, center, n + 1, c) && !touched_before(
                        before.chunks,
                        center,
                        n as int,
                        c,
                    ) {
                        let p = choose|p: WorldPos| #[trigger]
                            in_hole(center, p) && turn(center, p) < n + 1 && block_at(
                                before.chunks,
                                p,
                            ).0 != 0 && p.spec_chunk() == c;
                        assert(p == pos);
                    }
                    assert(seen.contains(c) <==> touched_before(
                        before.chunks,
                        center,
                        n as int,
                        c,
                    ));
                }
            }
            n += 1;
        }
        let ghost cleared = self@;
        let list = touched.list();
        let ghost upto = |k: int| Set::new(
            |q: ChunkPos|
                exists|c: ChunkPos| #[trigger] list@.take(k).contains(c) && with_sides(c).contains(q),
        );
        proof {
            assert(cleared.dirty.union(upto(0)) =~= cleared.dirty);
            assert(cleared.relight.union(upto(0)) =~= cleared.relight);
        }
        let mut i: usize = 0;
        while i < list.len()
            invariant
                i <= list.len(),
                self.wf(),
                self.blocks() == old(self).blocks(),
                cleared.valid(),
                forall|c: ChunkPos| #[trigger] list@.contains(c) ==> cleared.chunks.dom().contains(
                    c,
                ),
                upto == (|k: int|
                    Set::new(
                        |q: ChunkPos|
                            exists|c: ChunkPos| #[trigger]
                                list@.take(k).contains(c) && with_sides(c).contains(q),
                    )),
                self@ == (ResidencyView {
                    dirty: cleared.dirty.union(upto(i as int)),
                    relight: cleared.relight.union(upto(i as int)),
                    ..cleared
                }),
            decreases list.len() - i,
        {
            let c = list[i];
            assert(list@.contains(c));
            self.mark_dirty_with_neighbors(c);
            proof {
                let s = list@.take(i as int);
                assert(list@.take(i + 1) =~= s.push(c));
                lemma_contains_push(s, c);
                assert(upto(i + 1) =~= upto(i as int).union(with_sides(c))) by {
                    assert forall|q: ChunkPos| #[trigger]
                        upto(i + 1).contains(q) == upto(i as int).union(with_sides(c)).contains(
                            q,
                        ) by {
                        if upto(i as int).contains(q) {
                            let d = choose|d: ChunkPos| #[trigger]
                                s.contains(d) && with_sides(d).contains(q);
                            assert(list@.take(i + 1).contains(d));
                        }
                        if with_sides(c).contains(q) {
                            assert(list@.take(i + 1).contains(c));
                        }
                    }
                }
                assert(self@ =~= (ResidencyView {
                    dirty: cleared.dirty.union(upto(i + 1)),
                    relight: cleared.relight.union(upto(i + 1)),
                    ..cleared
                }));
            }
            i += 1;
        }
        proof {
            assert(list@.take(i as int) =~= list@);
            assert forall|c: ChunkPos| #[trigger]
                list@.contains(c) == is_punched(before.chunks, center, c) by {
                if is_punched(before.chunks, center, c) {
                    let p = choose|p: WorldPos| #[trigger]
                        in_hole(center, p) && block_at(before.chunks, p).0 != 0 && p.spec_chunk()
                            == c;
                    lemma_in_hole(center, p);
                    assert(touched_before(before.chunks, center, 2197, c));
                }
                assert(touched@.contains(c) <==> touched_before(before.chunks, center, 2197, c));
            }
            assert(upto(i as int) =~= punched_sides(before.chunks, center)) by {
                assert forall|q: ChunkPos| #[trigger]
                    upto(i as int).contains(q) == punched_sides(before.chunks, center).contains(
                        q,
                    ) by {
                    if upto(i as int).contains(q) {
                        let d = choose|d: ChunkPos| #[trigger]
                            list@.take(i as int).contains(d) && with_sides(d).contains(q);
                        assert(is_punched(before.chunks, center, d));
                    }
                    if punched_sides(before.chunks, center).contains(q) {
                        let d = choose|d: ChunkPos| #[trigger]
                            is_punched(before.chunks, center, d) && with_sides(d).contains(q);
                        assert(list@.take(i as int).contains(d));
                    }
                }
            }
            assert forall|p: WorldPos| in_hole(center, p) implies #[trigger] turn(center, p)
                < 2197 by {
                lemma_in_hole(center, p);
            }
            assert forall|c: ChunkPos| #[trigger] before.chunks.dom().contains(c) implies if is_punched(
                before.chunks,
                center,
                c,
            ) {
                self@.chunks[c]@.modified && self@.chunks[c]@.light == before.chunks[c]@.light
            } else {
                self@.chunks[c] == before.chunks[c]
            } by {
                assert(list@.contains(c) == touched@.contains(c));
            }
            assert(self@ =~= (ResidencyView {
                chunks: self@.chunks,
                dirty: before.dirty.union(punched_sides(before.chunks, center)),
                relight: before.relight.union(punched_sides(before.chunks, center)),
                ..before
            }));
        }
    }
}

} // verus!
