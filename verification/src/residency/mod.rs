//! The resident world and the work it owes: what is loaded, what must be relit
//! and what must be meshed again. [`steps`] tells what each step does chunk by
//! chunk, and [`light_flow`] how light crosses from one chunk into the next.

pub mod edit;
pub mod flow;
pub mod light_flow;
pub mod meshing;
pub mod relight;
pub mod sides;
pub mod steps;
pub mod work;

use crate::chunk::{Chunk, ChunkView};
use crate::coords::{chunk_in_range, lemma_chunk_base, ChunkPos};
use crate::heightmap::{ColumnHeights, HeightsView};
use crate::light::chunk_light::{
    chunk_column_heights, column_top, is_column_top, lemma_column_top,
};
use crate::posset::ChunkSet;
use crate::registry::BlockRegistry;
use crate::residency::sides::{across, neighbor, with_sides};
use crate::seqs::lemma_contains_push;
use crate::streaming::{Streamer, StreamerView};
use crate::world::World;
use vstd::prelude::*;

verus! {

/// What is resident and what work is owed.
#[verifier::ext_equal]
pub struct ResidencyView {
    pub chunks: Map<ChunkPos, Chunk>,
    pub heights: HeightsView,
    pub streamer: StreamerView,
    /// Chunks to mesh again.
    pub dirty: Set<ChunkPos>,
    /// Chunks whose light to compute again.
    pub relight: Set<ChunkPos>,
    /// Chunks that were meshed at least once.
    pub meshed: Set<ChunkPos>,
    /// Chunks that are being generated or read.
    pub in_flight: Set<ChunkPos>,
}

/// The resident world and the work it owes.
pub struct Residency {
    world: World,
    heights: ColumnHeights,
    streamer: Streamer,
    registry: BlockRegistry,
    dirty: ChunkSet,
    relight: ChunkSet,
    meshed_once: ChunkSet,
    in_flight: ChunkSet,
}

impl View for Residency {
    type V = ResidencyView;

    closed spec fn view(&self) -> ResidencyView {
        ResidencyView {
            chunks: self.world@,
            heights: self.heights@,
            streamer: self.streamer@,
            dirty: self.dirty@,
            relight: self.relight@,
            meshed: self.meshed_once@,
            in_flight: self.in_flight@,
        }
    }
}

/// The chunks of a vertical stack.
pub open spec fn stack(chunks: Map<ChunkPos, Chunk>, x: i64, z: i64) -> Set<ChunkPos> {
    Set::new(|p: ChunkPos| chunks.dom().contains(p) && p.x == x && p.z == z)
}

/// The chunk's blocks all have coordinates.
pub open spec fn in_world(pos: ChunkPos) -> bool {
    chunk_in_range(pos.x as int) && chunk_in_range(pos.y as int) && chunk_in_range(pos.z as int)
}

/// The height that a chunk gives a column of its footprint, if it has a solid
/// block there.
pub open spec fn rise(v: ChunkView, registry: BlockRegistry, pos: ChunkPos, x: int, z: int) -> Option<
    i64,
> {
    if x / 32 == pos.x && z / 32 == pos.z {
        match column_top(v, registry, x % 32, z % 32) {
            Some(y) => Some((pos.y * 32 + y) as i64),
            None => None,
        }
    } else {
        None
    }
}

/// The heights after every column was raised to at least what `rises` gives it.
pub open spec fn raised(h: HeightsView, rises: spec_fn(int, int) -> Option<i64>) -> HeightsView {
    HeightsView {
        heights: Map::new(
            |c: (i64, i64)|
                h.heights.dom().contains(c) || (h.resident(c.0 as int, c.1 as int) && rises(
                    c.0 as int,
                    c.1 as int,
                ) is Some),
            |c: (i64, i64)|
                {
                    let was = h.height_or_least(c.0, c.1);
                    match rises(c.0 as int, c.1 as int) {
                        Some(y) => if h.resident(c.0 as int, c.1 as int) && y > was {
                            y
                        } else {
                            was
                        },
                        None => was,
                    }
                },
        ),
        ..h
    }
}

/// Some column was raised.
pub open spec fn any_raised(h: HeightsView, rises: spec_fn(int, int) -> Option<i64>) -> bool {
    exists|x: i64, z: i64| #[trigger]
        h.resident(x as int, z as int) && (rises(x as int, z as int) matches Some(y) && y
            > h.height_or_least(x, z))
}

/// A position far from the ends of the coordinate range.
pub open spec fn near(p: ChunkPos) -> bool {
    &&& -0x1000_0000_0000_0000 <= p.x <= 0x1000_0000_0000_0000
    &&& -0x1000_0000_0000_0000 <= p.y <= 0x1000_0000_0000_0000
    &&& -0x1000_0000_0000_0000 <= p.z <= 0x1000_0000_0000_0000
}

impl ResidencyView {
    /// Chunks lie in the world, work is owed near them, and the heightmap
    /// counts no more chunks of a column than are resident.
    pub open spec fn valid(self) -> bool {
        &&& forall|p: ChunkPos| #[trigger] self.chunks.dom().contains(p) ==> in_world(p)
        &&& forall|p: ChunkPos| #[trigger] self.dirty.contains(p) ==> near(p)
        &&& forall|p: ChunkPos| #[trigger] self.relight.contains(p) ==> near(p)
        &&& self.counted()
    }

    /// The heightmap counts no more chunks of a column than are resident.
    pub open spec fn counted(self) -> bool {
        &&& self.chunks.dom().finite()
        &&& forall|col: (i64, i64)| #[trigger]
            self.heights.residents.dom().contains(col) ==> self.heights.residents[col] <= stack(
                self.chunks,
                col.0,
                col.1,
            ).len()
    }

    /// The heightmap counts every column's resident chunks.
    pub open spec fn counted_exactly(self) -> bool {
        &&& self.chunks.dom().finite()
        &&& forall|x: i64, z: i64| #[trigger]
            stack(self.chunks, x, z).len() == (if self.heights.residents.dom().contains((x, z)) {
                self.heights.residents[(x, z)]
            } else {
                0
            })
    }

    /// With other heights and more to relight.
    pub open spec fn with_heights(self, heights: HeightsView, relight: Set<ChunkPos>) -> Self {
        ResidencyView { heights, relight, ..self }
    }

    /// After a chunk was folded into the heightmap: its columns are raised, and
    /// if any was, its whole stack must be relit, since light computed while a
    /// column was unknown is stale.
    pub open spec fn heightmap_step(self, registry: BlockRegistry, pos: ChunkPos) -> Self {
        if !self.chunks.dom().contains(pos) {
            self
        } else {
            let v = self.chunks[pos]@;
            let rises = |x: int, z: int| rise(v, registry, pos, x, z);
            self.with_heights(
                raised(self.heights, rises),
                if any_raised(self.heights, rises) {
                    self.relight.union(stack(self.chunks, pos.x, pos.z))
                } else {
                    self.relight
                },
            )
        }
    }

    /// After a chunk and its neighbours were marked for meshing and relighting:
    /// border faces and border light depend on neighbours.
    pub open spec fn dirty_step(self, c: ChunkPos) -> Self {
        ResidencyView {
            dirty: self.dirty.union(with_sides(c)),
            relight: self.relight.union(with_sides(c)),
            ..self
        }
    }

    /// After a chunk was dropped.
    pub open spec fn unload_step(self, pos: ChunkPos) -> Self {
        ResidencyView {
            chunks: self.chunks.remove(pos),
            heights: if self.chunks.dom().contains(pos) {
                self.heights.after_unload(pos)
            } else {
                self.heights
            },
            streamer: StreamerView { loaded: self.streamer.loaded.remove(pos), ..self.streamer },
            dirty: self.dirty.remove(pos),
            ..self
        }
    }

    /// After the chunks around a dropped one were marked for meshing, as far as
    /// they are loaded: they may show a face now.
    pub open spec fn expose_step(self, pos: ChunkPos) -> Self {
        ResidencyView {
            dirty: self.dirty.union(with_sides(pos).remove(pos).intersect(self.streamer.loaded)),
            ..self
        }
    }

    /// After a chunk arrived. Residency is counted only for one that was not
    /// there.
    pub open spec fn arrive_step(self, pos: ChunkPos, chunk: Chunk) -> Self {
        ResidencyView {
            chunks: self.chunks.insert(pos, chunk),
            heights: if self.chunks.dom().contains(pos) {
                self.heights
            } else {
                self.heights.after_load(pos)
            },
            streamer: StreamerView { loaded: self.streamer.loaded.insert(pos), ..self.streamer },
            in_flight: self.in_flight.remove(pos),
            ..self
        }
    }

    /// After the work for chunks that are not resident was dropped.
    pub open spec fn prune_step(self) -> Self {
        ResidencyView {
            dirty: self.dirty.intersect(self.chunks.dom()),
            relight: self.relight.intersect(self.chunks.dom()),
            meshed: self.meshed.intersect(self.chunks.dom()),
            ..self
        }
    }
}

impl Residency {
    /// The parts are well formed.
    pub closed spec fn wf(self) -> bool {
        self.parts_wf() && self@.valid()
    }

    spec fn parts_wf(self) -> bool {
        self.world.wf() && self.heights.wf()
    }

    /// What is resident and owed is valid.
    pub proof fn lemma_valid(self)
        requires
            self.wf(),
        ensures
            self@.valid(),
            self@.chunks.dom().finite(),
            self@.heights.heights.dom().finite(),
    {
        self.heights.lemma_finite();
    }

    /// The block registry in use.
    pub closed spec fn blocks(self) -> BlockRegistry {
        self.registry
    }

    /// Nothing resident yet.
    pub fn new(streamer: Streamer, registry: BlockRegistry) -> (r: Self)
        ensures
            r.wf(),
            r.blocks() == registry,
            r@ == (ResidencyView {
                chunks: Map::empty(),
                heights: HeightsView { heights: Map::empty(), residents: Map::empty() },
                streamer: streamer@,
                dirty: Set::empty(),
                relight: Set::empty(),
                meshed: Set::empty(),
                in_flight: Set::empty(),
            }),
    {
        Residency {
            world: World::new(),
            heights: ColumnHeights::new(),
            streamer,
            registry,
            dirty: ChunkSet::new(),
            relight: ChunkSet::new(),
            meshed_once: ChunkSet::new(),
            in_flight: ChunkSet::new(),
        }
    }

    pub fn world(&self) -> (r: &World)
        requires
            self.wf(),
        ensures
            r.wf(),
            r@ == self@.chunks,
    {
        &self.world
    }

    pub fn heights(&self) -> (r: &ColumnHeights)
        requires
            self.wf(),
        ensures
            r.wf(),
            r@ == self@.heights,
    {
        &self.heights
    }

    pub fn streamer(&self) -> (r: &Streamer)
        ensures
            r@ == self@.streamer,
    {
        &self.streamer
    }

    pub fn registry(&self) -> (r: &BlockRegistry)
        ensures
            *r == self.blocks(),
    {
        &self.registry
    }

    /// Whether a chunk was meshed at least once.
    pub fn is_meshed(&self, p: ChunkPos) -> (r: bool)
        ensures
            r == self@.meshed.contains(p),
    {
        self.meshed_once.contains(p)
    }

    /// Mark a chunk and its six face-neighbours for meshing and relighting.
    pub fn mark_dirty_with_neighbors(&mut self, c: ChunkPos)
        requires
            in_world(c),
            old(self).wf(),
        ensures
            final(self).wf(),
            final(self).blocks() == old(self).blocks(),
            final(self)@ == old(self)@.dirty_step(c),
    {
        let ghost before = self@;
        self.dirty.insert(c);
        self.relight.insert(c);
        let ghost upto = |n: int| Set::new(
            |p: ChunkPos| p == c || exists|f: int| 0 <= f < n && p == #[trigger] across(c, f),
        );
        assert(self@.dirty =~= before.dirty.union(upto(0)));
        assert(self@.relight =~= before.relight.union(upto(0)));
        let mut face: usize = 0;
        while face < 6
            invariant
                face <= 6,
                in_world(c),
                self.parts_wf(),
                self.blocks() == old(self).blocks(),
                upto == (|n: int|
                    Set::new(
                        |p: ChunkPos|
                            p == c || exists|f: int| 0 <= f < n && p == #[trigger] across(c, f),
                    )),
                self@ == (ResidencyView {
                    dirty: before.dirty.union(upto(face as int)),
                    relight: before.relight.union(upto(face as int)),
                    ..before
                }),
            decreases 6 - face,
        {
            let n = neighbor(c, face);
            self.dirty.insert(n);
            self.relight.insert(n);
            assert(upto(face + 1) =~= upto(face as int).insert(n)) by {
                assert forall|p: ChunkPos| #[trigger] upto(face + 1).contains(p) == upto(face as int).insert(
                    n,
                ).contains(p) by {
                    if upto(face + 1).contains(p) && p != c {
                        let f = choose|f: int| 0 <= f < face + 1 && p == #[trigger] across(c, f);
                        if f < face {
                            assert(upto(face as int).contains(p));
                        }
                    }
                    if upto(face as int).contains(p) && p != c {
                        let f = choose|f: int| 0 <= f < face && p == #[trigger] across(c, f);
                        assert(0 <= f < face + 1 && p == across(c, f));
                    }
                    assert(n == across(c, face as int));
                }
            }
            assert(self@ =~= (ResidencyView {
                dirty: before.dirty.union(upto(face + 1)),
                relight: before.relight.union(upto(face + 1)),
                ..before
            }));
            face += 1;
        }
        assert(upto(6) =~= with_sides(c));
        assert(self@ =~= before.dirty_step(c));
        assert(self@.counted() == before.counted());
    }

    /// Fold a chunk's columns into the heightmap: for each column, raise the
    /// stored height to the chunk's highest solid block there. If any column
    /// rose, the chunks of the same stack are queued for relighting.
    pub fn update_heightmap_for(&mut self, pos: ChunkPos)
        requires
            old(self).wf(),
            in_world(pos),
            old(self)@.heights.heights.dom().len() + 1024 <= usize::MAX,
        ensures
            final(self).wf(),
            final(self).blocks() == old(self).blocks(),
            final(self)@ == old(self)@.heightmap_step(old(self).blocks(), pos),
    {
        let ghost before = self@;
        let ghost reg = self.registry;
        proof {
            self.heights.lemma_finite();
        }
        let tops = match self.world.chunk(pos) {
            Some(chunk) => chunk_column_heights(chunk, &self.registry),
            None => {
                return;
            },
        };
        let ghost v = before.chunks[pos]@;
        let ghost rises = |x: int, z: int| rise(v, reg, pos, x, z);
        let ghost upto = |n: int| |x: int, z: int|
            if x % 32 + 32 * (z % 32) < n {
                rises(x, z)
            } else {
                None
            };
        let origin = pos.origin();
        proof {
            lemma_chunk_base(pos.x);
            lemma_chunk_base(pos.y);
            lemma_chunk_base(pos.z);
            assert(raised(before.heights, upto(0)) =~= before.heights);
            assert(!any_raised(before.heights, upto(0)));
        }
        let mut risen: bool = false;
        let mut i: usize = 0;
        while i < 1024
            invariant
                i <= 1024,
                self.parts_wf(),
                self.registry == reg,
                in_world(pos),
                origin.x == pos.x * 32,
                origin.y == pos.y * 32,
                origin.z == pos.z * 32,
                tops.len() == 1024,
                forall|x: int, z: int|
                    0 <= x < 32 && 0 <= z < 32 ==> is_column_top(
                        v,
                        reg,
                        x,
                        z,
                        #[trigger] tops[x + z * 32],
                    ),
                before.heights.heights.dom().len() + 1024 <= usize::MAX,
                before.heights.heights.dom().finite(),
                self.heights@.heights.dom().len() <= before.heights.heights.dom().len() + i,
                rises == (|x: int, z: int| rise(v, reg, pos, x, z)),
                upto == (|n: int| |x: int, z: int|
                    if x % 32 + 32 * (z % 32) < n {
                        rises(x, z)
                    } else {
                        None
                    }),
                self.heights@ == raised(before.heights, upto(i as int)),
                risen == any_raised(before.heights, upto(i as int)),
                self@ == (ResidencyView { heights: self.heights@, ..before }),
            decreases 1024 - i,
        {
            let x: i64 = origin.x + (i % 32) as i64;
            let z: i64 = origin.z + (i / 32) as i64;
            let ghost h0 = self.heights@;
            let ghost lx = i as int % 32;
            let ghost lz = i as int / 32;
            proof {
                assert(x as int / 32 == pos.x && x as int % 32 == lx);
                assert(z as int / 32 == pos.z && z as int % 32 == lz);
                assert(tops[lx + lz * 32] == tops[i as int]);
                lemma_column_top(v, reg, lx, lz, tops[i as int]);
                assert(rises(x as int, z as int) == rise(v, reg, pos, x as int, z as int));
            }
            let ghost len0 = h0.heights.dom().len();
            proof {
                self.heights.lemma_finite();
            }
            if let Some(ly) = tops[i] {
                let y: i64 = origin.y + ly as i64;
                assert(rises(x as int, z as int) == Some(y));
                let changed: bool = self.heights.raise(x, z, y);
                if changed {
                    risen = true;
                }
                proof {
                    lemma_raise_one(before.heights, upto(i as int), upto(i + 1), x, z, y);
                }
            } else {
                proof {
                    assert(rises(x as int, z as int) is None);
                    lemma_raise_none(before.heights, upto(i as int), upto(i + 1), x, z);
                }
            }
            assert(self.heights@.heights.dom().len() <= len0 + 1) by {
                if self.heights@ != h0 {
                    assert(self.heights@.heights.dom() =~= h0.heights.dom().insert((x, z)));
                }
            }
            i += 1;
        }
        proof {
            assert forall|x: int, z: int| #[trigger] upto(1024)(x, z) == rises(x, z) by {}
            assert(upto(1024) =~= rises);
        }
        assert(self@.counted() == before.counted());
        if risen {
            self.queue_stack(pos.x, pos.z);
        }
        assert(self@ =~= before.heightmap_step(reg, pos));
        assert(self@.counted() == before.counted());
    }

    /// Queues the resident chunks of a stack for relighting.
    fn queue_stack(&mut self, x: i64, z: i64)
        requires
            old(self).wf(),
        ensures
            final(self).wf(),
            final(self).blocks() == old(self).blocks(),
            final(self)@ == (ResidencyView {
                relight: old(self)@.relight.union(stack(old(self)@.chunks, x, z)),
                ..old(self)@
            }),
    {
        let ghost before = self@;
        let positions = self.world.chunk_positions();
        let ghost upto = |n: int| Set::new(
            |p: ChunkPos| positions@.take(n).contains(p) && p.x == x && p.z == z,
        );
        let mut i: usize = 0;
        assert(self@.relight =~= before.relight.union(upto(0)));
        while i < positions.len()
            invariant
                i <= positions.len(),
                self.parts_wf(),
                self.blocks() == old(self).blocks(),
                upto == (|n: int|
                    Set::new(
                        |p: ChunkPos| positions@.take(n).contains(p) && p.x == x && p.z == z,
                    )),
                self@ == (ResidencyView {
                    relight: before.relight.union(upto(i as int)),
                    ..before
                }),
            decreases positions.len() - i,
        {
            let p = positions[i];
            if p.x == x && p.z == z {
                self.relight.insert(p);
            }
            proof {
                assert(positions@.take(i + 1) =~= positions@.take(i as int).push(p));
                lemma_contains_push(positions@.take(i as int), p);
            }
            assert(self@ =~= (ResidencyView {
                relight: before.relight.union(upto(i + 1)),
                ..before
            }));
            i += 1;
        }
        assert(positions@.take(i as int) =~= positions@);
        assert(upto(i as int) =~= stack(before.chunks, x, z));
        assert(self@.counted() == before.counted());
    }
}

/// Raising one more column.
proof fn lemma_raise_one(
    h: HeightsView,
    before: spec_fn(int, int) -> Option<i64>,
    after: spec_fn(int, int) -> Option<i64>,
    x: i64,
    z: i64,
    y: i64,
)
    requires
        before(x as int, z as int) is None,
        after(x as int, z as int) == Some(y),
        forall|a: i64, b: i64|
            (a, b) != (x, z) ==> #[trigger] after(a as int, b as int) == before(
                a as int,
                b as int,
            ) || !h.resident(a as int, b as int),
    ensures
        raised(h, before).after_raise(x, z, y) == raised(h, after),
        any_raised(h, after) == (any_raised(h, before) || (h.resident(x as int, z as int) && y
            > raised(h, before).height_or_least(x, z))),
{
    let r = raised(h, before);
    assert(r.resident(x as int, z as int) == h.resident(x as int, z as int));
    assert(r.after_raise(x, z, y) =~= raised(h, after)) by {
        assert forall|c: (i64, i64)|
            #![trigger raised(h, after).heights.dom().contains(c)]
            r.after_raise(x, z, y).heights.dom().contains(c) == raised(
                h,
                after,
            ).heights.dom().contains(c) && (raised(h, after).heights.dom().contains(c)
                ==> r.after_raise(x, z, y).heights[c] == raised(h, after).heights[c]) by {
            let t = after(c.0 as int, c.1 as int);
        }
        assert(r.after_raise(x, z, y).heights =~= raised(h, after).heights);
    }
    if any_raised(h, before) {
        let (a, b) = choose|a: i64, b: i64| #[trigger]
            h.resident(a as int, b as int) && (before(a as int, b as int) matches Some(t) && t
                > h.height_or_least(a, b));
        assert(after(a as int, b as int) == before(a as int, b as int));
        assert(h.resident(a as int, b as int));
    }
    if any_raised(h, after) {
        let (a, b) = choose|a: i64, b: i64| #[trigger]
            h.resident(a as int, b as int) && (after(a as int, b as int) matches Some(t) && t
                > h.height_or_least(a, b));
        if (a, b) != (x, z) {
            assert(after(a as int, b as int) == before(a as int, b as int));
            assert(h.resident(a as int, b as int));
        }
    }
    if h.resident(x as int, z as int) && y > h.height_or_least(x, z) {
        assert(h.resident(x as int, z as int));
    }
}

proof fn lemma_raise_none(
    h: HeightsView,
    before: spec_fn(int, int) -> Option<i64>,
    after: spec_fn(int, int) -> Option<i64>,
    x: i64,
    z: i64,
)
    requires
        before(x as int, z as int) is None,
        after(x as int, z as int) is None,
        forall|a: i64, b: i64|
            (a, b) != (x, z) ==> #[trigger] after(a as int, b as int) == before(
                a as int,
                b as int,
            ) || !h.resident(a as int, b as int),
    ensures
        raised(h, before) == raised(h, after),
        any_raised(h, after) == any_raised(h, before),
{
    assert(raised(h, before) =~= raised(h, after)) by {
        assert forall|c: (i64, i64)|
            #![trigger raised(h, after).heights.dom().contains(c)]
            raised(h, before).heights.dom().contains(c) == raised(
                h,
                after,
            ).heights.dom().contains(c) && (raised(h, after).heights.dom().contains(c) ==> raised(
                h,
                before,
            ).heights[c] == raised(h, after).heights[c]) by {
            let t = after(c.0 as int, c.1 as int);
        }
        assert(raised(h, before).heights =~= raised(h, after).heights);
    }
    if any_raised(h, before) {
        let (a, b) = choose|a: i64, b: i64| #[trigger]
            h.resident(a as int, b as int) && (before(a as int, b as int) matches Some(t) && t
                > h.height_or_least(a, b));
        assert(after(a as int, b as int) == before(a as int, b as int));
        assert(h.resident(a as int, b as int));
    }
    if any_raised(h, after) {
        let (a, b) = choose|a: i64, b: i64| #[trigger]
            h.resident(a as int, b as int) && (after(a as int, b as int) matches Some(t) && t
                > h.height_or_least(a, b));
        assert(after(a as int, b as int) == before(a as int, b as int));
        assert(h.resident(a as int, b as int));
    }
}

} // verus!
