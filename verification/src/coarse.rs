//! The coarse terrain around the camera: which LOD nodes are wanted, queued,
//! being built, drawn, or kept on screen until their replacement is there.

use crate::arith::{div_floor, lemma_div_floor, lemma_div_is, mod_floor};
use crate::coords::ChunkPos;
use crate::lod::{lemma_closest_approach, levels_valid, node_before, node_covers, node_over, LevelCfg, LodNodeId, LodRing, RingView};
use crate::order::{dist_lt, in_order, sort_keys, DistKey};
use crate::posset::NodeSet;
use crate::seqs::lemma_contains_push;
use vstd::prelude::*;

verus! {

/// How many nodes may start being built per step.
pub const LOD_SPAWN_BUDGET: usize = 48;

/// For how many steps a retired node stays on screen at most.
pub const LOD_RETIRE_MAX_TICKS: u32 = 60;

/// The furthest a ring may reach, in chunks.
pub const MAX_REACH_CHUNKS: i64 = 0x100_0000_0000;

/// The coarse terrain's bookkeeping. Each node is in at most one of the sets.
#[verifier::ext_equal]
pub struct CoarseView {
    /// The ring, with the nodes that are loaded.
    pub ring: RingView,
    /// Nodes waiting to be built.
    pub pending: Set<LodNodeId>,
    /// Nodes being built.
    pub in_flight: Set<LodNodeId>,
    /// Nodes no longer wanted that stay on screen until what replaces them is
    /// there.
    pub retired: Set<LodNodeId>,
    /// For how many steps the retired nodes have been held.
    pub age: int,
}

/// The camera is far from the ends of the coordinate range.
pub open spec fn central(cam: ChunkPos) -> bool {
    &&& -0x100_0000_0000_0000 <= cam.x <= 0x100_0000_0000_0000
    &&& -0x100_0000_0000_0000 <= cam.z <= 0x100_0000_0000_0000
}

/// Whether the camera is far from the ends of the coordinate range.
pub fn is_central(cam: ChunkPos) -> (r: bool)
    ensures
        r == central(cam),
{
    let far: i64 = 0x100_0000_0000_0000;
    -far <= cam.x && cam.x <= far && -far <= cam.z && cam.z <= far
}

/// The node is one of the ring's, and its origin is far from the ends of the
/// coordinate range.
pub open spec fn placed(levels: Seq<LevelCfg>, n: LodNodeId) -> bool {
    &&& n.level < levels.len()
    &&& -0x200_0000_0000_0000 <= n.x * levels[n.level as int].stride <= 0x200_0000_0000_0000
    &&& -0x200_0000_0000_0000 <= n.z * levels[n.level as int].stride <= 0x200_0000_0000_0000
}

/// The snapped center of the ring for a camera.
pub open spec fn center_of(ring: RingView, cam: ChunkPos) -> (i64, i64) {
    (ring.snapped(cam.x as int) as i64, ring.snapped(cam.z as int) as i64)
}

/// What the ring asks to load: nothing while the snapped center stays, else
/// every node of the annuli that is not loaded and whose region no nodes that
/// stay hold.
pub open spec fn loads(ring: RingView, cam: ChunkPos) -> Set<LodNodeId> {
    Set::new(
        |n: LodNodeId| ring.last_center != Some(center_of(ring, cam)) && ring.wants(n, cam),
    )
}

/// What the ring asks to unload: nothing while the snapped center stays, else
/// every loaded node beyond its annulus and the slack.
pub open spec fn unloads(ring: RingView, cam: ChunkPos) -> Set<LodNodeId> {
    Set::new(
        |n: LodNodeId| ring.last_center != Some(center_of(ring, cam)) && ring.drops(n, cam),
    )
}

/// A number of blocks in chunks, rounded toward zero.
pub open spec fn toward_zero(b: int) -> int {
    if b >= 0 {
        b / 32
    } else {
        -(-b / 32)
    }
}

impl CoarseView {
    /// Each node is in at most one state, and all can be placed.
    pub open spec fn valid(self) -> bool {
        &&& self.ring.valid()
        &&& self.ring.levels.last().outer_chunks <= MAX_REACH_CHUNKS
        &&& forall|n: LodNodeId| #[trigger]
            self.ring.loaded.contains(n) ==> placed(self.ring.levels, n) && !self.pending.contains(n)
                && !self.in_flight.contains(n) && !self.retired.contains(n)
        &&& forall|n: LodNodeId| #[trigger]
            self.pending.contains(n) ==> placed(self.ring.levels, n) && !self.in_flight.contains(n)
                && !self.retired.contains(n)
        &&& forall|n: LodNodeId| #[trigger]
            self.in_flight.contains(n) ==> placed(self.ring.levels, n) && !self.retired.contains(n)
        &&& forall|n: LodNodeId| #[trigger]
            self.retired.contains(n) ==> placed(self.ring.levels, n)
        &&& 0 <= self.age <= LOD_RETIRE_MAX_TICKS
        &&& self.retired != Set::<LodNodeId>::empty() ==> self.age < LOD_RETIRE_MAX_TICKS
    }

    /// The node is on screen.
    pub open spec fn drawn(self, n: LodNodeId) -> bool {
        self.ring.loaded.contains(n) || self.retired.contains(n)
    }

    /// The node is drawn or on its way.
    pub open spec fn has(self, n: LodNodeId) -> bool {
        self.ring.loaded.contains(n) || self.pending.contains(n) || self.in_flight.contains(n)
    }

    /// After nodes were retired: work on them is cancelled, and they stay on
    /// screen. The clock starts when the first ones are.
    pub open spec fn retire(self, gone: Set<LodNodeId>) -> Self {
        CoarseView {
            ring: RingView { loaded: self.ring.loaded.difference(gone), ..self.ring },
            pending: self.pending.difference(gone),
            in_flight: self.in_flight.difference(gone),
            retired: self.retired.union(gone),
            age: if self.retired =~= Set::<LodNodeId>::empty() && !(gone =~= Set::empty()) {
                0
            } else {
                self.age
            },
        }
    }

    /// After nodes were asked for: one still on screen is taken over as it is,
    /// one queued or being built is left alone, and any other is queued.
    pub open spec fn request(self, wanted: Set<LodNodeId>) -> Self {
        CoarseView {
            ring: RingView {
                loaded: self.ring.loaded.union(wanted.intersect(self.retired)),
                ..self.ring
            },
            pending: self.pending.union(
                wanted.difference(self.retired).difference(self.in_flight),
            ),
            retired: self.retired.difference(wanted),
            ..self
        }
    }

    /// After the ring was moved to the camera.
    pub open spec fn tick(self, cam: ChunkPos) -> Self {
        let moved = CoarseView {
            ring: RingView { last_center: Some(center_of(self.ring, cam)), ..self.ring },
            ..self
        };
        moved.retire(unloads(self.ring, cam)).request(loads(self.ring, cam))
    }

    /// After a node was built; one that was cancelled meanwhile is ignored.
    pub open spec fn built(self, n: LodNodeId) -> Self {
        if self.in_flight.contains(n) {
            CoarseView {
                ring: RingView { loaded: self.ring.loaded.insert(n), ..self.ring },
                in_flight: self.in_flight.remove(n),
                ..self
            }
        } else {
            self
        }
    }

    /// After nodes were taken off the queue to be built.
    pub open spec fn start(self, batch: Seq<LodNodeId>) -> Self {
        CoarseView {
            pending: self.pending.difference(batch.to_set()),
            in_flight: self.in_flight.union(batch.to_set()),
            ..self
        }
    }

    /// The work that replaces the retired nodes has landed, or they have been
    /// held for long enough.
    pub open spec fn flushes(self) -> bool {
        &&& !(self.retired =~= Set::<LodNodeId>::empty())
        &&& (self.pending =~= Set::<LodNodeId>::empty() && self.in_flight =~= Set::<
            LodNodeId,
        >::empty()) || self.age + 1 >= LOD_RETIRE_MAX_TICKS
    }

    /// After a step of the clock.
    pub open spec fn flush(self) -> Self {
        if self.retired =~= Set::<LodNodeId>::empty() {
            self
        } else {
            CoarseView {
                age: self.age + 1,
                retired: if self.flushes() {
                    Set::empty()
                } else {
                    self.retired
                },
                ..self
            }
        }
    }

    /// The nodes over a chunk column, one per level, that the ring has asked
    /// for.
    pub open spec fn stale(self, x: i64, z: i64) -> Set<LodNodeId> {
        Set::new(|n: LodNodeId| self.is_over(n, x, z) && self.has(n))
    }

    /// The node is its level's over a chunk column.
    pub open spec fn is_over(self, n: LodNodeId, x: i64, z: i64) -> bool {
        &&& n.level < self.ring.levels.len()
        &&& n == node_over(
            self.ring.levels[n.level as int],
            n.level as int,
            x as int,
            z as int,
        )
    }

    /// After the nodes over a chunk column were asked for anew. Nodes that the
    /// ring never asked for are left alone: one built there would cover the
    /// full-resolution terrain.
    pub open spec fn invalidate(self, x: i64, z: i64) -> Self {
        self.invalidated(self.stale(x, z))
    }

    /// After the given nodes were asked for anew.
    pub open spec fn invalidated(self, stale: Set<LodNodeId>) -> Self {
        CoarseView {
            ring: RingView { loaded: self.ring.loaded.difference(stale), ..self.ring },
            pending: self.pending.union(stale),
            in_flight: self.in_flight.difference(stale),
            ..self
        }
    }

    /// After everything was dropped.
    pub open spec fn reset(self) -> Self {
        CoarseView {
            ring: RingView { loaded: Set::empty(), last_center: None, ..self.ring },
            pending: Set::empty(),
            in_flight: Set::empty(),
            retired: Set::empty(),
            age: 0,
        }
    }
}

/// After the ring was moved to a new center, every node of the annuli is drawn
/// or on its way, or loaded nodes of other levels cover the whole of its region.
pub proof fn lemma_tick_covers(v: CoarseView, cam: ChunkPos, n: LodNodeId)
    requires
        v.valid(),
        v.ring.last_center != Some(center_of(v.ring, cam)),
        v.ring.in_annulus(n, cam, 0),
    ensures
        v.tick(cam).has(n) || forall|x: int, z: int| #[trigger]
            node_covers(v.ring.levels[n.level as int], n, x, z) ==> v.tick(cam).ring.covered(x, z),
{
    assert(loads(v.ring, cam).contains(n) == v.ring.wants(n, cam));
    assert(unloads(v.ring, cam).contains(n) == v.ring.drops(n, cam));
    let w = v.tick(cam);
    if !w.has(n) {
        assert(v.ring.taken(n, cam));
        assert forall|x: int, z: int| #[trigger]
            node_covers(v.ring.levels[n.level as int], n, x, z) implies w.ring.covered(x, z) by {
            let k = choose|k: LodNodeId|
                v.ring.keeps(k, cam) && #[trigger] node_covers(
                    v.ring.levels[k.level as int],
                    k,
                    x,
                    z,
                );
            assert(unloads(v.ring, cam).contains(k) == v.ring.drops(k, cam));
            assert(w.ring.loaded.contains(k));
            assert(node_covers(w.ring.levels[k.level as int], k, x, z));
        }
    }
}

/// With nothing on its way, moving the ring and building all that it queues
/// carries out the ring's update: handover is then exact.
pub proof fn lemma_tick_carried_out(v: CoarseView, cam: ChunkPos)
    requires
        v.valid(),
        v.pending == Set::<LodNodeId>::empty(),
        v.in_flight == Set::<LodNodeId>::empty(),
    ensures
        v.tick(cam).ring.loaded.union(v.tick(cam).pending) == v.ring.carried_out(cam).loaded,
        v.tick(cam).in_flight == Set::<LodNodeId>::empty(),
{
    let w = v.tick(cam);
    let after = v.ring.carried_out(cam).loaded;
    assert forall|n: LodNodeId| #[trigger] w.ring.loaded.union(w.pending).contains(n)
        == after.contains(n) by {
        assert(loads(v.ring, cam).contains(n) == (v.ring.last_center != Some(
            center_of(v.ring, cam),
        ) && v.ring.wants(n, cam)));
        assert(unloads(v.ring, cam).contains(n) == (v.ring.last_center != Some(
            center_of(v.ring, cam),
        ) && v.ring.drops(n, cam)));
    }
    assert(w.ring.loaded.union(w.pending) =~= after);
    assert(w.in_flight =~= Set::<LodNodeId>::empty());
}

/// Nothing that is on screen goes away when the ring moves: what is no longer
/// wanted is retired.
pub proof fn lemma_tick_keeps_drawn(v: CoarseView, cam: ChunkPos, n: LodNodeId)
    requires
        v.drawn(n),
    ensures
        v.tick(cam).drawn(n),
{
}

/// A retired node that is wanted again is taken over and not built anew.
pub proof fn lemma_tick_adopts(v: CoarseView, cam: ChunkPos, n: LodNodeId)
    requires
        v.valid(),
        v.retired.contains(n),
        loads(v.ring, cam).contains(n),
    ensures
        v.tick(cam).ring.loaded.contains(n),
        !v.tick(cam).pending.contains(n),
        !v.tick(cam).in_flight.contains(n),
{
}

/// A step of the clock drops retired nodes only once their replacements have
/// landed or they have been held for as long as allowed, and nothing else.
pub proof fn lemma_flush_drops(v: CoarseView, n: LodNodeId)
    requires
        v.valid(),
        v.drawn(n),
        !v.flush().drawn(n),
    ensures
        v.retired.contains(n),
        (v.pending =~= Set::<LodNodeId>::empty() && v.in_flight =~= Set::<LodNodeId>::empty())
            || v.age + 1 == LOD_RETIRE_MAX_TICKS,
{
}

/// The steps of the coarse terrain keep each node in at most one state.
pub proof fn lemma_states_kept(v: CoarseView, cam: ChunkPos, n: LodNodeId, x: i64, z: i64)
    requires
        v.valid(),
        central(cam),
    ensures
        v.tick(cam).valid(),
        v.built(n).valid(),
        v.flush().valid(),
        v.invalidate(x, z).valid(),
        v.reset().valid(),
{
    lemma_tick_valid(v, cam);
    lemma_flush_valid(v);
    assert(v.built(n).valid());
    assert(v.invalidate(x, z).valid());
    assert(v.reset().valid());
}

proof fn lemma_flush_valid(v: CoarseView)
    requires
        v.valid(),
    ensures
        v.flush().valid(),
{
    let w = v.flush();
    if v.retired =~= Set::<LodNodeId>::empty() {
    } else {
        assert(v.age < LOD_RETIRE_MAX_TICKS);
        assert forall|n: LodNodeId| #[trigger] w.retired.contains(n) implies v.retired.contains(
            n,
        ) by {}
    }
}

/// The nodes that a camera asks for can be placed.
proof fn lemma_wanted_placed(ring: RingView, cam: ChunkPos, n: LodNodeId)
    requires
        ring.valid(),
        ring.levels.last().outer_chunks <= MAX_REACH_CHUNKS,
        central(cam),
        ring.in_annulus(n, cam, 0),
    ensures
        placed(ring.levels, n),
{
    lemma_reach(ring, cam);
    lemma_outer_last(ring.levels, n.level as int);
}

proof fn lemma_outer_last(levels: Seq<LevelCfg>, i: int)
    requires
        levels_valid(levels),
        0 <= i < levels.len(),
    ensures
        levels[i].outer_chunks <= levels.last().outer_chunks,
    decreases levels.len() - i,
{
    if i + 1 < levels.len() {
        lemma_outer_last(levels, i + 1);
        assert(levels[i + 1].inner_chunks == levels[i].outer_chunks);
        assert(levels[i + 1].inner_chunks < levels[i + 1].outer_chunks);
    }
}

/// The ring's squares fit the coordinates.
proof fn lemma_reach(ring: RingView, cam: ChunkPos)
    requires
        ring.valid(),
        ring.levels.last().outer_chunks <= MAX_REACH_CHUNKS,
        central(cam),
    ensures
        ring.reaches(cam),
        1 <= ring.coarsest() <= MAX_REACH_CHUNKS,
        cam.x - ring.coarsest() < ring.snapped(cam.x as int) <= cam.x,
        cam.z - ring.coarsest() < ring.snapped(cam.z as int) <= cam.z,
{
    let last = ring.levels.last();
    assert(ring.levels[ring.levels.len() - 1] == last);
    let s = ring.coarsest();
    let o = last.outer_chunks as int;
    lemma_div_floor(o, s);
    assert(o >= s) by (nonlinear_arith)
        requires
            o > 0,
            s > 0,
            o == (o / s) * s,
    ;
    lemma_div_floor(cam.x as int, s);
    lemma_div_floor(cam.z as int, s);
}

proof fn lemma_tick_valid(v: CoarseView, cam: ChunkPos)
    requires
        v.valid(),
        central(cam),
    ensures
        v.tick(cam).valid(),
{
    let w = v.tick(cam);
    assert forall|n: LodNodeId| #[trigger] loads(v.ring, cam).contains(n) implies placed(
        v.ring.levels,
        n,
    ) && !v.ring.loaded.contains(n) by {
        lemma_wanted_placed(v.ring, cam, n);
    }
    assert forall|n: LodNodeId| #[trigger] w.ring.loaded.contains(n) implies placed(
        w.ring.levels,
        n,
    ) && !w.pending.contains(n) && !w.in_flight.contains(n) && !w.retired.contains(n) by {
        assert(v.ring.loaded.contains(n) || v.retired.contains(n) || unloads(
            v.ring,
            cam,
        ).contains(n));
    }
    assert forall|n: LodNodeId| #[trigger] w.pending.contains(n) implies placed(w.ring.levels, n)
        && !w.in_flight.contains(n) && !w.retired.contains(n) by {
        if !v.pending.contains(n) {
            assert(loads(v.ring, cam).contains(n));
        }
    }
    assert forall|n: LodNodeId| #[trigger] w.in_flight.contains(n) implies placed(w.ring.levels, n)
        && !w.retired.contains(n) by {
        assert(v.in_flight.contains(n));
    }
    assert forall|n: LodNodeId| #[trigger] w.retired.contains(n) implies placed(
        w.ring.levels,
        n,
    ) by {
        assert(v.retired.contains(n) || unloads(v.ring, cam).contains(n));
    }
    if w.retired != Set::<LodNodeId>::empty() && v.retired =~= Set::<LodNodeId>::empty() {
        if unloads(v.ring, cam) =~= Set::<LodNodeId>::empty() {
            assert(w.retired =~= Set::<LodNodeId>::empty());
        }
    }
}

/// Between two moves of the ring no node is forgotten: what was drawn or on its
/// way still is.
pub proof fn lemma_coverage_kept(
    v: CoarseView,
    n: LodNodeId,
    m: LodNodeId,
    batch: Seq<LodNodeId>,
    x: i64,
    z: i64,
)
    requires
        v.has(n),
    ensures
        v.built(m).has(n),
        v.start(batch).has(n),
        v.flush().has(n),
        v.invalidate(x, z).has(n),
{
}

/// How near a node's middle is to the camera, then its level and place.
pub open spec fn build_key(levels: Seq<LevelCfg>, n: LodNodeId, cam: ChunkPos) -> DistKey {
    let s = levels[n.level as int].stride as int;
    let dx = n.x * s + s / 2 - cam.x;
    let dz = n.z * s + s / 2 - cam.z;
    ((dx * dx + dz * dz) as i128, n.level as i64, n.x, n.z)
}

/// `r` is the first of the nodes in the order in which they are built, at most
/// `budget` of them.
pub open spec fn is_next(
    levels: Seq<LevelCfg>,
    pending: Set<LodNodeId>,
    cam: ChunkPos,
    budget: int,
    r: Seq<LodNodeId>,
) -> bool {
    &&& r.len() <= budget
    &&& r.no_duplicates()
    &&& forall|n: LodNodeId| #[trigger] r.contains(n) ==> pending.contains(n)
    &&& forall|i: int, j: int|
        0 <= i < j < r.len() ==> dist_lt(
            build_key(levels, #[trigger] r[i], cam),
            build_key(levels, #[trigger] r[j], cam),
        )
    &&& forall|n: LodNodeId, i: int|
        #![trigger pending.contains(n), r[i]]
        pending.contains(n) && !r.contains(n) && 0 <= i < r.len() ==> dist_lt(
            build_key(levels, r[i], cam),
            build_key(levels, n, cam),
        )
    &&& r.len() < budget ==> forall|n: LodNodeId| #[trigger] pending.contains(n) ==> r.contains(n)
}

/// Bookkeeping of the coarse terrain.
pub struct Coarse {
    ring: LodRing,
    pending: NodeSet,
    in_flight: NodeSet,
    retired: NodeSet,
    age: u32,
}

impl View for Coarse {
    type V = CoarseView;

    closed spec fn view(&self) -> CoarseView {
        CoarseView {
            ring: self.ring@,
            pending: self.pending@,
            in_flight: self.in_flight@,
            retired: self.retired@,
            age: self.age as int,
        }
    }
}

impl Coarse {
    /// Each node is in at most one state.
    pub closed spec fn wf(self) -> bool {
        self@.valid()
    }

    /// A well-formed value's nodes are in at most one state each.
    pub proof fn lemma_wf(self)
        requires
            self.wf(),
        ensures
            self@.valid(),
    {
    }

    /// Nothing asked for yet.
    pub fn new(ring: LodRing) -> (r: Self)
        requires
            ring@.loaded =~= Set::<LodNodeId>::empty(),
            ring@.levels.last().outer_chunks <= MAX_REACH_CHUNKS,
        ensures
            r.wf(),
            r@ == (CoarseView {
                ring: ring@,
                pending: Set::empty(),
                in_flight: Set::empty(),
                retired: Set::empty(),
                age: 0,
            }),
    {
        proof {
            use_type_invariant(&ring);
        }
        Coarse {
            ring,
            pending: NodeSet::new(),
            in_flight: NodeSet::new(),
            retired: NodeSet::new(),
            age: 0,
        }
    }

    pub fn ring(&self) -> (r: &LodRing)
        ensures
            r@ == self@.ring,
    {
        &self.ring
    }

    /// The chunk at the origin of a node: its corner, at the foot of the world.
    pub fn origin_chunk(&self, n: LodNodeId) -> (r: ChunkPos)
        requires
            placed(self@.ring.levels, n),
        ensures
            r.x == n.x * self@.ring.levels[n.level as int].stride,
            r.z == n.z * self@.ring.levels[n.level as int].stride,
            r.y == toward_zero(self@.ring.band.0 as int),
            node_covers(self@.ring.levels[n.level as int], n, r.x as int, r.z as int),
    {
        let (ox, oz) = self.ring.node_origin_chunk_xz(n);
        let base: i64 = self.ring.world_y_min();
        let mut y: i64 = div_floor(base, 32);
        if base < 0 && mod_floor(base, 32) != 0 {
            y = y + 1;
        }
        ChunkPos::new(ox, y, oz)
    }

    /// Whether a level's nodes are sampled exactly: where the level can meet
    /// full-resolution terrain, which lingers up to the unload radius, and one
    /// coarsest stride further, since a retired node stays drawn while the
    /// camera comes nearer. The answer depends on the level alone, so that no
    /// node needs a rebuild because the camera moved.
    pub fn samples_exactly(&self, level: u32, unload_radius: i64) -> (r: bool)
        requires
            level < self@.ring.levels.len(),
        ensures
            r == (self@.ring.closest_approach(level as int) <= unload_radius
                + self@.ring.coarsest()),
            r == meets_full_terrain(self@.ring, level as int, unload_radius as int),
    {
        self.ring.closest_approach_chunks(level) as i128 <= unload_radius as i128
            + self.ring.coarsest_stride() as i128
    }

    /// Move the ring to the camera: retire what is no longer wanted, take over
    /// or queue what is.
    pub fn tick(&mut self, cam: ChunkPos)
        requires
            old(self).wf(),
            central(cam),
        ensures
            final(self).wf(),
            final(self)@ == old(self)@.tick(cam),
    {
        let ghost v = self@;
        proof {
            lemma_reach(self.ring@, cam);
        }
        let update = self.ring.update(cam);
        let ghost moved = self@;
        let gone = update.to_unload;
        let wanted = update.to_load;
        proof {
            assert(moved =~= (CoarseView {
                ring: RingView { last_center: Some(center_of(v.ring, cam)), ..v.ring },
                ..v
            }));
            assert(gone@.to_set() =~= unloads(v.ring, cam));
            assert(wanted@.to_set() =~= loads(v.ring, cam));
        }
        self.retire_all(&gone);
        proof {
            assert forall|i: int, j: int| 0 <= i < j < wanted.len() implies wanted@[i]
                != wanted@[j] by {
                if v.ring.last_center != Some(center_of(v.ring, cam)) {
                    assert(node_before(wanted@[i], wanted@[j]));
                }
            }
            assert forall|i: int| 0 <= i < wanted.len() implies (#[trigger] wanted@[i]).level
                < self@.ring.levels.len() && !self@.ring.loaded.contains(wanted@[i]) by {
                assert(wanted@.to_set().contains(wanted@[i]));
                assert(loads(v.ring, cam).contains(wanted@[i]));
            }
        }
        self.request_all(&wanted);
        proof {
            lemma_tick_valid(v, cam);
        }
    }

    fn retire_all(&mut self, gone: &Vec<LodNodeId>)
        ensures
            final(self)@ == old(self)@.retire(gone@.to_set()),
    {
        let ghost v = self@;
        let mut i: usize = 0;
        assert(self@.ring =~= v.retire(gone@.take(0).to_set()).ring);
        assert(self@ =~= v.retire(gone@.take(0).to_set()));
        while i < gone.len()
            invariant
                i <= gone.len(),
                self@ == v.retire(gone@.take(i as int).to_set()),
            decreases gone.len() - i,
        {
            let n = gone[i];
            let ghost s = gone@.take(i as int);
            self.ring.mark_unloaded(n);
            self.in_flight.remove(n);
            self.pending.remove(n);
            if self.retired.is_empty() {
                self.age = 0;
            }
            self.retired.insert(n);
            proof {
                assert(gone@.take(i + 1) =~= s.push(n));
                lemma_contains_push(s, n);
                let t = gone@.take(i + 1).to_set();
                assert(t =~= s.to_set().insert(n));
                assert(t.contains(n));
                if i > 0 {
                    assert(s[0] == gone@[0]);
                    assert(s.to_set().contains(gone@[0]));
                    assert(v.retired.union(s.to_set()).contains(gone@[0]));
                } else {
                    assert(s.to_set() =~= Set::empty());
                    assert(v.retired.union(s.to_set()) =~= v.retired);
                }
                assert(self@.ring =~= v.retire(t).ring);
                assert(self@ =~= v.retire(t));
            }
            i += 1;
        }
        assert(gone@.take(i as int) =~= gone@);
    }

    fn request_all(&mut self, wanted: &Vec<LodNodeId>)
        requires
            wanted@.no_duplicates(),
            forall|i: int|
                0 <= i < wanted.len() ==> (#[trigger] wanted@[i]).level < old(
                    self,
                )@.ring.levels.len(),
        ensures
            final(self)@ == old(self)@.request(wanted@.to_set()),
    {
        let ghost v = self@;
        let mut i: usize = 0;
        assert(self@.ring =~= v.request(wanted@.take(0).to_set()).ring);
        assert(self@ =~= v.request(wanted@.take(0).to_set()));
        while i < wanted.len()
            invariant
                i <= wanted.len(),
                wanted@.no_duplicates(),
                forall|i: int|
                    0 <= i < wanted.len() ==> (#[trigger] wanted@[i]).level < v.ring.levels.len(),
                self@ == v.request(wanted@.take(i as int).to_set()),
            decreases wanted.len() - i,
        {
            let n = wanted[i];
            let ghost s = wanted@.take(i as int);
            proof {
                assert(n.level < v.ring.levels.len());
                assert(wanted@.take(i + 1) =~= s.push(n));
                lemma_contains_push(s, n);
                assert(wanted@.take(i + 1).to_set() =~= s.to_set().insert(n));
                assert(!s.contains(n)) by {
                    if s.contains(n) {
                        let j = s.index_of(n);
                        assert(wanted@[j] == wanted@[i as int]);
                    }
                }
                assert(!s.to_set().contains(n));
            }
            if self.retired.remove(n) {
                self.ring.mark_loaded(n);
            } else if !self.in_flight.contains(n) && !self.pending.contains(n) {
                self.pending.insert(n);
            }
            proof {
                assert(self@.ring =~= v.request(wanted@.take(i + 1).to_set()).ring);
                assert(self@ =~= v.request(wanted@.take(i + 1).to_set()));
            }
            i += 1;
        }
        assert(wanted@.take(i as int) =~= wanted@);
    }

    /// A node was built. True if it is to be shown; one cancelled meanwhile is
    /// not.
    pub fn built(&mut self, n: LodNodeId) -> (r: bool)
        requires
            old(self).wf(),
        ensures
            final(self).wf(),
            final(self)@ == old(self)@.built(n),
            r == old(self)@.in_flight.contains(n),
    {
        let ghost v = self@;
        if self.in_flight.remove(n) {
            self.ring.mark_loaded(n);
            assert(self@ =~= v.built(n));
            true
        } else {
            assert(self@ =~= v.built(n));
            false
        }
    }

    /// Take the next nodes off the queue to be built, nearest the camera first
    /// (in chunks, so that it compares across levels), then by level so that
    /// the finer detail lands first.
    pub fn next_to_build(&mut self, cam: ChunkPos) -> (r: Vec<LodNodeId>)
        requires
            old(self).wf(),
            central(cam),
        ensures
            final(self).wf(),
            final(self)@ == old(self)@.start(r@),
            is_next(old(self)@.ring.levels, old(self)@.pending, cam, LOD_SPAWN_BUDGET as int, r@),
    {
        let ghost v = self@;
        let ghost levels = v.ring.levels;
        let all = self.pending.list();
        let mut keys: Vec<DistKey> = Vec::with_capacity(all.len());
        let mut i: usize = 0;
        while i < all.len()
            invariant
                i <= all.len(),
                self@ == v,
                v.valid(),
                levels == v.ring.levels,
                central(cam),
                forall|n: LodNodeId| #[trigger] all@.contains(n) <==> v.pending.contains(n),
                keys.len() == i,
                forall|j: int| 0 <= j < i ==> #[trigger] keys[j] == build_key(levels, all[j], cam),
            decreases all.len() - i,
        {
            let n = all[i];
            proof {
                assert(all@.contains(n));
                lemma_key_fits(v.ring, n, cam);
            }
            let s: i64 = self.ring.stride(n.level);
            let ox: i128 = n.x as i128 * s as i128;
            let oz: i128 = n.z as i128 * s as i128;
            let dx: i128 = ox + (s / 2) as i128 - cam.x as i128;
            let dz: i128 = oz + (s / 2) as i128 - cam.z as i128;
            keys.push((dx * dx + dz * dz, n.level as i64, n.x, n.z));
            i += 1;
        }
        let sorted = sort_keys(keys);
        let mut out: Vec<LodNodeId> = Vec::new();
        let mut k: usize = 0;
        proof {
            lemma_sorted_nodes(levels, cam, all@, keys@, sorted@);
            assert(v.start(Seq::empty()) =~= v);
        }
        while k < sorted.len() && k < LOD_SPAWN_BUDGET
            invariant
                k <= sorted.len(),
                k <= LOD_SPAWN_BUDGET,
                v.valid(),
                levels == v.ring.levels,
                out.len() == k,
                self@ == v.start(out@),
                forall|j: int|
                    0 <= j < sorted.len() ==> is_key_of(levels, cam, v.pending, #[trigger] sorted[j]),
                forall|i: int, j: int|
                    0 <= i < j < sorted.len() ==> dist_lt(#[trigger] sorted[i], #[trigger] sorted[j]),
                forall|j: int|
                    0 <= j < k ==> #[trigger] sorted[j] == build_key(levels, out[j], cam)
                        && v.pending.contains(out[j]),
            decreases sorted.len() - k,
        {
            let key = sorted[k];
            let ghost before = out@;
            proof {
                assert(is_key_of(levels, cam, v.pending, sorted[k as int]));
            }
            let n = LodNodeId::new(key.1 as u32, key.2, key.3);
            assert(build_key(levels, n, cam) == key && v.pending.contains(n));
            self.pending.remove(n);
            self.in_flight.insert(n);
            out.push(n);
            proof {
                lemma_contains_push(before, n);
                assert(out@.to_set() =~= before.to_set().insert(n));
                assert(self@ =~= v.start(out@));
            }
            k += 1;
        }
        proof {
            assert forall|i: int, j: int| 0 <= i < j < out.len() implies dist_lt(
                build_key(levels, #[trigger] out@[i], cam),
                build_key(levels, #[trigger] out@[j], cam),
            ) by {
                assert(dist_lt(sorted[i], sorted[j]));
            }
            assert(out@.no_duplicates());
            assert forall|n: LodNodeId| #[trigger] out@.contains(n) implies v.pending.contains(n) by {
                let j = out@.index_of(n);
                assert(sorted[j] == build_key(levels, out[j], cam));
            }
            assert forall|n: LodNodeId| #[trigger] v.pending.contains(n) && !out@.contains(
                n,
            ) implies exists|j: int|
                k <= j < sorted.len() && #[trigger] sorted[j] == build_key(levels, n, cam) by {
                assert(all@.contains(n));
                let j = lemma_node_listed(levels, cam, all@, keys@, sorted@, n);
                if j < k {
                    assert(sorted[j] == build_key(levels, out[j], cam));
                    assert(out[j] == n);
                    assert(out@.contains(n));
                }
            }
            assert forall|n: LodNodeId, i: int|
                #![trigger v.pending.contains(n), out@[i]]
                v.pending.contains(n) && !out@.contains(n) && 0 <= i < out.len() implies dist_lt(
                build_key(levels, out@[i], cam),
                build_key(levels, n, cam),
            ) by {
                let j = choose|j: int|
                    k <= j < sorted.len() && #[trigger] sorted[j] == build_key(levels, n, cam);
                assert(dist_lt(sorted[i], sorted[j]));
            }
            lemma_start_valid(v, out@);
        }
        out
    }

    /// Let the clock of the retired nodes run for one step. Hands back the
    /// nodes to take off the screen: all of them once what replaces them has
    /// landed, or after the cap.
    pub fn flush_retired(&mut self) -> (r: Vec<LodNodeId>)
        requires
            old(self).wf(),
        ensures
            final(self).wf(),
            final(self)@ == old(self)@.flush(),
            r@.no_duplicates(),
            r@.to_set() == (if old(self)@.flushes() {
                old(self)@.retired
            } else {
                Set::empty()
            }),
    {
        let ghost v = self@;
        proof {
            lemma_flush_valid(v);
        }
        if self.retired.is_empty() {
            let none: Vec<LodNodeId> = Vec::new();
            assert(none@.to_set() =~= Set::<LodNodeId>::empty());
            assert(self@ =~= v.flush());
            return none;
        }
        self.age = self.age + 1;
        let landed: bool = self.pending.is_empty() && self.in_flight.is_empty();
        if landed || self.age >= LOD_RETIRE_MAX_TICKS {
            let gone = self.retired.list();
            self.retired.clear();
            assert(self@ =~= v.flush());
            gone
        } else {
            let none: Vec<LodNodeId> = Vec::new();
            assert(none@.to_set() =~= Set::<LodNodeId>::empty());
            assert(self@ =~= v.flush());
            none
        }
    }

    /// Ask anew for every node over a chunk column that the ring has asked
    /// for, at every level. Hands back the nodes to take off the screen, finest
    /// first.
    pub fn invalidate_column(&mut self, chunk_x: i64, chunk_z: i64) -> (r: Vec<LodNodeId>)
        requires
            old(self).wf(),
        ensures
            final(self).wf(),
            final(self)@ == old(self)@.invalidate(chunk_x, chunk_z),
            forall|n: LodNodeId| #[trigger]
                r@.contains(n) <==> old(self)@.stale(chunk_x, chunk_z).contains(n) && old(
                    self,
                )@.ring.loaded.contains(n),
            forall|i: int, j: int|
                0 <= i < j < r.len() ==> (#[trigger] r[i]).level < (#[trigger] r[j]).level,
    {
        let ghost v = self@;
        let ghost upto = |l: int| Set::new(
            |n: LodNodeId| n.level < l && v.stale(chunk_x, chunk_z).contains(n),
        );
        let mut gone: Vec<LodNodeId> = Vec::new();
        let count: usize = self.ring.level_count();
        let mut level: u32 = 0;
        proof {
            assert(self@.ring =~= v.invalidated(upto(0)).ring);
            assert(self@ =~= v.invalidated(upto(0)));
        }
        while (level as usize) < count
            invariant
                level <= count,
                count <= u32::MAX,
                count == v.ring.levels.len(),
                upto == (|l: int|
                    Set::new(
                        |n: LodNodeId| n.level < l && v.stale(chunk_x, chunk_z).contains(n),
                    )),
                self@ == v.invalidated(upto(level as int)),
                forall|n: LodNodeId| #[trigger]
                    gone@.contains(n) <==> upto(level as int).contains(n)
                        && v.ring.loaded.contains(n),
                forall|i: int, j: int|
                    0 <= i < j < gone.len() ==> (#[trigger] gone[i]).level < (
                    #[trigger] gone[j]).level,
                forall|i: int| 0 <= i < gone.len() ==> (#[trigger] gone[i]).level < level,
            decreases count - level,
        {
            let id = self.ring.node_containing(level, chunk_x, chunk_z);
            let ghost had = gone@;
            proof {
                assert(!upto(level as int).contains(id));
                assert(v.is_over(id, chunk_x, chunk_z));
                assert forall|n: LodNodeId| #[trigger]
                    upto(level + 1).contains(n) == (upto(level as int).contains(n) || (n == id
                        && v.has(id))) by {}
            }
            let loaded: bool = self.ring.is_loaded(id);
            let queued: bool = self.pending.contains(id) || self.in_flight.contains(id);
            if loaded {
                self.ring.mark_unloaded(id);
                gone.push(id);
                proof {
                    lemma_contains_push(had, id);
                }
            }
            if loaded || queued {
                self.pending.insert(id);
                self.in_flight.remove(id);
            }
            proof {
                assert(v.has(id) == (loaded || queued));
                assert(self@.ring =~= v.invalidated(upto(level + 1)).ring);
                assert(self@ =~= v.invalidated(upto(level + 1)));
            }
            level += 1;
        }
        proof {
            assert(upto(level as int) =~= v.stale(chunk_x, chunk_z));
            assert(v.invalidate(chunk_x, chunk_z).valid());
        }
        gone
    }

    /// Drop every node, queued, being built or drawn. The next tick asks for
    /// the whole ring again.
    pub fn reset(&mut self)
        requires
            old(self).wf(),
        ensures
            final(self).wf(),
            final(self)@ == old(self)@.reset(),
    {
        let ghost v = self@;
        self.ring.clear();
        self.pending.clear();
        self.in_flight.clear();
        self.retired.clear();
        self.age = 0;
        assert(self@ =~= v.reset());
    }

    /// The nodes on screen: those loaded and those retired.
    pub fn drawn(&self) -> (r: Vec<LodNodeId>)
        ensures
            forall|n: LodNodeId| #[trigger] r@.contains(n) <==> self@.drawn(n),
    {
        let mut out = self.ring.loaded();
        let kept = self.retired.list();
        let ghost first = out@;
        let mut i: usize = 0;
        assert(kept@.take(0) =~= Seq::empty());
        while i < kept.len()
            invariant
                i <= kept.len(),
                forall|n: LodNodeId| #[trigger]
                    out@.contains(n) <==> first.contains(n) || kept@.take(i as int).contains(n),
            decreases kept.len() - i,
        {
            let n = kept[i];
            proof {
                assert(kept@.take(i + 1) =~= kept@.take(i as int).push(n));
                lemma_contains_push(kept@.take(i as int), n);
                lemma_contains_push(out@, n);
            }
            out.push(n);
            i += 1;
        }
        assert(kept@.take(i as int) =~= kept@);
        out
    }
}

proof fn lemma_start_valid(v: CoarseView, batch: Seq<LodNodeId>)
    requires
        v.valid(),
        forall|n: LodNodeId| #[trigger] batch.contains(n) ==> v.pending.contains(n),
    ensures
        v.start(batch).valid(),
{
    let w = v.start(batch);
    assert forall|n: LodNodeId| #[trigger] w.in_flight.contains(n) implies placed(w.ring.levels, n)
        && !w.retired.contains(n) by {
        assert(v.in_flight.contains(n) || batch.contains(n));
    }
    assert forall|n: LodNodeId| #[trigger] w.ring.loaded.contains(n) implies placed(
        w.ring.levels,
        n,
    ) && !w.pending.contains(n) && !w.in_flight.contains(n) && !w.retired.contains(n) by {
        assert(v.ring.loaded.contains(n));
    }
}

/// The key is that of a node of the set.
spec fn is_key_of(
    levels: Seq<LevelCfg>,
    cam: ChunkPos,
    pending: Set<LodNodeId>,
    k: DistKey,
) -> bool {
    let n = LodNodeId { level: k.1 as u32, x: k.2, z: k.3 };
    0 <= k.1 <= u32::MAX && k == build_key(levels, n, cam) && pending.contains(n)
}

pub(crate) proof fn lemma_key_fits(ring: RingView, n: LodNodeId, cam: ChunkPos)
    requires
        ring.valid(),
        ring.levels.last().outer_chunks <= MAX_REACH_CHUNKS,
        placed(ring.levels, n),
        central(cam),
    ensures
        ({
            let s = ring.levels[n.level as int].stride as int;
            let dx = n.x * s + s / 2 - cam.x;
            let dz = n.z * s + s / 2 - cam.z;
            &&& 1 <= s <= MAX_REACH_CHUNKS
            &&& 0 <= dx * dx <= 0x400_0000_0000_0000 * 0x400_0000_0000_0000
            &&& 0 <= dz * dz <= 0x400_0000_0000_0000 * 0x400_0000_0000_0000
            &&& -0x400_0000_0000_0000 <= dx <= 0x400_0000_0000_0000
            &&& -0x400_0000_0000_0000 <= dz <= 0x400_0000_0000_0000
        }),
{
    let c = ring.levels[n.level as int];
    let s = c.stride as int;
    lemma_reach(ring, cam);
    let k = ring.coarsest();
    lemma_div_floor(k, s);
    assert(k >= s) by (nonlinear_arith)
        requires
            k > 0,
            s > 0,
            k == (k / s) * s,
    ;
    let dx = n.x * s + s / 2 - cam.x;
    let dz = n.z * s + s / 2 - cam.z;
    assert(0 <= dx * dx <= 0x400_0000_0000_0000 * 0x400_0000_0000_0000) by (nonlinear_arith)
        requires
            -0x400_0000_0000_0000 <= dx <= 0x400_0000_0000_0000,
    ;
    assert(0 <= dz * dz <= 0x400_0000_0000_0000 * 0x400_0000_0000_0000) by (nonlinear_arith)
        requires
            -0x400_0000_0000_0000 <= dz <= 0x400_0000_0000_0000,
    ;
}

proof fn lemma_sorted_nodes(
    levels: Seq<LevelCfg>,
    cam: ChunkPos,
    nodes: Seq<LodNodeId>,
    keys: Seq<DistKey>,
    sorted: Seq<DistKey>,
)
    requires
        nodes.no_duplicates(),
        keys.len() == nodes.len(),
        forall|j: int| 0 <= j < keys.len() ==> #[trigger] keys[j] == build_key(levels, nodes[j], cam),
        in_order(sorted),
        sorted.to_multiset() == keys.to_multiset(),
        sorted.len() == keys.len(),
    ensures
        forall|j: int|
            0 <= j < sorted.len() ==> is_key_of(levels, cam, nodes.to_set(), #[trigger] sorted[j]),
        forall|i: int, j: int|
            0 <= i < j < sorted.len() ==> dist_lt(#[trigger] sorted[i], #[trigger] sorted[j]),
{
    broadcast use vstd::seq_lib::group_to_multiset_ensures;

    assert forall|j: int| 0 <= j < sorted.len() implies is_key_of(
        levels,
        cam,
        nodes.to_set(),
        #[trigger] sorted[j],
    ) by {
        assert(sorted.contains(sorted[j]));
        assert(sorted.to_multiset().count(sorted[j]) > 0);
        assert(keys.contains(sorted[j]));
        let i = keys.index_of(sorted[j]);
        assert(nodes.contains(nodes[i]));
    }
    assert forall|i: int, j: int| 0 <= i < j < keys.len() implies keys[i] != keys[j] by {
        assert(nodes[i] != nodes[j]);
        assert(keys[i] == build_key(levels, nodes[i], cam));
        assert(keys[j] == build_key(levels, nodes[j], cam));
    }
    assert(keys.no_duplicates());
    keys.lemma_multiset_has_no_duplicates();
    sorted.lemma_multiset_has_no_duplicates_conv();
    assert forall|i: int, j: int| 0 <= i < j < sorted.len() implies dist_lt(
        #[trigger] sorted[i],
        #[trigger] sorted[j],
    ) by {
        assert(!dist_lt(sorted[j], sorted[i]));
        assert(sorted[i] != sorted[j]);
    }
}

proof fn lemma_node_listed(
    levels: Seq<LevelCfg>,
    cam: ChunkPos,
    nodes: Seq<LodNodeId>,
    keys: Seq<DistKey>,
    sorted: Seq<DistKey>,
    n: LodNodeId,
) -> (j: int)
    requires
        keys.len() == nodes.len(),
        forall|j: int| 0 <= j < keys.len() ==> #[trigger] keys[j] == build_key(levels, nodes[j], cam),
        sorted.to_multiset() == keys.to_multiset(),
        nodes.contains(n),
    ensures
        0 <= j < sorted.len(),
        sorted[j] == build_key(levels, n, cam),
{
    broadcast use vstd::seq_lib::group_to_multiset_ensures;

    let i = nodes.index_of(n);
    let key = build_key(levels, n, cam);
    assert(keys[i] == key);
    assert(keys.contains(key));
    assert(keys.to_multiset().count(key) > 0);
    assert(sorted.contains(key));
    sorted.index_of(key)
}

/// What a move of the ring does to each node. A node that is dropped is no longer
/// loaded, queued or being built, and stays on screen. One that is asked for is
/// taken over if it is still on screen, left to itself if it is on its way, and
/// else queued. Any other stays as it is, and so does every node while the snapped
/// center stays.
pub proof fn lemma_tick_moves_nodes(v: CoarseView, cam: ChunkPos, n: LodNodeId)
    requires
        v.valid(),
    ensures
        ({
            let w = v.tick(cam);
            let moved = v.ring.last_center != Some(
                (v.ring.snapped(cam.x as int) as i64, v.ring.snapped(cam.z as int) as i64),
            );
            let dropped = moved && v.ring.drops(n, cam);
            let wanted = moved && v.ring.wants(n, cam);
            &&& dropped ==> !w.ring.loaded.contains(n) && !w.pending.contains(n)
                && !w.in_flight.contains(n) && w.retired.contains(n)
            &&& wanted && v.retired.contains(n) ==> w.ring.loaded.contains(n) && !w.retired.contains(
                n,
            ) && !w.pending.contains(n)
            &&& wanted && v.in_flight.contains(n) ==> w.in_flight.contains(n) && !w.pending.contains(
                n,
            )
            &&& wanted && !v.retired.contains(n) && !v.in_flight.contains(n) ==> w.pending.contains(
                n,
            ) && !w.ring.loaded.contains(n)
            &&& !dropped && !wanted ==> w.ring.loaded.contains(n) == v.ring.loaded.contains(n)
                && w.pending.contains(n) == v.pending.contains(n) && w.in_flight.contains(n)
                == v.in_flight.contains(n) && w.retired.contains(n) == v.retired.contains(n)
            &&& !moved ==> w.age == v.age
            &&& w.ring.levels == v.ring.levels && w.ring.margin == v.ring.margin && w.ring.band
                == v.ring.band
        }),
{
    let cfg = v.ring.levels[n.level as int];
    if v.ring.wants(n, cam) && v.ring.drops(n, cam) {
        assert(v.ring.in_annulus(n, cam, v.ring.margin));
    }
    if !(v.ring.last_center != Some(center_of(v.ring, cam))) {
        assert(unloads(v.ring, cam) =~= Set::empty());
        assert(loads(v.ring, cam) =~= Set::empty());
    }
}

/// The clock of the retired nodes starts anew when the first of them is retired,
/// and runs on while any is.
pub proof fn lemma_retired_clock(v: CoarseView, gone: Set<LodNodeId>, n: LodNodeId)
    requires
        gone.contains(n),
    ensures
        v.retired == Set::<LodNodeId>::empty() ==> v.retire(gone).age == 0,
        v.retired != Set::<LodNodeId>::empty() ==> v.retire(gone).age == v.age,
        v.retire(gone).retired.contains(n),
        !(v.flush().age == v.age) ==> v.flush().age == v.age + 1,
        v.retired != Set::<LodNodeId>::empty() ==> v.flush().age == v.age + 1,
{
}

/// A node that was built is loaded if it was being built, and nothing changes if it
/// was cancelled meanwhile. Nodes that are started leave the queue.
pub proof fn lemma_build_moves_nodes(v: CoarseView, n: LodNodeId, m: LodNodeId, batch: Seq<LodNodeId>)
    ensures
        v.in_flight.contains(n) ==> v.built(n).ring.loaded.contains(n) && !v.built(
            n,
        ).in_flight.contains(n),
        !v.in_flight.contains(n) ==> v.built(n) == v,
        m != n ==> v.built(n).ring.loaded.contains(m) == v.ring.loaded.contains(m) && v.built(
            n,
        ).in_flight.contains(m) == v.in_flight.contains(m),
        v.built(n).pending == v.pending && v.built(n).retired == v.retired,
        batch.contains(m) ==> v.start(batch).in_flight.contains(m) && !v.start(
            batch,
        ).pending.contains(m),
        !batch.contains(m) ==> v.start(batch).in_flight.contains(m) == v.in_flight.contains(m)
            && v.start(batch).pending.contains(m) == v.pending.contains(m),
        v.start(batch).ring == v.ring && v.start(batch).retired == v.retired,
{
}

/// Retired nodes go all at once: as soon as nothing is on its way any more, and
/// after sixty steps in any case. Until then none goes. Nothing else changes.
pub proof fn lemma_flush_lets_go(v: CoarseView, n: LodNodeId)
    requires
        v.valid(),
        v.retired.contains(n),
    ensures
        ({
            let idle = v.pending == Set::<LodNodeId>::empty() && v.in_flight == Set::<
                LodNodeId,
            >::empty();
            &&& idle || v.age + 1 >= 60 ==> v.flush().retired == Set::<LodNodeId>::empty()
            &&& !(idle || v.age + 1 >= 60) ==> v.flush().retired == v.retired
            &&& v.flush().ring == v.ring && v.flush().pending == v.pending && v.flush().in_flight
                == v.in_flight
        }),
{
    assert(v.retired != Set::<LodNodeId>::empty());
}

/// An edit asks anew for exactly the nodes over its chunk column that were asked
/// for before: they are queued, and neither loaded nor being built. Every other
/// node stays as it is.
pub proof fn lemma_edit_rebuilds(v: CoarseView, x: i64, z: i64, n: LodNodeId)
    requires
        v.valid(),
    ensures
        ({
            let w = v.invalidate(x, z);
            let over = n.level < v.ring.levels.len() && node_covers(
                v.ring.levels[n.level as int],
                n,
                x as int,
                z as int,
            );
            let had = v.ring.loaded.contains(n) || v.pending.contains(n) || v.in_flight.contains(n);
            &&& over && had ==> w.pending.contains(n) && !w.ring.loaded.contains(n)
                && !w.in_flight.contains(n)
            &&& !(over && had) ==> w.pending.contains(n) == v.pending.contains(n)
                && w.ring.loaded.contains(n) == v.ring.loaded.contains(n) && w.in_flight.contains(n)
                == v.in_flight.contains(n)
            &&& w.retired == v.retired && w.age == v.age && w.ring.last_center == v.ring.last_center
        }),
{
    if n.level < v.ring.levels.len() {
        let s = v.ring.levels[n.level as int].stride as int;
        assert(s >= 1);
        if node_covers(v.ring.levels[n.level as int], n, x as int, z as int) {
            lemma_div_is(x as int, s, n.x as int);
            lemma_div_is(z as int, s, n.z as int);
        }
        lemma_div_floor(x as int, s);
        lemma_div_floor(z as int, s);
    }
}

/// After a reset the next move asks for the whole ring again, wherever the camera
/// is.
pub proof fn lemma_reset_asks_again(v: CoarseView, cam: ChunkPos, n: LodNodeId)
    requires
        v.valid(),
    ensures
        v.reset().tick(cam).pending.contains(n) <==> v.ring.in_annulus(n, cam, 0),
        !v.reset().tick(cam).ring.loaded.contains(n),
        !v.reset().drawn(n) && !v.reset().has(n),
{
    let r = v.reset().ring;
    if v.ring.in_annulus(n, cam, 0) {
        let cfg = v.ring.levels[n.level as int];
        let s = cfg.stride as int;
        assert(node_covers(cfg, n, n.x * s, n.z * s));
        assert(!r.kept_over(cam, n.x * s, n.z * s));
        assert(!r.taken(n, cam));
    }
}

/// The nodes to build next are the nearest to the camera of those queued, the
/// nearest first, measured from their middles; at one distance the finer level
/// comes first. As many as the budget allows are taken, and some while any wait.
pub proof fn lemma_builds_nearest(
    levels: Seq<LevelCfg>,
    pending: Set<LodNodeId>,
    cam: ChunkPos,
    r: Seq<LodNodeId>,
    i: int,
    n: LodNodeId,
)
    requires
        is_next(levels, pending, cam, LOD_SPAWN_BUDGET as int, r),
        pending.contains(n),
        forall|m: LodNodeId| #[trigger]
            pending.contains(m) ==> middle_distance(levels, m, cam) <= i128::MAX,
    ensures
        r.len() > 0,
        r.len() <= 48,
        0 <= i < r.len() && !r.contains(n) ==> r.len() == 48 && middle_distance(levels, r[i], cam)
            <= middle_distance(levels, n, cam),
        0 <= i && i + 1 < r.len() ==> {
            let a = r[i];
            let b = r[i + 1];
            let da = middle_distance(levels, a, cam);
            let db = middle_distance(levels, b, cam);
            da < db || da == db && (a.level < b.level || a.level == b.level && (a.x < b.x || a.x
                == b.x && a.z < b.z))
        },
{
    assert forall|m: LodNodeId| middle_distance(levels, m, cam) >= 0 by {
        let s = levels[m.level as int].stride as int;
        let dx = m.x * s + s / 2 - cam.x;
        let dz = m.z * s + s / 2 - cam.z;
        assert(dx * dx >= 0 && dz * dz >= 0) by (nonlinear_arith);
    }
    if 0 <= i < r.len() {
        assert(r.contains(r[i]));
        if i + 1 < r.len() {
            assert(r.contains(r[i + 1]));
            assert(dist_lt(build_key(levels, r[i], cam), build_key(levels, r[i + 1], cam)));
        }
        if !r.contains(n) {
            assert(dist_lt(build_key(levels, r[i], cam), build_key(levels, n, cam)));
        }
    }
}

/// The squared distance of a node's middle from the camera, in chunks.
pub open spec fn middle_distance(levels: Seq<LevelCfg>, n: LodNodeId, cam: ChunkPos) -> int {
    let s = levels[n.level as int].stride as int;
    (n.x * s + s / 2 - cam.x) * (n.x * s + s / 2 - cam.x) + (n.z * s + s / 2 - cam.z) * (n.z * s + s
        / 2 - cam.z)
}

/// The level's nodes come near enough to meet full-resolution terrain, or to be
/// still drawn where it is.
pub open spec fn meets_full_terrain(ring: RingView, level: int, unload_radius: int) -> bool {
    ring.closest_approach(level) <= unload_radius + ring.coarsest()
}

/// A level that has a chunk column within the unload radius of the camera, or
/// within one coarsest stride beyond, meets full-resolution terrain. One that ends
/// up farther from the camera on every side does not.
pub proof fn lemma_meets_full_terrain(
    ring: RingView,
    cam: ChunkPos,
    n: LodNodeId,
    x: int,
    z: int,
    unload_radius: int,
)
    requires
        ring.valid(),
        ring.in_annulus(n, cam, 0),
        node_covers(ring.levels[n.level as int], n, x, z),
    ensures
        ({
            let near = unload_radius + ring.levels.last().stride;
            &&& -near <= x - cam.x <= near && -near <= z - cam.z <= near ==> meets_full_terrain(
                ring,
                n.level as int,
                unload_radius,
            )
            &&& 0 <= near && ring.levels[n.level as int].inner_chunks - ring.levels.last().stride + 1
                > near ==> !meets_full_terrain(ring, n.level as int, unload_radius)
        }),
{
    lemma_closest_approach(ring, cam, n, x, z);
}

/// Blocks are counted in whole chunks, the rest dropped.
pub proof fn lemma_toward_zero(b: int)
    ensures
        b >= 0 ==> 32 * toward_zero(b) <= b < 32 * toward_zero(b) + 32,
        b <= 0 ==> 32 * toward_zero(b) - 32 < b <= 32 * toward_zero(b),
{
}

} // verus!
