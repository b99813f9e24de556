//! Multi-level level-of-detail (LOD) ring selection.
//!
//! Pure bookkeeping: given the camera's chunk, [`LodRing`] tracks which coarse
//! LOD *nodes* are loaded across several resolution levels and computes which
//! to load and unload. How a node is filled is the caller's concern.
//!
//! ## Levels, nodes, and nesting
//!
//! A **level** is a resolution: `stride` chunks per node side. Level 0 is the
//! finest, each subsequent level is coarser and further away. Strides are
//! powers of two, each a multiple of the previous, so that the node grids nest.
//!
//! ## The partition
//!
//! Each level owns a square annulus measured in **chunks** around a *snapped
//! center*: the camera's chunk floored to the **coarsest** stride. One shared,
//! coarsest-aligned center makes every boundary land on a grid line of every
//! level. Level `i` covers `[inner_i, outer_i)` chunks from that center, with
//! `inner_i = outer_{i-1}`, and a node belongs to its level iff its whole
//! region lies inside the outer square and entirely outside the inner one.
//! The levels are then disjoint and gapless (see [`lemma_levels_partition`]).
//!
//! ## Where LOD begins
//!
//! The center can sit up to `coarsest_stride - 1` chunks from the camera, so
//! LOD underlaps the full-resolution region: an inner radius of 0 is always
//! gap-safe.
//!
//! ## Hysteresis
//!
//! Unloading uses a slack margin beyond each level's outer edge, so that a
//! camera drifting on a boundary does not thrash. Handover between levels stays
//! crisp: while a level keeps a region within its slack, no other level asks
//! for it, and a region dropped by one level is picked up by its neighbour in
//! the same update, so that it is always covered by exactly one level (see
//! [`crate::handover`]).

use crate::arith::{div_floor, lemma_div_floor, lemma_div_is, mod_floor};
use crate::coords::{ChunkPos, CHUNK_SIZE};
pub use crate::edited::EditedColumns;
use crate::seqs::lemma_ordered_unique;
use crate::sorted::{key_lt, Key, SortedSet};
use vstd::prelude::*;

verus! {

/// A LOD node: its level plus its `(x, z)` cell in that level's node grid. The
/// grid is fixed to the world, not to the camera.
#[derive(Debug, Clone, Copy, PartialEq, Eq, Hash, PartialOrd, Ord, Structural)]
pub struct LodNodeId {
    pub level: u32,
    pub x: i64,
    pub z: i64,
}

impl LodNodeId {
    #[inline]
    pub fn new(level: u32, x: i64, z: i64) -> (r: Self)
        ensures
            r == (LodNodeId { level, x, z }),
    {
        LodNodeId { level, x, z }
    }

    /// The node's key: levels first, then x, then z.
    pub open spec fn key(self) -> Key {
        (self.level as i64, self.x, self.z)
    }

    pub(crate) fn to_key(self) -> (k: Key)
        ensures
            k == self.key(),
    {
        (self.level as i64, self.x, self.z)
    }

    pub(crate) fn from_key(k: Key) -> (r: Self)
        requires
            0 <= k.0 <= u32::MAX,
        ensures
            r.key() == k,
    {
        LodNodeId { level: k.0 as u32, x: k.1, z: k.2 }
    }
}

/// One resolution level: how coarse, and how far out it reaches.
#[derive(Debug, Clone, Copy, PartialEq, Eq, Structural)]
pub struct LodLevel {
    /// Chunks per node side. Powers of two, each a multiple of the previous.
    pub stride: i64,
    /// Outer edge of this level, in chunks from the center (exclusive).
    pub outer_chunks: i64,
}

/// A level with its inner edge.
#[derive(Debug, Clone, Copy, PartialEq, Eq, Structural)]
pub struct LevelCfg {
    pub stride: i64,
    pub inner_chunks: i64,
    pub outer_chunks: i64,
}

/// What the [`LodRing`] wants the caller to do this update.
#[derive(Debug, Clone, PartialEq, Eq)]
pub struct LodUpdate {
    /// Nodes newly in range: build, mesh, upload, then confirm via
    /// [`LodRing::mark_loaded`].
    pub to_load: Vec<LodNodeId>,
    /// Nodes now out of range, or taken over by another level: drop and confirm
    /// via [`LodRing::mark_unloaded`].
    pub to_unload: Vec<LodNodeId>,
}

impl LodUpdate {
    pub fn is_empty(&self) -> (r: bool)
        ensures
            r == (self.to_load.len() == 0 && self.to_unload.len() == 0),
    {
        self.to_load.len() == 0 && self.to_unload.len() == 0
    }
}

impl Default for LodUpdate {
    fn default() -> (r: Self)
        ensures
            r.to_load.len() == 0,
            r.to_unload.len() == 0,
    {
        LodUpdate { to_load: Vec::new(), to_unload: Vec::new() }
    }
}

/// Why a ring cannot be built: its levels would not partition the plane.
#[derive(Debug, Clone, Copy, PartialEq, Eq, Structural)]
pub enum LodConfigError {
    /// The world's Y band is empty.
    EmptyBand,
    /// There is no level.
    NoLevels,
    /// The inner radius is negative.
    NegativeInner,
    /// The unload margin is not positive.
    NoMargin,
    /// The level's stride is below 1.
    StrideTooSmall(usize),
    /// The level's stride is not a power of two.
    StrideNotPowerOfTwo(usize),
    /// The level's stride is not a multiple of the previous one.
    StridesNotNested(usize),
    /// The level's outer edge does not exceed its inner one.
    OuterNotBeyondInner(usize),
    /// The level's inner radius is not a multiple of its stride.
    InnerMisaligned(usize),
    /// The level's outer radius is not a multiple of its stride.
    OuterMisaligned(usize),
    /// The level's radii are not multiples of the coarsest stride.
    RadiiOffCoarsest(usize),
    /// The unload margin is not a multiple of the coarsest stride.
    MarginOffCoarsest,
}

/// `n` is 1, 2, 4, and so on.
pub open spec fn power_of_two(n: int) -> bool
    decreases n,
{
    n == 1 || (n > 1 && n % 2 == 0 && power_of_two(n / 2))
}

fn is_power_of_two(n: i64) -> (r: bool)
    ensures
        r == power_of_two(n as int),
    decreases n,
{
    if n <= 1 {
        n == 1
    } else {
        n % 2 == 0 && is_power_of_two(n / 2)
    }
}

/// The inner edge of level `i`: the outer edge of the one before.
pub open spec fn inner_of(inner: int, levels: Seq<LodLevel>, i: int) -> int {
    if i <= 0 {
        inner
    } else {
        levels[i - 1].outer_chunks as int
    }
}

/// What is wrong with level `i` by itself and with the one before it.
pub open spec fn level_error(inner: int, levels: Seq<LodLevel>, i: int) -> Option<LodConfigError> {
    let stride = levels[i].stride as int;
    let outer = levels[i].outer_chunks as int;
    if stride < 1 {
        Some(LodConfigError::StrideTooSmall(i as usize))
    } else if !power_of_two(stride) {
        Some(LodConfigError::StrideNotPowerOfTwo(i as usize))
    } else if i > 0 && !(stride >= levels[i - 1].stride && stride % (levels[i - 1].stride as int)
        == 0) {
        Some(LodConfigError::StridesNotNested(i as usize))
    } else if outer <= inner_of(inner, levels, i) {
        Some(LodConfigError::OuterNotBeyondInner(i as usize))
    } else if inner_of(inner, levels, i) % stride != 0 {
        Some(LodConfigError::InnerMisaligned(i as usize))
    } else if outer % stride != 0 {
        Some(LodConfigError::OuterMisaligned(i as usize))
    } else {
        None
    }
}

/// The first error among the levels from `i` on.
pub open spec fn first_level_error(inner: int, levels: Seq<LodLevel>, i: int) -> Option<
    LodConfigError,
>
    decreases levels.len() - i,
{
    if i >= levels.len() {
        None
    } else if level_error(inner, levels, i) is Some {
        level_error(inner, levels, i)
    } else {
        first_level_error(inner, levels, i + 1)
    }
}

/// The first level, from `i` on, whose radii are not multiples of the coarsest
/// stride.
pub open spec fn first_radii_error(inner: int, levels: Seq<LodLevel>, i: int) -> Option<
    LodConfigError,
>
    decreases levels.len() - i,
{
    let coarsest = levels.last().stride as int;
    if i >= levels.len() {
        None
    } else if inner_of(inner, levels, i) % coarsest != 0 || levels[i].outer_chunks as int % coarsest
        != 0 {
        Some(LodConfigError::RadiiOffCoarsest(i as usize))
    } else {
        first_radii_error(inner, levels, i + 1)
    }
}

/// What is wrong with a configuration, if anything.
pub open spec fn config_error(
    inner: int,
    levels: Seq<LodLevel>,
    margin: int,
    band: (i64, i64),
) -> Option<LodConfigError> {
    if band.0 >= band.1 {
        Some(LodConfigError::EmptyBand)
    } else if levels.len() == 0 {
        Some(LodConfigError::NoLevels)
    } else if inner < 0 {
        Some(LodConfigError::NegativeInner)
    } else if margin <= 0 {
        Some(LodConfigError::NoMargin)
    } else if first_level_error(inner, levels, 0) is Some {
        first_level_error(inner, levels, 0)
    } else if first_radii_error(inner, levels, 0) is Some {
        first_radii_error(inner, levels, 0)
    } else if margin % (levels.last().stride as int) != 0 {
        Some(LodConfigError::MarginOffCoarsest)
    } else {
        None
    }
}

/// Checks one level.
fn check_level(inner: i64, levels: &[LodLevel], i: usize) -> (r: Option<LodConfigError>)
    requires
        i < levels.len(),
        i > 0 ==> levels[i - 1].stride >= 1,
    ensures
        r == level_error(inner as int, levels@, i as int),
{
    let stride: i64 = levels[i].stride;
    let outer: i64 = levels[i].outer_chunks;
    let edge: i64 = if i == 0 {
        inner
    } else {
        levels[i - 1].outer_chunks
    };
    if stride < 1 {
        return Some(LodConfigError::StrideTooSmall(i));
    }
    if !is_power_of_two(stride) {
        return Some(LodConfigError::StrideNotPowerOfTwo(i));
    }
    if i > 0 {
        let prev: i64 = levels[i - 1].stride;
        if !(stride >= prev && mod_floor(stride, prev) == 0) {
            return Some(LodConfigError::StridesNotNested(i));
        }
    }
    if outer <= edge {
        Some(LodConfigError::OuterNotBeyondInner(i))
    } else if mod_floor(edge, stride) != 0 {
        Some(LodConfigError::InnerMisaligned(i))
    } else if mod_floor(outer, stride) != 0 {
        Some(LodConfigError::OuterMisaligned(i))
    } else {
        None
    }
}

/// What the levels of a checked configuration have in common.
pub open spec fn levels_valid(levels: Seq<LevelCfg>) -> bool {
    let coarsest = levels.last().stride as int;
    &&& levels.len() >= 1
    &&& forall|i: int|
        0 <= i < levels.len() ==> {
            let c = #[trigger] levels[i];
            &&& c.stride >= 1
            &&& 0 <= c.inner_chunks < c.outer_chunks
            &&& coarsest % (c.stride as int) == 0
            &&& c.inner_chunks as int % coarsest == 0
            &&& c.outer_chunks as int % coarsest == 0
        }
    &&& forall|i: int|
        0 < i < levels.len() ==> (#[trigger] levels[i]).inner_chunks == levels[i - 1].outer_chunks
    &&& forall|i: int, j: int| 0 <= i <= j < levels.len() ==> #[trigger] nested(levels, i, j)
}

/// The stride of level `j` is a multiple of that of level `i`.
pub open spec fn nested(levels: Seq<LevelCfg>, i: int, j: int) -> bool {
    levels[j].stride as int % (levels[i].stride as int) == 0
}

/// The levels of a configuration, with their inner edges.
pub open spec fn cfgs_of(inner: int, levels: Seq<LodLevel>) -> Seq<LevelCfg> {
    Seq::new(
        levels.len(),
        |i: int|
            LevelCfg {
                stride: levels[i].stride,
                inner_chunks: inner_of(inner, levels, i) as i64,
                outer_chunks: levels[i].outer_chunks,
            },
    )
}

/// Checks a configuration: which of the conditions for an exact partition it
/// breaks first, if any.
pub fn check_config(
    lod_inner_chunks: i64,
    levels: &[LodLevel],
    unload_margin_chunks: i64,
    world_y_blocks: (i64, i64),
) -> (r: Option<LodConfigError>)
    ensures
        r == config_error(
            lod_inner_chunks as int,
            levels@,
            unload_margin_chunks as int,
            world_y_blocks,
        ),
{
    if world_y_blocks.0 >= world_y_blocks.1 {
        return Some(LodConfigError::EmptyBand);
    }
    if levels.len() == 0 {
        return Some(LodConfigError::NoLevels);
    }
    if lod_inner_chunks < 0 {
        return Some(LodConfigError::NegativeInner);
    }
    if unload_margin_chunks <= 0 {
        return Some(LodConfigError::NoMargin);
    }
    let ghost inner = lod_inner_chunks as int;
    let mut i: usize = 0;
    while i < levels.len()
        invariant
            i <= levels.len(),
            levels.len() >= 1,
            world_y_blocks.0 < world_y_blocks.1,
            unload_margin_chunks > 0,
            inner == lod_inner_chunks,
            inner >= 0,
            first_level_error(inner, levels@, 0) == first_level_error(inner, levels@, i as int),
            i > 0 ==> levels[i - 1].stride >= 1,
        decreases levels.len() - i,
    {
        let e = check_level(lod_inner_chunks, levels, i);
        if e.is_some() {
            return e;
        }
        i += 1;
    }
    let last: usize = levels.len() - 1;
    let coarsest: i64 = levels[last].stride;
    let mut i: usize = 0;
    while i < levels.len()
        invariant
            i <= levels.len(),
            levels.len() >= 1,
            world_y_blocks.0 < world_y_blocks.1,
            unload_margin_chunks > 0,
            inner == lod_inner_chunks,
            inner >= 0,
            first_level_error(inner, levels@, 0) is None,
            coarsest == levels@.last().stride,
            coarsest >= 1,
            first_radii_error(inner, levels@, 0) == first_radii_error(inner, levels@, i as int),
        decreases levels.len() - i,
    {
        let edge: i64 = if i == 0 {
            lod_inner_chunks
        } else {
            levels[i - 1].outer_chunks
        };
        if mod_floor(edge, coarsest) != 0 || mod_floor(levels[i].outer_chunks, coarsest) != 0 {
            return Some(LodConfigError::RadiiOffCoarsest(i));
        }
        i += 1;
    }
    if mod_floor(unload_margin_chunks, coarsest) != 0 {
        return Some(LodConfigError::MarginOffCoarsest);
    }
    None
}

proof fn lemma_no_level_error(inner: int, levels: Seq<LodLevel>, from: int, i: int)
    requires
        first_level_error(inner, levels, from) is None,
        0 <= from <= i < levels.len(),
    ensures
        level_error(inner, levels, i) is None,
    decreases i - from,
{
    if from < i {
        lemma_no_level_error(inner, levels, from + 1, i);
    }
}

proof fn lemma_no_radii_error(inner: int, levels: Seq<LodLevel>, from: int, i: int)
    requires
        first_radii_error(inner, levels, from) is None,
        0 <= from <= i < levels.len(),
    ensures
        inner_of(inner, levels, i) % (levels.last().stride as int) == 0,
        levels[i].outer_chunks as int % (levels.last().stride as int) == 0,
    decreases i - from,
{
    if from < i {
        lemma_no_radii_error(inner, levels, from + 1, i);
    }
}

/// A multiple of a multiple is a multiple.
pub(crate) proof fn lemma_divides_trans(a: int, b: int, c: int)
    requires
        b > 0,
        c > 0,
        a % b == 0,
        b % c == 0,
    ensures
        a % c == 0,
{
    lemma_div_floor(a, b);
    lemma_div_floor(b, c);
    let p = a / b;
    let q = b / c;
    assert(a == (p * q) * c) by (nonlinear_arith)
        requires
            a == p * b,
            b == q * c,
    ;
    lemma_div_is(a, c, p * q);
}

proof fn lemma_strides_nest(inner: int, levels: Seq<LodLevel>, i: int, j: int)
    requires
        first_level_error(inner, levels, 0) is None,
        0 <= i <= j < levels.len(),
    ensures
        levels[i].stride >= 1,
        levels[j].stride as int % (levels[i].stride as int) == 0,
    decreases j - i,
{
    lemma_no_level_error(inner, levels, 0, i);
    lemma_no_level_error(inner, levels, 0, j);
    if i < j {
        lemma_strides_nest(inner, levels, i, j - 1);
        lemma_no_level_error(inner, levels, 0, j - 1);
        lemma_divides_trans(
            levels[j].stride as int,
            levels[j - 1].stride as int,
            levels[i].stride as int,
        );
    } else {
        lemma_div_is(levels[i].stride as int, levels[i].stride as int, 1);
    }
}

/// A configuration without errors has valid levels.
pub proof fn lemma_config_valid(inner: int, levels: Seq<LodLevel>, margin: int, band: (i64, i64))
    requires
        config_error(inner, levels, margin, band) is None,
        inner <= i64::MAX,
    ensures
        levels_valid(cfgs_of(inner, levels)),
        margin > 0,
        band.0 < band.1,
{
    let cfgs = cfgs_of(inner, levels);
    let n = levels.len() as int;
    assert forall|i: int| 0 <= i < cfgs.len() implies {
        let c = #[trigger] cfgs[i];
        &&& c.stride >= 1
        &&& 0 <= c.inner_chunks < c.outer_chunks
        &&& cfgs.last().stride as int % (c.stride as int) == 0
        &&& c.inner_chunks as int % (cfgs.last().stride as int) == 0
        &&& c.outer_chunks as int % (cfgs.last().stride as int) == 0
    } by {
        lemma_no_level_error(inner, levels, 0, i);
        lemma_no_radii_error(inner, levels, 0, i);
        lemma_strides_nest(inner, levels, i, n - 1);
        lemma_outer_positive(inner, levels, i);
    }
    assert forall|i: int, j: int| 0 <= i <= j < cfgs.len() implies #[trigger] nested(
        cfgs,
        i,
        j,
    ) by {
        lemma_strides_nest(inner, levels, i, j);
    }
}

proof fn lemma_outer_positive(inner: int, levels: Seq<LodLevel>, i: int)
    requires
        first_level_error(inner, levels, 0) is None,
        0 <= inner <= i64::MAX,
        0 <= i < levels.len(),
    ensures
        0 <= inner_of(inner, levels, i) < levels[i].outer_chunks,
    decreases i,
{
    lemma_no_level_error(inner, levels, 0, i);
    if i > 0 {
        lemma_outer_positive(inner, levels, i - 1);
    }
}

/// The node `(x, z)` lies in the annulus of its level around the center: wholly
/// inside the outer square widened by `extra`, and wholly outside the inner
/// one, which is empty if its radius is 0.
pub open spec fn owns(cfg: LevelCfg, cx: int, cz: int, x: int, z: int, extra: int) -> bool {
    let s = cfg.stride as int;
    let ox = x * s;
    let oz = z * s;
    let outer = cfg.outer_chunks + extra;
    let inner = cfg.inner_chunks as int;
    &&& cx - outer <= ox && ox + s <= cx + outer
    &&& cz - outer <= oz && oz + s <= cz + outer
    &&& inner == 0 || ox >= cx + inner || ox + s <= cx - inner || oz >= cz + inner || oz + s <= cz
        - inner
}

/// The node covers the chunk column.
pub open spec fn node_covers(cfg: LevelCfg, id: LodNodeId, col_x: int, col_z: int) -> bool {
    &&& id.x * cfg.stride <= col_x < id.x * cfg.stride + cfg.stride
    &&& id.z * cfg.stride <= col_z < id.z * cfg.stride + cfg.stride
}

/// Loading order: finest level first, then by `z`, then by `x`.
pub open spec fn node_before(a: LodNodeId, b: LodNodeId) -> bool {
    a.level < b.level || (a.level == b.level && (a.z < b.z || (a.z == b.z && a.x < b.x)))
}

/// Tracks the loaded LOD-node set across levels and computes ring deltas.
pub struct LodRing {
    levels: Vec<LevelCfg>,
    loaded: SortedSet,
    /// Extra chunks beyond a level's outer edge before a node is unloaded.
    unload_margin_chunks: i64,
    /// Coarsest stride; the shared center is snapped to this grid.
    coarsest_stride: i64,
    /// World vertical band that LOD covers, in blocks (exclusive max).
    world_y: (i64, i64),
    /// Snapped center at the last recompute.
    last_center: Option<(i64, i64)>,
}

/// What a ring is made of and what it holds.
#[verifier::ext_equal]
pub struct RingView {
    pub levels: Seq<LevelCfg>,
    pub loaded: Set<LodNodeId>,
    pub margin: int,
    pub band: (i64, i64),
    pub last_center: Option<(i64, i64)>,
}

impl RingView {
    pub open spec fn valid(self) -> bool {
        &&& levels_valid(self.levels)
        &&& self.levels.len() <= u32::MAX
        &&& self.margin > 0
        &&& self.margin % self.coarsest() == 0
        &&& self.band.0 < self.band.1
        &&& forall|id: LodNodeId| #[trigger]
            self.loaded.contains(id) ==> id.level < self.levels.len()
    }

    pub open spec fn coarsest(self) -> int {
        self.levels.last().stride as int
    }

    /// The camera's chunk coordinate floored to the coarsest grid.
    pub open spec fn snapped(self, c: int) -> int {
        (c / self.coarsest()) * self.coarsest()
    }

    /// The node is in its level's annulus around the snapped camera.
    pub open spec fn in_annulus(self, id: LodNodeId, cam: ChunkPos, extra: int) -> bool {
        id.level < self.levels.len() && owns(
            self.levels[id.level as int],
            self.snapped(cam.x as int),
            self.snapped(cam.z as int),
            id.x as int,
            id.z as int,
            extra,
        )
    }

    /// How near a level's nodes come to the camera, in chunks.
    pub open spec fn closest_approach(self, level: int) -> int {
        let d = self.levels[level].inner_chunks - (self.coarsest() - 1);
        if d > 0 {
            d
        } else {
            0
        }
    }

    /// The squares around the camera fit the coordinates.
    pub open spec fn reaches(self, cam: ChunkPos) -> bool {
        let far = self.levels.last().outer_chunks as int;
        &&& i64::MIN <= self.snapped(cam.x as int) - far
        &&& self.snapped(cam.x as int) + far <= i64::MAX
        &&& i64::MIN <= self.snapped(cam.z as int) - far
        &&& self.snapped(cam.z as int) + far <= i64::MAX
    }

    /// A loaded node that stays, within its annulus and the slack, covers the
    /// column.
    pub open spec fn kept_over(self, cam: ChunkPos, x: int, z: int) -> bool {
        exists|k: LodNodeId|
            self.keeps(k, cam) && #[trigger] node_covers(self.levels[k.level as int], k, x, z)
    }

    /// The node is loaded and within the slack.
    pub open spec fn keeps(self, id: LodNodeId, cam: ChunkPos) -> bool {
        self.loaded.contains(id) && self.in_annulus(id, cam, self.margin)
    }

    /// Loaded nodes that stay cover the whole of the node's region.
    pub open spec fn taken(self, id: LodNodeId, cam: ChunkPos) -> bool {
        forall|x: int, z: int| #[trigger]
            node_covers(self.levels[id.level as int], id, x, z) ==> self.kept_over(cam, x, z)
    }

    /// The node is in its annulus, not loaded, and its region is not held by
    /// nodes of other levels that stay within their slack.
    pub open spec fn wants(self, id: LodNodeId, cam: ChunkPos) -> bool {
        self.in_annulus(id, cam, 0) && !self.loaded.contains(id) && !self.taken(id, cam)
    }

    /// With nothing loaded and no center known.
    pub open spec fn cleared(self) -> RingView {
        RingView { loaded: Set::empty(), last_center: None, ..self }
    }

    /// The node is loaded and no longer within the slack.
    pub open spec fn drops(self, id: LodNodeId, cam: ChunkPos) -> bool {
        self.loaded.contains(id) && !self.in_annulus(id, cam, self.margin)
    }
}

/// What an update lists: nothing while the snapped center stays, else the nodes
/// that are wanted, finest level first, and those to drop.
pub open spec fn is_lod_update(
    v: RingView,
    cam: ChunkPos,
    to_load: Seq<LodNodeId>,
    to_unload: Seq<LodNodeId>,
) -> bool {
    if v.last_center == Some((v.snapped(cam.x as int) as i64, v.snapped(cam.z as int) as i64)) {
        to_load.len() == 0 && to_unload.len() == 0
    } else {
        &&& forall|id: LodNodeId| #[trigger] to_load.contains(id) <==> v.wants(id, cam)
        &&& forall|i: int, j: int|
            0 <= i < j < to_load.len() ==> node_before(#[trigger] to_load[i], #[trigger] to_load[j])
        &&& forall|id: LodNodeId| #[trigger] to_unload.contains(id) <==> v.drops(id, cam)
        &&& forall|i: int, j: int|
            0 <= i < j < to_unload.len() ==> key_lt(
                (#[trigger] to_unload[i]).key(),
                (#[trigger] to_unload[j]).key(),
            )
    }
}

/// What a ring is and holds determines its update.
pub proof fn lemma_update_determined(
    v: RingView,
    cam: ChunkPos,
    load_a: Seq<LodNodeId>,
    unload_a: Seq<LodNodeId>,
    load_b: Seq<LodNodeId>,
    unload_b: Seq<LodNodeId>,
)
    requires
        is_lod_update(v, cam, load_a, unload_a),
        is_lod_update(v, cam, load_b, unload_b),
    ensures
        load_a == load_b,
        unload_a == unload_b,
{
    if v.last_center == Some((v.snapped(cam.x as int) as i64, v.snapped(cam.z as int) as i64)) {
        assert(load_a =~= load_b);
        assert(unload_a =~= unload_b);
    } else {
        let before = |a: LodNodeId, b: LodNodeId| node_before(a, b);
        let lower = |a: LodNodeId, b: LodNodeId| key_lt(a.key(), b.key());
        assert forall|x: LodNodeId| #[trigger] load_a.contains(x) <==> load_b.contains(x) by {
            assert(load_a.contains(x) <==> v.wants(x, cam));
            assert(load_b.contains(x) <==> v.wants(x, cam));
        }
        assert forall|x: LodNodeId| #[trigger] unload_a.contains(x) <==> unload_b.contains(x) by {
            assert(unload_a.contains(x) <==> v.drops(x, cam));
            assert(unload_b.contains(x) <==> v.drops(x, cam));
        }
        lemma_ordered_unique(load_a, load_b, before);
        lemma_ordered_unique(unload_a, unload_b, lower);
    }
}

/// A cleared ring is as one newly built with the same arguments: its next update
/// is the same, wherever the camera is, and asks for everything again.
pub proof fn lemma_cleared_is_fresh(
    v: RingView,
    fresh: RingView,
    cam: ChunkPos,
    load_a: Seq<LodNodeId>,
    unload_a: Seq<LodNodeId>,
    load_b: Seq<LodNodeId>,
    unload_b: Seq<LodNodeId>,
)
    requires
        v.valid(),
        fresh.levels == v.levels,
        fresh.margin == v.margin,
        fresh.band == v.band,
        fresh.loaded == Set::<LodNodeId>::empty(),
        fresh.last_center is None,
        is_lod_update(v.cleared(), cam, load_a, unload_a),
        is_lod_update(fresh, cam, load_b, unload_b),
    ensures
        load_a == load_b,
        unload_a == unload_b,
        unload_a.len() == 0,
        forall|id: LodNodeId| #[trigger] load_a.contains(id) <==> v.in_annulus(id, cam, 0),
{
    assert(v.cleared() =~= fresh);
    lemma_update_determined(fresh, cam, load_a, unload_a, load_b, unload_b);
    if unload_a.len() > 0 {
        assert(unload_a.contains(unload_a[0]));
    }
    assert forall|id: LodNodeId| #[trigger] load_a.contains(id) <==> v.in_annulus(id, cam, 0) by {
        if v.in_annulus(id, cam, 0) {
            let cfg = fresh.levels[id.level as int];
            assert(node_covers(cfg, id, id.x * cfg.stride, id.z * cfg.stride));
            assert(!fresh.kept_over(cam, id.x * cfg.stride, id.z * cfg.stride));
        }
    }
}

/// A grid line splits no node.
proof fn lemma_aligned(col: int, s: int, edge: int)
    requires
        s > 0,
        edge % s == 0,
    ensures
        (col / s) * s <= col < (col / s) * s + s,
        col >= edge ==> (col / s) * s >= edge,
        col < edge ==> (col / s) * s + s <= edge,
{
    lemma_div_floor(col, s);
    lemma_div_floor(edge, s);
    let q = col / s;
    let e = edge / s;
    if col >= edge {
        assert(q >= e) by (nonlinear_arith)
            requires
                col >= e * s,
                col < q * s + s,
                s > 0,
        ;
        assert(q * s >= e * s) by (nonlinear_arith)
            requires
                q >= e,
                s > 0,
        ;
    } else {
        assert(q + 1 <= e) by (nonlinear_arith)
            requires
                col < e * s,
                q * s <= col,
                s > 0,
        ;
        assert(q * s + s <= e * s) by (nonlinear_arith)
            requires
                q + 1 <= e,
                s > 0,
        ;
    }
}

/// Sums and differences of multiples are multiples.
pub(crate) proof fn lemma_aligned_sum(a: int, b: int, s: int)
    requires
        s > 0,
        a % s == 0,
        b % s == 0,
    ensures
        (a + b) % s == 0,
        (a - b) % s == 0,
{
    lemma_div_floor(a, s);
    lemma_div_floor(b, s);
    let p = a / s;
    let q = b / s;
    assert(p * s + q * s == (p + q) * s) by (nonlinear_arith);
    assert(p * s - q * s == (p - q) * s) by (nonlinear_arith);
    lemma_div_is(a + b, s, p + q);
    lemma_div_is(a - b, s, p - q);
}

/// The column lies in the square of the given radius around the center.
pub open spec fn in_square(cx: int, cz: int, radius: int, x: int, z: int) -> bool {
    cx - radius <= x < cx + radius && cz - radius <= z < cz + radius
}

/// The snapped center and a level's edges are multiples of the level's stride.
pub(crate) proof fn lemma_center_aligned(v: RingView, c: int, i: int)
    requires
        v.valid(),
        0 <= i < v.levels.len(),
    ensures
        v.levels[i].stride >= 1,
        v.snapped(c) % (v.levels[i].stride as int) == 0,
        v.levels[i].outer_chunks as int % (v.levels[i].stride as int) == 0,
        v.levels[i].inner_chunks as int % (v.levels[i].stride as int) == 0,
        v.snapped(c) <= c < v.snapped(c) + v.coarsest(),
{
    let big = v.coarsest();
    let cfg = v.levels[i];
    let last = v.levels[v.levels.len() - 1];
    lemma_div_floor(c, big);
    lemma_div_is(v.snapped(c), big, c / big);
    lemma_divides_trans(v.snapped(c), big, cfg.stride as int);
    lemma_divides_trans(cfg.outer_chunks as int, big, cfg.stride as int);
    lemma_divides_trans(cfg.inner_chunks as int, big, cfg.stride as int);
}

/// A node owned by a level lies in the level's outer square and outside its
/// inner one, as does every column it covers.
pub(crate) proof fn lemma_owned_column(v: RingView, cam: ChunkPos, id: LodNodeId, x: int, z: int)
    requires
        v.valid(),
        v.in_annulus(id, cam, 0),
        node_covers(v.levels[id.level as int], id, x, z),
    ensures
        ({
            let cfg = v.levels[id.level as int];
            let cx = v.snapped(cam.x as int);
            let cz = v.snapped(cam.z as int);
            in_square(cx, cz, cfg.outer_chunks as int, x, z) && !in_square(
                cx,
                cz,
                cfg.inner_chunks as int,
                x,
                z,
            )
        }),
{
}

/// The outer edges grow with the level.
pub(crate) proof fn lemma_outer_grows(levels: Seq<LevelCfg>, i: int, j: int)
    requires
        levels_valid(levels),
        0 <= i < j < levels.len(),
    ensures
        levels[i].outer_chunks <= levels[j].inner_chunks,
    decreases j - i,
{
    assert(levels[j].inner_chunks == levels[j - 1].outer_chunks);
    if i < j - 1 {
        lemma_outer_grows(levels, i, j - 1);
        assert(levels[j - 1].inner_chunks < levels[j - 1].outer_chunks);
    }
}

/// The node of a level that covers a column.
pub open spec fn node_over(cfg: LevelCfg, level: int, x: int, z: int) -> LodNodeId {
    LodNodeId {
        level: level as u32,
        x: (x / (cfg.stride as int)) as i64,
        z: (z / (cfg.stride as int)) as i64,
    }
}

/// The levels cover the plane without gaps or overlaps: every chunk column
/// inside the outermost square, and outside the innermost one, is covered by
/// exactly one node of the annuli.
pub proof fn lemma_levels_partition(v: RingView, cam: ChunkPos, x: i64, z: i64)
    requires
        v.valid(),
        in_square(
            v.snapped(cam.x as int),
            v.snapped(cam.z as int),
            v.levels.last().outer_chunks as int,
            x as int,
            z as int,
        ),
        !in_square(
            v.snapped(cam.x as int),
            v.snapped(cam.z as int),
            v.levels[0].inner_chunks as int,
            x as int,
            z as int,
        ),
    ensures
        exists|id: LodNodeId|
            v.in_annulus(id, cam, 0) && #[trigger] node_covers(
                v.levels[id.level as int],
                id,
                x as int,
                z as int,
            ),
        forall|a: LodNodeId, b: LodNodeId|
            v.in_annulus(a, cam, 0) && v.in_annulus(b, cam, 0) && #[trigger] node_covers(
                v.levels[a.level as int],
                a,
                x as int,
                z as int,
            ) && #[trigger] node_covers(v.levels[b.level as int], b, x as int, z as int) ==> a == b,
{
    let cx = v.snapped(cam.x as int);
    let cz = v.snapped(cam.z as int);
    let i = lemma_owning_level(v, cx, cz, x as int, z as int, v.levels.len() - 1);
    let cfg = v.levels[i];
    let s = cfg.stride as int;
    let inner = cfg.inner_chunks as int;
    let outer = cfg.outer_chunks as int;
    lemma_center_aligned(v, cam.x as int, i);
    lemma_center_aligned(v, cam.z as int, i);
    lemma_aligned_sum(cx, outer, s);
    lemma_aligned_sum(cz, outer, s);
    lemma_aligned_sum(cx, inner, s);
    lemma_aligned_sum(cz, inner, s);
    lemma_aligned(x as int, s, cx - outer);
    lemma_aligned(x as int, s, cx + outer);
    lemma_aligned(z as int, s, cz - outer);
    lemma_aligned(z as int, s, cz + outer);
    lemma_aligned(x as int, s, cx - inner);
    lemma_aligned(x as int, s, cx + inner);
    lemma_aligned(z as int, s, cz - inner);
    lemma_aligned(z as int, s, cz + inner);
    lemma_div_floor(x as int, s);
    lemma_div_floor(z as int, s);
    let id = node_over(cfg, i, x as int, z as int);
    assert(id.x == x as int / s && id.z == z as int / s && id.level == i);
    assert(v.in_annulus(id, cam, 0));
    assert(node_covers(v.levels[id.level as int], id, x as int, z as int));
    assert forall|a: LodNodeId, b: LodNodeId|
        v.in_annulus(a, cam, 0) && v.in_annulus(b, cam, 0) && #[trigger] node_covers(
            v.levels[a.level as int],
            a,
            x as int,
            z as int,
        ) && #[trigger] node_covers(v.levels[b.level as int], b, x as int, z as int) implies a
        == b by {
        lemma_owned_column(v, cam, a, x as int, z as int);
        lemma_owned_column(v, cam, b, x as int, z as int);
        if a.level < b.level {
            lemma_outer_grows(v.levels, a.level as int, b.level as int);
        } else if b.level < a.level {
            lemma_outer_grows(v.levels, b.level as int, a.level as int);
        } else {
            let t = v.levels[a.level as int].stride as int;
            lemma_div_is(x as int, t, a.x as int);
            lemma_div_is(x as int, t, b.x as int);
            lemma_div_is(z as int, t, a.z as int);
            lemma_div_is(z as int, t, b.z as int);
        }
    }
}

/// The level, at most `i`, whose squares bracket a column.
proof fn lemma_owning_level(v: RingView, cx: int, cz: int, x: int, z: int, i: int) -> (r: int)
    requires
        v.valid(),
        0 <= i < v.levels.len(),
        in_square(cx, cz, v.levels[i].outer_chunks as int, x, z),
        !in_square(cx, cz, v.levels[0].inner_chunks as int, x, z),
    ensures
        0 <= r <= i,
        in_square(cx, cz, v.levels[r].outer_chunks as int, x, z),
        !in_square(cx, cz, v.levels[r].inner_chunks as int, x, z),
    decreases i,
{
    if !in_square(cx, cz, v.levels[i].inner_chunks as int, x, z) {
        i
    } else {
        assert(v.levels[i].inner_chunks == v.levels[i - 1].outer_chunks);
        lemma_owning_level(v, cx, cz, x, z, i - 1)
    }
}

/// The node grids nest: of two nodes over a column, the finer one lies wholly
/// within the coarser one.
pub proof fn lemma_nodes_nest(
    v: RingView,
    fine: LodNodeId,
    coarse: LodNodeId,
    col_x: int,
    col_z: int,
    x: int,
    z: int,
)
    requires
        v.valid(),
        fine.level < v.levels.len(),
        coarse.level < v.levels.len(),
        fine.level <= coarse.level,
        node_covers(v.levels[fine.level as int], fine, col_x, col_z),
        node_covers(v.levels[coarse.level as int], coarse, col_x, col_z),
        node_covers(v.levels[fine.level as int], fine, x, z),
    ensures
        node_covers(v.levels[coarse.level as int], coarse, x, z),
{
    let s = v.levels[fine.level as int].stride as int;
    let t = v.levels[coarse.level as int].stride as int;
    assert(nested(v.levels, fine.level as int, coarse.level as int));
    lemma_div_floor(t, s);
    let k = t / s;
    assert(coarse.x * t == (coarse.x * k) * s) by (nonlinear_arith)
        requires
            t == k * s,
    ;
    assert(coarse.z * t == (coarse.z * k) * s) by (nonlinear_arith)
        requires
            t == k * s,
    ;
    assert(coarse.x * t + t == (coarse.x * k + k) * s) by (nonlinear_arith)
        requires
            t == k * s,
    ;
    assert(coarse.z * t + t == (coarse.z * k + k) * s) by (nonlinear_arith)
        requires
            t == k * s,
    ;
    lemma_block_inside(fine.x as int, s, coarse.x * k, coarse.x * k + k, col_x);
    lemma_block_inside(fine.z as int, s, coarse.z * k, coarse.z * k + k, col_z);
}

/// A block of a grid that meets a run of whole blocks lies within it.
proof fn lemma_block_inside(n: int, s: int, lo: int, hi: int, c: int)
    requires
        s > 0,
        n * s <= c < n * s + s,
        lo * s <= c < hi * s,
    ensures
        lo * s <= n * s,
        n * s + s <= hi * s,
{
    assert(lo <= n && n + 1 <= hi) by (nonlinear_arith)
        requires
            s > 0,
            n * s <= c < n * s + s,
            lo * s <= c < hi * s,
    ;
    assert(lo * s <= n * s && n * s + s <= hi * s) by (nonlinear_arith)
        requires
            s > 0,
            lo <= n,
            n + 1 <= hi,
    ;
}

/// No chunk column of a level's nodes is nearer the camera, along its further
/// axis, than the level's closest approach.
pub proof fn lemma_closest_approach(v: RingView, cam: ChunkPos, id: LodNodeId, x: int, z: int)
    requires
        v.valid(),
        v.in_annulus(id, cam, 0),
        node_covers(v.levels[id.level as int], id, x, z),
    ensures
        ({
            let d = v.closest_approach(id.level as int);
            x - cam.x >= d || cam.x - x >= d || z - cam.z >= d || cam.z - z >= d
        }),
{
    let k = v.coarsest();
    assert(v.levels[v.levels.len() - 1].stride >= 1);
    lemma_div_floor(cam.x as int, k);
    lemma_div_floor(cam.z as int, k);
}

impl View for LodRing {
    type V = RingView;

    closed spec fn view(&self) -> RingView {
        RingView {
            levels: self.levels@,
            loaded: Set::new(|id: LodNodeId| self.loaded@.contains(id.key())),
            margin: self.unload_margin_chunks as int,
            band: self.world_y,
            last_center: self.last_center,
        }
    }
}

impl LodRing {
    /// Every ring is valid.
    #[verifier::type_invariant]
    pub open spec fn inv(self) -> bool {
        self@.valid() && self.stored_well()
    }

    /// The fields agree with the view.
    pub closed spec fn stored_well(self) -> bool {
        &&& self.coarsest_stride == self@.coarsest()
        &&& forall|k: Key| #[trigger]
            self.loaded@.contains(k) ==> 0 <= k.0 < self.levels.len()
    }

    /// Build a ring with nothing loaded.
    ///
    /// - `lod_inner_chunks`: where LOD begins (0 is always gap-safe).
    /// - `levels`: finest to coarsest, each with its stride and outer edge.
    /// - `unload_margin_chunks`: hysteresis slack.
    ///
    /// The configuration must be one that [`check_config`] accepts.
    pub fn new(
        lod_inner_chunks: i64,
        levels: &[LodLevel],
        unload_margin_chunks: i64,
        world_y_blocks: (i64, i64),
    ) -> (r: Self)
        requires
            config_error(
                lod_inner_chunks as int,
                levels@,
                unload_margin_chunks as int,
                world_y_blocks,
            ) is None,
            levels.len() <= u32::MAX,
        ensures
            r@.valid(),
            r@.levels == cfgs_of(lod_inner_chunks as int, levels@),
            r@.loaded =~= Set::<LodNodeId>::empty(),
            r@.margin == unload_margin_chunks,
            r@.band == world_y_blocks,
            r@.last_center is None,
    {
        let mut cfgs: Vec<LevelCfg> = Vec::with_capacity(levels.len());
        let mut inner: i64 = lod_inner_chunks;
        let mut i: usize = 0;
        while i < levels.len()
            invariant
                i <= levels.len(),
                inner == inner_of(lod_inner_chunks as int, levels@, i as int),
                cfgs@ == cfgs_of(lod_inner_chunks as int, levels@).take(i as int),
            decreases levels.len() - i,
        {
            let level = levels[i];
            cfgs.push(
                LevelCfg {
                    stride: level.stride,
                    inner_chunks: inner,
                    outer_chunks: level.outer_chunks,
                },
            );
            assert(cfgs@ =~= cfgs_of(lod_inner_chunks as int, levels@).take(i + 1));
            inner = level.outer_chunks;
            i += 1;
        }
        assert(cfgs@ =~= cfgs_of(lod_inner_chunks as int, levels@));
        proof {
            lemma_config_valid(
                lod_inner_chunks as int,
                levels@,
                unload_margin_chunks as int,
                world_y_blocks,
            );
        }
        let last: usize = levels.len() - 1;
        LodRing {
            coarsest_stride: cfgs[last].stride,
            levels: cfgs,
            loaded: SortedSet::new(),
            unload_margin_chunks,
            world_y: world_y_blocks,
            last_center: None,
        }
    }

    /// Height in blocks of one cell at any level: a node is 32 cells tall and
    /// spans the entire world band, so that no node has terrain at its top
    /// boundary.
    #[inline]
    pub fn v_stride(&self) -> (r: i64)
        requires
            self@.band.1 - self@.band.0 + 32 <= i64::MAX,
        ensures
            r * 32 >= self@.band.1 - self@.band.0,
            (r - 1) * 32 < self@.band.1 - self@.band.0,
    {
        proof {
            use_type_invariant(self);
        }
        let span: i64 = self.world_y.1 - self.world_y.0;
        let cells: i64 = CHUNK_SIZE as i64;
        (span + cells - 1) / cells
    }

    /// Bottom of the world band, in blocks: every node's Y origin.
    #[inline]
    pub fn world_y_min(&self) -> (r: i64)
        ensures
            r == self@.band.0,
    {
        self.world_y.0
    }

    /// A ring with a single level.
    pub fn single_level(
        lod_inner_chunks: i64,
        stride: i64,
        outer_chunks: i64,
        unload_margin_chunks: i64,
        world_y_blocks: (i64, i64),
    ) -> (r: Self)
        requires
            config_error(
                lod_inner_chunks as int,
                seq![LodLevel { stride, outer_chunks }],
                unload_margin_chunks as int,
                world_y_blocks,
            ) is None,
        ensures
            r@.valid(),
            r@.levels == seq![
                LevelCfg { stride, inner_chunks: lod_inner_chunks, outer_chunks },
            ],
            r@.loaded =~= Set::<LodNodeId>::empty(),
            r@.margin == unload_margin_chunks,
            r@.band == world_y_blocks,
            r@.last_center is None,
    {
        let levels: [LodLevel; 1] = [LodLevel { stride, outer_chunks }];
        assert(levels@ =~= seq![LodLevel { stride, outer_chunks }]);
        let r = Self::new(lod_inner_chunks, &levels, unload_margin_chunks, world_y_blocks);
        assert(r@.levels =~= seq![
            LevelCfg { stride, inner_chunks: lod_inner_chunks, outer_chunks },
        ]);
        r
    }

    pub fn level_count(&self) -> (r: usize)
        ensures
            r == self@.levels.len(),
            1 <= r <= u32::MAX,
    {
        proof {
            use_type_invariant(self);
        }
        self.levels.len()
    }

    /// Chunks per node side at `level`.
    #[inline]
    pub fn stride(&self, level: u32) -> (r: i64)
        requires
            level < self@.levels.len(),
        ensures
            r == self@.levels[level as int].stride,
            r >= 1,
    {
        proof {
            use_type_invariant(self);
        }
        self.levels[level as usize].stride
    }

    /// The stride of the coarsest level, to whose grid the center is snapped.
    #[inline]
    pub fn coarsest_stride(&self) -> (r: i64)
        ensures
            r == self@.coarsest(),
            r >= 1,
    {
        proof {
            use_type_invariant(self);
            let last = self@.levels[self@.levels.len() - 1];
        }
        self.coarsest_stride
    }

    /// Distance in blocks from the snapped center at which `level` hands over
    /// to the next coarser one; `None` for the coarsest level.
    #[inline]
    pub fn morph_end_blocks(&self, level: u32) -> (r: Option<i64>)
        requires
            level < self@.levels.len() ==> self@.levels[level as int].outer_chunks * 32
                <= i64::MAX,
        ensures
            r == (if level + 1 >= self@.levels.len() {
                None
            } else {
                Some((self@.levels[level as int].outer_chunks * 32) as i64)
            }),
            r matches Some(b) ==> b == self@.levels[level as int].outer_chunks * 32,
    {
        proof {
            use_type_invariant(self);
            if level < self@.levels.len() {
                let c = self@.levels[level as int];
            }
        }
        if level as u64 + 1 >= self.levels.len() as u64 {
            return None;
        }
        Some(self.levels[level as usize].outer_chunks * CHUNK_SIZE as i64)
    }

    /// World size in blocks of one node side at `level`.
    #[inline]
    pub fn span_blocks(&self, level: u32) -> (r: i64)
        requires
            level < self@.levels.len(),
            self@.levels[level as int].stride * 32 <= i64::MAX,
        ensures
            r == self@.levels[level as int].stride * 32,
    {
        self.stride(level) * CHUNK_SIZE as i64
    }

    /// The node's origin chunk (its minimum corner) on the X/Z axes.
    #[inline]
    pub fn node_origin_chunk_xz(&self, id: LodNodeId) -> (r: (i64, i64))
        requires
            id.level < self@.levels.len(),
            i64::MIN <= id.x * self@.levels[id.level as int].stride <= i64::MAX,
            i64::MIN <= id.z * self@.levels[id.level as int].stride <= i64::MAX,
        ensures
            r.0 == id.x * self@.levels[id.level as int].stride,
            r.1 == id.z * self@.levels[id.level as int].stride,
            node_covers(self@.levels[id.level as int], id, r.0 as int, r.1 as int),
            !node_covers(self@.levels[id.level as int], id, r.0 - 1, r.1 as int),
            !node_covers(self@.levels[id.level as int], id, r.0 as int, r.1 - 1),
    {
        let s: i64 = self.stride(id.level);
        (id.x * s, id.z * s)
    }

    /// The node's origin in world blocks, all three axes. Y is always the
    /// bottom of the world band.
    #[inline]
    pub fn node_origin_blocks(&self, id: LodNodeId) -> (r: (i64, i64, i64))
        requires
            id.level < self@.levels.len(),
            i64::MIN <= id.x * self@.levels[id.level as int].stride * 32 <= i64::MAX,
            i64::MIN <= id.z * self@.levels[id.level as int].stride * 32 <= i64::MAX,
        ensures
            r.0 == id.x * self@.levels[id.level as int].stride * 32,
            r.1 == self@.band.0,
            r.2 == id.z * self@.levels[id.level as int].stride * 32,
            node_covers(self@.levels[id.level as int], id, r.0 as int / 32, r.2 as int / 32),
            !node_covers(self@.levels[id.level as int], id, (r.0 - 1) / 32, r.2 as int / 32),
            !node_covers(self@.levels[id.level as int], id, r.0 as int / 32, (r.2 - 1) / 32),
    {
        let s: i64 = self.stride(id.level);
        (id.x * s * CHUNK_SIZE as i64, self.world_y.0, id.z * s * CHUNK_SIZE as i64)
    }

    /// The node at `level` covering a chunk column. Used to invalidate LOD
    /// after a block edit: the coarse node still holds the surface as it was.
    #[inline]
    pub fn node_containing(&self, level: u32, chunk_x: i64, chunk_z: i64) -> (r: LodNodeId)
        requires
            level < self@.levels.len(),
        ensures
            r == node_over(
                self@.levels[level as int],
                level as int,
                chunk_x as int,
                chunk_z as int,
            ),
            node_covers(self@.levels[level as int], r, chunk_x as int, chunk_z as int),
    {
        let s: i64 = self.stride(level);
        LodNodeId::new(level, div_floor(chunk_x, s), div_floor(chunk_z, s))
    }

    /// The loaded nodes, by level, then x, then z.
    pub fn loaded(&self) -> (r: Vec<LodNodeId>)
        ensures
            forall|id: LodNodeId| #[trigger] r@.contains(id) <==> self@.loaded.contains(id),
            forall|i: int, j: int|
                0 <= i < j < r.len() ==> key_lt((#[trigger] r[i]).key(), (#[trigger] r[j]).key()),
            self@.loaded.finite(),
            r.len() == self@.loaded.len(),
    {
        proof {
            use_type_invariant(self);
        }
        let keys = self.loaded.list_keys();
        let mut out: Vec<LodNodeId> = Vec::with_capacity(keys.len());
        let mut i: usize = 0;
        while i < keys.len()
            invariant
                i <= keys.len(),
                self@.valid(),
                keys@ == self.loaded.keys(),
                self.loaded.keys_listed(),
                forall|k: Key| #[trigger]
                    self.loaded@.contains(k) ==> 0 <= k.0 < self.levels.len(),
                out.len() == i,
                forall|j: int| 0 <= j < i ==> (#[trigger] out[j]).key() == keys[j],
            decreases keys.len() - i,
        {
            let k: Key = keys[i];
            assert(self.loaded.keys().contains(k));
            assert(self.loaded@.contains(k));
            out.push(LodNodeId::from_key(k));
            i += 1;
        }
        proof {
            assert forall|id: LodNodeId| #[trigger] out@.contains(id) <==> self@.loaded.contains(
                id,
            ) by {
                if out@.contains(id) {
                    let j = choose|j: int| 0 <= j < out.len() && out@[j] == id;
                    assert(self.loaded.keys().contains(keys[j]));
                }
                if self@.loaded.contains(id) {
                    assert(self.loaded.keys().contains(id.key()));
                    let j = choose|j: int| 0 <= j < keys.len() && keys[j] == id.key();
                    assert(out[j].key() == id.key());
                    assert(out[j] == id);
                }
            }
            assert(out@.no_duplicates());
            assert(out@.to_set() =~= self@.loaded);
            out@.unique_seq_to_set();
        }
        out
    }

    /// Whether the node is loaded.
    pub fn is_loaded(&self, id: LodNodeId) -> (r: bool)
        ensures
            r == self@.loaded.contains(id),
    {
        self.loaded.contains(id.to_key())
    }

    /// The shared center all annuli are measured from.
    #[inline]
    fn snapped_center(&self, cam_chunk: ChunkPos) -> (r: (i64, i64))
        requires
            i64::MIN <= self@.snapped(cam_chunk.x as int),
            i64::MIN <= self@.snapped(cam_chunk.z as int),
        ensures
            r.0 == self@.snapped(cam_chunk.x as int),
            r.1 == self@.snapped(cam_chunk.z as int),
    {
        proof {
            use_type_invariant(self);
            lemma_center_aligned(self@, cam_chunk.x as int, 0);
            lemma_center_aligned(self@, cam_chunk.z as int, 0);
            let last = self@.levels[self@.levels.len() - 1];
        }
        let s: i64 = self.coarsest_stride;
        (div_floor(cam_chunk.x, s) * s, div_floor(cam_chunk.z, s) * s)
    }

    /// Is `id` in its level's annulus, with `extra` chunks of outer slack (0
    /// for load, the hysteresis margin for unload)?
    pub fn in_annulus(&self, id: LodNodeId, cam_chunk: ChunkPos, extra: i64) -> (r: bool)
        requires
            id.level < self@.levels.len(),
            i64::MIN <= self@.snapped(cam_chunk.x as int),
            i64::MIN <= self@.snapped(cam_chunk.z as int),
        ensures
            r == self@.in_annulus(id, cam_chunk, extra as int),
    {
        proof {
            use_type_invariant(self);
            let cfg = self@.levels[id.level as int];
        }
        let (cx, cz) = self.snapped_center(cam_chunk);
        level_owns(self.levels[id.level as usize], cx, cz, id.x, id.z, extra)
    }

    /// Compute the load/unload delta for the camera's chunk position. A no-op
    /// when the snapped center has not changed since the last one.
    ///
    /// Nodes to load come finest level first.
    pub fn update(&mut self, camera_chunk: ChunkPos) -> (r: LodUpdate)
        requires
            old(self)@.reaches(camera_chunk),
        ensures
            is_lod_update(old(self)@, camera_chunk, r.to_load@, r.to_unload@),
            final(self)@ == (RingView {
                last_center: Some(
                    (
                        old(self)@.snapped(camera_chunk.x as int) as i64,
                        old(self)@.snapped(camera_chunk.z as int) as i64,
                    ),
                ),
                ..old(self)@
            }),
    {
        proof {
            use_type_invariant(&*self);
        }
        let ghost v = self@;
        let center = self.snapped_center(camera_chunk);
        let (cx, cz) = center;
        if let Some((lx, lz)) = self.last_center {
            if lx == cx && lz == cz {
                return LodUpdate::default();
            }
        }
        let to_load = self.nodes_to_load(cx, cz, Ghost(camera_chunk));
        let keys = self.loaded.list_keys();
        let mut to_unload: Vec<LodNodeId> = Vec::new();
        let mut i: usize = 0;
        while i < keys.len()
            invariant
                i <= keys.len(),
                self@ == v,
                v.valid(),
                cx == v.snapped(camera_chunk.x as int),
                cz == v.snapped(camera_chunk.z as int),
                keys@ == self.loaded.keys(),
                self.loaded.keys_listed(),
                forall|k: Key| #[trigger]
                    self.loaded@.contains(k) ==> 0 <= k.0 < self.levels.len(),
                forall|id: LodNodeId| #[trigger]
                    to_unload@.contains(id) <==> v.drops(id, camera_chunk) && keys@.take(
                        i as int,
                    ).contains(id.key()),
                forall|a: int, b: int|
                    0 <= a < b < to_unload.len() ==> key_lt(
                        (#[trigger] to_unload[a]).key(),
                        (#[trigger] to_unload[b]).key(),
                    ),
            decreases keys.len() - i,
        {
            let k: Key = keys[i];
            assert(self.loaded.keys().contains(k));
            assert(self.loaded@.contains(k));
            let id = LodNodeId::from_key(k);
            let ghost was = to_unload@;
            let ghost done = keys@.take(i as int);
            let ghost next = keys@.take(i + 1);
            assert(next =~= done.push(k));
            if !level_owns(
                self.levels[id.level as usize],
                cx,
                cz,
                id.x,
                id.z,
                self.unload_margin_chunks,
            ) {
                assert forall|a: int| 0 <= a < was.len() implies key_lt(
                    (#[trigger] was[a]).key(),
                    k,
                ) by {
                    assert(was.contains(was[a]));
                    let j = done.index_of(was[a].key());
                    assert(key_lt(self.loaded.keys()[j], self.loaded.keys()[i as int]));
                }
                to_unload.push(id);
            }
            assert forall|n: LodNodeId| #[trigger] to_unload@.contains(n) <==> v.drops(
                n,
                camera_chunk,
            ) && next.contains(n.key()) by {
                assert(was.contains(n) <==> v.drops(n, camera_chunk) && done.contains(n.key()));
                lemma_push_contains(done, k, n.key());
                lemma_push_contains(was, id, n);
                if n.key() == k {
                    assert(n == id);
                }
            }
            i += 1;
        }
        assert(keys@.take(i as int) =~= keys@);
        assert forall|id: LodNodeId| #[trigger] to_unload@.contains(id) <==> v.drops(
            id,
            camera_chunk,
        ) by {
            if v.drops(id, camera_chunk) {
                assert(self.loaded@.contains(id.key()));
                assert(self.loaded.keys().contains(id.key()));
            }
        }
        self.last_center = Some((cx, cz));
        LodUpdate { to_load, to_unload }
    }

    /// Whether a loaded node that stays covers a column.
    fn is_kept_over(&self, x: i64, z: i64, cx: i64, cz: i64, Ghost(cam): Ghost<ChunkPos>) -> (r:
        bool)
        requires
            cx == self@.snapped(cam.x as int),
            cz == self@.snapped(cam.z as int),
        ensures
            r == self@.kept_over(cam, x as int, z as int),
    {
        proof {
            use_type_invariant(self);
        }
        let ghost v = self@;
        let mut li: usize = 0;
        while li < self.levels.len()
            invariant
                li <= self.levels.len(),
                v == self@,
                v.valid(),
                self.levels@ == v.levels,
                cx == v.snapped(cam.x as int),
                cz == v.snapped(cam.z as int),
                forall|k: LodNodeId|
                    v.keeps(k, cam) && k.level < li ==> !#[trigger] node_covers(
                        v.levels[k.level as int],
                        k,
                        x as int,
                        z as int,
                    ),
            decreases self.levels.len() - li,
        {
            let id = self.node_containing(li as u32, x, z);
            if self.is_loaded(id) && level_owns(
                self.levels[li],
                cx,
                cz,
                id.x,
                id.z,
                self.unload_margin_chunks,
            ) {
                assert(v.keeps(id, cam));
                return true;
            }
            assert forall|k: LodNodeId| v.keeps(k, cam) && k.level < li + 1 implies !#[trigger]
            node_covers(v.levels[k.level as int], k, x as int, z as int) by {
                if k.level == li && node_covers(v.levels[li as int], k, x as int, z as int) {
                    let s = v.levels[li as int].stride as int;
                    lemma_div_is(x as int, s, k.x as int);
                    lemma_div_is(z as int, s, k.z as int);
                    assert(k == id);
                }
            }
            li += 1;
        }
        false
    }

    /// Whether loaded nodes that stay cover the whole of a node's region.
    fn is_taken(&self, id: LodNodeId, cx: i64, cz: i64, Ghost(cam): Ghost<ChunkPos>) -> (r: bool)
        requires
            self@.reaches(cam),
            cx == self@.snapped(cam.x as int),
            cz == self@.snapped(cam.z as int),
            self@.in_annulus(id, cam, 0),
        ensures
            r == self@.taken(id, cam),
    {
        proof {
            use_type_invariant(self);
            let n = self@.levels.len() as int;
            if id.level < n - 1 {
                lemma_outer_grows(self@.levels, id.level as int, n - 1);
            }
        }
        let ghost v = self@;
        let ghost cfg = v.levels[id.level as int];
        let s: i64 = self.levels[id.level as usize].stride;
        let (ox, oz) = self.node_origin_chunk_xz(id);
        let mut z: i64 = oz;
        while z < oz + s
            invariant
                v == self@,
                cfg == v.levels[id.level as int],
                s == cfg.stride,
                ox == id.x * s,
                oz == id.z * s,
                ox + s <= i64::MAX,
                oz + s <= i64::MAX,
                oz <= z <= oz + s,
                cx == v.snapped(cam.x as int),
                cz == v.snapped(cam.z as int),
                forall|a: int, b: int| #[trigger]
                    node_covers(cfg, id, a, b) && b < z ==> v.kept_over(cam, a, b),
            decreases oz + s - z,
        {
            let mut x: i64 = ox;
            while x < ox + s
                invariant
                    v == self@,
                    cfg == v.levels[id.level as int],
                    s == cfg.stride,
                    ox == id.x * s,
                    oz == id.z * s,
                    ox + s <= i64::MAX,
                    oz + s <= i64::MAX,
                    oz <= z < oz + s,
                    ox <= x <= ox + s,
                    cx == v.snapped(cam.x as int),
                    cz == v.snapped(cam.z as int),
                    forall|a: int, b: int| #[trigger]
                        node_covers(cfg, id, a, b) && (b < z || (b == z && a < x)) ==> v.kept_over(
                            cam,
                            a,
                            b,
                        ),
                decreases ox + s - x,
            {
                if !self.is_kept_over(x, z, cx, cz, Ghost(cam)) {
                    assert(node_covers(cfg, id, x as int, z as int));
                    return false;
                }
                x += 1;
            }
            z += 1;
        }
        true
    }

    /// The nodes of the annuli around the center that are wanted.
    fn nodes_to_load(&self, cx: i64, cz: i64, Ghost(cam): Ghost<ChunkPos>) -> (r: Vec<LodNodeId>)
        requires
            self@.reaches(cam),
            cx == self@.snapped(cam.x as int),
            cz == self@.snapped(cam.z as int),
        ensures
            forall|id: LodNodeId| #[trigger] r@.contains(id) <==> self@.wants(id, cam),
            forall|i: int, j: int|
                0 <= i < j < r.len() ==> node_before(#[trigger] r[i], #[trigger] r[j]),
    {
        proof {
            use_type_invariant(self);
        }
        let ghost v = self@;
        let mut out: Vec<LodNodeId> = Vec::new();
        let mut li: usize = 0;
        while li < self.levels.len()
            invariant
                li <= self.levels.len(),
                v == self@,
                v.valid(),
                v.reaches(cam),
                cx == v.snapped(cam.x as int),
                cz == v.snapped(cam.z as int),
                chosen(v, cam, out@, li as int, 0, 0, true),
            decreases self.levels.len() - li,
        {
            let cfg = self.levels[li];
            let s: i64 = cfg.stride;
            let level: u32 = li as u32;
            proof {
                let n = v.levels.len() as int;
                if li < n - 1 {
                    lemma_outer_grows(v.levels, li as int, n - 1);
                    let last = v.levels[n - 1];
                }
            }
            let lo_x: i64 = div_floor(cx - cfg.outer_chunks, s);
            let hi_x: i64 = div_floor(cx + cfg.outer_chunks, s);
            let lo_z: i64 = div_floor(cz - cfg.outer_chunks, s);
            let hi_z: i64 = div_floor(cz + cfg.outer_chunks, s);
            assert forall|id: LodNodeId| #[trigger] v.wants(id, cam) && id.level == li implies lo_x
                <= id.x < hi_x && lo_z <= id.z < hi_z by {
                lemma_node_bounds(cx as int, cfg.outer_chunks as int, s as int, id.x as int);
                lemma_node_bounds(cz as int, cfg.outer_chunks as int, s as int, id.z as int);
            }
            assert(lo_x <= hi_x && lo_z <= hi_z) by {
                vstd::arithmetic::div_mod::lemma_div_is_ordered(
                    cx - cfg.outer_chunks,
                    cx + cfg.outer_chunks,
                    s as int,
                );
                vstd::arithmetic::div_mod::lemma_div_is_ordered(
                    cz - cfg.outer_chunks,
                    cz + cfg.outer_chunks,
                    s as int,
                );
            }
            let mut nz: i64 = lo_z;
            assert forall|id: LodNodeId| #[trigger] v.wants(id, cam) implies (passed(
                id,
                li as int,
                0,
                0,
                true,
            ) <==> passed(id, li as int, lo_z as int, lo_x as int, false)) by {}
            assert(chosen(v, cam, out@, li as int, lo_z as int, lo_x as int, false));
            while nz < hi_z
                invariant
                    v == self@,
                    v.valid(),
                    v.reaches(cam),
                    cx == v.snapped(cam.x as int),
                    cz == v.snapped(cam.z as int),
                    li < self.levels.len(),
                    level == li,
                    cfg == v.levels[li as int],
                    lo_z <= nz <= hi_z,
                    lo_x <= hi_x,
                    forall|id: LodNodeId| #[trigger]
                        v.wants(id, cam) && id.level == li ==> lo_x <= id.x < hi_x && lo_z <= id.z
                            < hi_z,
                    chosen(v, cam, out@, li as int, nz as int, lo_x as int, false),
                decreases hi_z - nz,
            {
                let mut nx: i64 = lo_x;
                while nx < hi_x
                    invariant
                        v == self@,
                        v.valid(),
                        v.reaches(cam),
                        cx == v.snapped(cam.x as int),
                        cz == v.snapped(cam.z as int),
                        li < self.levels.len(),
                        level == li,
                        cfg == v.levels[li as int],
                        lo_x <= nx <= hi_x,
                        chosen(v, cam, out@, li as int, nz as int, nx as int, false),
                    decreases hi_x - nx,
                {
                    let id = LodNodeId::new(level, nx, nz);
                    let ghost was = out@;
                    if level_owns(cfg, cx, cz, nx, nz, 0) && !self.loaded.contains(id.to_key())
                        && !self.is_taken(id, cx, cz, Ghost(cam)) {
                        assert(v.wants(id, cam));
                        out.push(id);
                    } else {
                        assert(!v.wants(id, cam));
                    }
                    proof {
                        lemma_chosen_step(
                            v,
                            cam,
                            was,
                            out@,
                            li as int,
                            nz as int,
                            nx as int,
                            id,
                        );
                    }
                    nx += 1;
                }
                assert forall|id: LodNodeId| #[trigger] v.wants(id, cam) implies (passed(
                    id,
                    li as int,
                    nz as int,
                    hi_x as int,
                    false,
                ) <==> passed(id, li as int, nz + 1, lo_x as int, false)) by {}
                nz += 1;
            }
            assert forall|id: LodNodeId| #[trigger] v.wants(id, cam) implies (passed(
                id,
                li as int,
                hi_z as int,
                lo_x as int,
                false,
            ) <==> passed(id, li + 1, 0, 0, true)) by {}
            assert(chosen(v, cam, out@, li + 1, 0, 0, true));
            li += 1;
        }
        out
    }

    /// Confirm a node was loaded.
    pub fn mark_loaded(&mut self, id: LodNodeId)
        requires
            id.level < old(self)@.levels.len(),
        ensures
            final(self)@ == (RingView {
                loaded: final(self)@.loaded,
                ..old(self)@
            }),
            final(self)@.loaded =~= old(self)@.loaded.insert(id),
    {
        proof {
            use_type_invariant(&*self);
        }
        let mut loaded = SortedSet::new();
        core::mem::swap(&mut self.loaded, &mut loaded);
        loaded.insert(id.to_key());
        self.loaded = loaded;
        proof {
            lemma_key_injective();
        }
    }

    /// How near a level's nodes come to the camera, in chunks: its inner edge,
    /// less the most that the snapped center lies off the camera.
    pub fn closest_approach_chunks(&self, level: u32) -> (r: i64)
        requires
            level < self@.levels.len(),
        ensures
            r == self@.closest_approach(level as int),
            r >= 0,
    {
        proof {
            use_type_invariant(self);
            assert(self@.levels[level as int].inner_chunks >= 0);
            assert(self@.levels[self@.levels.len() - 1].stride >= 1);
        }
        let inner: i64 = self.levels[level as usize].inner_chunks;
        let slack: i64 = self.coarsest_stride - 1;
        if inner > slack {
            inner - slack
        } else {
            0
        }
    }

    /// Confirm a node was unloaded.
    pub fn mark_unloaded(&mut self, id: LodNodeId)
        ensures
            final(self)@ == (RingView {
                loaded: final(self)@.loaded,
                ..old(self)@
            }),
            final(self)@.loaded =~= old(self)@.loaded.remove(id),
    {
        proof {
            use_type_invariant(&*self);
        }
        let mut loaded = SortedSet::new();
        core::mem::swap(&mut self.loaded, &mut loaded);
        loaded.remove(id.to_key());
        self.loaded = loaded;
        proof {
            lemma_key_injective();
        }
    }

    /// Forget all loaded nodes (when LOD is toggled off, say). The next
    /// `update` asks for everything again.
    pub fn clear(&mut self)
        ensures
            final(self)@ == old(self)@.cleared(),
    {
        proof {
            use_type_invariant(&*self);
        }
        let ghost before = self@;
        self.loaded = SortedSet::new();
        self.last_center = None;
        assert(self@ =~= before.cleared());
    }
}

proof fn lemma_key_injective()
    ensures
        forall|a: LodNodeId, b: LodNodeId| #[trigger] a.key() == #[trigger] b.key() ==> a == b,
{
}

proof fn lemma_push_contains<A>(s: Seq<A>, x: A, y: A)
    ensures
        s.push(x).contains(y) <==> s.contains(y) || x == y,
{
    let t = s.push(x);
    if s.contains(y) {
        let i = choose|i: int| 0 <= i < s.len() && s[i] == y;
        assert(t[i] == y);
    }
    if x == y {
        assert(t[s.len() as int] == y);
    }
    if t.contains(y) {
        let i = choose|i: int| 0 <= i < t.len() && t[i] == y;
        if i < s.len() {
            assert(s[i] == y);
        }
    }
}

/// The node comes before place `(z, x)` of level `li` in loading order; at the
/// start of the level if `start`.
spec fn passed(id: LodNodeId, li: int, z: int, x: int, start: bool) -> bool {
    id.level < li || (!start && id.level == li && (id.z < z || (id.z == z && id.x < x)))
}

/// `out` lists the wanted nodes passed so far, in order.
spec fn chosen(
    v: RingView,
    cam: ChunkPos,
    out: Seq<LodNodeId>,
    li: int,
    z: int,
    x: int,
    start: bool,
) -> bool {
    &&& forall|id: LodNodeId| #[trigger]
        out.contains(id) <==> v.wants(id, cam) && passed(id, li, z, x, start)
    &&& forall|i: int, j: int|
        0 <= i < j < out.len() ==> node_before(#[trigger] out[i], #[trigger] out[j])
}

proof fn lemma_chosen_step(
    v: RingView,
    cam: ChunkPos,
    was: Seq<LodNodeId>,
    out: Seq<LodNodeId>,
    li: int,
    z: int,
    x: int,
    id: LodNodeId,
)
    requires
        chosen(v, cam, was, li, z, x, false),
        id.level == li,
        id.z == z,
        id.x == x,
        out == (if v.wants(id, cam) {
            was.push(id)
        } else {
            was
        }),
    ensures
        chosen(v, cam, out, li, z, x + 1, false),
{
    assert forall|n: LodNodeId| #[trigger] out.contains(n) <==> v.wants(n, cam) && passed(
        n,
        li,
        z,
        x + 1,
        false,
    ) by {
        assert(was.contains(n) <==> v.wants(n, cam) && passed(n, li, z, x, false));
        lemma_push_contains(was, id, n);
        if passed(n, li, z, x + 1, false) && !passed(n, li, z, x, false) {
            assert(n == id);
        }
    }
    assert forall|i: int, j: int| 0 <= i < j < out.len() implies node_before(
        #[trigger] out[i],
        #[trigger] out[j],
    ) by {
        if j == was.len() {
            assert(was.contains(was[i]));
            assert(passed(was[i], li, z, x, false));
        }
    }
}

/// A node within the outer square has coordinates between the square's edges.
proof fn lemma_node_bounds(c: int, outer: int, s: int, x: int)
    requires
        s > 0,
        c - outer <= x * s,
        x * s + s <= c + outer,
    ensures
        (c - outer) / s <= x < (c + outer) / s,
{
    lemma_div_floor(c - outer, s);
    lemma_div_floor(c + outer, s);
    let lo = (c - outer) / s;
    let hi = (c + outer) / s;
    assert(lo <= x) by (nonlinear_arith)
        requires
            lo * s <= c - outer,
            c - outer <= x * s,
            s > 0,
    ;
    assert(x < hi) by (nonlinear_arith)
        requires
            c + outer < hi * s + s,
            x * s + s <= c + outer,
            s > 0,
    ;
}

/// Whether a level owns the node `(x, z)`.
fn level_owns(cfg: LevelCfg, cx: i64, cz: i64, x: i64, z: i64, extra: i64) -> (r: bool)
    requires
        cfg.stride >= 1,
    ensures
        r == owns(cfg, cx as int, cz as int, x as int, z as int, extra as int),
{
    let s: i128 = cfg.stride as i128;
    proof {
        lemma_product_fits(x as int, s as int);
        lemma_product_fits(z as int, s as int);
    }
    let ox: i128 = x as i128 * s;
    let oz: i128 = z as i128 * s;
    let cx: i128 = cx as i128;
    let cz: i128 = cz as i128;
    let outer: i128 = cfg.outer_chunks as i128 + extra as i128;
    let inner: i128 = cfg.inner_chunks as i128;
    let within_outer: bool = ox >= cx - outer && ox + s <= cx + outer && oz >= cz - outer && oz + s
        <= cz + outer;
    let outside_inner: bool = inner == 0 || ox >= cx + inner || ox + s <= cx - inner || oz >= cz
        + inner || oz + s <= cz - inner;
    within_outer && outside_inner
}

proof fn lemma_product_fits(x: int, s: int)
    requires
        i64::MIN <= x <= i64::MAX,
        1 <= s <= i64::MAX,
    ensures
        -0x4000_0000_0000_0000_0000_0000_0000_0000 <= x * s
            <= 0x4000_0000_0000_0000_0000_0000_0000_0000,
{
    assert(-0x8000_0000_0000_0000 * 0x8000_0000_0000_0000 <= x * s <= 0x8000_0000_0000_0000
        * 0x8000_0000_0000_0000) by (nonlinear_arith)
        requires
            -0x8000_0000_0000_0000 <= x <= 0x7fff_ffff_ffff_ffff,
            1 <= s <= 0x7fff_ffff_ffff_ffff,
    ;
}

/// The camera is taken at the last line of the coarsest grid that it has passed.
pub proof fn lemma_snapped_to_grid(v: RingView, c: int)
    requires
        v.valid(),
    ensures
        v.snapped(c) <= c < v.snapped(c) + v.levels.last().stride,
        v.snapped(c) % (v.levels.last().stride as int) == 0,
{
    lemma_center_aligned(v, c, v.levels.len() - 1);
}

/// A node is in its level's annulus iff all of its chunk columns lie in the outer
/// square, widened by the slack, and none in the inner one.
pub proof fn lemma_annulus_by_columns(
    cfg: LevelCfg,
    cx: int,
    cz: int,
    id: LodNodeId,
    extra: int,
    x: int,
    z: int,
)
    requires
        cfg.stride >= 1,
        cfg.inner_chunks >= 0,
    ensures
        owns(cfg, cx, cz, id.x as int, id.z as int, extra) && node_covers(cfg, id, x, z) ==> {
            &&& cx - cfg.outer_chunks - extra <= x < cx + cfg.outer_chunks + extra
            &&& cz - cfg.outer_chunks - extra <= z < cz + cfg.outer_chunks + extra
            &&& !(cx - cfg.inner_chunks <= x < cx + cfg.inner_chunks && cz - cfg.inner_chunks <= z
                < cz + cfg.inner_chunks)
        },
        (forall|a: int, b: int| #[trigger]
            node_covers(cfg, id, a, b) ==> cx - cfg.outer_chunks - extra <= a < cx
                + cfg.outer_chunks + extra && cz - cfg.outer_chunks - extra <= b < cz
                + cfg.outer_chunks + extra && !(cx - cfg.inner_chunks <= a < cx + cfg.inner_chunks
                && cz - cfg.inner_chunks <= b < cz + cfg.inner_chunks)) ==> owns(
            cfg,
            cx,
            cz,
            id.x as int,
            id.z as int,
            extra,
        ),
{
    let s = cfg.stride as int;
    let ox = id.x * s;
    let oz = id.z * s;
    let inner = cfg.inner_chunks as int;
    assert(node_covers(cfg, id, ox, oz));
    assert(node_covers(cfg, id, ox + s - 1, oz + s - 1));
    // The column of the node nearest the center.
    let nx = if cx < ox { ox } else if cx >= ox + s { ox + s - 1 } else { cx };
    let nz = if cz < oz { oz } else if cz >= oz + s { oz + s - 1 } else { cz };
    assert(node_covers(cfg, id, nx, nz));
}

/// The slack only ever widens an annulus.
pub proof fn lemma_slack_widens(
    cfg: LevelCfg,
    cx: int,
    cz: int,
    x: int,
    z: int,
    extra: int,
    more: int,
)
    requires
        extra <= more,
        owns(cfg, cx, cz, x, z, extra),
    ensures
        owns(cfg, cx, cz, x, z, more),
{
}

/// Nodes to load are listed finest level first, then by z, then by x, and each
/// once. Nodes to drop are listed by level, x and z.
pub proof fn lemma_update_in_order(
    v: RingView,
    cam: ChunkPos,
    to_load: Seq<LodNodeId>,
    to_unload: Seq<LodNodeId>,
    i: int,
    j: int,
)
    requires
        is_lod_update(v, cam, to_load, to_unload),
        0 <= i < j,
    ensures
        j < to_load.len() ==> {
            let a = to_load[i];
            let b = to_load[j];
            a.level < b.level || a.level == b.level && a.z < b.z || a.level == b.level && a.z == b.z
                && a.x < b.x
        },
        j < to_unload.len() ==> {
            let a = to_unload[i];
            let b = to_unload[j];
            a.level < b.level || a.level == b.level && a.x < b.x || a.level == b.level && a.x == b.x
                && a.z < b.z
        },
{
}

/// No node of a level comes nearer to the camera than its inner edge less what the
/// camera can be off the grid, and that much is promised.
pub proof fn lemma_closest_approach_is(v: RingView, level: int)
    requires
        v.valid(),
        0 <= level < v.levels.len(),
    ensures
        v.closest_approach(level) >= 0,
        v.closest_approach(level) >= v.levels[level].inner_chunks - v.levels.last().stride + 1,
        v.closest_approach(level) == 0 || v.closest_approach(level) == v.levels[level].inner_chunks
            - v.levels.last().stride + 1,
{
}

/// Each level begins where the one before it ends, the first at the inner radius;
/// strides and outer edges are those given.
pub proof fn lemma_levels_adjoin(inner: i64, levels: Seq<LodLevel>, i: int)
    requires
        0 <= i < levels.len(),
    ensures
        ({
            let c = cfgs_of(inner as int, levels);
            &&& c.len() == levels.len()
            &&& c[i].stride == levels[i].stride && c[i].outer_chunks == levels[i].outer_chunks
            &&& c[0].inner_chunks == inner
            &&& i > 0 ==> c[i].inner_chunks == c[i - 1].outer_chunks
        }),
{
}

/// The powers of two are the numbers that doubling makes of 1.
pub proof fn lemma_powers_of_two(n: int)
    ensures
        power_of_two(1),
        n >= 1 ==> power_of_two(2 * n) == power_of_two(n),
        n > 1 && n % 2 != 0 ==> !power_of_two(n),
        n < 1 ==> !power_of_two(n),
{
    if n >= 1 {
        assert((2 * n) / 2 == n && (2 * n) % 2 == 0);
    }
}

/// What the levels have to be like, told plainly.
pub open spec fn levels_fit(inner: int, levels: Seq<LodLevel>, i: int) -> bool {
    let s = levels[i].stride as int;
    let big = levels.last().stride as int;
    let start = if i == 0 { inner } else { levels[i - 1].outer_chunks as int };
    &&& s >= 1 && power_of_two(s)
    &&& i > 0 ==> levels[i - 1].stride <= s && s % (levels[i - 1].stride as int) == 0
    &&& start < levels[i].outer_chunks
    &&& start % s == 0 && levels[i].outer_chunks as int % s == 0
    &&& start % big == 0 && levels[i].outer_chunks as int % big == 0
}

proof fn lemma_fitting_levels(inner: int, levels: Seq<LodLevel>, from: int)
    requires
        0 <= from <= levels.len(),
        forall|i: int| 0 <= i < levels.len() ==> #[trigger] levels_fit(inner, levels, i),
    ensures
        first_level_error(inner, levels, from) is None,
        first_radii_error(inner, levels, from) is None,
    decreases levels.len() - from,
{
    if from < levels.len() {
        assert(levels_fit(inner, levels, from));
        lemma_fitting_levels(inner, levels, from + 1);
    }
}

proof fn lemma_level_error_place(inner: int, levels: Seq<LodLevel>, from: int)
    requires
        0 <= from <= levels.len(),
    ensures
        first_level_error(inner, levels, from) is Some ==> exists|i: int|
            from <= i < levels.len() && #[trigger] level_error(inner, levels, i)
                == first_level_error(inner, levels, from),
        first_radii_error(inner, levels, from) matches Some(e) ==> exists|i: int|
            from <= i < levels.len() && e == LodConfigError::RadiiOffCoarsest(i as usize)
                && !#[trigger] levels_fit(inner, levels, i),
        first_level_error(inner, levels, from) is None && first_radii_error(inner, levels, from)
            is None ==> forall|i: int|
            from <= i < levels.len() ==> #[trigger] levels_fit(inner, levels, i),
    decreases levels.len() - from,
{
    if from < levels.len() {
        lemma_level_error_place(inner, levels, from + 1);
        assert(level_error(inner, levels, from) is None && first_radii_error(inner, levels, from)
            is None ==> levels_fit(inner, levels, from));
        assert(first_radii_error(inner, levels, from) is Some && !(first_radii_error(
            inner,
            levels,
            from,
        ) == first_radii_error(inner, levels, from + 1)) ==> !levels_fit(inner, levels, from));
        assert(level_error(inner, levels, from) is Some ==> level_error(inner, levels, from)
            == first_level_error(inner, levels, from));
    }
}

/// A configuration is accepted iff its band is not empty, it has levels that fit,
/// the inner radius is not negative, and the slack is a positive multiple of the
/// coarsest stride.
pub proof fn lemma_accepted_configurations(
    inner: int,
    levels: Seq<LodLevel>,
    margin: int,
    band: (i64, i64),
)
    ensures
        config_error(inner, levels, margin, band) is None <==> {
            &&& band.0 < band.1
            &&& levels.len() > 0
            &&& inner >= 0
            &&& margin > 0
            &&& forall|i: int| 0 <= i < levels.len() ==> #[trigger] levels_fit(inner, levels, i)
            &&& margin % (levels.last().stride as int) == 0
        },
        config_error(inner, levels, margin, band) == Some(LodConfigError::EmptyBand) <==> band.0
            >= band.1,
        config_error(inner, levels, margin, band) == Some(LodConfigError::NoLevels) ==> levels.len()
            == 0,
        config_error(inner, levels, margin, band) == Some(LodConfigError::NegativeInner) ==> inner
            < 0,
        config_error(inner, levels, margin, band) == Some(LodConfigError::NoMargin) ==> margin <= 0,
        config_error(inner, levels, margin, band) == Some(LodConfigError::MarginOffCoarsest)
            ==> margin % (levels.last().stride as int) != 0,
{
    lemma_level_error_place(inner, levels, 0);
    if forall|i: int| 0 <= i < levels.len() ==> #[trigger] levels_fit(inner, levels, i) {
        lemma_fitting_levels(inner, levels, 0);
    }
}

/// An error about one level names a level with that very fault.
pub proof fn lemma_level_faults(inner: int, levels: Seq<LodLevel>, i: int)
    requires
        0 <= i < levels.len() <= usize::MAX,
    ensures
        ({
            let s = levels[i].stride as int;
            let outer = levels[i].outer_chunks as int;
            let start = if i == 0 { inner } else { levels[i - 1].outer_chunks as int };
            match level_error(inner, levels, i) {
                Some(LodConfigError::StrideTooSmall(k)) => k == i && s < 1,
                Some(LodConfigError::StrideNotPowerOfTwo(k)) => k == i && !power_of_two(s),
                Some(LodConfigError::StridesNotNested(k)) => k == i && i > 0 && (s < levels[i
                    - 1].stride || s % (levels[i - 1].stride as int) != 0),
                Some(LodConfigError::OuterNotBeyondInner(k)) => k == i && outer <= start,
                Some(LodConfigError::InnerMisaligned(k)) => k == i && start % s != 0,
                Some(LodConfigError::OuterMisaligned(k)) => k == i && outer % s != 0,
                Some(_) => false,
                None => s >= 1 && power_of_two(s) && start < outer && start % s == 0 && outer % s
                    == 0,
            }
        }),
{
}

/// While the snapped center stays, an update asks for nothing. Otherwise it drops
/// the loaded nodes with a chunk column beyond the slack or within the inner square,
/// and no others, and asks only for nodes that lie in their annulus and are not
/// loaded.
pub proof fn lemma_what_an_update_lists(
    v: RingView,
    cam: ChunkPos,
    to_load: Seq<LodNodeId>,
    to_unload: Seq<LodNodeId>,
    id: LodNodeId,
    x: int,
    z: int,
)
    requires
        v.valid(),
        is_lod_update(v, cam, to_load, to_unload),
        id.level < v.levels.len(),
        node_covers(v.levels[id.level as int], id, x, z),
    ensures
        ({
            let cx = v.snapped(cam.x as int);
            let cz = v.snapped(cam.z as int);
            let cfg = v.levels[id.level as int];
            let still = v.last_center == Some((cx as i64, cz as i64));
            let within = |r: int| cx - r <= x < cx + r && cz - r <= z < cz + r;
            &&& still ==> to_load.len() == 0 && to_unload.len() == 0
            &&& !still && v.loaded.contains(id) && (!within(cfg.outer_chunks + v.margin) || within(
                cfg.inner_chunks as int,
            )) ==> to_unload.contains(id)
            &&& to_unload.contains(id) ==> v.loaded.contains(id) && exists|a: int, b: int| #[trigger]
                node_covers(cfg, id, a, b) && (!in_square(
                    cx,
                    cz,
                    cfg.outer_chunks + v.margin,
                    a,
                    b,
                ) || in_square(cx, cz, cfg.inner_chunks as int, a, b))
            &&& to_load.contains(id) ==> !v.loaded.contains(id) && within(cfg.outer_chunks as int)
                && !within(cfg.inner_chunks as int)
        }),
{
    let cx = v.snapped(cam.x as int);
    let cz = v.snapped(cam.z as int);
    let cfg = v.levels[id.level as int];
    lemma_annulus_by_columns(cfg, cx, cz, id, v.margin, x, z);
    lemma_annulus_by_columns(cfg, cx, cz, id, 0, x, z);
    if to_unload.contains(id) && !exists|a: int, b: int| #[trigger]
        node_covers(cfg, id, a, b) && (!in_square(cx, cz, cfg.outer_chunks + v.margin, a, b)
            || in_square(cx, cz, cfg.inner_chunks as int, a, b)) {
        assert forall|a: int, b: int| #[trigger] node_covers(cfg, id, a, b) implies cx
            - cfg.outer_chunks - v.margin <= a < cx + cfg.outer_chunks + v.margin && cz
            - cfg.outer_chunks - v.margin <= b < cz + cfg.outer_chunks + v.margin && !(cx
            - cfg.inner_chunks <= a < cx + cfg.inner_chunks && cz - cfg.inner_chunks <= b < cz
            + cfg.inner_chunks) by {
            assert(in_square(cx, cz, cfg.outer_chunks + v.margin, a, b));
            assert(!in_square(cx, cz, cfg.inner_chunks as int, a, b));
        }
    }
}

} // verus!
