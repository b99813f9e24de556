//! The world's fixed shape: its size, how its horizontal axes wrap, what a Z
//! coordinate *means*, and where a player starts.
//!
//! ## The world is a torus
//!
//! Both horizontal axes wrap; Y does not. There is no edge anywhere.
//!
//! ## The seam lives only where *content* is addressed
//!
//! The player, the camera and every loaded chunk live in coordinates that
//! **never wrap**: walk east past the far edge of the world and x keeps
//! counting. Streaming, level-of-detail rings, rendering and physics measure
//! distance with plain subtraction.
//!
//! The world's content is periodic instead. Exactly three things map an
//! unwrapped position to its canonical one: terrain generation, the save layer,
//! and the overlay of player edits. **Do not canonicalise positions anywhere
//! else.**
//!
//! ## Latitude loops, and is equal-area
//!
//! One lap north passes equator, north pole, equator, south pole, equator.
//! `sin(latitude)` is a triangle wave in Z, so that every latitude band covers
//! the share of the world it does on a sphere.

use crate::arith::{lemma_div_floor, lemma_div_is, lemma_mod_add_multiple, min_i64, mod_floor};
use crate::coords::{ChunkPos, CHUNK_SIZE};
use crate::text::{append_decimal, decimal};
use vstd::prelude::*;
use vstd::string::*;

verus! {

/// Every world size is a whole multiple of this many blocks, on both axes.
pub const WORLD_SIZE_QUANTUM_BLOCKS: i64 = 8_192;

/// The default world: 25 quanta square, 204.8 km each way.
pub const DEFAULT_WORLD_SIZE_BLOCKS: i64 = 25 * WORLD_SIZE_QUANTUM_BLOCKS;

/// Smallest legal world: four quanta.
pub const MIN_WORLD_SIZE_BLOCKS: i64 = 4 * WORLD_SIZE_QUANTUM_BLOCKS;

/// Largest legal world: a policy ceiling.
pub const MAX_WORLD_SIZE_BLOCKS: i64 = 256 * WORLD_SIZE_QUANTUM_BLOCKS;

/// Lowest block coordinate in the world. A multiple of [`CHUNK_SIZE`].
pub const WORLD_Y_MIN_BLOCKS: i64 = -11_264;

/// One past the highest block coordinate. A multiple of [`CHUNK_SIZE`].
pub const WORLD_Y_MAX_BLOCKS: i64 = 9_216;

/// Y at which oceans fill.
pub const SEA_LEVEL_BLOCKS: i64 = 0;

/// Is this Y inside the world? Horizontally every position is.
#[inline]
pub fn in_vertical_bounds(y: i64) -> (r: bool)
    ensures
        r == (WORLD_Y_MIN_BLOCKS <= y < WORLD_Y_MAX_BLOCKS),
{
    WORLD_Y_MIN_BLOCKS <= y && y < WORLD_Y_MAX_BLOCKS
}

/// Lowest chunk layer of the world.
pub const WORLD_Y_MIN_CHUNK: i64 = -352;

/// One past the highest chunk layer of the world.
pub const WORLD_Y_MAX_CHUNK: i64 = 288;

/// Does this chunk lie within the world's vertical bounds? Every bound is a
/// multiple of the chunk size, so a chunk is wholly in or wholly out.
#[inline]
pub fn chunk_in_vertical_bounds(pos: ChunkPos) -> (r: bool)
    ensures
        r == (WORLD_Y_MIN_BLOCKS <= pos.y * 32 && pos.y * 32 + 32 <= WORLD_Y_MAX_BLOCKS),
        forall|y: int|
            #![trigger y / 32]
            y / 32 == pos.y ==> r == (WORLD_Y_MIN_BLOCKS <= y < WORLD_Y_MAX_BLOCKS),
{
    WORLD_Y_MIN_CHUNK <= pos.y && pos.y < WORLD_Y_MAX_CHUNK
}

/// Why a requested world size was rejected.
#[derive(Clone, Copy, Debug, PartialEq, Eq, Structural)]
pub enum WorldShapeError {
    /// Not a whole multiple of [`WORLD_SIZE_QUANTUM_BLOCKS`].
    NotQuantised(i64),
    TooSmall(i64),
    TooLarge(i64),
}

impl WorldShapeError {
    /// The words of the error.
    pub open spec fn text(self) -> Seq<char> {
        match self {
            WorldShapeError::NotQuantised(s) => "world size "@ + decimal(s as int)
                + " is not a multiple of 8192 blocks"@,
            WorldShapeError::TooSmall(s) => "world size "@ + decimal(s as int)
                + " is below the minimum of 32768 blocks"@,
            WorldShapeError::TooLarge(s) => "world size "@ + decimal(s as int)
                + " is above the maximum of 2097152 blocks"@,
        }
    }

    /// The error in words.
    pub fn message(&self) -> (r: String)
        ensures
            r@ == self.text(),
    {
        let mut out = String::new();
        out.append("world size ");
        let (size, rest): (i64, &str) = match self {
            WorldShapeError::NotQuantised(s) => (*s, " is not a multiple of 8192 blocks"),
            WorldShapeError::TooSmall(s) => (*s, " is below the minimum of 32768 blocks"),
            WorldShapeError::TooLarge(s) => (*s, " is above the maximum of 2097152 blocks"),
        };
        append_decimal(&mut out, size);
        out.append(rest);
        assert(out@ =~= self.text());
        out
    }
}

/// What is wrong with a size, if anything.
pub open spec fn size_error(s: i64) -> Option<WorldShapeError> {
    if s as int % WORLD_SIZE_QUANTUM_BLOCKS as int != 0 {
        Some(WorldShapeError::NotQuantised(s))
    } else if s < MIN_WORLD_SIZE_BLOCKS {
        Some(WorldShapeError::TooSmall(s))
    } else if s > MAX_WORLD_SIZE_BLOCKS {
        Some(WorldShapeError::TooLarge(s))
    } else {
        None
    }
}

fn check_size(s: i64) -> (r: Option<WorldShapeError>)
    ensures
        r == size_error(s),
{
    if mod_floor(s, WORLD_SIZE_QUANTUM_BLOCKS) != 0 {
        Some(WorldShapeError::NotQuantised(s))
    } else if s < MIN_WORLD_SIZE_BLOCKS {
        Some(WorldShapeError::TooSmall(s))
    } else if s > MAX_WORLD_SIZE_BLOCKS {
        Some(WorldShapeError::TooLarge(s))
    } else {
        None
    }
}

/// The size of one world: its period on each horizontal axis. Every value in
/// circulation is a legal size.
#[derive(Clone, Copy, Debug, PartialEq, Eq, Hash, Structural)]
pub struct WorldShape {
    size_x: i64,
    size_z: i64,
}

/// The shortest way from 0 to `d` on a circle of the given length: the
/// representative of `d` in `(-period / 2, period / 2]`.
pub open spec fn shortest_way(d: int, period: int) -> int {
    let m = d % period;
    if m > period / 2 {
        m - period
    } else {
        m
    }
}

/// How many cells of about `wavelength` go round a circle of length `period`:
/// the nearest whole number (halves round up), and at least three, since fewer
/// would give no highs and lows.
pub open spec fn cells_round(period: int, wavelength: int) -> int {
    let n = (2 * period + wavelength) / (2 * wavelength);
    if n < MIN_CELLS_AROUND {
        MIN_CELLS_AROUND as int
    } else if n > u32::MAX {
        u32::MAX as int
    } else {
        n
    }
}

/// The fewest noise cells an octave may have around the world.
pub const MIN_CELLS_AROUND: i64 = 3;

impl WorldShape {
    /// The period along X.
    pub closed spec fn sx(self) -> int {
        self.size_x as int
    }

    /// The period along Z.
    pub closed spec fn sz(self) -> int {
        self.size_z as int
    }

    /// Both sizes are legal.
    #[verifier::type_invariant]
    pub open spec fn legal(self) -> bool {
        &&& self.sx() % 8192 == 0
        &&& self.sz() % 8192 == 0
        &&& 32768 <= self.sx() <= 2097152
        &&& 32768 <= self.sz() <= 2097152
    }

    /// The default world: 204.8 km square.
    pub fn default_shape() -> (r: Self)
        ensures
            r.sx() == DEFAULT_WORLD_SIZE_BLOCKS,
            r.sz() == DEFAULT_WORLD_SIZE_BLOCKS,
    {
        WorldShape { size_x: DEFAULT_WORLD_SIZE_BLOCKS, size_z: DEFAULT_WORLD_SIZE_BLOCKS }
    }

    /// A world of the given size in blocks on each axis. The X size is looked
    /// at first.
    pub fn new(size_x: i64, size_z: i64) -> (r: Result<Self, WorldShapeError>)
        ensures
            match r {
                Ok(shape) => size_error(size_x) is None && size_error(size_z) is None && shape.sx()
                    == size_x && shape.sz() == size_z,
                Err(e) => size_error(size_x) == Some(e) || (size_error(size_x) is None
                    && size_error(size_z) == Some(e)),
            },
    {
        if let Some(e) = check_size(size_x) {
            return Err(e);
        }
        if let Some(e) = check_size(size_z) {
            return Err(e);
        }
        Ok(WorldShape { size_x, size_z })
    }

    /// World size along X, in blocks.
    #[inline]
    pub fn size_x(&self) -> (r: i64)
        ensures
            r == self.sx(),
    {
        self.size_x
    }

    /// World size along Z, in blocks.
    #[inline]
    pub fn size_z(&self) -> (r: i64)
        ensures
            r == self.sz(),
    {
        self.size_z
    }

    /// The canonical X for a position: `[0, size_x)`. Content addressing only.
    #[inline]
    pub fn canonical_x(&self, x: i64) -> (r: i64)
        ensures
            r == x as int % self.sx(),
            0 <= r < self.sx(),
    {
        proof {
            use_type_invariant(self);
        }
        mod_floor(x, self.size_x)
    }

    /// The canonical Z for a position: `[0, size_z)`. Content addressing only.
    #[inline]
    pub fn canonical_z(&self, z: i64) -> (r: i64)
        ensures
            r == z as int % self.sz(),
            0 <= r < self.sz(),
    {
        proof {
            use_type_invariant(self);
        }
        mod_floor(z, self.size_z)
    }

    /// The canonical position of a chunk, as a model.
    pub open spec fn canon(self, pos: ChunkPos) -> ChunkPos {
        ChunkPos {
            x: (pos.x as int % (self.sx() / 32)) as i64,
            y: pos.y,
            z: (pos.z as int % (self.sz() / 32)) as i64,
        }
    }

    /// The canonical position of a chunk. Y is untouched: it does not wrap.
    /// Content addressing only.
    #[inline]
    pub fn canonical_chunk(&self, pos: ChunkPos) -> (r: ChunkPos)
        ensures
            r == self.canon(pos),
            0 <= r.x < self.sx() / 32,
            0 <= r.z < self.sz() / 32,
            r.x == pos.x as int % (self.sx() / 32),
            r.z == pos.z as int % (self.sz() / 32),
    {
        proof {
            use_type_invariant(self);
        }
        ChunkPos::new(
            mod_floor(pos.x, self.size_x / 32),
            pos.y,
            mod_floor(pos.z, self.size_z / 32),
        )
    }

    /// Shortest signed separation from `from` to `to` along X, in
    /// `(-size_x / 2, size_x / 2]`, for positions that may be on different
    /// laps.
    #[inline]
    pub fn delta_x(&self, from: i64, to: i64) -> (r: i64)
        requires
            i64::MIN <= to - from <= i64::MAX,
        ensures
            r == shortest_way(to - from, self.sx()),
    {
        proof {
            use_type_invariant(self);
        }
        shortest(to - from, self.size_x)
    }

    /// Shortest signed separation from `from` to `to` along Z.
    #[inline]
    pub fn delta_z(&self, from: i64, to: i64) -> (r: i64)
        requires
            i64::MIN <= to - from <= i64::MAX,
        ensures
            r == shortest_way(to - from, self.sz()),
    {
        proof {
            use_type_invariant(self);
        }
        shortest(to - from, self.size_z)
    }

    /// Distance from the equator to a pole, in blocks: a quarter of the Z
    /// period, since one lap of Z passes both poles.
    #[inline]
    pub fn pole_to_equator_blocks(&self) -> (r: i64)
        ensures
            r == self.sz() / 4,
            r * 4 == self.sz(),
    {
        proof {
            use_type_invariant(self);
        }
        self.size_z / 4
    }

    /// `sin(latitude)` times the Z period: a triangle wave over one lap that
    /// starts at 0, climbs to the north pole and falls to the south pole.
    pub open spec fn latitude_wave(self, z: int) -> int {
        let c = z % self.sz();
        if 4 * c < self.sz() {
            4 * c
        } else if 4 * c < 3 * self.sz() {
            2 * self.sz() - 4 * c
        } else {
            4 * c - 4 * self.sz()
        }
    }

    /// `sin(latitude)` as a fraction of [`WorldShape::size_z`], in
    /// `[-size_z, size_z]`: 0 at the equators, `size_z` at the north pole.
    /// Being linear in Z between the poles makes the mapping equal-area.
    pub fn latitude_sine_scaled(&self, z: i64) -> (r: i64)
        ensures
            r == self.latitude_wave(z as int),
            -self.sz() <= r <= self.sz(),
    {
        proof {
            use_type_invariant(self);
        }
        let c: i64 = mod_floor(z, self.size_z);
        if 4 * c < self.size_z {
            4 * c
        } else if 4 * c < 3 * self.size_z {
            2 * self.size_z - 4 * c
        } else {
            4 * c - 4 * self.size_z
        }
    }

    /// The farthest the view may ever reach, as a model.
    pub open spec fn view_limit(self) -> int {
        (if self.sx() < self.sz() {
            self.sx()
        } else {
            self.sz()
        }) / 2 - 32
    }

    /// The farthest the view may ever reach, in blocks: strictly less than half
    /// the smaller period, so that no place is ever loaded under two positions
    /// at once.
    #[inline]
    pub fn max_view_distance_blocks(&self) -> (r: i64)
        ensures
            r == self.view_limit(),
            0 < r < self.sx() / 2,
            r < self.sz() / 2,
    {
        proof {
            use_type_invariant(self);
        }
        min_i64(self.size_x, self.size_z) / 2 - CHUNK_SIZE as i64
    }

    /// How many noise cells of roughly `target_wavelength` blocks fit around
    /// the world along X. Noise tiles with the world only if a whole number of
    /// cells fits around it.
    #[inline]
    pub fn cells_around_x(&self, target_wavelength: i64) -> (r: u32)
        requires
            target_wavelength > 0,
        ensures
            r == cells_round(self.sx(), target_wavelength as int),
            r >= MIN_CELLS_AROUND,
    {
        proof {
            use_type_invariant(self);
        }
        cells_around(self.size_x, target_wavelength)
    }

    /// As [`Self::cells_around_x`], along Z.
    #[inline]
    pub fn cells_around_z(&self, target_wavelength: i64) -> (r: u32)
        requires
            target_wavelength > 0,
        ensures
            r == cells_round(self.sz(), target_wavelength as int),
            r >= MIN_CELLS_AROUND,
    {
        proof {
            use_type_invariant(self);
        }
        cells_around(self.size_z, target_wavelength)
    }
}

impl Default for WorldShape {
    fn default() -> (r: Self)
        ensures
            r.sx() == DEFAULT_WORLD_SIZE_BLOCKS,
            r.sz() == DEFAULT_WORLD_SIZE_BLOCKS,
    {
        Self::default_shape()
    }
}

fn shortest(d: i64, period: i64) -> (r: i64)
    requires
        0 < period,
    ensures
        r == shortest_way(d as int, period as int),
{
    let m: i64 = mod_floor(d, period);
    if m > period / 2 {
        m - period
    } else {
        m
    }
}

fn cells_around(period: i64, target_wavelength: i64) -> (r: u32)
    requires
        0 < period <= 2097152,
        target_wavelength > 0,
    ensures
        r == cells_round(period as int, target_wavelength as int),
        r >= MIN_CELLS_AROUND,
{
    let ghost t = target_wavelength as int;
    let ghost q = (2 * period + t) / (2 * t);
    proof {
        lemma_div_floor(2 * period + t, 2 * t);
    }
    if target_wavelength > period {
        assert(q < 3) by (nonlinear_arith)
            requires
                q * (2 * t) <= 2 * period + t,
                t > period,
                period > 0,
        ;
        return 3;
    }
    let n: i64 = (2 * period + target_wavelength) / (2 * target_wavelength);
    assert(n <= 6291456) by (nonlinear_arith)
        requires
            n * (2 * t) <= 2 * period + t,
            1 <= t <= period,
            period <= 2097152,
            n >= 0,
    ;
    if n < MIN_CELLS_AROUND {
        3
    } else {
        n as u32
    }
}

/// The candidates at `ring` steps from the start, in the order they are tried:
/// the north edge west to east, the east edge north to south, the south edge
/// east to west, the west edge south to north. Corners belong to the horizontal
/// edges, so that each is there once.
pub open spec fn spawn_ring(start_x: int, start_z: int, stride: int, ring: int) -> Seq<(i64, i64)> {
    if ring <= 0 {
        seq![(start_x as i64, start_z as i64)]
    } else {
        let d = ring * stride;
        let north = Seq::new(
            (2 * ring + 1) as nat,
            |i: int| ((start_x - d + i * stride) as i64, (start_z - d) as i64),
        );
        let east = Seq::new(
            (2 * ring - 1) as nat,
            |i: int| ((start_x + d) as i64, (start_z - d + stride + i * stride) as i64),
        );
        let south = Seq::new(
            (2 * ring + 1) as nat,
            |i: int| ((start_x + d - i * stride) as i64, (start_z + d) as i64),
        );
        let west = Seq::new(
            (2 * ring - 1) as nat,
            |i: int| ((start_x - d) as i64, (start_z + d - stride - i * stride) as i64),
        );
        north + east + south + west
    }
}

/// All candidates out to `rings` steps: the start itself, then ring by ring.
pub open spec fn spawn_candidates(
    start_x: int,
    start_z: int,
    stride: int,
    rings: int,
) -> Seq<(i64, i64)>
    decreases rings,
{
    if rings <= 0 {
        spawn_ring(start_x, start_z, stride, 0)
    } else {
        spawn_candidates(start_x, start_z, stride, rings - 1) + spawn_ring(
            start_x,
            start_z,
            stride,
            rings,
        )
    }
}

/// How many rings are searched: no farther than `max_rings`, nor than half the
/// smaller period, beyond which places would only be revisited.
pub open spec fn spawn_rings(shape: WorldShape, stride: int, max_rings: int) -> int {
    let reach = (if shape.sx() < shape.sz() {
        shape.sx()
    } else {
        shape.sz()
    }) / 2;
    if max_rings < reach / stride {
        max_rings
    } else {
        reach / stride
    }
}

/// How far from the start candidates lie, on either axis.
pub open spec fn spawn_reach(shape: WorldShape, stride: int, max_rings: int) -> int {
    let rings = spawn_rings(shape, stride, max_rings);
    if rings > 0 {
        rings * stride
    } else {
        0
    }
}

/// `found` is the first of the candidates that `accept` takes, or `None` if it
/// takes none.
pub open spec fn first_accepted<F: Fn(i64, i64) -> bool>(
    accept: F,
    candidates: Seq<(i64, i64)>,
    found: Option<(i64, i64)>,
) -> bool {
    match found {
        Some(p) => exists|k: int|
            0 <= k < candidates.len() && #[trigger] candidates[k] == p && call_ensures(
                accept,
                p,
                true,
            ) && forall|j: int|
                0 <= j < k ==> call_ensures(accept, #[trigger] candidates[j], false),
        None => forall|j: int|
            0 <= j < candidates.len() ==> call_ensures(accept, #[trigger] candidates[j], false),
    }
}

proof fn lemma_first_candidate(start_x: i64, start_z: i64, stride: int, rings: int)
    ensures
        spawn_candidates(start_x as int, start_z as int, stride, rings).len() >= 1,
        spawn_candidates(start_x as int, start_z as int, stride, rings)[0] == (start_x, start_z),
    decreases rings,
{
    if rings > 0 {
        lemma_first_candidate(start_x, start_z, stride, rings - 1);
    }
}

/// The start is taken if it qualifies.
pub proof fn lemma_spawn_at_start<F: Fn(i64, i64) -> bool>(
    accept: F,
    start_x: i64,
    start_z: i64,
    stride: int,
    rings: int,
    found: Option<(i64, i64)>,
)
    requires
        !call_ensures(accept, (start_x, start_z), false),
        first_accepted(
            accept,
            spawn_candidates(start_x as int, start_z as int, stride, rings),
            found,
        ),
    ensures
        found == Some((start_x, start_z)),
{
    lemma_first_candidate(start_x, start_z, stride, rings);
    let all = spawn_candidates(start_x as int, start_z as int, stride, rings);
    assert(all[0] == (start_x, start_z));
}

/// Tries the candidates of one list in order.
fn try_candidates<F: Fn(i64, i64) -> bool>(candidates: &Vec<(i64, i64)>, accept: &F) -> (r: Option<
    (i64, i64),
>)
    requires
        forall|p: (i64, i64)| call_requires(*accept, p),
    ensures
        first_accepted(*accept, candidates@, r),
{
    let mut k: usize = 0;
    while k < candidates.len()
        invariant
            k <= candidates.len(),
            forall|p: (i64, i64)| call_requires(*accept, p),
            forall|j: int|
                0 <= j < k ==> call_ensures(*accept, #[trigger] candidates@[j], false),
        decreases candidates.len() - k,
    {
        let (x, z) = candidates[k];
        if accept(x, z) {
            assert(candidates@[k as int] == (x, z));
            return Some((x, z));
        }
        k += 1;
    }
    None
}

/// The candidates of one ring.
fn ring_candidates(start_x: i64, start_z: i64, stride: i64, ring: i64) -> (out: Vec<(i64, i64)>)
    requires
        stride > 0,
        ring >= 1,
        ring * stride <= 1048576,
        i64::MIN <= start_x - ring * stride,
        start_x + ring * stride <= i64::MAX,
        i64::MIN <= start_z - ring * stride,
        start_z + ring * stride <= i64::MAX,
    ensures
        out@ == spawn_ring(start_x as int, start_z as int, stride as int, ring as int),
{
    proof {
        assert(stride <= 1048576 && ring <= 1048576) by (nonlinear_arith)
            requires
                ring * stride <= 1048576,
                ring >= 1,
                stride >= 1,
        ;
    }
    let d: i64 = ring * stride;
    let long: i64 = 2 * ring + 1;
    let short: i64 = 2 * ring - 1;
    let ghost north = Seq::new(
        long as nat,
        |i: int| ((start_x - d + i * stride) as i64, (start_z - d) as i64),
    );
    let ghost east = Seq::new(
        short as nat,
        |i: int| ((start_x + d) as i64, (start_z - d + stride + i * stride) as i64),
    );
    let ghost south = Seq::new(
        long as nat,
        |i: int| ((start_x + d - i * stride) as i64, (start_z + d) as i64),
    );
    let ghost west = Seq::new(
        short as nat,
        |i: int| ((start_x - d) as i64, (start_z + d - stride - i * stride) as i64),
    );
    let mut out: Vec<(i64, i64)> = Vec::new();
    let mut i: i64 = 0;
    while i < long
        invariant
            0 <= i <= long,
            long == 2 * ring + 1,
            ring <= 1048576,
            0 < stride <= 1048576,
            d == ring * stride,
            0 <= d <= 1048576,
            i64::MIN <= start_x - d,
            start_x + d <= i64::MAX,
            i64::MIN <= start_z - d,
            start_z + d <= i64::MAX,
            north.len() == long,
            forall|j: int|
                0 <= j < long ==> #[trigger] north[j] == (
                    (start_x - d + j * stride) as i64,
                    (start_z - d) as i64,
                ),
            out@ == north.take(i as int),
        decreases long - i,
    {
        assert(0 <= i * stride <= 2 * d) by (nonlinear_arith)
            requires
                0 <= i <= 2 * ring,
                stride > 0,
                d == ring * stride,
        ;
        out.push((start_x - d + i * stride, start_z - d));
        assert(out@ =~= north.take(i + 1));
        i += 1;
    }
    assert(out@ =~= north);
    let mut i: i64 = 0;
    while i < short
        invariant
            0 <= i <= short,
            short == 2 * ring - 1,
            ring <= 1048576,
            0 < stride <= 1048576,
            d == ring * stride,
            0 <= d <= 1048576,
            i64::MIN <= start_x - d,
            start_x + d <= i64::MAX,
            i64::MIN <= start_z - d,
            start_z + d <= i64::MAX,
            east.len() == short,
            forall|j: int|
                0 <= j < short ==> #[trigger] east[j] == (
                    (start_x + d) as i64,
                    (start_z - d + stride + j * stride) as i64,
                ),
            out@ == north + east.take(i as int),
        decreases short - i,
    {
        assert(0 <= i * stride <= 2 * d - 2 * stride) by (nonlinear_arith)
            requires
                0 <= i <= 2 * ring - 2,
                stride > 0,
                d == ring * stride,
        ;
        out.push((start_x + d, start_z - d + stride + i * stride));
        assert(out@ =~= north + east.take(i + 1));
        i += 1;
    }
    assert(out@ =~= north + east);
    let mut i: i64 = 0;
    while i < long
        invariant
            0 <= i <= long,
            long == 2 * ring + 1,
            ring <= 1048576,
            0 < stride <= 1048576,
            d == ring * stride,
            0 <= d <= 1048576,
            i64::MIN <= start_x - d,
            start_x + d <= i64::MAX,
            i64::MIN <= start_z - d,
            start_z + d <= i64::MAX,
            south.len() == long,
            forall|j: int|
                0 <= j < long ==> #[trigger] south[j] == (
                    (start_x + d - j * stride) as i64,
                    (start_z + d) as i64,
                ),
            out@ == north + east + south.take(i as int),
        decreases long - i,
    {
        assert(0 <= i * stride <= 2 * d) by (nonlinear_arith)
            requires
                0 <= i <= 2 * ring,
                stride > 0,
                d == ring * stride,
        ;
        out.push((start_x + d - i * stride, start_z + d));
        assert(out@ =~= north + east + south.take(i + 1));
        i += 1;
    }
    assert(out@ =~= north + east + south);
    let mut i: i64 = 0;
    while i < short
        invariant
            0 <= i <= short,
            short == 2 * ring - 1,
            ring <= 1048576,
            0 < stride <= 1048576,
            d == ring * stride,
            0 <= d <= 1048576,
            i64::MIN <= start_x - d,
            start_x + d <= i64::MAX,
            i64::MIN <= start_z - d,
            start_z + d <= i64::MAX,
            west.len() == short,
            forall|j: int|
                0 <= j < short ==> #[trigger] west[j] == (
                    (start_x - d) as i64,
                    (start_z + d - stride - j * stride) as i64,
                ),
            out@ == north + east + south + west.take(i as int),
        decreases short - i,
    {
        assert(0 <= i * stride <= 2 * d - 2 * stride) by (nonlinear_arith)
            requires
                0 <= i <= 2 * ring - 2,
                stride > 0,
                d == ring * stride,
        ;
        out.push((start_x - d, start_z + d - stride - i * stride));
        assert(out@ =~= north + east + south + west.take(i + 1));
        i += 1;
    }
    assert(out@ =~= north + east + south + west);
    out
}

/// Find the first position satisfying `accept`, searching outward from a start
/// in square rings of increasing radius.
///
/// The same inputs always yield the same position. The search stops at half
/// the world. The result is the *unwrapped* position the search found, near
/// the start, in the player's own frame.
///
/// `stride` is the spacing between candidates. Returns `None` if nothing
/// satisfies `accept`.
pub fn find_spawn<F: Fn(i64, i64) -> bool>(
    shape: WorldShape,
    start_x: i64,
    start_z: i64,
    stride: i64,
    max_rings: i64,
    accept: F,
) -> (r: Option<(i64, i64)>)
    requires
        stride > 0,
        forall|p: (i64, i64)| call_requires(accept, p),
        i64::MIN <= start_x - spawn_reach(shape, stride as int, max_rings as int),
        start_x + spawn_reach(shape, stride as int, max_rings as int) <= i64::MAX,
        i64::MIN <= start_z - spawn_reach(shape, stride as int, max_rings as int),
        start_z + spawn_reach(shape, stride as int, max_rings as int) <= i64::MAX,
    ensures
        first_accepted(
            accept,
            spawn_candidates(
                start_x as int,
                start_z as int,
                stride as int,
                spawn_rings(shape, stride as int, max_rings as int),
            ),
            r,
        ),
{
    proof {
        use_type_invariant(&shape);
    }
    let reach: i64 = min_i64(shape.size_x, shape.size_z) / 2;
    let most: i64 = reach / stride;
    let rings: i64 = min_i64(max_rings, most);
    proof {
        lemma_div_floor(reach as int, stride as int);
        lemma_spawn_prefix(start_x as int, start_z as int, stride as int, 0, rings as int);
    }
    let ghost all = spawn_candidates(start_x as int, start_z as int, stride as int, rings as int);
    if accept(start_x, start_z) {
        assert(all[0] == (start_x, start_z));
        return Some((start_x, start_z));
    }
    let mut ring: i64 = 0;
    assert(rings <= 0 ==> all.len() == 1);
    while ring < rings
        invariant
            0 <= ring,
            ring <= rings || rings < 0,
            rings <= most,
            most * stride <= reach,
            reach <= 1048576,
            stride > 0,
            forall|p: (i64, i64)| call_requires(accept, p),
            rings > 0 ==> i64::MIN <= start_x - rings * stride,
            rings > 0 ==> start_x + rings * stride <= i64::MAX,
            rings > 0 ==> i64::MIN <= start_z - rings * stride,
            rings > 0 ==> start_z + rings * stride <= i64::MAX,
            all == spawn_candidates(start_x as int, start_z as int, stride as int, rings as int),
            ({
                let done = spawn_candidates(
                    start_x as int,
                    start_z as int,
                    stride as int,
                    ring as int,
                );
                forall|j: int| 0 <= j < done.len() ==> call_ensures(accept, #[trigger] done[j], false)
            }),
            rings == spawn_rings(shape, stride as int, max_rings as int),
        decreases rings - ring,
    {
        let ghost done = spawn_candidates(start_x as int, start_z as int, stride as int, ring as int);
        ring += 1;
        assert(0 <= ring * stride <= rings * stride <= most * stride) by (nonlinear_arith)
            requires
                0 <= ring <= rings <= most,
                stride > 0,
        ;
        let candidates = ring_candidates(start_x, start_z, stride, ring);
        let ghost next = spawn_candidates(start_x as int, start_z as int, stride as int, ring as int);
        assert(next == done + candidates@);
        if let Some(p) = try_candidates(&candidates, &accept) {
            proof {
                lemma_spawn_prefix(
                    start_x as int,
                    start_z as int,
                    stride as int,
                    ring as int,
                    rings as int,
                );
                let k = choose|k: int|
                    0 <= k < candidates.len() && #[trigger] candidates@[k] == p && call_ensures(
                        accept,
                        p,
                        true,
                    ) && forall|j: int|
                        0 <= j < k ==> call_ensures(accept, #[trigger] candidates@[j], false);
                let at = done.len() + k;
                assert(next[at] == p);
                assert(all[at] == p);
                assert forall|j: int| 0 <= j < at implies call_ensures(
                    accept,
                    #[trigger] all[j],
                    false,
                ) by {
                    assert(all[j] == next[j]);
                    if j < done.len() {
                        assert(next[j] == done[j]);
                    } else {
                        assert(next[j] == candidates@[j - done.len()]);
                    }
                }
            }
            return Some(p);
        }
        assert forall|j: int| 0 <= j < next.len() implies call_ensures(
            accept,
            #[trigger] next[j],
            false,
        ) by {
            if j < done.len() {
                assert(next[j] == done[j]);
            } else {
                assert(next[j] == candidates@[j - done.len()]);
            }
        }
    }
    None
}

/// Searching farther only appends candidates.
proof fn lemma_spawn_prefix(start_x: int, start_z: int, stride: int, a: int, b: int)
    requires
        a <= b || b <= 0,
        0 <= a,
    ensures
        ({
            let short = spawn_candidates(start_x, start_z, stride, a);
            let long = spawn_candidates(start_x, start_z, stride, b);
            a <= b ==> short.len() <= long.len() && forall|j: int|
                0 <= j < short.len() ==> #[trigger] long[j] == short[j]
        }),
        spawn_candidates(start_x, start_z, stride, b).len() >= 1,
        spawn_candidates(start_x, start_z, stride, b)[0] == (start_x as i64, start_z as i64),
    decreases b,
{
    if b > 0 {
        if a < b {
            lemma_spawn_prefix(start_x, start_z, stride, a, b - 1);
        } else {
            lemma_spawn_prefix(start_x, start_z, stride, 0, b - 1);
        }
    }
}

/// Any two positions of the same place, a whole number of laps apart, have the
/// same canonical position.
pub proof fn lemma_canonical_same_on_every_lap(shape: WorldShape, x: int, laps: int)
    requires
        shape.legal(),
    ensures
        (x + laps * shape.sx()) % shape.sx() == x % shape.sx(),
        (x + laps * shape.sz()) % shape.sz() == x % shape.sz(),
{
    lemma_mod_add_multiple(x, laps, shape.sx());
    lemma_mod_add_multiple(x, laps, shape.sz());
}

/// Within the farthest the view may reach no place is met twice: two chunk
/// positions that stand for the same place, both that near a camera, are equal.
pub proof fn lemma_no_place_twice(
    shape: WorldShape,
    camera: ChunkPos,
    reach: int,
    a: ChunkPos,
    b: ChunkPos,
)
    requires
        shape.legal(),
        reach * 32 <= shape.view_limit(),
        -reach <= a.x - camera.x <= reach,
        -reach <= a.z - camera.z <= reach,
        -reach <= b.x - camera.x <= reach,
        -reach <= b.z - camera.z <= reach,
        shape.canon(a) == shape.canon(b),
    ensures
        a == b,
{
    lemma_same_remainder(a.x as int, b.x as int, shape.sx() / 32);
    lemma_same_remainder(a.z as int, b.z as int, shape.sz() / 32);
}

/// Numbers with the same remainder, less than the modulus apart, are equal.
proof fn lemma_same_remainder(a: int, b: int, m: int)
    requires
        m > 0,
        a % m == b % m,
        -m < a - b < m,
    ensures
        a == b,
{
    lemma_div_floor(a, m);
    lemma_div_floor(b, m);
    let p = a / m;
    let q = b / m;
    assert(a - b == (p - q) * m) by (nonlinear_arith)
        requires
            a == p * m + a % m,
            b == q * m + b % m,
            a % m == b % m,
    ;
    assert(p == q) by (nonlinear_arith)
        requires
            -m < (p - q) * m < m,
            m > 0,
    ;
}

/// A block's canonical position lies in the canonical position of its chunk.
pub proof fn lemma_canonical_chunk_holds_block(shape: WorldShape, x: int)
    requires
        shape.legal(),
    ensures
        (x % shape.sx()) / 32 == (x / 32) % (shape.sx() / 32),
        (x % shape.sx()) % 32 == x % 32,
        (x % shape.sz()) / 32 == (x / 32) % (shape.sz() / 32),
        (x % shape.sz()) % 32 == x % 32,
{
    lemma_mod_div(x, shape.sx() / 32);
    lemma_mod_div(x, shape.sz() / 32);
}

proof fn lemma_mod_div(x: int, c: int)
    requires
        c > 0,
    ensures
        (x % (c * 32)) / 32 == (x / 32) % c,
        (x % (c * 32)) % 32 == x % 32,
{
    let s = c * 32;
    lemma_div_floor(x, s);
    let q = x / s;
    let r = x % s;
    assert(q * s == (q * c) * 32) by (nonlinear_arith)
        requires
            s == c * 32,
    ;
    assert(x / 32 == q * c + r / 32);
    lemma_mod_add_multiple(r / 32, q, c);
    assert(0 <= r / 32 < c);
    vstd::arithmetic::div_mod::lemma_small_mod((r / 32) as nat, c as nat);
    assert(x % 32 == r % 32);
}

/// Going the shortest way from one position ends at the other's place, and no
/// way is more than half a lap.
pub proof fn lemma_shortest_way(from: int, to: int, period: int)
    requires
        period > 0,
    ensures
        (from + shortest_way(to - from, period)) % period == to % period,
        -period < 2 * shortest_way(to - from, period) <= period,
{
    let d = to - from;
    lemma_div_floor(d, period);
    let m = d % period;
    let q = d / period;
    assert(to == from + m + q * period);
    lemma_mod_add_multiple(from + m, q, period);
    lemma_mod_add_multiple(from + m, -1, period);
    assert(-1 * period == -period);
}

/// The latitude repeats each lap, is 0 at the start of the world, and half a
/// lap on has the opposite sign.
pub proof fn lemma_latitude_wave(shape: WorldShape, z: int, laps: int)
    requires
        shape.legal(),
    ensures
        shape.latitude_wave(z + laps * shape.sz()) == shape.latitude_wave(z),
        shape.latitude_wave(z + shape.sz() / 2) == -shape.latitude_wave(z),
        shape.latitude_wave(0) == 0,
        shape.latitude_wave(shape.sz() / 4) == shape.sz(),
        shape.latitude_wave(3 * shape.sz() / 4) == -shape.sz(),
{
    let s = shape.sz();
    lemma_mod_add_multiple(z, laps, s);
    lemma_div_floor(z, s);
    let c = z % s;
    let q = z / s;
    lemma_mod_add_multiple(c + s / 2, q, s);
    assert(z + s / 2 == c + s / 2 + q * s);
    if c + s / 2 < s {
        vstd::arithmetic::div_mod::lemma_small_mod((c + s / 2) as nat, s as nat);
    } else {
        lemma_mod_add_multiple(c + s / 2 - s, 1, s);
        vstd::arithmetic::div_mod::lemma_small_mod((c + s / 2 - s) as nat, s as nat);
        assert(c + s / 2 - s + 1 * s == c + s / 2);
    }
    vstd::arithmetic::div_mod::lemma_small_mod(0, s as nat);
    vstd::arithmetic::div_mod::lemma_small_mod((s / 4) as nat, s as nat);
    vstd::arithmetic::div_mod::lemma_small_mod((3 * s / 4) as nat, s as nat);
}

/// The offset, in steps, of candidate `k` of a ring.
spec fn ring_offset(n: int, k: int) -> (int, int) {
    if k <= 2 * n {
        (k - n, -n)
    } else if k < 4 * n {
        (n, k - 3 * n)
    } else if k <= 6 * n {
        (5 * n - k, n)
    } else {
        (-n, 7 * n - k)
    }
}

/// The larger of two distances.
pub open spec fn farther(i: int, j: int) -> int {
    let a = if i < 0 { -i } else { i };
    let b = if j < 0 { -j } else { j };
    if a < b {
        b
    } else {
        a
    }
}

/// The place `(i, j)` steps from the start.
pub open spec fn lattice(start_x: int, start_z: int, stride: int, i: int, j: int) -> (int, int) {
    (start_x + i * stride, start_z + j * stride)
}

/// A place with 64-bit coordinates.
pub open spec fn fits(p: (int, int)) -> bool {
    i64::MIN <= p.0 <= i64::MAX && i64::MIN <= p.1 <= i64::MAX
}

/// The ring fits around the start.
pub open spec fn ring_fits(start_x: int, start_z: int, stride: int, ring: int) -> bool {
    &&& i64::MIN <= start_x - ring * stride
    &&& start_x + ring * stride <= i64::MAX
    &&& i64::MIN <= start_z - ring * stride
    &&& start_z + ring * stride <= i64::MAX
}

proof fn lemma_ring_at(start_x: int, start_z: int, stride: int, n: int, k: int)
    requires
        stride > 0,
        n >= 1,
        0 <= k < 8 * n,
    ensures
        spawn_ring(start_x, start_z, stride, n).len() == 8 * n,
        ({
            let o = ring_offset(n, k);
            let p = lattice(start_x, start_z, stride, o.0, o.1);
            spawn_ring(start_x, start_z, stride, n)[k] == (p.0 as i64, p.1 as i64)
        }),
{
    let d = n * stride;
    let o = ring_offset(n, k);
    assert((k - n) * stride == k * stride - d) by (nonlinear_arith)
        requires
            d == n * stride,
    ;
    assert((-n) * stride == -d) by (nonlinear_arith)
        requires
            d == n * stride,
    ;
    assert((k - 3 * n) * stride == -d + stride + (k - 2 * n - 1) * stride) by (nonlinear_arith)
        requires
            d == n * stride,
    ;
    assert((5 * n - k) * stride == d - (k - 4 * n) * stride) by (nonlinear_arith)
        requires
            d == n * stride,
    ;
    assert((7 * n - k) * stride == d - stride - (k - 6 * n - 1) * stride) by (nonlinear_arith)
        requires
            d == n * stride,
    ;
}

proof fn lemma_offset_fits(start_x: int, start_z: int, stride: int, n: int, i: int, j: int)
    requires
        stride > 0,
        n >= 0,
        farther(i, j) <= n,
        ring_fits(start_x, start_z, stride, n),
    ensures
        fits(lattice(start_x, start_z, stride, i, j)),
        -(n * stride) <= i * stride <= n * stride,
        -(n * stride) <= j * stride <= n * stride,
{
    assert(-(n * stride) <= i * stride <= n * stride) by (nonlinear_arith)
        requires
            -n <= i <= n,
            stride > 0,
    ;
    assert(-(n * stride) <= j * stride <= n * stride) by (nonlinear_arith)
        requires
            -n <= j <= n,
            stride > 0,
    ;
}

proof fn lemma_lattice_injective(stride: int, a: int, b: int)
    requires
        stride > 0,
        a * stride == b * stride,
    ensures
        a == b,
{
    assert(a == b) by (nonlinear_arith)
        requires
            stride > 0,
            a * stride == b * stride,
    ;
}

/// A ring holds every place of the lattice at its distance from the start, each
/// once, and no other.
pub proof fn lemma_ring_holds_its_places(
    start_x: int,
    start_z: int,
    stride: int,
    ring: int,
    i: int,
    j: int,
)
    requires
        stride > 0,
        ring >= 0,
        ring_fits(start_x, start_z, stride, ring),
        fits(lattice(start_x, start_z, stride, i, j)),
    ensures
        spawn_ring(start_x, start_z, stride, ring).contains(
            ((start_x + i * stride) as i64, (start_z + j * stride) as i64),
        ) <==> farther(i, j) == ring,
        spawn_ring(start_x, start_z, stride, ring).no_duplicates(),
{
    let all = spawn_ring(start_x, start_z, stride, ring);
    let p = lattice(start_x, start_z, stride, i, j);
    let q = (p.0 as i64, p.1 as i64);
    if ring == 0 {
        assert(all[0] == (start_x as i64, start_z as i64));
        if all.contains(q) {
            assert(i * stride == 0 * stride && j * stride == 0 * stride);
            lemma_lattice_injective(stride, i, 0);
            lemma_lattice_injective(stride, j, 0);
        }
        if farther(i, j) == 0 {
            assert(i == 0 && j == 0);
        }
    } else {
        lemma_ring_at(start_x, start_z, stride, ring, 0);
        if all.contains(q) {
            let k = choose|k: int| 0 <= k < all.len() && all[k] == q;
            let o = ring_offset(ring, k);
            lemma_ring_at(start_x, start_z, stride, ring, k);
            lemma_offset_fits(start_x, start_z, stride, ring, o.0, o.1);
            lemma_lattice_injective(stride, i, o.0);
            lemma_lattice_injective(stride, j, o.1);
        }
        if farther(i, j) == ring {
            let k = if j == -ring {
                i + ring
            } else if j == ring {
                5 * ring - i
            } else if i == ring {
                j + 3 * ring
            } else {
                7 * ring - j
            };
            assert(ring_offset(ring, k) == (i, j));
            lemma_ring_at(start_x, start_z, stride, ring, k);
            assert(all[k] == q);
        }
        assert forall|a: int, b: int| 0 <= a < all.len() && 0 <= b < all.len() && a
            != b implies all[a] != all[b] by {
            lemma_ring_at(start_x, start_z, stride, ring, a);
            lemma_ring_at(start_x, start_z, stride, ring, b);
            let o = ring_offset(ring, a);
            let u = ring_offset(ring, b);
            lemma_offset_fits(start_x, start_z, stride, ring, o.0, o.1);
            lemma_offset_fits(start_x, start_z, stride, ring, u.0, u.1);
            if all[a] == all[b] {
                lemma_lattice_injective(stride, o.0, u.0);
                lemma_lattice_injective(stride, o.1, u.1);
            }
        }
    }
}

/// A ring is walked clockwise from its north-west corner: it begins there, goes
/// east, and each candidate is one step from the one before.
pub proof fn lemma_ring_is_walked(start_x: int, start_z: int, stride: int, ring: int, k: int)
    requires
        stride > 0,
        ring >= 1,
        ring_fits(start_x, start_z, stride, ring),
        1 <= k < spawn_ring(start_x, start_z, stride, ring).len(),
    ensures
        ({
            let all = spawn_ring(start_x, start_z, stride, ring);
            let dx = all[k].0 - all[k - 1].0;
            let dz = all[k].1 - all[k - 1].1;
            &&& all.len() == 8 * ring
            &&& all[0].0 == start_x - ring * stride && all[0].1 == start_z - ring * stride
            &&& all[1].0 == all[0].0 + stride && all[1].1 == all[0].1
            &&& dx == 0 || dz == 0
            &&& farther(dx, dz) == stride
        }),
{
    let all = spawn_ring(start_x, start_z, stride, ring);
    lemma_ring_at(start_x, start_z, stride, ring, 0);
    lemma_ring_at(start_x, start_z, stride, ring, 1);
    lemma_ring_at(start_x, start_z, stride, ring, k);
    lemma_ring_at(start_x, start_z, stride, ring, k - 1);
    let n = ring;
    let o = ring_offset(n, k);
    let u = ring_offset(n, k - 1);
    lemma_offset_fits(start_x, start_z, stride, n, -n, -n);
    lemma_offset_fits(start_x, start_z, stride, n, 1 - n, -n);
    lemma_offset_fits(start_x, start_z, stride, n, o.0, o.1);
    lemma_offset_fits(start_x, start_z, stride, n, u.0, u.1);
    assert((-n) * stride == -(n * stride)) by (nonlinear_arith);
    assert((1 - n) * stride == stride - n * stride) by (nonlinear_arith);
    assert(o.0 * stride - u.0 * stride == (o.0 - u.0) * stride) by (nonlinear_arith);
    assert(o.1 * stride - u.1 * stride == (o.1 - u.1) * stride) by (nonlinear_arith);
    let a = o.0 - u.0;
    let b = o.1 - u.1;
    assert((a == 0 && (b == 1 || b == -1)) || (b == 0 && (a == 1 || a == -1)));
    assert(0 * stride == 0 && 1 * stride == stride && (-1) * stride == -stride)
        by (nonlinear_arith);
}

/// Candidates out to a ring lie no farther than it.
proof fn lemma_candidate_near(start_x: int, start_z: int, stride: int, rings: int, k: int)
    requires
        stride > 0,
        rings >= 0,
        ring_fits(start_x, start_z, stride, rings),
        0 <= k < spawn_candidates(start_x, start_z, stride, rings).len(),
    ensures
        ({
            let p = spawn_candidates(start_x, start_z, stride, rings)[k];
            &&& farther(p.0 - start_x, p.1 - start_z) <= rings * stride
            &&& (p.0 - start_x) % stride == 0
            &&& (p.1 - start_z) % stride == 0
        }),
    decreases rings,
{
    let all = spawn_candidates(start_x, start_z, stride, rings);
    if rings == 0 {
        lemma_div_is(0, stride, 0);
        assert(all[k] == (start_x as i64, start_z as i64));
    } else {
        let before = spawn_candidates(start_x, start_z, stride, rings - 1);
        assert((rings - 1) * stride == rings * stride - stride) by (nonlinear_arith);
        if k < before.len() {
            lemma_candidate_near(start_x, start_z, stride, rings - 1, k);
            assert(all[k] == before[k]);
        } else {
            let m = k - before.len();
            lemma_ring_at(start_x, start_z, stride, rings, 0);
            lemma_ring_at(start_x, start_z, stride, rings, m);
            let o = ring_offset(rings, m);
            lemma_offset_fits(start_x, start_z, stride, rings, o.0, o.1);
            assert(all[k] == spawn_ring(start_x, start_z, stride, rings)[m]);
            lemma_mod_add_multiple(0, o.0, stride);
            lemma_mod_add_multiple(0, o.1, stride);
            lemma_div_is(0, stride, 0);
        }
    }
}

/// The search finds the nearest place that qualifies: what it finds was
/// accepted, and every place of the lattice that is strictly nearer to the start
/// was not. If it finds none, no place within its rings was accepted.
pub proof fn lemma_spawn_is_nearest<F: Fn(i64, i64) -> bool>(
    accept: F,
    start_x: int,
    start_z: int,
    stride: int,
    rings: int,
    found: Option<(i64, i64)>,
    i: int,
    j: int,
)
    requires
        stride > 0,
        rings >= 0,
        ring_fits(start_x, start_z, stride, rings),
        first_accepted(accept, spawn_candidates(start_x, start_z, stride, rings), found),
        farther(i, j) <= rings,
    ensures
        ({
            let q = ((start_x + i * stride) as i64, (start_z + j * stride) as i64);
            match found {
                Some(p) => {
                    let d = farther(p.0 - start_x, p.1 - start_z);
                    &&& call_ensures(accept, p, true)
                    &&& d <= rings * stride
                    &&& (p.0 - start_x) % stride == 0
                    &&& (p.1 - start_z) % stride == 0
                    &&& farther(i, j) * stride < d ==> call_ensures(accept, q, false)
                },
                None => call_ensures(accept, q, false),
            }
        }),
{
    let all = spawn_candidates(start_x, start_z, stride, rings);
    let m = farther(i, j);
    let ring = spawn_ring(start_x, start_z, stride, m);
    let near = spawn_candidates(start_x, start_z, stride, m);
    assert(m * stride <= rings * stride) by (nonlinear_arith)
        requires
            0 <= m <= rings,
            stride > 0,
    ;
    lemma_offset_fits(start_x, start_z, stride, rings, i, j);
    lemma_ring_holds_its_places(start_x, start_z, stride, m, i, j);
    let q = ((start_x + i * stride) as i64, (start_z + j * stride) as i64);
    let r = choose|r: int| 0 <= r < ring.len() && ring[r] == q;
    let at = if m == 0 { r } else { near.len() - ring.len() + r };
    assert(near[at] == q) by {
        if m > 0 {
            assert(near == spawn_candidates(start_x, start_z, stride, m - 1) + ring);
        }
    }
    lemma_spawn_prefix(start_x, start_z, stride, m, rings);
    assert(all[at] == q);
    if let Some(p) = found {
        let k = choose|k: int|
            0 <= k < all.len() && #[trigger] all[k] == p && call_ensures(accept, p, true) && forall|
                j: int,
            |
                0 <= j < k ==> call_ensures(accept, #[trigger] all[j], false);
        lemma_candidate_near(start_x, start_z, stride, rings, k);
        if k < near.len() {
            lemma_candidate_near(start_x, start_z, stride, m, k);
            assert(all[k] == near[k]);
        }
    }
}

/// The search goes as many rings out as it was told, but stops at half the
/// smaller period, beyond which it would come round again.
pub proof fn lemma_spawn_rings(shape: WorldShape, stride: int, max_rings: int)
    requires
        shape.legal(),
        stride > 0,
    ensures
        ({
            let n = spawn_rings(shape, stride, max_rings);
            &&& n <= max_rings
            &&& 2 * (n * stride) <= shape.sx() && 2 * (n * stride) <= shape.sz()
            &&& n < max_rings ==> 2 * ((n + 1) * stride) > shape.sx() || 2 * ((n + 1) * stride)
                > shape.sz()
        }),
{
    let reach = (if shape.sx() < shape.sz() {
        shape.sx()
    } else {
        shape.sz()
    }) / 2;
    let n = spawn_rings(shape, stride, max_rings);
    let most = reach / stride;
    lemma_div_floor(reach, stride);
    assert(n * stride <= most * stride) by (nonlinear_arith)
        requires
            n <= most,
            stride > 0,
    ;
    if n < max_rings {
        assert((n + 1) * stride == n * stride + stride) by (nonlinear_arith);
    }
}

/// A size is legal iff it is a whole number of quanta of 8192 blocks and lies
/// within the bounds; what is wrong with another is named, with the size.
pub proof fn lemma_legal_sizes(s: i64)
    ensures
        size_error(s) is None <==> s as int % 8192 == 0 && 32768 <= s <= 2097152,
        size_error(s) matches Some(WorldShapeError::NotQuantised(t)) ==> t == s && s as int % 8192
            != 0,
        size_error(s) matches Some(WorldShapeError::TooSmall(t)) ==> t == s && s < 32768,
        size_error(s) matches Some(WorldShapeError::TooLarge(t)) ==> t == s && s > 2097152,
        s as int % 8192 != 0 ==> size_error(s) is Some && size_error(s)->0 is NotQuantised,
{
}

/// Noise cells fit round the world in the whole number that comes nearest to the
/// wavelength asked for: of the whole numbers, none makes the circle a better
/// multiple of it. Never fewer than three.
pub proof fn lemma_cells_nearest(period: int, wavelength: int)
    requires
        period > 0,
        wavelength > 0,
    ensures
        ({
            let n = cells_round(period, wavelength);
            &&& n >= 3
            &&& 3 < n < u32::MAX ==> -wavelength <= 2 * (period - n * wavelength) < wavelength
            &&& n == 3 ==> 2 * period < 7 * wavelength
            &&& n <= u32::MAX
        }),
{
    let n = (2 * period + wavelength) / (2 * wavelength);
    lemma_div_floor(2 * period + wavelength, 2 * wavelength);
    assert(n * (2 * wavelength) == 2 * (n * wavelength)) by (nonlinear_arith);
    if n < 3 {
        assert(n * (2 * wavelength) + 2 * wavelength <= 6 * wavelength) by (nonlinear_arith)
            requires
                n <= 2,
                wavelength > 0,
        ;
    } else if n == 3 {
        assert(n * wavelength == 3 * wavelength);
    }
}

/// The view reaches to one chunk short of half the smaller period.
pub proof fn lemma_view_limit(shape: WorldShape)
    requires
        shape.legal(),
    ensures
        2 * (shape.view_limit() + 32) <= shape.sx(),
        2 * (shape.view_limit() + 32) <= shape.sz(),
        2 * (shape.view_limit() + 32) == shape.sx() || 2 * (shape.view_limit() + 32) == shape.sz(),
{
}

/// A chunk and its canonical position hold the same places: they are a whole
/// number of laps apart, in the same layer, and the canonical one lies in the
/// first lap.
pub proof fn lemma_canonical_chunk_laps(shape: WorldShape, pos: ChunkPos)
    requires
        shape.legal(),
    ensures
        ({
            let c = shape.canon(pos);
            &&& c.y == pos.y
            &&& 0 <= c.x && c.x * 32 + 32 <= shape.sx()
            &&& 0 <= c.z && c.z * 32 + 32 <= shape.sz()
            &&& (pos.x - c.x) * 32 % shape.sx() == 0
            &&& (pos.z - c.z) * 32 % shape.sz() == 0
        }),
{
    let c = shape.canon(pos);
    let nx = shape.sx() / 32;
    let nz = shape.sz() / 32;
    lemma_div_floor(pos.x as int, nx);
    lemma_div_floor(pos.z as int, nz);
    let qx = pos.x as int / nx;
    let qz = pos.z as int / nz;
    assert((pos.x - c.x) * 32 == qx * shape.sx()) by (nonlinear_arith)
        requires
            pos.x - c.x == qx * nx,
            nx * 32 == shape.sx(),
    ;
    assert((pos.z - c.z) * 32 == qz * shape.sz()) by (nonlinear_arith)
        requires
            pos.z - c.z == qz * nz,
            nz * 32 == shape.sz(),
    ;
    lemma_mod_add_multiple(0, qx, shape.sx());
    lemma_mod_add_multiple(0, qz, shape.sz());
    lemma_div_is(0, shape.sx(), 0);
    lemma_div_is(0, shape.sz(), 0);
}

/// The latitude is linear from pole to pole, which makes it equal-area: around
/// the equator at the start of the world each block north adds the same.
pub proof fn lemma_latitude_linear(shape: WorldShape, z: int)
    requires
        shape.legal(),
        -shape.sz() <= 4 * z <= shape.sz(),
    ensures
        shape.latitude_wave(z) == 4 * z,
{
    if z < 0 {
        lemma_mod_add_multiple(z, 1, shape.sz());
        lemma_div_is(z + shape.sz(), shape.sz(), 0);
    } else {
        lemma_div_is(z, shape.sz(), 0);
    }
}

/// Layers of blocks and layers of chunks bound the world alike.
pub proof fn lemma_vertical_bounds(y: int)
    ensures
        WORLD_Y_MIN_CHUNK <= y / 32 < WORLD_Y_MAX_CHUNK <==> WORLD_Y_MIN_BLOCKS <= y
            < WORLD_Y_MAX_BLOCKS,
        WORLD_Y_MIN_BLOCKS <= y < WORLD_Y_MAX_BLOCKS <==> -11_264 <= y < 9_216,
        SEA_LEVEL_BLOCKS == 0,
{
}

/// Without any ring only the start is tried.
pub proof fn lemma_no_rings(start_x: i64, start_z: i64, stride: int, rings: int)
    requires
        rings <= 0,
    ensures
        spawn_candidates(start_x as int, start_z as int, stride, rings) == seq![(start_x, start_z)],
{
}

/// A refused size is named, with the bound that it breaks.
pub proof fn lemma_refused_sizes_in_words(s: i64)
    ensures
        WorldShapeError::NotQuantised(s).text() == "world size "@ + decimal(s as int)
            + " is not a multiple of 8192 blocks"@,
        WorldShapeError::TooSmall(s).text() == "world size "@ + decimal(s as int)
            + " is below the minimum of 32768 blocks"@,
        WorldShapeError::TooLarge(s).text() == "world size "@ + decimal(s as int)
            + " is above the maximum of 2097152 blocks"@,
{
}

} // verus!
