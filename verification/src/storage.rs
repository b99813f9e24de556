//! How a world is stored.
//!
//! A world lives in a directory: `world.meta` holds versioned metadata, and
//! `chunks/c.<x>.<y>.<z>.vxc` one file per modified chunk. Reading and writing
//! files is the caller's; what is in them, and what they are called, is here.
//!
//! Only **modified** chunks are written. Chunks read back are marked modified,
//! so that they keep persisting.
//!
//! ## Chunks are filed under their *canonical* position
//!
//! On a second lap of the world a chunk that was saved at x = 5 is asked for at
//! x = 5 plus one world width, so every file name is built from the canonical
//! position. Callers pass unwrapped positions freely.
//!
//! ## A world is its seed, its size *and* its generator
//!
//! Metadata records all three: a save made by another terrain algorithm would
//! load its edited chunks as islands of the old landscape in the new one.

use crate::chunk::{decode_error, decoded, encode, Chunk, ChunkDecodeError, ChunkView};
use crate::coords::ChunkPos;
use crate::planet::{size_error, WorldShape, WorldShapeError};
use crate::text::{
    append_decimal, decimal, lemma_decimal_injective, lemma_decimal_no_dot,
};
use vstd::prelude::*;
use vstd::string::*;

verus! {

/// World-metadata format version, independent of the chunk format's. Version 1
/// held only the seed.
pub const WORLD_META_VERSION: u8 = 2;

/// Byte length of a metadata file: magic, version, seed, two sizes, generator
/// version.
pub const META_V2_LEN: usize = 33;

/// What metadata records about a world.
#[derive(Clone, Copy, Debug, PartialEq, Eq, Structural)]
pub struct WorldMeta {
    pub seed: u64,
    pub shape: WorldShape,
    /// The terrain generator's version when the world was created.
    pub generator_version: u32,
}

/// Why opening or using a world store failed, apart from the file system.
#[derive(Debug, Clone, Copy, PartialEq, Eq, Structural)]
pub enum StoreError {
    /// Metadata file present but not a Voxterra world.
    BadMetaMagic,
    /// Metadata version not understood.
    UnsupportedMetaVersion(u8),
    /// Metadata file truncated or corrupt.
    BadMeta,
    /// A version-1 world, from before worlds recorded their size and generator.
    LegacyWorld,
    /// The world was made by a different terrain generator.
    GeneratorMismatch { saved: u32, current: u32 },
    /// The recorded world size is not a legal size.
    BadShape(WorldShapeError),
    /// A chunk file failed to decode.
    Chunk(ChunkDecodeError),
}

impl StoreError {
    /// The words of the error.
    pub open spec fn text(self) -> Seq<char> {
        match self {
            StoreError::BadMetaMagic => "not a Voxterra world (bad metadata magic)"@,
            StoreError::UnsupportedMetaVersion(v) => "unsupported world metadata version "@
                + decimal(v as int),
            StoreError::BadMeta => "corrupt world metadata"@,
            StoreError::LegacyWorld =>
                "this world was created before worlds recorded their size and terrain generator, and cannot be opened by this build; move or delete it to start a new one"@,
            StoreError::GeneratorMismatch { saved, current } =>
                "this world was made by terrain generator v"@ + decimal(saved as int)
                    + ", but this build generates v"@ + decimal(current as int)
                    + "; opening it would mix old and new terrain"@,
            StoreError::BadShape(e) => "corrupt world metadata: "@ + e.text(),
            StoreError::Chunk(e) => "chunk decode error: "@ + e.text(),
        }
    }

    /// The error in words.
    pub fn message(&self) -> (r: String)
        ensures
            r@ == self.text(),
    {
        let mut out = String::new();
        match self {
            StoreError::BadMetaMagic => {
                out.append("not a Voxterra world (bad metadata magic)");
            },
            StoreError::UnsupportedMetaVersion(v) => {
                out.append("unsupported world metadata version ");
                append_decimal(&mut out, *v as i64);
            },
            StoreError::BadMeta => {
                out.append("corrupt world metadata");
            },
            StoreError::LegacyWorld => {
                out.append(
                    "this world was created before worlds recorded their size and terrain generator, and cannot be opened by this build; move or delete it to start a new one",
                );
            },
            StoreError::GeneratorMismatch { saved, current } => {
                out.append("this world was made by terrain generator v");
                append_decimal(&mut out, *saved as i64);
                out.append(", but this build generates v");
                append_decimal(&mut out, *current as i64);
                out.append("; opening it would mix old and new terrain");
            },
            StoreError::BadShape(e) => {
                out.append("corrupt world metadata: ");
                let m = e.message();
                out.append(m.as_str());
            },
            StoreError::Chunk(e) => {
                out.append("chunk decode error: ");
                let m = e.message();
                out.append(m.as_str());
            },
        }
        assert(out@ =~= self.text());
        out
    }
}

/// The `n` bytes of a number, low byte first.
pub open spec fn le_bytes(v: int, n: nat) -> Seq<u8>
    decreases n,
{
    if n == 0 {
        Seq::empty()
    } else {
        seq![(v % 256) as u8] + le_bytes(v / 256, (n - 1) as nat)
    }
}

/// The number that bytes stand for, low byte first.
pub open spec fn le_value(b: Seq<u8>) -> int
    decreases b.len(),
{
    if b.len() == 0 {
        0
    } else {
        b[0] + 256 * le_value(b.skip(1))
    }
}

/// A 64-bit pattern read as a signed number.
pub open spec fn as_signed(v: int) -> int {
    if v > i64::MAX {
        v - 0x1_0000_0000_0000_0000
    } else {
        v
    }
}

/// The metadata file of a world.
pub open spec fn encode_meta(m: WorldMeta) -> Seq<u8> {
    seq![0x56u8, 0x58u8, 0x54u8, 0x57u8, WORLD_META_VERSION] + le_bytes(m.seed as int, 8)
        + le_bytes(m.shape.sx(), 8) + le_bytes(m.shape.sz(), 8) + le_bytes(
        m.generator_version as int,
        4,
    )
}

/// The sizes that metadata bytes record.
pub open spec fn meta_sizes(b: Seq<u8>) -> (i64, i64) {
    (
        as_signed(le_value(b.subrange(13, 21))) as i64,
        as_signed(le_value(b.subrange(21, 29))) as i64,
    )
}

/// What keeps bytes from being a world's metadata, if anything.
pub open spec fn meta_error(b: Seq<u8>) -> Option<StoreError> {
    if b.len() < 5 {
        Some(StoreError::BadMeta)
    } else if b.take(4) != seq![0x56u8, 0x58u8, 0x54u8, 0x57u8] {
        Some(StoreError::BadMetaMagic)
    } else if b[4] == 1 {
        Some(StoreError::LegacyWorld)
    } else if b[4] != WORLD_META_VERSION {
        Some(StoreError::UnsupportedMetaVersion(b[4]))
    } else if b.len() != META_V2_LEN {
        Some(StoreError::BadMeta)
    } else if size_error(meta_sizes(b).0) is Some {
        Some(StoreError::BadShape(size_error(meta_sizes(b).0)->0))
    } else if size_error(meta_sizes(b).1) is Some {
        Some(StoreError::BadShape(size_error(meta_sizes(b).1)->0))
    } else {
        None
    }
}

/// `m` is what well-formed metadata bytes record.
pub open spec fn meta_records(b: Seq<u8>, m: WorldMeta) -> bool {
    &&& m.seed == le_value(b.subrange(5, 13))
    &&& m.shape.sx() == meta_sizes(b).0
    &&& m.shape.sz() == meta_sizes(b).1
    &&& m.generator_version == le_value(b.subrange(29, 33))
}

fn push_le(out: &mut Vec<u8>, v: u64, n: usize)
    requires
        n <= 8,
    ensures
        final(out)@ == old(out)@ + le_bytes(v as int, n as nat),
    decreases n,
{
    if n > 0 {
        out.push((v % 256) as u8);
        push_le(out, v / 256, n - 1);
    }
    assert(out@ =~= old(out)@ + le_bytes(v as int, n as nat));
}

/// The number in `n` bytes from byte `at`.
fn read_le(b: &[u8], at: usize, n: usize) -> (r: u64)
    requires
        n <= 8,
        at + n <= b.len(),
    ensures
        r == le_value(b@.subrange(at as int, at + n)),
        n <= 4 ==> r <= u32::MAX,
    decreases n,
{
    if n == 0 {
        return 0;
    }
    let high: u64 = read_le_below(b, at + 1, n - 1);
    let low: u64 = b[at] as u64;
    proof {
        let s = b@.subrange(at as int, at + n);
        assert(s.skip(1) =~= b@.subrange(at + 1, at + n));
        lemma_le_bound(s);
        lemma_le_bound(s.skip(1));
    }
    low + 256 * high
}

fn read_le_below(b: &[u8], at: usize, n: usize) -> (r: u64)
    requires
        n <= 7,
        at + n <= b.len(),
    ensures
        r == le_value(b@.subrange(at as int, at + n)),
        r < 0x100_0000_0000_0000,
        n <= 3 ==> r < 0x100_0000,
    decreases n,
{
    if n == 0 {
        return 0;
    }
    let high: u64 = read_le_below(b, at + 1, n - 1);
    let low: u64 = b[at] as u64;
    proof {
        let s = b@.subrange(at as int, at + n);
        assert(s.skip(1) =~= b@.subrange(at + 1, at + n));
        lemma_le_bound(s);
        lemma_le_bound(s.skip(1));
    }
    low + 256 * high
}

spec fn byte_limit(n: nat) -> int
    decreases n,
{
    if n == 0 {
        1
    } else {
        256 * byte_limit((n - 1) as nat)
    }
}

proof fn lemma_le_bound(b: Seq<u8>)
    ensures
        0 <= le_value(b) < byte_limit(b.len()),
        b.len() <= 3 ==> byte_limit(b.len()) <= 0x100_0000,
        b.len() <= 4 ==> byte_limit(b.len()) <= 0x1_0000_0000,
        b.len() <= 6 ==> byte_limit(b.len()) <= 0x1_0000_0000_0000,
        b.len() <= 7 ==> byte_limit(b.len()) <= 0x100_0000_0000_0000,
        b.len() <= 8 ==> byte_limit(b.len()) <= 0x1_0000_0000_0000_0000,
    decreases b.len(),
{
    reveal_with_fuel(byte_limit, 9);
    if b.len() > 0 {
        lemma_le_bound(b.skip(1));
    }
}

proof fn lemma_le_roundtrip(v: int, n: nat)
    requires
        0 <= v < byte_limit(n),
    ensures
        le_bytes(v, n).len() == n,
        le_value(le_bytes(v, n)) == v,
    decreases n,
{
    if n > 0 {
        lemma_le_roundtrip(v / 256, (n - 1) as nat);
        let b = le_bytes(v, n);
        assert(b.skip(1) =~= le_bytes(v / 256, (n - 1) as nat));
    }
}

fn signed(v: u64) -> (r: i64)
    ensures
        r == as_signed(v as int),
{
    if v > 0x7fff_ffff_ffff_ffff {
        -((0xffff_ffff_ffff_ffff - v) as i64) - 1
    } else {
        v as i64
    }
}

/// The bytes of a world's metadata file.
pub fn write_meta(meta: &WorldMeta) -> (out: Vec<u8>)
    ensures
        out@ == encode_meta(*meta),
{
    proof {
        use_type_invariant(&meta.shape);
    }
    let mut out: Vec<u8> = vec![0x56, 0x58, 0x54, 0x57, WORLD_META_VERSION];
    push_le(&mut out, meta.seed, 8);
    push_le(&mut out, meta.shape.size_x() as u64, 8);
    push_le(&mut out, meta.shape.size_z() as u64, 8);
    push_le(&mut out, meta.generator_version as u64, 4);
    assert(out@ =~= encode_meta(*meta));
    out
}

/// Reads a world's metadata file.
pub fn read_meta(bytes: &[u8]) -> (r: Result<WorldMeta, StoreError>)
    ensures
        match r {
            Ok(m) => meta_error(bytes@) is None && meta_records(bytes@, m),
            Err(e) => meta_error(bytes@) == Some(e),
        },
{
    if bytes.len() < 5 {
        return Err(StoreError::BadMeta);
    }
    assert(bytes@.take(4)[0] == bytes[0] && bytes@.take(4)[1] == bytes[1] && bytes@.take(4)[2]
        == bytes[2] && bytes@.take(4)[3] == bytes[3]);
    if bytes[0] != 0x56 || bytes[1] != 0x58 || bytes[2] != 0x54 || bytes[3] != 0x57 {
        return Err(StoreError::BadMetaMagic);
    }
    assert(bytes@.take(4) =~= seq![0x56u8, 0x58u8, 0x54u8, 0x57u8]);
    let version: u8 = bytes[4];
    if version == 1 {
        return Err(StoreError::LegacyWorld);
    }
    if version != WORLD_META_VERSION {
        return Err(StoreError::UnsupportedMetaVersion(version));
    }
    if bytes.len() != META_V2_LEN {
        return Err(StoreError::BadMeta);
    }
    let size_x: i64 = signed(read_le(bytes, 13, 8));
    let size_z: i64 = signed(read_le(bytes, 21, 8));
    match WorldShape::new(size_x, size_z) {
        Err(e) => Err(StoreError::BadShape(e)),
        Ok(shape) => Ok(
            WorldMeta {
                seed: read_le(bytes, 5, 8),
                shape,
                generator_version: read_le(bytes, 29, 4) as u32,
            },
        ),
    }
}

/// Metadata written is read back as it was.
pub proof fn lemma_meta_roundtrip(m: WorldMeta, back: WorldMeta)
    requires
        m.shape.legal(),
    ensures
        meta_error(encode_meta(m)) is None,
        meta_records(encode_meta(m), m),
        meta_records(encode_meta(m), back) ==> back.seed == m.seed && back.shape.sx()
            == m.shape.sx() && back.shape.sz() == m.shape.sz() && back.generator_version
            == m.generator_version,
{
    reveal_with_fuel(byte_limit, 9);
    let b = encode_meta(m);
    lemma_le_roundtrip(m.seed as int, 8);
    lemma_le_roundtrip(m.shape.sx(), 8);
    lemma_le_roundtrip(m.shape.sz(), 8);
    lemma_le_roundtrip(m.generator_version as int, 4);
    assert(b.take(4) =~= seq![0x56u8, 0x58u8, 0x54u8, 0x57u8]);
    assert(b.subrange(5, 13) =~= le_bytes(m.seed as int, 8));
    assert(b.subrange(13, 21) =~= le_bytes(m.shape.sx(), 8));
    assert(b.subrange(21, 29) =~= le_bytes(m.shape.sz(), 8));
    assert(b.subrange(29, 33) =~= le_bytes(m.generator_version as int, 4));
}

/// A world's metadata and the directory it lives in.
#[derive(Debug, Clone)]
pub struct WorldStore {
    root: String,
    meta: WorldMeta,
}

/// The name of the file of the chunk at a canonical position.
pub open spec fn chunk_file(pos: ChunkPos) -> Seq<char> {
    "c."@ + decimal(pos.x as int) + "."@ + decimal(pos.y as int) + "."@ + decimal(pos.z as int)
        + ".vxc"@
}

impl WorldStore {
    /// The directory.
    pub closed spec fn root_dir(self) -> Seq<char> {
        self.root@
    }

    /// What is known of the world.
    pub closed spec fn known(self) -> WorldMeta {
        self.meta
    }

    /// Open (or create) a world at `root`, given the bytes of its metadata file
    /// if there is one.
    ///
    /// - Without one, the world is new: the second value is the metadata file
    ///   to write, from `new_world`.
    /// - With one, what it records is authoritative: the stored seed and size
    ///   are used. The stored generator version must equal that of `new_world`.
    pub fn open(root: String, new_world: WorldMeta, saved: Option<&[u8]>) -> (r: Result<
        (WorldStore, Option<Vec<u8>>),
        StoreError,
    >)
        ensures
            match saved {
                None => r matches Ok((store, Some(bytes))) && store.known() == new_world && bytes@
                    == encode_meta(new_world) && store.root_dir() == root@,
                Some(b) => match meta_error(b@) {
                    Some(e) => r == Err::<(WorldStore, Option<Vec<u8>>), StoreError>(e),
                    None => {
                        let version = le_value(b@.subrange(29, 33)) as u32;
                        if version != new_world.generator_version {
                            r == Err::<(WorldStore, Option<Vec<u8>>), StoreError>(
                                StoreError::GeneratorMismatch {
                                    saved: version,
                                    current: new_world.generator_version,
                                },
                            )
                        } else {
                            r matches Ok((store, None)) && meta_records(b@, store.known())
                                && store.root_dir() == root@
                        }
                    },
                },
            },
    {
        match saved {
            None => {
                let bytes = write_meta(&new_world);
                Ok((WorldStore { root, meta: new_world }, Some(bytes)))
            },
            Some(b) => match read_meta(b) {
                Err(e) => Err(e),
                Ok(meta) => {
                    if meta.generator_version != new_world.generator_version {
                        return Err(
                            StoreError::GeneratorMismatch {
                                saved: meta.generator_version,
                                current: new_world.generator_version,
                            },
                        );
                    }
                    Ok((WorldStore { root, meta }, None))
                },
            },
        }
    }

    /// Everything metadata records (authoritative once a world exists).
    pub fn meta(&self) -> (r: WorldMeta)
        ensures
            r == self.known(),
    {
        self.meta
    }

    /// The world's seed.
    pub fn seed(&self) -> (r: u64)
        ensures
            r == self.known().seed,
    {
        self.meta.seed
    }

    /// The world's size.
    pub fn shape(&self) -> (r: WorldShape)
        ensures
            r == self.known().shape,
    {
        self.meta.shape
    }

    pub fn root(&self) -> (r: &str)
        ensures
            r@ == self.root_dir(),
    {
        self.root.as_str()
    }

    /// The name of the file for a chunk, within the chunks directory: filed
    /// under its *canonical* position, so that a chunk saved on one lap of the
    /// world is found on every other.
    pub fn chunk_path(&self, pos: ChunkPos) -> (r: String)
        ensures
            r@ == chunk_file(self.known().shape.canon(pos)),
    {
        let pos = self.meta.shape.canonical_chunk(pos);
        let mut out = String::new();
        out.append("c.");
        append_decimal(&mut out, pos.x);
        out.append(".");
        append_decimal(&mut out, pos.y);
        out.append(".");
        append_decimal(&mut out, pos.z);
        out.append(".vxc");
        assert(out@ =~= chunk_file(pos));
        out
    }

    /// What to write for a chunk: the file's name and its bytes. The caller
    /// decides whether to save.
    pub fn save_chunk(&self, pos: ChunkPos, chunk: &Chunk) -> (r: (String, Vec<u8>))
        ensures
            r.0@ == chunk_file(self.known().shape.canon(pos)),
            r.1@ == encode(chunk@),
    {
        (self.chunk_path(pos), chunk.serialize())
    }

    /// The chunk in a file's bytes, if there was a file. It is marked modified:
    /// its presence on disk means that it must keep persisting.
    pub fn load_chunk(&self, saved: Option<&[u8]>) -> (r: Result<Option<Chunk>, StoreError>)
        ensures
            match saved {
                None => r matches Ok(None),
                Some(b) => match decode_error(b@) {
                    Some(e) => r == Err::<Option<Chunk>, StoreError>(StoreError::Chunk(e)),
                    None => r matches Ok(Some(c)) && c@ == (ChunkView {
                        modified: true,
                        ..decoded(b@)
                    }),
                },
            },
    {
        match saved {
            None => Ok(None),
            Some(b) => match Chunk::deserialize(b) {
                Err(e) => Err(StoreError::Chunk(e)),
                Ok(c) => {
                    let mut chunk = c;
                    chunk.mark_modified();
                    Ok(Some(chunk))
                },
            },
        }
    }
}

/// A place has one file, on whatever lap of the world it is asked for.
pub proof fn lemma_file_same_on_every_lap(
    shape: WorldShape,
    a: ChunkPos,
    b: ChunkPos,
    laps_x: int,
    laps_z: int,
)
    requires
        shape.legal(),
        b.x == a.x + laps_x * (shape.sx() / 32),
        b.z == a.z + laps_z * (shape.sz() / 32),
        b.y == a.y,
    ensures
        chunk_file(shape.canon(a)) == chunk_file(shape.canon(b)),
{
    crate::arith::lemma_mod_add_multiple(a.x as int, laps_x, shape.sx() / 32);
    crate::arith::lemma_mod_add_multiple(a.z as int, laps_z, shape.sz() / 32);
}

/// Two texts with the same dot-free start up to their first dot agree on what
/// stands before and after it.
proof fn lemma_split_at_dot(a: Seq<char>, ra: Seq<char>, b: Seq<char>, rb: Seq<char>)
    requires
        forall|i: int| 0 <= i < a.len() ==> #[trigger] a[i] != '.',
        forall|i: int| 0 <= i < b.len() ==> #[trigger] b[i] != '.',
        a + (seq!['.'] + ra) == b + (seq!['.'] + rb),
    ensures
        a == b,
        ra == rb,
{
    let x = a + (seq!['.'] + ra);
    let y = b + (seq!['.'] + rb);
    assert(x[a.len() as int] == '.');
    assert(y[b.len() as int] == '.');
    if a.len() < b.len() {
        assert(y[a.len() as int] == b[a.len() as int]);
    }
    if b.len() < a.len() {
        assert(x[b.len() as int] == a[b.len() as int]);
    }
    assert forall|i: int| 0 <= i < a.len() implies a[i] == b[i] by {
        assert(x[i] == a[i] && y[i] == b[i]);
    }
    assert(a =~= b);
    assert(ra =~= x.skip(a.len() as int + 1));
    assert(rb =~= y.skip(b.len() as int + 1));
}

/// The coordinates in a file's name, each up to the next dot.
spec fn name_tail(p: ChunkPos) -> Seq<char> {
    let end = seq!['v', 'x', 'c'];
    decimal(p.x as int) + (seq!['.'] + (decimal(p.y as int) + (seq!['.'] + (decimal(p.z as int) + (
    seq!['.'] + end)))))
}

proof fn lemma_name_tail(p: ChunkPos)
    ensures
        chunk_file(p).skip(2) == name_tail(p),
{
    reveal_strlit("c.");
    reveal_strlit(".");
    reveal_strlit(".vxc");
    assert("."@ =~= seq!['.']);
    assert(".vxc"@ =~= seq!['.'] + seq!['v', 'x', 'c']);
    assert(chunk_file(p) =~= "c."@ + name_tail(p));
    assert(chunk_file(p).skip(2) =~= name_tail(p));
}

/// Distinct canonical positions have distinct files.
pub proof fn lemma_files_distinct(a: ChunkPos, b: ChunkPos)
    requires
        chunk_file(a) == chunk_file(b),
    ensures
        a == b,
{
    lemma_name_tail(a);
    lemma_name_tail(b);
    let (ax, ay, az) = (decimal(a.x as int), decimal(a.y as int), decimal(a.z as int));
    let (bx, by, bz) = (decimal(b.x as int), decimal(b.y as int), decimal(b.z as int));
    lemma_decimal_no_dot(a.x as int);
    lemma_decimal_no_dot(a.y as int);
    lemma_decimal_no_dot(a.z as int);
    lemma_decimal_no_dot(b.x as int);
    lemma_decimal_no_dot(b.y as int);
    lemma_decimal_no_dot(b.z as int);
    let end = seq!['v', 'x', 'c'];
    let za = az + (seq!['.'] + end);
    let zb = bz + (seq!['.'] + end);
    let ya = ay + (seq!['.'] + za);
    let yb = by + (seq!['.'] + zb);
    lemma_split_at_dot(ax, ya, bx, yb);
    lemma_split_at_dot(ay, za, by, zb);
    lemma_split_at_dot(az, end, bz, end);
    lemma_decimal_injective(a.x as int, b.x as int);
    lemma_decimal_injective(a.y as int, b.y as int);
    lemma_decimal_injective(a.z as int, b.z as int);
}

/// What is saved is what is loaded: the blocks of a chunk survive, and the chunk
/// keeps being persisted.
pub proof fn lemma_save_then_load(v: ChunkView)
    requires
        v.valid(),
    ensures
        decode_error(encode(v)) is None,
        (ChunkView { modified: true, ..decoded(encode(v)) }).blocks() == v.blocks(),
{
    crate::chunk::lemma_serialize_roundtrip(v);
    let d = decoded(encode(v));
    assert((ChunkView { modified: true, ..d }).blocks() =~= d.blocks());
}

/// The bytes of a metadata file: "VXTW", the version, and the seed, the two sizes
/// and the generator's version as numbers of eight, eight, eight and four bytes,
/// low byte first.
pub proof fn lemma_meta_layout(m: WorldMeta)
    requires
        m.shape.legal(),
    ensures
        ({
            let b = encode_meta(m);
            &&& b.len() == 33
            &&& b[0] == 0x56 && b[1] == 0x58 && b[2] == 0x54 && b[3] == 0x57 && b[4] == 2
            &&& eight_bytes(b, 5) == m.seed
            &&& eight_bytes(b, 13) == m.shape.sx()
            &&& eight_bytes(b, 21) == m.shape.sz()
            &&& four_bytes(b, 29) == m.generator_version
        }),
{
    lemma_meta_roundtrip(m, m);
    let b = encode_meta(m);
    reveal_with_fuel(le_bytes, 9);
    lemma_eight_bytes(b, 5);
    lemma_eight_bytes(b, 13);
    lemma_eight_bytes(b, 21);
    lemma_four_bytes(b, 29);
}

/// The number in four bytes from byte `at`, low byte first.
pub open spec fn four_bytes(b: Seq<u8>, at: int) -> int {
    b[at] + 0x100 * b[at + 1] + 0x1_0000 * b[at + 2] + 0x100_0000 * b[at + 3]
}

/// The number in eight bytes from byte `at`, low byte first.
pub open spec fn eight_bytes(b: Seq<u8>, at: int) -> int {
    four_bytes(b, at) + 0x1_0000_0000 * four_bytes(b, at + 4)
}

proof fn lemma_four_bytes(b: Seq<u8>, at: int)
    requires
        0 <= at,
        at + 4 <= b.len(),
    ensures
        le_value(b.subrange(at, at + 4)) == four_bytes(b, at),
{
    lemma_le_next(b, at, at + 4);
    lemma_le_next(b, at + 1, at + 4);
    lemma_le_next(b, at + 2, at + 4);
    lemma_le_next(b, at + 3, at + 4);
    assert(b.subrange(at + 4, at + 4) =~= Seq::empty());
}

proof fn lemma_eight_bytes(b: Seq<u8>, at: int)
    requires
        0 <= at,
        at + 8 <= b.len(),
    ensures
        le_value(b.subrange(at, at + 8)) == eight_bytes(b, at),
{
    lemma_le_next(b, at, at + 8);
    lemma_le_next(b, at + 1, at + 8);
    lemma_le_next(b, at + 2, at + 8);
    lemma_le_next(b, at + 3, at + 8);
    lemma_four_bytes(b, at + 4);
}

proof fn lemma_le_next(b: Seq<u8>, at: int, end: int)
    requires
        0 <= at < end <= b.len(),
    ensures
        le_value(b.subrange(at, end)) == b[at] + 256 * le_value(b.subrange(at + 1, end)),
{
    assert(b.subrange(at, end).skip(1) =~= b.subrange(at + 1, end));
}

/// What metadata bytes record, and why they are refused, by what is in them. A
/// file is accepted only if it has the length of the format, names the version and
/// records two legal sizes.
pub proof fn lemma_meta_refusals(b: Seq<u8>, m: WorldMeta)
    ensures
        b.len() < 5 ==> meta_error(b) == Some(StoreError::BadMeta),
        b.len() >= 5 && !(b[0] == 0x56 && b[1] == 0x58 && b[2] == 0x54 && b[3] == 0x57)
            <==> meta_error(b) == Some(StoreError::BadMetaMagic),
        meta_error(b) == Some(StoreError::LegacyWorld) ==> b[4] == 1,
        meta_error(b) matches Some(StoreError::UnsupportedMetaVersion(v)) ==> v == b[4] && v != 1
            && v != 2,
        meta_error(b) is None ==> b.len() == 33 && b[4] == 2 && size_error(meta_sizes(b).0) is None
            && size_error(meta_sizes(b).1) is None,
        meta_error(b) matches Some(StoreError::BadShape(e)) ==> size_error(meta_sizes(b).0) == Some(
            e,
        ) || size_error(meta_sizes(b).1) == Some(e),
        meta_error(b) is None && meta_records(b, m) ==> m.seed == eight_bytes(b, 5)
            && m.shape.sx() == eight_bytes(b, 13) && m.shape.sz() == eight_bytes(b, 21)
            && m.generator_version == four_bytes(b, 29),
{
    if b.len() >= 5 {
        let start = b.take(4);
        if b[0] == 0x56 && b[1] == 0x58 && b[2] == 0x54 && b[3] == 0x57 {
            assert(start =~= seq![0x56u8, 0x58u8, 0x54u8, 0x57u8]);
        } else {
            assert(start[0] == b[0] && start[1] == b[1] && start[2] == b[2] && start[3] == b[3]);
        }
    }
    if meta_error(b) is None {
        lemma_eight_bytes(b, 5);
        lemma_eight_bytes(b, 13);
        lemma_eight_bytes(b, 21);
        lemma_four_bytes(b, 29);
        lemma_le_bound(b.subrange(13, 21));
        lemma_le_bound(b.subrange(21, 29));
    }
}

/// A world made by another generator is refused with both versions named, the
/// saved one first.
pub proof fn lemma_mismatch_text(saved: u32, current: u32)
    ensures
        ({
            let t = (StoreError::GeneratorMismatch { saved, current }).text();
            let a = "this world was made by terrain generator v"@ + decimal(saved as int);
            let b = a + ", but this build generates v"@ + decimal(current as int);
            &&& t.len() >= b.len()
            &&& t.take(b.len() as int) == b
        }),
{
    let t = (StoreError::GeneratorMismatch { saved, current }).text();
    let b = "this world was made by terrain generator v"@ + decimal(saved as int)
        + ", but this build generates v"@ + decimal(current as int);
    assert(t.take(b.len() as int) =~= b);
}

/// A chunk's file is called "c.", its three coordinates in the order x, y, z with
/// dots between, and ".vxc".
pub proof fn lemma_file_name_form(p: ChunkPos)
    ensures
        ({
            let t = chunk_file(p);
            let start = "c."@ + decimal(p.x as int) + "."@;
            let end = "."@ + decimal(p.z as int) + ".vxc"@;
            let y = decimal(p.y as int);
            &&& t.len() == start.len() + y.len() + end.len()
            &&& t.take(start.len() as int) == start
            &&& t.subrange(start.len() as int, (start.len() + y.len()) as int) == y
            &&& t.skip((start.len() + y.len()) as int) == end
        }),
{
    let t = chunk_file(p);
    let start = "c."@ + decimal(p.x as int) + "."@;
    let end = "."@ + decimal(p.z as int) + ".vxc"@;
    let y = decimal(p.y as int);
    assert(t =~= start + y + end);
    assert(t.take(start.len() as int) =~= start);
    assert(t.subrange(start.len() as int, (start.len() + y.len()) as int) =~= y);
    assert(t.skip((start.len() + y.len()) as int) =~= end);
}

/// Sizes are stored as 64-bit numbers with their sign.
pub proof fn lemma_sizes_signed(b: Seq<u8>)
    requires
        b.len() >= 29,
    ensures
        ({
            let (x, z) = meta_sizes(b);
            &&& eight_bytes(b, 13) == x || eight_bytes(b, 13) == x + 0x1_0000_0000_0000_0000
            &&& eight_bytes(b, 21) == z || eight_bytes(b, 21) == z + 0x1_0000_0000_0000_0000
        }),
{
    lemma_eight_bytes(b, 13);
    lemma_eight_bytes(b, 21);
    lemma_le_bound(b.subrange(13, 21));
    lemma_le_bound(b.subrange(21, 29));
}

/// What a world is refused for is put in words, with what an inner error says.
pub proof fn lemma_store_errors_in_words(v: u8, e: WorldShapeError, c: ChunkDecodeError)
    ensures
        StoreError::BadMetaMagic.text() == "not a Voxterra world (bad metadata magic)"@,
        StoreError::BadMeta.text() == "corrupt world metadata"@,
        StoreError::UnsupportedMetaVersion(v).text() == "unsupported world metadata version "@
            + decimal(v as int),
        StoreError::BadShape(e).text() == "corrupt world metadata: "@ + e.text(),
        StoreError::Chunk(c).text() == "chunk decode error: "@ + c.text(),
{
}

} // verus!
