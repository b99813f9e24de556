//! Chunk block storage, palette-compressed.
//!
//! Each chunk stores a *palette* (the distinct [`BlockId`]s present) and a
//! packed index array mapping every voxel to a palette entry. Memory cost
//! scales with block-type *diversity*, not block-type count.
//!
//! - **Uniform fast path:** a chunk whose palette has one entry stores no
//!   index array. In a cubic-chunk world most chunks are uniform (sky or deep
//!   underground).
//! - **Bit widths divide 64**, so a packed value never straddles a word.
//!
//! Index order is [`LocalPos::index`] order, in memory and on disk.

use crate::block::BlockId;
use crate::coords::{LocalPos, CHUNK_VOLUME};
use crate::packed::{bits_for, is_width, width_capacity, Packed};
use crate::text::{append_decimal, decimal};
use vstd::prelude::*;
use vstd::set_lib::{lemma_int_range, lemma_len_subset, set_int_range};
use vstd::string::*;

verus! {

/// What a chunk holds, apart from how it is packed.
#[verifier::ext_equal]
pub struct ChunkView {
    /// Block types present, or once present.
    pub palette: Seq<BlockId>,
    /// The palette entry of each cell, in cell order.
    pub indices: Seq<int>,
    /// Whether the chunk differs from what generation gives for its place.
    pub modified: bool,
    /// One byte per cell where light storage is allocated.
    pub light: Option<Seq<u8>>,
}

/// The first place in `palette` that holds `block`, or its length if none does.
pub open spec fn slot_of(palette: Seq<BlockId>, block: BlockId) -> int
    decreases palette.len(),
{
    if palette.len() == 0 || palette[0] == block {
        0
    } else {
        1 + slot_of(palette.drop_first(), block)
    }
}

/// The entries of `palette` below `k` that some cell uses, in order.
pub open spec fn used_below(palette: Seq<BlockId>, indices: Seq<int>, k: int) -> Seq<BlockId>
    decreases k,
{
    if k <= 0 {
        Seq::empty()
    } else if indices.contains(k - 1) {
        used_below(palette, indices, k - 1).push(palette[k - 1])
    } else {
        used_below(palette, indices, k - 1)
    }
}

impl ChunkView {
    /// The block in cell `i`.
    pub open spec fn block(self, i: int) -> BlockId {
        self.palette[self.indices[i]]
    }

    /// The blocks of all cells.
    pub open spec fn blocks(self) -> Seq<BlockId> {
        Seq::new(CHUNK_VOLUME as nat, |i: int| self.block(i))
    }

    /// A single palette entry fills the chunk.
    pub open spec fn uniform(self) -> bool {
        self.palette.len() == 1
    }

    /// Block light of cell `i`.
    pub open spec fn block_level(self, i: int) -> int {
        match self.light {
            Some(a) => a[i] as int % 16,
            None => 0,
        }
    }

    /// Sky light of cell `i`.
    pub open spec fn sky_level(self, i: int) -> int {
        match self.light {
            Some(a) => a[i] as int / 16,
            None => 0,
        }
    }

    /// Every cell names a palette entry, and the two arrays have one entry per
    /// cell.
    pub open spec fn valid(self) -> bool {
        &&& self.palette.len() >= 1
        &&& self.indices.len() == CHUNK_VOLUME
        &&& forall|i: int|
            0 <= i < CHUNK_VOLUME ==> 0 <= #[trigger] self.indices[i] < self.palette.len()
        &&& (self.light matches Some(a) ==> a.len() == CHUNK_VOLUME)
    }

    /// A chunk filled with one block type.
    pub open spec fn of_block(block: BlockId) -> ChunkView {
        ChunkView {
            palette: seq![block],
            indices: Seq::new(CHUNK_VOLUME as nat, |i: int| 0int),
            modified: false,
            light: None,
        }
    }

    /// After writing `block` into cell `i`. Writing its own block to a uniform
    /// chunk changes nothing; any other write counts as an edit.
    pub open spec fn with_block(self, i: int, block: BlockId) -> ChunkView {
        if self.uniform() && self.palette[0] == block {
            self
        } else {
            let slot = slot_of(self.palette, block);
            ChunkView {
                palette: if slot < self.palette.len() {
                    self.palette
                } else {
                    self.palette.push(block)
                },
                indices: self.indices.update(i, slot),
                modified: true,
                light: self.light,
            }
        }
    }

    /// After dropping the palette entries that no cell uses.
    pub open spec fn compacted(self) -> ChunkView {
        if self.uniform() {
            self
        } else {
            ChunkView {
                palette: used_below(self.palette, self.indices, self.palette.len() as int),
                indices: Seq::new(
                    CHUNK_VOLUME as nat,
                    |i: int| used_below(self.palette, self.indices, self.indices[i]).len() as int,
                ),
                modified: self.modified,
                light: self.light,
            }
        }
    }

    /// As it is written to disk: a palette too long for its length to fit the
    /// format is compacted. No more entries than cells are in use, so that the
    /// length of a compacted one always fits.
    pub open spec fn stored(self) -> ChunkView {
        if self.palette.len() > 65535 {
            self.compacted()
        } else {
            self
        }
    }

    /// The light bytes, dark where none are allocated.
    pub open spec fn light_bytes(self) -> Seq<u8> {
        match self.light {
            Some(a) => a,
            None => Seq::new(CHUNK_VOLUME as nat, |i: int| 0u8),
        }
    }

    /// After writing `byte` as the light of cell `i`; a zero that leaves a
    /// dark chunk dark allocates nothing.
    pub open spec fn with_light_byte(self, i: int, byte: u8, level: u8) -> ChunkView {
        if self.light is None && level == 0 {
            self
        } else {
            ChunkView { light: Some(self.light_bytes().update(i, byte)), ..self }
        }
    }

    /// After setting the block light of cell `i`, clamped to 15.
    pub open spec fn with_block_light(self, i: int, level: u8) -> ChunkView {
        let l = if level > 15 {
            15
        } else {
            level as int
        };
        self.with_light_byte(i, (self.sky_level(i) * 16 + l) as u8, level)
    }

    /// After setting the sky light of cell `i`, clamped to 15.
    pub open spec fn with_sky_light(self, i: int, level: u8) -> ChunkView {
        let l = if level > 15 {
            15
        } else {
            level as int
        };
        self.with_light_byte(i, (l * 16 + self.block_level(i)) as u8, level)
    }
}

/// On-disk chunk format version, written first after the magic.
pub const CHUNK_FORMAT_VERSION: u8 = 1;

/// Why a chunk failed to deserialize.
#[derive(Debug, Clone, Copy, PartialEq, Eq, Structural)]
pub enum ChunkDecodeError {
    /// Input ended before the format expected.
    Truncated,
    /// Magic bytes did not match: not a Voxterra chunk.
    BadMagic,
    /// Format version not understood.
    UnsupportedVersion(u8),
    /// Palette claimed zero entries (the least is 1).
    EmptyPalette,
    /// A stored index pointed outside the palette.
    IndexOutOfRange,
}

impl ChunkDecodeError {
    /// The words of the error.
    pub open spec fn text(self) -> Seq<char> {
        match self {
            ChunkDecodeError::Truncated => "chunk data truncated"@,
            ChunkDecodeError::BadMagic => "bad chunk magic (not a Voxterra chunk)"@,
            ChunkDecodeError::UnsupportedVersion(v) => "unsupported chunk format version "@
                + decimal(v as int),
            ChunkDecodeError::EmptyPalette => "chunk palette is empty"@,
            ChunkDecodeError::IndexOutOfRange => "chunk index out of palette range"@,
        }
    }

    /// The error in words.
    pub fn message(&self) -> (r: String)
        ensures
            r@ == self.text(),
    {
        let mut out = String::new();
        match self {
            ChunkDecodeError::Truncated => out.append("chunk data truncated"),
            ChunkDecodeError::BadMagic => out.append("bad chunk magic (not a Voxterra chunk)"),
            ChunkDecodeError::UnsupportedVersion(v) => {
                out.append("unsupported chunk format version ");
                append_decimal(&mut out, *v as i64);
            },
            ChunkDecodeError::EmptyPalette => out.append("chunk palette is empty"),
            ChunkDecodeError::IndexOutOfRange => out.append("chunk index out of palette range"),
        }
        assert(out@ =~= self.text());
        out
    }
}

/// Numbers written as two bytes each, low byte first, reduced to 16 bits.
pub open spec fn words_of(values: Seq<int>) -> Seq<u8> {
    Seq::new(
        2 * values.len(),
        |i: int|
            if i % 2 == 0 {
                (values[i / 2] % 256) as u8
            } else {
                (values[i / 2] / 256 % 256) as u8
            },
    )
}

/// The two-byte number, low byte first, at byte `at`.
pub open spec fn word_at(bytes: Seq<u8>, at: int) -> int {
    bytes[at] + 256 * bytes[at + 1]
}

/// Magic "VXTC", the version, and the palette's length.
pub open spec fn encode_header(n: int) -> Seq<u8> {
    seq![0x56u8, 0x58u8, 0x54u8, 0x43u8, CHUNK_FORMAT_VERSION] + words_of(seq![n])
}

/// One byte per index for a palette of up to 256 entries, else two.
pub open spec fn encode_indices(n: int, indices: Seq<int>) -> Seq<u8> {
    if n > 256 {
        words_of(indices)
    } else {
        Seq::new(indices.len(), |i: int| (indices[i] % 256) as u8)
    }
}

/// A palette and indices in the on-disk format: header, palette, and, unless
/// there is but one entry, one palette index per cell.
pub open spec fn encode_form(palette: Seq<BlockId>, indices: Seq<int>) -> Seq<u8> {
    let n = palette.len() as int;
    let head = encode_header(n) + words_of(palette.map_values(|b: BlockId| b.0 as int));
    if n == 1 {
        head
    } else {
        head + encode_indices(n, indices)
    }
}

/// The serialized form of a chunk. It holds the semantic content, not the
/// packing, the `modified` flag or the light.
pub open spec fn encode(v: ChunkView) -> Seq<u8> {
    encode_form(v.stored().palette, v.stored().indices)
}

/// Bytes per index.
pub open spec fn index_width(n: int) -> int {
    if n > 256 {
        2
    } else {
        1
    }
}

/// The bytes go far enough to hold the index of cell `i`.
pub open spec fn holds_index(bytes: Seq<u8>, n: int, i: int) -> bool {
    7 + 2 * n + i * index_width(n) + index_width(n) <= bytes.len()
}

/// The stored index of cell `i`, with a palette of `n` entries.
pub open spec fn index_at(bytes: Seq<u8>, n: int, i: int) -> int {
    let at = 7 + 2 * n + i * index_width(n);
    if n > 256 {
        word_at(bytes, at)
    } else {
        bytes[at] as int
    }
}

/// The bytes start with the magic and the version.
pub open spec fn past_header(bytes: Seq<u8>) -> bool {
    &&& bytes.len() >= 7
    &&& bytes.take(4) == seq![0x56u8, 0x58u8, 0x54u8, 0x43u8]
    &&& bytes[4] == CHUNK_FORMAT_VERSION
}

/// What keeps `bytes` from being a serialized chunk, if anything. The stored
/// indices are read in order: one out of range is reported before the input
/// runs out. Bytes after the last index are ignored.
pub open spec fn decode_error(bytes: Seq<u8>) -> Option<ChunkDecodeError> {
    let len = bytes.len();
    if len < 4 {
        Some(ChunkDecodeError::Truncated)
    } else if bytes.take(4) != seq![0x56u8, 0x58u8, 0x54u8, 0x43u8] {
        Some(ChunkDecodeError::BadMagic)
    } else if len < 5 {
        Some(ChunkDecodeError::Truncated)
    } else if bytes[4] != CHUNK_FORMAT_VERSION {
        Some(ChunkDecodeError::UnsupportedVersion(bytes[4]))
    } else if len < 7 {
        Some(ChunkDecodeError::Truncated)
    } else {
        let n = word_at(bytes, 5);
        if n == 0 {
            Some(ChunkDecodeError::EmptyPalette)
        } else if len < 7 + 2 * n {
            Some(ChunkDecodeError::Truncated)
        } else if n == 1 {
            None
        } else if exists|i: int|
            0 <= i < CHUNK_VOLUME && holds_index(bytes, n, i) && #[trigger] index_at(bytes, n, i)
                >= n {
            Some(ChunkDecodeError::IndexOutOfRange)
        } else if len < 7 + 2 * n + CHUNK_VOLUME * index_width(n) {
            Some(ChunkDecodeError::Truncated)
        } else {
            None
        }
    }
}

/// The chunk that well-formed bytes stand for: unmodified and dark.
pub open spec fn decoded(bytes: Seq<u8>) -> ChunkView {
    let n = word_at(bytes, 5);
    ChunkView {
        palette: Seq::new(n as nat, |i: int| BlockId(word_at(bytes, 7 + 2 * i) as u16)),
        indices: Seq::new(
            CHUNK_VOLUME as nat,
            |i: int|
                if n == 1 {
                    0
                } else {
                    index_at(bytes, n, i)
                },
        ),
        modified: false,
        light: None,
    }
}

proof fn lemma_words_push(values: Seq<int>, v: int)
    ensures
        words_of(values.push(v)) == words_of(values).push((v % 256) as u8).push(
            (v / 256 % 256) as u8,
        ),
{
    assert(words_of(values.push(v)) =~= words_of(values).push((v % 256) as u8).push(
        (v / 256 % 256) as u8,
    ));
}

fn push_word(out: &mut Vec<u8>, v: usize)
    ensures
        final(out)@ == old(out)@ + words_of(seq![v as int]),
{
    out.push((v % 256) as u8);
    out.push((v / 256 % 256) as u8);
    assert(out@ =~= old(out)@ + words_of(seq![v as int]));
}

fn read_word(bytes: &[u8], at: usize) -> (r: usize)
    requires
        at + 1 < bytes.len(),
    ensures
        r == word_at(bytes@, at as int),
        r <= 65535,
{
    bytes[at] as usize + 256 * bytes[at + 1] as usize
}

proof fn lemma_index_encoded(v: ChunkView, i: int)
    requires
        v.valid(),
        1 < v.palette.len() <= 65535,
        0 <= i < CHUNK_VOLUME,
    ensures
        index_at(encode_form(v.palette, v.indices), v.palette.len() as int, i) == v.indices[i],
{
    let b = encode_form(v.palette, v.indices);
    let n = v.palette.len() as int;
    let ids = v.palette.map_values(|b: BlockId| b.0 as int);
    let head = encode_header(n) + words_of(ids);
    let tail = encode_indices(n, v.indices);
    assert(b == head + tail);
    assert(head.len() == 7 + 2 * n);
    assert(0 <= v.indices[i] < n);
    if n > 256 {
        assert(i * index_width(n) == 2 * i);
        assert(b[head.len() + 2 * i] == tail[2 * i]);
        assert(b[head.len() + 2 * i + 1] == tail[2 * i + 1]);
        assert(tail[2 * i] == (v.indices[i] % 256) as u8);
        assert(tail[2 * i + 1] == (v.indices[i] / 256 % 256) as u8);
    } else {
        assert(i * index_width(n) == i);
        assert(b[head.len() + i] == tail[i]);
    }
}

/// The on-disk format gives back a palette that fits it, and its indices.
proof fn lemma_form_roundtrip(v: ChunkView)
    requires
        v.valid(),
        v.palette.len() <= 65535,
    ensures
        decode_error(encode_form(v.palette, v.indices)) is None,
        decoded(encode_form(v.palette, v.indices)).palette == v.palette,
        decoded(encode_form(v.palette, v.indices)).indices == v.indices,
{
    let b = encode_form(v.palette, v.indices);
    let n = v.palette.len() as int;
    let ids = v.palette.map_values(|b: BlockId| b.0 as int);
    assert(b.take(4) =~= seq![0x56u8, 0x58u8, 0x54u8, 0x43u8]);
    assert(word_at(b, 5) == n) by {
        assert(b[5] == words_of(seq![n])[0]);
        assert(b[6] == words_of(seq![n])[1]);
    }
    let d = decoded(b);
    assert forall|i: int| 0 <= i < n implies #[trigger] d.palette[i] == v.palette[i] by {
        assert(b[7 + 2 * i] == words_of(ids)[2 * i]);
        assert(b[7 + 2 * i + 1] == words_of(ids)[2 * i + 1]);
    }
    assert(d.palette =~= v.palette);
    assert forall|i: int| 0 <= i < CHUNK_VOLUME implies #[trigger] d.indices[i] == v.indices[i]
        && (n > 1 ==> index_at(b, n, i) < n) by {
        assert(0 <= v.indices[i] < n);
        if n > 1 {
            lemma_index_encoded(v, i);
        }
    }
    assert(d.indices =~= v.indices);
    assert forall|i: int| 0 <= i < CHUNK_VOLUME && n > 1 implies index_at(b, n, i) < n by {
        assert(d.indices[i] == v.indices[i]);
    }
}

/// Every serialized chunk decodes, to the same blocks, and back to the same
/// bytes. Palette and indices survive as they are written.
pub proof fn lemma_serialize_roundtrip(v: ChunkView)
    requires
        v.valid(),
    ensures
        decode_error(encode(v)) is None,
        decoded(encode(v)).palette == v.stored().palette,
        decoded(encode(v)).indices == v.stored().indices,
        decoded(encode(v)).blocks() == v.blocks(),
        v.palette.no_duplicates() ==> decoded(encode(v)).palette.no_duplicates(),
        encode(decoded(encode(v))) == encode(v),
{
    lemma_compacted(v);
    lemma_stored_fits(v);
    lemma_form_roundtrip(v.stored());
    let d = decoded(encode(v));
    assert(d.blocks() =~= v.stored().blocks());
    assert(v.stored().blocks() =~= v.blocks());
}

/// What is written to disk is well formed, and its palette fits the format.
proof fn lemma_stored_fits(v: ChunkView)
    requires
        v.valid(),
    ensures
        v.stored().valid(),
        v.stored().palette.len() <= 65535,
        v.palette.len() > 65535 ==> v.compacted().palette.len() <= CHUNK_VOLUME,
{
    if v.palette.len() > 65535 {
        let c = v.compacted();
        lemma_compacted(v);
        let n = c.palette.len() as int;
        lemma_int_range(0, n);
        assert(set_int_range(0, n).subset_of(c.indices.to_set())) by {
            assert forall|k: int| set_int_range(0, n).contains(k) implies #[trigger]
            c.indices.to_set().contains(k) by {
                assert(c.indices.contains(k));
            }
        }
        c.indices.lemma_cardinality_of_set();
        lemma_len_subset(set_int_range(0, n), c.indices.to_set());
    }
}

/// Block storage for one chunk.
pub struct Chunk {
    /// Never empty; exactly one entry in the uniform case.
    palette: Vec<BlockId>,
    /// Packed per-voxel palette indices; `None` iff the chunk is uniform.
    indices: Option<Packed>,
    /// Whether this chunk has been edited since generation, now or before it
    /// was last saved. Runtime state, not serialized.
    modified: bool,
    /// Per-voxel light, one byte each: high nibble sky, low nibble block.
    /// `None` means fully dark. Derived from blocks, not serialized.
    light: Option<Vec<u8>>,
}

/// From the entry 65535 on, a palette holds no block twice.
spec fn tail_distinct(palette: Seq<BlockId>) -> bool {
    forall|i: int, j: int|
        65535 <= i < j < palette.len() ==> #[trigger] palette[i] != #[trigger] palette[j]
}

proof fn lemma_palette_bound(palette: Seq<BlockId>)
    requires
        tail_distinct(palette),
    ensures
        palette.len() <= 131071,
{
    if palette.len() > 65535 {
        let tail = palette.skip(65535).map_values(|b: BlockId| b.0 as int);
        assert(tail.no_duplicates()) by {
            assert forall|i: int, j: int| 0 <= i < tail.len() && 0 <= j < tail.len() && i
                != j implies tail[i] != tail[j] by {
                if i < j {
                    assert(palette[i + 65535] != palette[j + 65535]);
                } else {
                    assert(palette[j + 65535] != palette[i + 65535]);
                }
            }
        }
        tail.unique_seq_to_set();
        lemma_int_range(0, 65536);
        assert(tail.to_set().subset_of(set_int_range(0, 65536)));
        lemma_len_subset(tail.to_set(), set_int_range(0, 65536));
    }
}

proof fn lemma_slot_of(palette: Seq<BlockId>, block: BlockId)
    ensures
        0 <= slot_of(palette, block) <= palette.len(),
        slot_of(palette, block) < palette.len() ==> palette[slot_of(palette, block)] == block,
        forall|j: int| 0 <= j < slot_of(palette, block) ==> palette[j] != block,
    decreases palette.len(),
{
    if palette.len() == 0 || palette[0] == block {
    } else {
        lemma_slot_of(palette.drop_first(), block);
        assert forall|j: int| 0 <= j < slot_of(palette, block) implies palette[j] != block by {
            if j > 0 {
                assert(palette.drop_first()[j - 1] == palette[j]);
            }
        }
    }
}

proof fn lemma_slot_is(palette: Seq<BlockId>, block: BlockId, s: int)
    requires
        0 <= s <= palette.len(),
        s < palette.len() ==> palette[s] == block,
        forall|j: int| 0 <= j < s ==> palette[j] != block,
    ensures
        slot_of(palette, block) == s,
{
    lemma_slot_of(palette, block);
}

/// A used entry stands, among the used entries, at the count of those before it.
proof fn lemma_used_rank(palette: Seq<BlockId>, indices: Seq<int>, k: int, n: int)
    requires
        0 <= k < n,
        indices.contains(k),
    ensures
        used_below(palette, indices, k).len() < used_below(palette, indices, n).len(),
        used_below(palette, indices, n)[used_below(palette, indices, k).len() as int]
            == palette[k],
    decreases n,
{
    if n - 1 != k {
        lemma_used_rank(palette, indices, k, n - 1);
    }
}

/// Where the `i`-th used entry comes from.
proof fn lemma_used_source(palette: Seq<BlockId>, indices: Seq<int>, n: int, i: int) -> (a: int)
    requires
        0 <= i < used_below(palette, indices, n).len(),
    ensures
        i <= a < n,
        indices.contains(a),
        used_below(palette, indices, a).len() == i,
        used_below(palette, indices, n)[i] == palette[a],
    decreases n,
{
    if indices.contains(n - 1) {
        if i == used_below(palette, indices, n - 1).len() {
            lemma_used_len(palette, indices, n - 1);
            n - 1
        } else {
            lemma_used_source(palette, indices, n - 1, i)
        }
    } else {
        lemma_used_source(palette, indices, n - 1, i)
    }
}

proof fn lemma_used_len(palette: Seq<BlockId>, indices: Seq<int>, n: int)
    requires
        0 <= n,
    ensures
        used_below(palette, indices, n).len() <= n,
    decreases n,
{
    if n > 0 {
        lemma_used_len(palette, indices, n - 1);
    }
}

proof fn lemma_used_tail(palette: Seq<BlockId>, indices: Seq<int>)
    requires
        tail_distinct(palette),
    ensures
        tail_distinct(used_below(palette, indices, palette.len() as int)),
{
    let n = palette.len() as int;
    let u = used_below(palette, indices, n);
    assert forall|i: int, j: int| 65535 <= i < j < u.len() implies #[trigger] u[i]
        != #[trigger] u[j] by {
        let a = lemma_used_source(palette, indices, n, i);
        let b = lemma_used_source(palette, indices, n, j);
        assert(a != b);
        if a < b {
            assert(palette[a] != palette[b]);
        } else {
            assert(palette[b] != palette[a]);
        }
    }
}

/// Compacting a chunk keeps the block of every cell and leaves no palette
/// entry unused.
pub proof fn lemma_compacted(v: ChunkView)
    requires
        v.valid(),
    ensures
        v.compacted().valid(),
        v.compacted().blocks() == v.blocks(),
        v.compacted().palette.len() <= v.palette.len(),
        forall|k: int|
            0 <= k < v.compacted().palette.len() ==> #[trigger] v.compacted().indices.contains(k),
        v.compacted().palette.to_set() == v.blocks().to_set(),
        v.palette.no_duplicates() ==> v.compacted().palette.no_duplicates(),
{
    let c = v.compacted();
    let n = v.palette.len() as int;
    if v.palette.no_duplicates() && !v.uniform() {
        assert forall|i: int, j: int| 0 <= i < c.palette.len() && 0 <= j < c.palette.len() && i
            != j implies c.palette[i] != c.palette[j] by {
            let a = lemma_used_source(v.palette, v.indices, n, i);
            let b = lemma_used_source(v.palette, v.indices, n, j);
            assert(v.palette[a] != v.palette[b]);
        }
    }
    if !v.uniform() {
        lemma_used_len(v.palette, v.indices, n);
        assert forall|i: int| 0 <= i < CHUNK_VOLUME implies 0 <= #[trigger] c.indices[i]
            < c.palette.len() && c.block(i) == v.block(i) by {
            assert(v.indices.contains(v.indices[i]));
            lemma_used_rank(v.palette, v.indices, v.indices[i], n);
        }
        assert(0 <= c.indices[0] < c.palette.len());
        assert forall|k: int| 0 <= k < c.palette.len() implies #[trigger] c.indices.contains(k) by {
            let a = lemma_used_source(v.palette, v.indices, n, k);
            let j = choose|j: int| 0 <= j < v.indices.len() && v.indices[j] == a;
            assert(c.indices[j] == k);
        }
    } else {
        assert(c.indices[0] == 0);
    }
    assert(c.blocks() =~= v.blocks());
    assert(c.palette.to_set() =~= v.blocks().to_set()) by {
        assert forall|b: BlockId| #[trigger] c.palette.to_set().contains(b)
            == v.blocks().to_set().contains(b) by {
            if c.palette.contains(b) {
                let k = c.palette.index_of(b);
                assert(c.indices.contains(k));
                let j = c.indices.index_of(k);
                assert(c.blocks()[j] == b);
                assert(v.blocks().contains(b));
            }
            if v.blocks().contains(b) {
                let j = v.blocks().index_of(b);
                assert(c.blocks()[j] == b);
                assert(0 <= c.indices[j] < c.palette.len());
                assert(c.palette[c.indices[j]] == b);
                assert(c.palette.contains(b));
            }
        }
    }
}

/// A palette that lists no block twice has at most one entry per block id.
pub proof fn lemma_distinct_palette(palette: Seq<BlockId>)
    requires
        palette.no_duplicates(),
    ensures
        palette.len() <= 65536,
{
    let ids = palette.map_values(|b: BlockId| b.0 as int);
    assert(ids.no_duplicates());
    ids.unique_seq_to_set();
    lemma_int_range(0, 65536);
    assert(ids.to_set().subset_of(set_int_range(0, 65536)));
    lemma_len_subset(ids.to_set(), set_int_range(0, 65536));
}

/// A chunk that holds one block everywhere compacts to a uniform chunk, if its
/// palette lists no block twice.
pub proof fn lemma_compact_recovers_uniform(v: ChunkView, block: BlockId)
    requires
        v.valid(),
        v.palette.no_duplicates(),
        forall|i: int| 0 <= i < CHUNK_VOLUME ==> #[trigger] v.block(i) == block,
    ensures
        v.compacted().uniform(),
        v.compacted().palette[0] == block,
{
    let c = v.compacted();
    lemma_compacted(v);
    assert(v.block(0) == block);
    if !v.uniform() {
        let n = v.palette.len() as int;
        let k = v.indices[0];
        assert forall|i: int| 0 <= i < CHUNK_VOLUME implies #[trigger] v.indices[i] == k by {
            assert(v.block(i) == block && v.block(0) == block);
        }
        if c.palette.len() > 1 {
            let a = lemma_used_source(v.palette, v.indices, n, 0);
            let b = lemma_used_source(v.palette, v.indices, n, 1);
            assert(a == k && b == k);
        }
        assert(v.indices.contains(k));
        lemma_used_rank(v.palette, v.indices, k, n);
    }
}

/// Writing a block changes its own cell and no other, and a palette that lists
/// no block twice stays so.
pub proof fn lemma_with_block(v: ChunkView, i: int, block: BlockId)
    requires
        v.valid(),
        0 <= i < CHUNK_VOLUME,
    ensures
        v.with_block(i, block).valid(),
        v.with_block(i, block).blocks() == v.blocks().update(i, block),
        v.palette.no_duplicates() ==> v.with_block(i, block).palette.no_duplicates(),
{
    lemma_slot_of(v.palette, block);
    let w = v.with_block(i, block);
    if v.uniform() && v.palette[0] == block {
        assert(v.indices[i] == 0);
    }
    assert(w.blocks() =~= v.blocks().update(i, block));
}

/// Decoding accepts only bytes that stand for a well-formed chunk.
pub proof fn lemma_decoded_valid(bytes: Seq<u8>)
    requires
        decode_error(bytes) is None,
    ensures
        decoded(bytes).valid(),
{
    let n = word_at(bytes, 5);
    assert forall|i: int| 0 <= i < CHUNK_VOLUME && n > 1 implies index_at(bytes, n, i) < n by {
        assert(holds_index(bytes, n, i)) by {
            assert(i * index_width(n) + index_width(n) <= CHUNK_VOLUME * index_width(n))
                by (nonlinear_arith)
                requires
                    i + 1 <= CHUNK_VOLUME,
                    index_width(n) >= 0,
            ;
        }
    }
}

proof fn lemma_nibbles(b: u8, l: u8)
    requires
        l < 16,
    ensures
        b & 0x0F == b as int % 16,
        (b >> 4) & 0x0F == b as int / 16,
        (b & 0xF0) | l == (b as int / 16) * 16 + l,
        (b & 0x0F) | (l << 4) == l * 16 + b as int % 16,
        ((b & 0xF0) | l) / 16 == b / 16,
        ((b & 0x0F) | (l << 4)) % 16 == b % 16,
{
    assert(b & 0x0F == b % 16 && (b >> 4) & 0x0F == b / 16 && (b & 0xF0) | l == (b / 16) * 16 + l
        && (b & 0x0F) | (l << 4) == l * 16 + b % 16) by (bit_vector)
        requires
            l < 16,
    ;
}

impl Chunk {
    #[verifier::type_invariant]
    spec fn inv(self) -> bool {
        &&& self@.valid()
        &&& tail_distinct(self.palette@)
        &&& (self.indices is None <==> self.palette.len() == 1)
        &&& (self.indices matches Some(p) ==> self.palette.len() <= width_capacity(p.width())
            && is_width(p.width()))
    }

    /// A chunk uniformly filled with one block type.
    pub fn filled(block: BlockId) -> (r: Self)
        ensures
            r@ == ChunkView::of_block(block),
            forall|i: int| 0 <= i < CHUNK_VOLUME ==> r@.block(i) == block,
    {
        let palette: Vec<BlockId> = vec![block];
        let r = Chunk { palette, indices: None, modified: false, light: None };
        assert(r@ =~= ChunkView::of_block(block));
        r
    }

    /// An all-air chunk.
    pub fn new_air() -> (r: Self)
        ensures
            r@ == ChunkView::of_block(BlockId(0)),
    {
        Self::filled(BlockId::air())
    }

    /// The block at `pos`.
    #[inline]
    pub fn get(&self, pos: LocalPos) -> (r: BlockId)
        ensures
            r == self@.block(pos.idx()),
            pos.wf(),
            self@.valid(),
    {
        proof {
            use_type_invariant(self);
        }
        let i: usize = pos.index();
        match &self.indices {
            None => {
                assert(self@.indices[i as int] == 0);
                self.palette[0]
            },
            Some(packed) => {
                let k: usize = packed.get(i) as usize;
                assert(self@.indices[i as int] == k);
                self.palette[k]
            },
        }
    }

    /// Writes `block` at `pos`.
    pub fn set(&mut self, pos: LocalPos, block: BlockId)
        ensures
            final(self)@ == old(self)@.with_block(pos.idx(), block),
            final(self)@.blocks() == old(self)@.blocks().update(pos.idx(), block),
            forall|i: int|
                0 <= i < CHUNK_VOLUME ==> #[trigger] final(self)@.block(i) == (if i == pos.idx() {
                    block
                } else {
                    old(self)@.block(i)
                }),
    {
        proof {
            use_type_invariant(&*self);
            use_type_invariant(&pos);
            lemma_palette_bound(self.palette@);
            lemma_slot_of(self.palette@, block);
        }
        let ghost before = self@;
        if self.indices.is_none() && block == self.palette[0] {
            assert(before.blocks().update(pos.idx(), block) =~= before.blocks());
            return;
        }
        self.modified = true;
        let slot: usize = self.find_slot(block);
        let i: usize = pos.index();
        if slot == self.palette.len() {
            if self.indices.is_none() {
                let first = self.palette[0];
                let mut packed = Packed::new(1);
                packed.set(i, 1);
                let palette: Vec<BlockId> = vec![first, block];
                let mut light: Option<Vec<u8>> = None;
                core::mem::swap(&mut self.light, &mut light);
                *self = Chunk { palette, indices: Some(packed), modified: true, light };
                assert(self@.palette =~= before.palette.push(block));
            } else {
                let bits: u32 = bits_for(slot + 1);
                self.widen(bits);
                let mut grown = Chunk::filled(block);
                core::mem::swap(self, &mut grown);
                proof {
                    use_type_invariant(&grown);
                }
                let Chunk { mut palette, indices, modified, light } = grown;
                palette.push(block);
                *self = Chunk { palette, indices, modified, light };
                self.write_index(i, slot);
            }
        } else {
            self.write_index(i, slot);
        }
        assert(self@ =~= before.with_block(pos.idx(), block));
        assert(self@.blocks() =~= before.blocks().update(pos.idx(), block));
    }

    /// Makes the packed array at least `bits` wide, keeping its values.
    fn widen(&mut self, bits: u32)
        requires
            is_width(bits),
            !old(self)@.uniform(),
        ensures
            final(self)@ == old(self)@,
            final(self).room() >= width_capacity(bits),
    {
        proof {
            use_type_invariant(&*self);
        }
        if let Some(packed) = &self.indices {
            if packed.bits() < bits {
                let widened = packed.repacked(bits);
                self.indices = Some(widened);
            }
        }
    }

    /// How many palette entries the packed array can tell apart.
    closed spec fn room(self) -> int {
        match self.indices {
            Some(p) => width_capacity(p.width()),
            None => 1,
        }
    }

    /// Sets the palette entry of cell `i`.
    fn write_index(&mut self, i: usize, slot: usize)
        requires
            i < CHUNK_VOLUME,
            slot < old(self)@.palette.len(),
            !old(self)@.uniform(),
        ensures
            final(self)@ == (ChunkView {
                indices: old(self)@.indices.update(i as int, slot as int),
                ..old(self)@
            }),
    {
        proof {
            use_type_invariant(&*self);
        }
        write_slot(&mut self.indices, i, slot as u64);
    }

    /// True if every block in the chunk is air.
    pub fn is_all_air(&self) -> (r: bool)
        ensures
            r == (forall|i: int| 0 <= i < CHUNK_VOLUME ==> (#[trigger] self@.block(i)).0 == 0),
    {
        proof {
            use_type_invariant(self);
        }
        match &self.indices {
            None => {
                assert(self@.block(0) == self.palette[0]);
                self.palette[0].is_air()
            },
            Some(packed) => {
                let mut i: usize = 0;
                while i < CHUNK_VOLUME
                    invariant
                        i <= CHUNK_VOLUME,
                        self.indices == Some(*packed),
                        self@.valid(),
                        forall|j: int| 0 <= j < i ==> (#[trigger] self@.block(j)).0 == 0,
                    decreases CHUNK_VOLUME - i,
                {
                    let k: usize = packed.get(i) as usize;
                    assert(self@.indices[i as int] == k);
                    assert(self@.block(i as int) == self.palette[k as int]);
                    if !self.palette[k].is_air() {
                        return false;
                    }
                    i += 1;
                }
                true
            },
        }
    }

    /// True if the chunk stores a single block type with no index array.
    pub fn is_uniform(&self) -> (r: bool)
        ensures
            r == self@.uniform(),
            r ==> forall|i: int|
                0 <= i < CHUNK_VOLUME ==> #[trigger] self@.block(i) == self@.palette[0],
    {
        proof {
            use_type_invariant(self);
        }
        self.indices.is_none()
    }

    /// Whether this chunk has been edited since generation (or loaded from
    /// disk). Only modified chunks need saving.
    pub fn is_modified(&self) -> (r: bool)
        ensures
            r == self@.modified,
    {
        self.modified
    }

    /// Mark this chunk as modified (must be persisted).
    pub fn mark_modified(&mut self)
        ensures
            final(self)@ == (ChunkView { modified: true, ..old(self)@ }),
    {
        proof {
            use_type_invariant(&*self);
        }
        self.modified = true;
    }

    /// Mark this chunk as matching generation (need not be persisted).
    pub fn mark_unmodified(&mut self)
        ensures
            final(self)@ == (ChunkView { modified: false, ..old(self)@ }),
    {
        proof {
            use_type_invariant(&*self);
        }
        self.modified = false;
    }

    /// Block-light level (0..=15) at `pos`; 0 when no light is allocated.
    #[inline]
    pub fn block_light(&self, pos: LocalPos) -> (r: u8)
        ensures
            r == self@.block_level(pos.idx()),
            r <= 15,
    {
        proof {
            use_type_invariant(self);
        }
        match &self.light {
            Some(arr) => {
                let i: usize = pos.index();
                proof {
                    lemma_nibbles(arr[i as int], 0);
                }
                arr[i] & 0x0F
            },
            None => 0,
        }
    }

    /// Set the block-light level (clamped to 0..=15) at `pos`, preserving the
    /// sky nibble. Allocates the light array on the first nonzero write.
    pub fn set_block_light(&mut self, pos: LocalPos, level: u8)
        ensures
            final(self)@ == old(self)@.with_block_light(pos.idx(), level),
            forall|i: int|
                0 <= i < CHUNK_VOLUME ==> #[trigger] final(self)@.block_level(i) == (if i
                    == pos.idx() {
                    if level > 15 {
                        15
                    } else {
                        level as int
                    }
                } else {
                    old(self)@.block_level(i)
                }),
            forall|i: int|
                0 <= i < CHUNK_VOLUME ==> #[trigger] final(self)@.sky_level(i)
                    == old(self)@.sky_level(i),
    {
        proof {
            use_type_invariant(&*self);
        }
        let ghost before = self@;
        let low: u8 = if level > 15 {
            15
        } else {
            level
        };
        let i: usize = pos.index();
        if self.light.is_none() && low == 0 {
            return;
        }
        let byte: u8 = self.light_byte(i);
        proof {
            lemma_nibbles(byte, low);
        }
        self.write_light((byte & 0xF0) | low, i);
        assert(self@ =~= before.with_block_light(pos.idx(), level));
    }

    /// Sky-light level (0..=15) at `pos`; 0 when no light is allocated. Cells
    /// open to the sky are given 15 by the relight pass.
    #[inline]
    pub fn sky_light(&self, pos: LocalPos) -> (r: u8)
        ensures
            r == self@.sky_level(pos.idx()),
            r <= 15,
    {
        proof {
            use_type_invariant(self);
        }
        match &self.light {
            Some(arr) => {
                let i: usize = pos.index();
                proof {
                    lemma_nibbles(arr[i as int], 0);
                }
                (arr[i] >> 4) & 0x0F
            },
            None => 0,
        }
    }

    /// Set the sky-light level (clamped to 0..=15) at `pos`, preserving the
    /// block-light nibble. Allocates the light array on the first nonzero
    /// write.
    pub fn set_sky_light(&mut self, pos: LocalPos, level: u8)
        ensures
            final(self)@ == old(self)@.with_sky_light(pos.idx(), level),
            forall|i: int|
                0 <= i < CHUNK_VOLUME ==> #[trigger] final(self)@.sky_level(i) == (if i
                    == pos.idx() {
                    if level > 15 {
                        15
                    } else {
                        level as int
                    }
                } else {
                    old(self)@.sky_level(i)
                }),
            forall|i: int|
                0 <= i < CHUNK_VOLUME ==> #[trigger] final(self)@.block_level(i)
                    == old(self)@.block_level(i),
    {
        proof {
            use_type_invariant(&*self);
        }
        let ghost before = self@;
        let low: u8 = if level > 15 {
            15
        } else {
            level
        };
        let i: usize = pos.index();
        if self.light.is_none() && low == 0 {
            return;
        }
        let byte: u8 = self.light_byte(i);
        proof {
            lemma_nibbles(byte, low);
        }
        self.write_light((byte & 0x0F) | (low << 4), i);
        assert(self@ =~= before.with_sky_light(pos.idx(), level));
    }

    /// The light byte of cell `i`.
    #[inline]
    pub(crate) fn light_byte(&self, i: usize) -> (r: u8)
        requires
            i < CHUNK_VOLUME,
        ensures
            r == self@.light_bytes()[i as int],
            r as int / 16 == self@.sky_level(i as int),
            r as int % 16 == self@.block_level(i as int),
    {
        proof {
            use_type_invariant(self);
        }
        match &self.light {
            Some(arr) => arr[i],
            None => 0,
        }
    }

    /// Stores the light byte of cell `i`, allocating the array if needed.
    fn write_light(&mut self, byte: u8, i: usize)
        requires
            i < CHUNK_VOLUME,
        ensures
            final(self)@ == (ChunkView {
                light: Some(old(self)@.light_bytes().update(i as int, byte)),
                ..old(self)@
            }),
    {
        proof {
            use_type_invariant(&*self);
        }
        if self.light.is_none() {
            let dark: Vec<u8> = vec![0; CHUNK_VOLUME];
            assert(dark@ =~= self@.light_bytes());
            self.light = Some(dark);
        }
        write_byte(&mut self.light, i, byte);
    }

    /// Replaces the whole light array.
    pub(crate) fn replace_light(&mut self, light: Option<Vec<u8>>)
        requires
            light matches Some(a) ==> a.len() == CHUNK_VOLUME,
        ensures
            final(self)@ == (ChunkView {
                light: match light {
                    Some(a) => Some(a@),
                    None => None,
                },
                ..old(self)@
            }),
    {
        proof {
            use_type_invariant(&*self);
        }
        self.light = light;
    }

    /// Whether any light storage is allocated. A `false` result guarantees
    /// that the chunk is fully dark, in both channels.
    #[inline]
    pub fn has_light(&self) -> (r: bool)
        ensures
            r == (self@.light is Some),
            !r ==> forall|i: int|
                #![trigger self@.block_level(i)]
                #![trigger self@.sky_level(i)]
                self@.block_level(i) == 0 && self@.sky_level(i) == 0,
    {
        self.light.is_some()
    }

    /// Clear all light back to dark, releasing the storage.
    pub fn clear_light(&mut self)
        ensures
            final(self)@ == (ChunkView { light: None, ..old(self)@ }),
    {
        proof {
            use_type_invariant(&*self);
        }
        self.light = None;
    }

    /// Number of palette entries. After overwrites this can count entries no
    /// longer used by any voxel; see [`Chunk::compact`].
    pub fn palette_len(&self) -> (r: usize)
        ensures
            r == self@.palette.len(),
            1 <= r <= 131071,
            self@.palette.no_duplicates() ==> r <= 65536,
    {
        proof {
            use_type_invariant(self);
            lemma_palette_bound(self.palette@);
            if self.palette@.no_duplicates() {
                lemma_distinct_palette(self.palette@);
            }
        }
        self.palette.len()
    }

    /// The palette entries that some cell uses, and the indices into them; none
    /// if there is but one entry.
    fn gather(&self) -> (r: (Vec<BlockId>, Option<Packed>))
        ensures
            r.0@ == self@.compacted().palette,
            r.1 is None <==> r.0.len() == 1,
            index_seq(r.1) == self@.compacted().indices,
            r.1 matches Some(p) ==> r.0.len() <= width_capacity(p.width()) && is_width(p.width()),
            self@.compacted().valid(),
            tail_distinct(r.0@),
    {
        proof {
            use_type_invariant(self);
            lemma_palette_bound(self.palette@);
            lemma_compacted(self@);
        }
        let ghost before = self@;
        let n: usize = self.palette.len();
        let packed: &Packed = match &self.indices {
            Some(p) => p,
            None => {
                return (vec![self.palette[0]], None);
            },
        };
        assert(self@.indices =~= packed.values());

        let mut used: Vec<bool> = vec![false; n];
        let mut i: usize = 0;
        while i < CHUNK_VOLUME
            invariant
                i <= CHUNK_VOLUME,
                n == before.palette.len(),
                used.len() == n,
                before.valid(),
                before.indices == packed.values(),
                forall|k: int|
                    0 <= k < n ==> #[trigger] used[k] == (exists|j: int|
                        0 <= j < i && #[trigger] before.indices[j] == k),
            decreases CHUNK_VOLUME - i,
        {
            let k: usize = packed.get(i) as usize;
            let ghost was = used@;
            used[k] = true;
            assert forall|m: int| 0 <= m < n implies #[trigger] used[m] == (exists|j: int|
                0 <= j < i + 1 && #[trigger] before.indices[j] == m) by {
                if m == k {
                    assert(before.indices[i as int] == m);
                } else if was[m] {
                    let j = choose|j: int| 0 <= j < i && #[trigger] before.indices[j] == m;
                    assert(0 <= j < i + 1 && before.indices[j] == m);
                }
            }
            i += 1;
        }
        assert forall|k: int| 0 <= k < n implies #[trigger] used[k] == before.indices.contains(
            k,
        ) by {
            if used[k] {
                let j = choose|j: int| 0 <= j < i && #[trigger] before.indices[j] == k;
                assert(before.indices.contains(before.indices[j]));
            }
        }

        let mut remap: Vec<u64> = vec![0; n];
        let mut palette: Vec<BlockId> = Vec::new();
        let mut k: usize = 0;
        while k < n
            invariant
                k <= n,
                n == before.palette.len(),
                n <= 131071,
                self.palette@ == before.palette,
                used.len() == n,
                remap.len() == n,
                palette.len() <= k,
                forall|m: int| 0 <= m < n ==> #[trigger] used[m] == before.indices.contains(m),
                palette@ == used_below(before.palette, before.indices, k as int),
                forall|m: int|
                    0 <= m < k && before.indices.contains(m) ==> #[trigger] remap[m] == used_below(
                        before.palette,
                        before.indices,
                        m,
                    ).len(),
            decreases n - k,
        {
            if used[k] {
                remap[k] = palette.len() as u64;
                palette.push(self.palette[k]);
            }
            k += 1;
        }
        proof {
            lemma_compacted(before);
            lemma_used_tail(before.palette, before.indices);
            assert(before.indices.contains(before.indices[0]));
            lemma_used_rank(before.palette, before.indices, before.indices[0], n as int);
        }
        assert(before.compacted().palette == palette@);

        if palette.len() == 1 {
            assert(before.compacted().indices =~= index_seq(None)) by {
                assert forall|i: int| 0 <= i < CHUNK_VOLUME implies before.compacted().indices[i]
                    == 0 by {
                    assert(0 <= before.compacted().indices[i] < 1);
                }
            }
            return (palette, None);
        }
        let bits: u32 = bits_for(palette.len());
        let mut new_packed = Packed::new(bits);
        let mut i: usize = 0;
        while i < CHUNK_VOLUME
            invariant
                i <= CHUNK_VOLUME,
                n == before.palette.len(),
                remap.len() == n,
                before.valid(),
                before.indices == packed.values(),
                before.compacted().valid(),
                !before.uniform(),
                before.compacted().palette == palette@,
                palette.len() <= width_capacity(bits),
                new_packed.width() == bits,
                new_packed.values().len() == CHUNK_VOLUME,
                forall|m: int|
                    0 <= m < n && before.indices.contains(m) ==> #[trigger] remap[m] == used_below(
                        before.palette,
                        before.indices,
                        m,
                    ).len(),
                forall|j: int|
                    0 <= j < i ==> #[trigger] new_packed.values()[j]
                        == before.compacted().indices[j],
            decreases CHUNK_VOLUME - i,
        {
            let m: usize = packed.get(i) as usize;
            assert(before.indices.contains(before.indices[i as int]));
            assert(remap[m as int] == before.compacted().indices[i as int]);
            new_packed.set(i, remap[m]);
            i += 1;
        }
        assert(new_packed.values() =~= before.compacted().indices);
        (palette, Some(new_packed))
    }

    /// Drop unused palette entries and re-pack at the smallest bit width;
    /// collapses back to the uniform representation when one entry is left.
    ///
    /// Never called automatically: callers decide when the cost is worth
    /// paying (before serialization, say).
    pub fn compact(&mut self)
        ensures
            final(self)@ == old(self)@.compacted(),
            final(self)@.blocks() == old(self)@.blocks(),
            final(self)@.palette.len() <= old(self)@.palette.len(),
            forall|k: int|
                0 <= k < final(self)@.palette.len() ==> #[trigger] final(self)@.indices.contains(k),
            final(self)@.palette.to_set() == old(self)@.blocks().to_set(),
    {
        proof {
            use_type_invariant(&*self);
            lemma_compacted(self@);
        }
        let ghost before = self@;
        let (palette, indices) = self.gather();
        let mut light: Option<Vec<u8>> = None;
        core::mem::swap(&mut self.light, &mut light);
        *self = Chunk { palette, indices, modified: self.modified, light };
        assert(self@ =~= before.compacted());
    }

    /// Serialize this chunk to the versioned on-disk format (see [`encode`]).
    pub fn serialize(&self) -> (out: Vec<u8>)
        ensures
            out@ == encode(self@),
            decode_error(out@) is None,
            decoded(out@).blocks() == self@.blocks(),
    {
        proof {
            use_type_invariant(self);
            lemma_serialize_roundtrip(self@);
        }
        if self.palette.len() > 65535 {
            let (palette, indices) = self.gather();
            write_form(&palette, &indices)
        } else {
            assert(index_seq(self.indices) =~= self@.indices);
            write_form(&self.palette, &self.indices)
        }
    }

    /// Reconstruct a chunk from bytes produced by [`Chunk::serialize`].
    pub fn deserialize(bytes: &[u8]) -> (r: Result<Chunk, ChunkDecodeError>)
        ensures
            match r {
                Ok(c) => decode_error(bytes@) is None && c@ == decoded(bytes@),
                Err(e) => decode_error(bytes@) == Some(e),
            },
    {
        let len: usize = bytes.len();
        if len < 4 {
            return Err(ChunkDecodeError::Truncated);
        }
        if bytes[0] != 0x56 || bytes[1] != 0x58 || bytes[2] != 0x54 || bytes[3] != 0x43 {
            assert(bytes@.take(4)[0] == bytes[0] && bytes@.take(4)[1] == bytes[1]
                && bytes@.take(4)[2] == bytes[2] && bytes@.take(4)[3] == bytes[3]);
            return Err(ChunkDecodeError::BadMagic);
        }
        assert(bytes@.take(4) =~= seq![0x56u8, 0x58u8, 0x54u8, 0x43u8]);
        if len < 5 {
            return Err(ChunkDecodeError::Truncated);
        }
        let version: u8 = bytes[4];
        if version != CHUNK_FORMAT_VERSION {
            return Err(ChunkDecodeError::UnsupportedVersion(version));
        }
        if len < 7 {
            return Err(ChunkDecodeError::Truncated);
        }
        let n: usize = read_word(bytes, 5);
        if n == 0 {
            return Err(ChunkDecodeError::EmptyPalette);
        }
        let start: usize = 7 + 2 * n;
        if len < start {
            return Err(ChunkDecodeError::Truncated);
        }
        let mut palette: Vec<BlockId> = Vec::with_capacity(n);
        let mut k: usize = 0;
        while k < n
            invariant
                k <= n,
                n <= 65535,
                7 + 2 * n <= bytes.len(),
                palette.len() == k,
                forall|j: int|
                    0 <= j < k ==> #[trigger] palette[j] == BlockId(
                        word_at(bytes@, 7 + 2 * j) as u16,
                    ),
            decreases n - k,
        {
            let id: u16 = read_word(bytes, 7 + 2 * k) as u16;
            palette.push(BlockId(id));
            k += 1;
        }
        assert(palette@ =~= decoded(bytes@).palette);
        if n == 1 {
            let c = Chunk { palette, indices: None, modified: false, light: None };
            assert(c@ =~= decoded(bytes@));
            return Ok(c);
        }
        let bits: u32 = bits_for(n);
        let mut packed = Packed::new(bits);
        let width: usize = if n > 256 {
            2
        } else {
            1
        };
        let mut i: usize = 0;
        while i < CHUNK_VOLUME
            invariant
                i <= CHUNK_VOLUME,
                2 <= n <= 65535,
                n == word_at(bytes@, 5),
                start == 7 + 2 * n,
                width == index_width(n as int),
                len == bytes.len(),
                start + i * width <= len,
                past_header(bytes@),
                is_width(bits),
                n <= width_capacity(bits),
                packed.width() == bits,
                packed.values().len() == CHUNK_VOLUME,
                forall|j: int|
                    0 <= j < i ==> #[trigger] packed.values()[j] == index_at(bytes@, n as int, j)
                        && packed.values()[j] < n,
            decreases CHUNK_VOLUME - i,
        {
            let at: usize = start + i * width;
            if len - at < width {
                proof {
                    assert forall|j: int| 0 <= j < CHUNK_VOLUME && holds_index(
                        bytes@,
                        n as int,
                        j,
                    ) implies index_at(bytes@, n as int, j) < n by {
                        assert(j < i) by {
                            if j >= i {
                                assert(j * width >= i * width) by (nonlinear_arith)
                                    requires
                                        j >= i,
                                        width >= 0,
                                ;
                            }
                        }
                        assert(packed.values()[j] < n);
                    }
                    assert(CHUNK_VOLUME * width >= i * width + width) by (nonlinear_arith)
                        requires
                            CHUNK_VOLUME >= i + 1,
                            width >= 0,
                    ;
                }
                return Err(ChunkDecodeError::Truncated);
            }
            let idx: usize = if width == 2 {
                read_word(bytes, at)
            } else {
                bytes[at] as usize
            };
            assert(idx == index_at(bytes@, n as int, i as int));
            if idx >= n {
                assert(holds_index(bytes@, n as int, i as int));
                return Err(ChunkDecodeError::IndexOutOfRange);
            }
            packed.set(i, idx as u64);
            assert((i + 1) * width == i * width + width) by (nonlinear_arith);
            i += 1;
        }
        assert forall|j: int| 0 <= j < CHUNK_VOLUME && holds_index(
            bytes@,
            n as int,
            j,
        ) implies index_at(bytes@, n as int, j) < n by {
            assert(packed.values()[j] < n);
        }
        assert(packed.values() =~= decoded(bytes@).indices);
        let c = Chunk { palette, indices: Some(packed), modified: false, light: None };
        assert(c@ =~= decoded(bytes@));
        Ok(c)
    }

    /// Where `block` stands in the palette, or the palette's length.
    fn find_slot(&self, block: BlockId) -> (r: usize)
        ensures
            r == slot_of(self@.palette, block),
            r <= self@.palette.len(),
    {
        let mut k: usize = 0;
        while k < self.palette.len()
            invariant
                k <= self.palette.len(),
                forall|j: int| 0 <= j < k ==> self.palette[j] != block,
            decreases self.palette.len() - k,
        {
            if self.palette[k] == block {
                proof {
                    lemma_slot_is(self.palette@, block, k as int);
                }
                return k;
            }
            k += 1;
        }
        proof {
            lemma_slot_is(self.palette@, block, k as int);
        }
        k
    }
}

/// The palette index of each cell: the first entry where none are stored.
spec fn index_seq(indices: Option<Packed>) -> Seq<int> {
    match indices {
        Some(p) => p.values(),
        None => Seq::new(CHUNK_VOLUME as nat, |i: int| 0int),
    }
}

/// Writes a palette and indices in the on-disk format.
fn write_form(palette: &Vec<BlockId>, indices: &Option<Packed>) -> (out: Vec<u8>)
    requires
        *indices is None <==> palette.len() == 1,
        index_seq(*indices).len() == CHUNK_VOLUME,
    ensures
        out@ == encode_form(palette@, index_seq(*indices)),
{
    let n: usize = palette.len();
    let mut out: Vec<u8> = vec![0x56, 0x58, 0x54, 0x43, CHUNK_FORMAT_VERSION];
    push_word(&mut out, n);
    assert(out@ =~= encode_header(n as int));
    let mut k: usize = 0;
    while k < n
        invariant
            k <= n,
            n == palette.len(),
            out@ == encode_header(n as int) + words_of(
                palette@.take(k as int).map_values(|b: BlockId| b.0 as int),
            ),
        decreases n - k,
    {
        push_word(&mut out, palette[k].0 as usize);
        proof {
            let ids = |b: BlockId| b.0 as int;
            let before = palette@.take(k as int).map_values(ids);
            let after = palette@.take(k + 1).map_values(ids);
            assert(after =~= before.push(palette[k as int].0 as int));
            lemma_words_push(before, palette[k as int].0 as int);
        }
        assert(out@ =~= encode_header(n as int) + words_of(
            palette@.take(k + 1).map_values(|b: BlockId| b.0 as int),
        ));
        k += 1;
    }
    assert(palette@.take(n as int) =~= palette@);
    let ghost head = out@;
    if let Some(packed) = indices {
        let mut i: usize = 0;
        assert(out@ =~= head + encode_indices(n as int, packed.values().take(0)));
        while i < CHUNK_VOLUME
            invariant
                i <= CHUNK_VOLUME,
                packed.values().len() == CHUNK_VOLUME,
                out@ == head + encode_indices(n as int, packed.values().take(i as int)),
            decreases CHUNK_VOLUME - i,
        {
            let idx: usize = packed.get(i) as usize;
            proof {
                assert(packed.values().take(i + 1) =~= packed.values().take(i as int).push(
                    idx as int,
                ));
                lemma_words_push(packed.values().take(i as int), idx as int);
            }
            if n > 256 {
                push_word(&mut out, idx);
            } else {
                out.push((idx % 256) as u8);
            }
            assert(out@ =~= head + encode_indices(n as int, packed.values().take(i + 1)));
            i += 1;
        }
        assert(packed.values().take(CHUNK_VOLUME as int) =~= packed.values());
    }
    assert(out@ =~= encode_form(palette@, index_seq(*indices)));
    out
}

fn write_slot(indices: &mut Option<Packed>, i: usize, slot: u64)
    requires
        i < CHUNK_VOLUME,
        *old(indices) matches Some(p) && slot < width_capacity(p.width()),
    ensures
        *final(indices) matches Some(q) && *old(indices) matches Some(p) && q.width() == p.width()
            && q.values() == p.values().update(i as int, slot as int),
    no_unwind
{
    match indices {
        Some(packed) => packed.set(i, slot),
        None => {},
    }
}

fn write_byte(light: &mut Option<Vec<u8>>, i: usize, byte: u8)
    requires
        *old(light) matches Some(a) && i < a.len(),
    ensures
        *final(light) matches Some(b) && *old(light) matches Some(a) && b@ == a@.update(
            i as int,
            byte,
        ),
    no_unwind
{
    match light {
        Some(arr) => {
            arr[i] = byte;
        },
        None => {},
    }
}

impl Default for Chunk {
    fn default() -> (r: Self)
        ensures
            r@ == ChunkView::of_block(BlockId(0)),
    {
        Self::new_air()
    }
}

impl View for Chunk {
    type V = ChunkView;

    closed spec fn view(&self) -> ChunkView {
        ChunkView {
            palette: self.palette@,
            indices: match self.indices {
                Some(p) => p.values(),
                None => Seq::new(CHUNK_VOLUME as nat, |i: int| 0int),
            },
            modified: self.modified,
            light: match self.light {
                Some(a) => Some(a@),
                None => None,
            },
        }
    }
}

/// A write that changes a cell counts as an edit, an edit is never forgotten, and
/// light is left as it is.
pub proof fn lemma_write_is_an_edit(v: ChunkView, i: int, block: BlockId)
    requires
        v.valid(),
        0 <= i < CHUNK_VOLUME,
    ensures
        v.block(i) != block ==> v.with_block(i, block).modified,
        v.modified ==> v.with_block(i, block).modified,
        v.uniform() && v.block(i) == block ==> v.with_block(i, block) == v,
        v.with_block(i, block).block(i) == block,
        forall|j: int|
            0 <= j < CHUNK_VOLUME && j != i ==> #[trigger] v.with_block(i, block).block(j)
                == v.block(j),
        forall|j: int|
            #![trigger v.with_block(i, block).block_level(j)]
            #![trigger v.with_block(i, block).sky_level(j)]
            v.with_block(i, block).block_level(j) == v.block_level(j) && v.with_block(
                i,
                block,
            ).sky_level(j) == v.sky_level(j),
{
    lemma_with_block(v, i, block);
    let w = v.with_block(i, block);
    assert(w.blocks()[i] == w.block(i));
    assert forall|j: int| 0 <= j < CHUNK_VOLUME && j != i implies #[trigger] w.block(j) == v.block(
        j,
    ) by {
        assert(w.blocks()[j] == w.block(j));
        assert(v.blocks()[j] == v.block(j));
    }
}

/// Setting one light channel of a cell, to at most 15, leaves the other channel,
/// the other cells and the blocks alone, and is no edit. A dark chunk in which
/// nothing is lit stays without storage.
pub proof fn lemma_light_channels(v: ChunkView, i: int, level: u8, j: int)
    requires
        v.valid(),
        0 <= i < CHUNK_VOLUME,
        0 <= j < CHUNK_VOLUME,
    ensures
        ({
            let b = v.with_block_light(i, level);
            let s = v.with_sky_light(i, level);
            let l = if level < 15 { level as int } else { 15 };
            &&& b.block_level(i) == l && s.sky_level(i) == l
            &&& b.sky_level(j) == v.sky_level(j) && s.block_level(j) == v.block_level(j)
            &&& j != i ==> b.block_level(j) == v.block_level(j) && s.sky_level(j) == v.sky_level(j)
            &&& b.palette == v.palette && b.indices == v.indices && b.modified == v.modified
            &&& s.palette == v.palette && s.indices == v.indices && s.modified == v.modified
            &&& v.light is None && level == 0 ==> b.light is None && s.light is None
            &&& level > 0 ==> b.light is Some && s.light is Some
        }),
{
}

/// Compacting keeps the order of the palette, the edit mark and the light: where
/// one cell's entry came before another's, it still does.
pub proof fn lemma_compact_keeps_order(v: ChunkView, i: int, j: int)
    requires
        v.valid(),
        0 <= i < CHUNK_VOLUME,
        0 <= j < CHUNK_VOLUME,
    ensures
        v.indices[i] < v.indices[j] ==> v.compacted().indices[i] < v.compacted().indices[j],
        v.indices[i] == v.indices[j] ==> v.compacted().indices[i] == v.compacted().indices[j],
        v.compacted().modified == v.modified,
        v.compacted().light == v.light,
{
    if !v.uniform() && v.indices[i] < v.indices[j] {
        assert(v.indices.contains(v.indices[i]));
        lemma_used_rank(v.palette, v.indices, v.indices[i], v.indices[j]);
    }
}

/// The bytes of a serialized chunk: "VXTC", the version, the length of the palette
/// and its entries as two-byte numbers, low byte first, and an index per cell, of
/// one byte or, for more than 256 entries, two.
pub proof fn lemma_serialized_layout(v: ChunkView, k: int, i: int)
    requires
        v.valid(),
        0 <= k < v.stored().palette.len(),
        0 <= i < CHUNK_VOLUME,
    ensures
        ({
            let b = encode(v);
            let s = v.stored();
            let n = s.palette.len() as int;
            &&& v.palette.len() <= 65535 ==> s == v
            &&& b[0] == 0x56 && b[1] == 0x58 && b[2] == 0x54 && b[3] == 0x43 && b[4] == 1
            &&& b[5] + 256 * b[6] == n
            &&& b[7 + 2 * k] + 256 * b[8 + 2 * k] == s.palette[k].0
            &&& n == 1 ==> b.len() == 9
            &&& 1 < n <= 256 ==> b.len() == 7 + 2 * n + 32768 && b[7 + 2 * n + i] == s.indices[i]
            &&& n > 256 ==> b.len() == 7 + 2 * n + 65536 && b[7 + 2 * n + 2 * i] + 256 * b[8 + 2
                * n + 2 * i] == s.indices[i]
        }),
{
    let s = v.stored();
    let b = encode(v);
    let n = s.palette.len() as int;
    let ids = s.palette.map_values(|b: BlockId| b.0 as int);
    lemma_stored_fits(v);
    assert(b[5] == words_of(seq![n])[0]);
    assert(b[6] == words_of(seq![n])[1]);
    assert(b[7 + 2 * k] == words_of(ids)[2 * k]);
    assert(b[8 + 2 * k] == words_of(ids)[2 * k + 1]);
    if n > 1 {
        lemma_index_encoded(s, i);
    }
}

/// Bytes that are accepted are the serialized form of the chunk they stand for,
/// but for what follows it. The chunk is unmodified and dark.
pub proof fn lemma_accepted_is_serialized(bytes: Seq<u8>)
    requires
        decode_error(bytes) is None,
    ensures
        ({
            let e = encode(decoded(bytes));
            &&& e.len() <= bytes.len()
            &&& bytes.take(e.len() as int) == e
        }),
        !decoded(bytes).modified,
        decoded(bytes).light is None,
{
    let d = decoded(bytes);
    let n = word_at(bytes, 5);
    let e = encode(d);
    let ids = d.palette.map_values(|b: BlockId| b.0 as int);
    let head = encode_header(n) + words_of(ids);
    assert(d.palette.len() == n && n <= 65535);
    assert(d.stored() == d);
    assert(bytes.take(4)[0] == 0x56 && bytes.take(4)[1] == 0x58 && bytes.take(4)[2] == 0x54
        && bytes.take(4)[3] == 0x43);
    assert forall|i: int| 0 <= i < head.len() implies head[i] == bytes[i] by {
        if i >= 7 {
            let k = (i - 7) / 2;
            assert(ids[k] == word_at(bytes, 7 + 2 * k));
        } else if i >= 5 {
            assert(words_of(seq![n])[i - 5] == bytes[i]);
        }
    }
    if n > 1 {
        let tail = encode_indices(n, d.indices);
        assert forall|i: int| 0 <= i < tail.len() implies tail[i] == bytes[head.len() + i] by {
            if n > 256 {
                assert(d.indices[i / 2] == index_at(bytes, n, i / 2));
            } else {
                assert(d.indices[i] == index_at(bytes, n, i));
            }
        }
    }
    assert(bytes.take(e.len() as int) =~= e);
}

/// A serialized chunk that is cut short is refused as truncated, wherever it is
/// cut.
pub proof fn lemma_cut_short_is_refused(v: ChunkView, len: int)
    requires
        v.valid(),
        0 <= len < encode(v).len(),
    ensures
        decode_error(encode(v).take(len)) == Some(ChunkDecodeError::Truncated),
{
    let s = v.stored();
    let n = s.palette.len() as int;
    let b = encode(v);
    let c = b.take(len);
    lemma_stored_fits(v);
    lemma_form_roundtrip(s);
    assert(b.take(4) == seq![0x56u8, 0x58u8, 0x54u8, 0x43u8]) by {
        lemma_serialized_layout(v, 0, 0);
        assert(b.take(4) =~= seq![0x56u8, 0x58u8, 0x54u8, 0x43u8]);
    }
    lemma_serialized_layout(v, 0, 0);
    if len >= 4 {
        assert(c.take(4) =~= b.take(4));
    }
    if len >= 7 + 2 * n && n > 1 {
        assert forall|i: int|
            0 <= i < CHUNK_VOLUME && holds_index(c, n, i) implies #[trigger] index_at(c, n, i)
            < n by {
            lemma_index_encoded(s, i);
            assert(index_at(c, n, i) == index_at(b, n, i));
            assert(0 <= s.indices[i] < n);
        }
    }
}

/// Why bytes are refused, by what is wrong with them.
pub proof fn lemma_refusals(bytes: Seq<u8>)
    ensures
        bytes.len() < 4 ==> decode_error(bytes) == Some(ChunkDecodeError::Truncated),
        bytes.len() >= 4 && !(bytes[0] == 0x56 && bytes[1] == 0x58 && bytes[2] == 0x54 && bytes[3]
            == 0x43) <==> decode_error(bytes) == Some(ChunkDecodeError::BadMagic),
        decode_error(bytes) matches Some(ChunkDecodeError::UnsupportedVersion(w)) ==> bytes.len()
            > 4 && w == bytes[4] && w != 1,
        decode_error(bytes) == Some(ChunkDecodeError::EmptyPalette) ==> bytes.len() > 6 && bytes[5]
            == 0 && bytes[6] == 0,
        decode_error(bytes) == Some(ChunkDecodeError::IndexOutOfRange) ==> exists|i: int|
            0 <= i < CHUNK_VOLUME && #[trigger] index_at(bytes, bytes[5] + 256 * bytes[6], i)
                >= bytes[5] + 256 * bytes[6],
{
    if bytes.len() >= 4 {
        let magic = seq![0x56u8, 0x58u8, 0x54u8, 0x43u8];
        let start = bytes.take(4);
        if bytes[0] == 0x56 && bytes[1] == 0x58 && bytes[2] == 0x54 && bytes[3] == 0x43 {
            assert(start =~= magic);
        } else {
            assert(start[0] == bytes[0] && start[1] == bytes[1] && start[2] == bytes[2] && start[3]
                == bytes[3]);
        }
    }
}

/// Every refusal is put in its own words; a version is named by its number.
pub proof fn lemma_refusals_in_words(v: u8)
    ensures
        ChunkDecodeError::Truncated.text() == "chunk data truncated"@,
        ChunkDecodeError::BadMagic.text() == "bad chunk magic (not a Voxterra chunk)"@,
        ChunkDecodeError::EmptyPalette.text() == "chunk palette is empty"@,
        ChunkDecodeError::IndexOutOfRange.text() == "chunk index out of palette range"@,
        ChunkDecodeError::UnsupportedVersion(v).text() == "unsupported chunk format version "@
            + decimal(v as int),
{
}

} // verus!
