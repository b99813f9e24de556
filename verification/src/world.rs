//! The world: a sparse 3D grid of cubic chunks.
//!
//! Chunks exist at any `ChunkPos` on all three axes: there is no column
//! structure. Missing chunks read as air.

use crate::block::BlockId;
use crate::chunk::{lemma_write_is_an_edit, Chunk, ChunkView};
use crate::coords::{
    cell_index, chunk_in_range, lemma_index_injective, lemma_local_at, lemma_split_recompose,
    ChunkPos, WorldPos,
};
use crate::sorted::{Key, SortedMap};
use crate::streaming::chunk_key;
use vstd::prelude::*;

verus! {

/// The loaded chunks.
pub struct World {
    /// Where each chunk stands in `chunks`.
    places: SortedMap<usize>,
    chunks: Vec<(ChunkPos, Chunk)>,
}

impl View for World {
    type V = Map<ChunkPos, Chunk>;

    closed spec fn view(&self) -> Map<ChunkPos, Chunk> {
        Map::new(
            |p: ChunkPos| self.places@.dom().contains(chunk_key(p)),
            |p: ChunkPos| self.chunks[self.places@[chunk_key(p)] as int].1,
        )
    }
}

/// The block at a position: air where there is no chunk.
pub open spec fn block_at(chunks: Map<ChunkPos, Chunk>, pos: WorldPos) -> BlockId {
    if chunks.dom().contains(pos.spec_chunk()) {
        chunks[pos.spec_chunk()]@.block(pos.spec_local().idx())
    } else {
        BlockId(0)
    }
}

/// The chunks after a block was written: its chunk is created if needed, but
/// not for air.
pub open spec fn block_set(
    before: Map<ChunkPos, Chunk>,
    after: Map<ChunkPos, Chunk>,
    pos: WorldPos,
    block: BlockId,
) -> bool {
    let cp = pos.spec_chunk();
    let i = pos.spec_local().idx();
    if before.dom().contains(cp) {
        &&& after == before.insert(cp, after[cp])
        &&& after[cp]@ == before[cp]@.with_block(i, block)
    } else if block.0 == 0 {
        after == before
    } else {
        &&& after == before.insert(cp, after[cp])
        &&& after[cp]@ == ChunkView::of_block(BlockId(0)).with_block(i, block)
    }
}

impl World {
    /// Each chunk stands at its place, once.
    pub closed spec fn wf(self) -> bool {
        &&& forall|k: Key| #[trigger]
            self.places@.dom().contains(k) ==> self.places@[k] < self.chunks.len() && chunk_key(
                self.chunks[self.places@[k] as int].0,
            ) == k
        &&& forall|i: int|
            0 <= i < self.chunks.len() ==> self.places@.dom().contains(
                chunk_key((#[trigger] self.chunks[i]).0),
            ) && self.places@[chunk_key(self.chunks[i].0)] == i
    }

    pub fn new() -> (r: Self)
        ensures
            r.wf(),
            r@ == Map::<ChunkPos, Chunk>::empty(),
    {
        let r = World { places: SortedMap::new(), chunks: Vec::new() };
        assert(r@ =~= Map::<ChunkPos, Chunk>::empty());
        r
    }

    /// Block at a world position. Positions in chunks that do not exist read as
    /// air.
    pub fn get_block(&self, pos: WorldPos) -> (r: BlockId)
        requires
            self.wf(),
        ensures
            r == block_at(self@, pos),
            self@.dom().contains(pos.spec_chunk()) ==> self@[pos.spec_chunk()]@.valid(),
    {
        let (chunk_pos, local) = pos.split();
        match self.chunk(chunk_pos) {
            Some(chunk) => chunk.get(local),
            None => BlockId::air(),
        }
    }

    /// Set a block at a world position, creating the containing chunk if
    /// needed. Writing air where no chunk exists changes nothing.
    pub fn set_block(&mut self, pos: WorldPos, block: BlockId)
        requires
            old(self).wf(),
        ensures
            final(self).wf(),
            block_set(old(self)@, final(self)@, pos, block),
            forall|p: WorldPos| #[trigger]
                block_at(final(self)@, p) == (if p == pos {
                    block
                } else {
                    block_at(old(self)@, p)
                }),
    {
        let ghost before = self@;
        let (chunk_pos, local) = pos.split();
        match self.chunk_mut(chunk_pos) {
            Some(chunk) => {
                chunk.set(local, block);
            },
            None => {
                if !block.is_air() {
                    let mut chunk = Chunk::new_air();
                    chunk.set(local, block);
                    self.insert_chunk(chunk_pos, chunk);
                }
            },
        }
        proof {
            use_type_invariant(&local);
            let air = ChunkView::of_block(BlockId(0));
            assert forall|p: WorldPos| #[trigger] block_at(self@, p) == (if p == pos {
                block
            } else {
                block_at(before, p)
            }) by {
                let i = pos.spec_local().idx();
                let j = p.spec_local().idx();
                lemma_local_in_range(p);
                if p.spec_chunk() == chunk_pos {
                    if self@.dom().contains(chunk_pos) {
                        let c = self@[chunk_pos]@;
                        let was = if before.dom().contains(chunk_pos) {
                            before[chunk_pos]@
                        } else {
                            air
                        };
                        assert(c.blocks() == was.blocks().update(i, block));
                        assert(c.block(j) == c.blocks()[j]);
                        assert(was.block(j) == was.blocks()[j]);
                    }
                    if p != pos {
                        lemma_split_recompose(p);
                        lemma_split_recompose(pos);
                        if i == j {
                            lemma_index_injective(p.spec_local(), pos.spec_local());
                        }
                    }
                }
            }
        }
    }

    /// The chunk at `pos`.
    pub fn chunk(&self, pos: ChunkPos) -> (r: Option<&Chunk>)
        requires
            self.wf(),
        ensures
            match r {
                Some(c) => self@.dom().contains(pos) && *c == self@[pos],
                None => !self@.dom().contains(pos),
            },
    {
        match self.places.get((pos.x, pos.y, pos.z)) {
            Some(i) => Some(&self.chunks[*i].1),
            None => None,
        }
    }

    /// The chunk at `pos`, to change in place.
    pub fn chunk_mut(&mut self, pos: ChunkPos) -> (r: Option<&mut Chunk>)
        requires
            old(self).wf(),
        ensures
            final(self).wf(),
            match r {
                Some(c) => old(self)@.dom().contains(pos) && *c == old(self)@[pos] && final(self)@
                    == old(self)@.insert(pos, *final(c)),
                None => !old(self)@.dom().contains(pos) && final(self)@ == old(self)@,
            },
    {
        let i: usize = match self.places.get((pos.x, pos.y, pos.z)) {
            Some(i) => *i,
            None => {
                return None;
            },
        };
        let slot = &mut self.chunks[i];
        Some(&mut slot.1)
    }

    /// Insert a chunk wholesale. Returns the displaced chunk if one was already
    /// there.
    pub fn insert_chunk(&mut self, pos: ChunkPos, chunk: Chunk) -> (r: Option<Chunk>)
        requires
            old(self).wf(),
        ensures
            final(self).wf(),
            final(self)@ == old(self)@.insert(pos, chunk),
            match r {
                Some(c) => old(self)@.dom().contains(pos) && c == old(self)@[pos],
                None => !old(self)@.dom().contains(pos),
            },
    {
        let ghost before = *self;
        let key: Key = (pos.x, pos.y, pos.z);
        let found: Option<usize> = match self.places.get(key) {
            Some(i) => Some(*i),
            None => None,
        };
        match found {
            Some(i) => {
                let mut slot = chunk;
                core::mem::swap(&mut self.chunks[i].1, &mut slot);
                assert(self@ =~= before@.insert(pos, chunk));
                Some(slot)
            },
            None => {
                let n: usize = self.chunks.len();
                self.chunks.push((pos, chunk));
                self.places.insert(key, n);
                assert(self@ =~= before@.insert(pos, chunk));
                None
            },
        }
    }

    /// Remove a chunk, handing it back.
    pub fn remove_chunk(&mut self, pos: ChunkPos) -> (r: Option<Chunk>)
        requires
            old(self).wf(),
        ensures
            final(self).wf(),
            final(self)@ == old(self)@.remove(pos),
            match r {
                Some(c) => old(self)@.dom().contains(pos) && c == old(self)@[pos],
                None => !old(self)@.dom().contains(pos),
            },
    {
        let ghost before = *self;
        let key: Key = (pos.x, pos.y, pos.z);
        match self.places.remove(key) {
            None => {
                assert(self.places@ =~= before.places@);
                assert(self@ =~= before@.remove(pos));
                None
            },
            Some(i) => {
                let last: usize = self.chunks.len() - 1;
                let moved = self.chunks[last].0;
                let e = self.chunks.swap_remove(i);
                if i != last {
                    self.places.insert((moved.x, moved.y, moved.z), i);
                }
                proof {
                    assert(chunk_key(before.chunks[last as int].0) == chunk_key(moved));
                    assert forall|k: Key| #[trigger] self.places@.dom().contains(
                        k,
                    ) implies self.places@[k] < self.chunks.len() && chunk_key(
                        self.chunks[self.places@[k] as int].0,
                    ) == k by {
                        assert(before.places@.dom().contains(k));
                    }
                    assert forall|j: int|
                        0 <= j < self.chunks.len() implies self.places@.dom().contains(
                        chunk_key((#[trigger] self.chunks[j]).0),
                    ) && self.places@[chunk_key(self.chunks[j].0)] == j by {
                        let was = if j == i {
                            last as int
                        } else {
                            j
                        };
                        assert(self.chunks[j] == before.chunks[was]);
                        assert(before.places@[chunk_key(before.chunks[was].0)] == was);
                    }
                    assert forall|p: ChunkPos| self@.dom().contains(p) == before@.remove(
                        pos,
                    ).dom().contains(p) by {
                        if chunk_key(p) == key {
                            assert(p == pos);
                        }
                    }
                    assert forall|p: ChunkPos| #[trigger] self@.dom().contains(p) implies self@[p]
                        == before@[p] by {
                        let k = chunk_key(p);
                        assert(before.places@.dom().contains(k));
                        assert(before.chunks[before.places@[k] as int].0 == p);
                    }
                    assert(self@ =~= before@.remove(pos));
                }
                Some(e.1)
            },
        }
    }

    /// How many chunks there are.
    pub fn chunk_count(&self) -> (r: usize)
        requires
            self.wf(),
        ensures
            self@.dom().finite(),
            r == self@.dom().len(),
    {
        proof {
            self.lemma_positions();
        }
        self.chunks.len()
    }

    /// The positions of the chunks, in storage order.
    pub closed spec fn positions(self) -> Seq<ChunkPos> {
        self.chunks@.map_values(|e: (ChunkPos, Chunk)| e.0)
    }

    proof fn lemma_positions(self)
        requires
            self.wf(),
        ensures
            self.positions().no_duplicates(),
            forall|p: ChunkPos| #[trigger]
                self.positions().contains(p) <==> self@.dom().contains(p),
            self@.dom().finite(),
            self@.dom().len() == self.positions().len(),
    {
        let s = self.positions();
        assert forall|p: ChunkPos| #[trigger] s.contains(p) <==> self@.dom().contains(p) by {
            if s.contains(p) {
                let i = choose|i: int| 0 <= i < s.len() && s[i] == p;
                assert(self.chunks[i].0 == p);
            }
            if self@.dom().contains(p) {
                let i = self.places@[chunk_key(p)] as int;
                assert(self.chunks[i].0 == p);
                assert(s[i] == p);
            }
        }
        assert forall|i: int, j: int| 0 <= i < s.len() && 0 <= j < s.len() && i != j implies s[i]
            != s[j] by {
            assert(self.places@[chunk_key(self.chunks[i].0)] == i);
            assert(self.places@[chunk_key(self.chunks[j].0)] == j);
        }
        s.unique_seq_to_set();
        assert(s.to_set() =~= self@.dom());
    }

    /// The positions of all chunks, each once.
    pub fn chunk_positions(&self) -> (r: Vec<ChunkPos>)
        requires
            self.wf(),
        ensures
            r@.no_duplicates(),
            forall|p: ChunkPos| #[trigger] r@.contains(p) <==> self@.dom().contains(p),
    {
        let mut out: Vec<ChunkPos> = Vec::with_capacity(self.chunks.len());
        let mut i: usize = 0;
        while i < self.chunks.len()
            invariant
                i <= self.chunks.len(),
                out@ == self.positions().take(i as int),
            decreases self.chunks.len() - i,
        {
            out.push(self.chunks[i].0);
            assert(out@ =~= self.positions().take(i + 1));
            i += 1;
        }
        assert(out@ =~= self.positions());
        proof {
            self.lemma_positions();
        }
        out
    }

    /// All chunks with their positions, each once.
    pub fn chunks(&self) -> (r: &[(ChunkPos, Chunk)])
        requires
            self.wf(),
        ensures
            r@.map_values(|e: (ChunkPos, Chunk)| e.0).no_duplicates(),
            forall|p: ChunkPos| #[trigger]
                self@.dom().contains(p) <==> r@.map_values(|e: (ChunkPos, Chunk)| e.0).contains(p),
            forall|i: int|
                0 <= i < r.len() ==> self@.dom().contains((#[trigger] r[i]).0) && self@[r[i].0]
                    == r[i].1,
    {
        proof {
            self.lemma_positions();
        }
        self.chunks.as_slice()
    }
}

impl Default for World {
    fn default() -> (r: Self)
        ensures
            r.wf(),
            r@ == Map::<ChunkPos, Chunk>::empty(),
    {
        Self::new()
    }
}

/// The place of a position within its chunk is in range.
pub proof fn lemma_local_in_range(p: WorldPos)
    ensures
        p.spec_local().wf(),
        0 <= p.spec_local().idx() < 32768,
{
    crate::coords::lemma_local_at(p.x as int % 32, p.y as int % 32, p.z as int % 32);
}

/// The block of a chunk's cell is read at the cell's place in the world; where no
/// chunk is, there is air.
pub proof fn lemma_block_by_chunk(chunks: Map<ChunkPos, Chunk>, c: ChunkPos, x: int, y: int, z: int)
    requires
        chunk_in_range(c.x as int),
        chunk_in_range(c.y as int),
        chunk_in_range(c.z as int),
        0 <= x < 32,
        0 <= y < 32,
        0 <= z < 32,
    ensures
        ({
            let p = WorldPos {
                x: (c.x * 32 + x) as i64,
                y: (c.y * 32 + y) as i64,
                z: (c.z * 32 + z) as i64,
            };
            block_at(chunks, p) == (if chunks.dom().contains(c) {
                chunks[c]@.block(cell_index(x, y, z))
            } else {
                BlockId(0)
            })
        }),
{
    lemma_local_at(x, y, z);
}

/// Writing a block touches its own chunk alone, which is made if it is missing,
/// unless air is written there. A write that changes something marks the chunk as
/// edited.
pub proof fn lemma_write_touches_one_chunk(
    before: Map<ChunkPos, Chunk>,
    after: Map<ChunkPos, Chunk>,
    pos: WorldPos,
    block: BlockId,
    c: ChunkPos,
)
    requires
        block_set(before, after, pos, block),
        before.dom().contains(pos.spec_chunk()) ==> before[pos.spec_chunk()]@.valid(),
    ensures
        c != pos.spec_chunk() ==> after.dom().contains(c) == before.dom().contains(c) && (
        before.dom().contains(c) ==> after[c] == before[c]),
        after.dom().contains(pos.spec_chunk()) <==> before.dom().contains(pos.spec_chunk())
            || block.0 != 0,
        block_at(before, pos) != block ==> after.dom().contains(pos.spec_chunk())
            && after[pos.spec_chunk()]@.modified,
        block_at(after, pos) == block,
{
    let cp = pos.spec_chunk();
    let i = pos.spec_local().idx();
    lemma_local_in_range(pos);
    if before.dom().contains(cp) {
        lemma_write_is_an_edit(before[cp]@, i, block);
    } else if block.0 != 0 {
        let air = ChunkView::of_block(BlockId(0));
        assert(air.valid());
        lemma_write_is_an_edit(air, i, block);
        assert(air.block(i) == BlockId(0));
    }
}

} // verus!
