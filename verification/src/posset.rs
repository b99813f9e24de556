//! Sets of chunk positions and of LOD nodes.

use crate::coords::ChunkPos;
use crate::lod::LodNodeId;
use crate::sorted::{Key, SortedSet};
use crate::streaming::{chunk_key, chunks_of_keys, key_chunk, lemma_chunks_of};
use vstd::prelude::*;

verus! {

/// A set of chunk positions.
pub struct ChunkSet {
    keys: SortedSet,
}

impl View for ChunkSet {
    type V = Set<ChunkPos>;

    closed spec fn view(&self) -> Set<ChunkPos> {
        Set::new(|p: ChunkPos| self.keys@.contains(chunk_key(p)))
    }
}

impl ChunkSet {
    pub fn new() -> (r: Self)
        ensures
            r@ == Set::<ChunkPos>::empty(),
    {
        let r = ChunkSet { keys: SortedSet::new() };
        assert(r@ =~= Set::<ChunkPos>::empty());
        r
    }

    pub fn contains(&self, p: ChunkPos) -> (r: bool)
        ensures
            r == self@.contains(p),
    {
        self.keys.contains((p.x, p.y, p.z))
    }

    /// Adds `p`; says whether it was missing.
    pub fn insert(&mut self, p: ChunkPos) -> (r: bool)
        ensures
            final(self)@ == old(self)@.insert(p),
            r == !old(self)@.contains(p),
    {
        let r = self.keys.insert((p.x, p.y, p.z));
        assert(self@ =~= old(self)@.insert(p));
        r
    }

    /// Removes `p`; says whether it was there.
    pub fn remove(&mut self, p: ChunkPos) -> (r: bool)
        ensures
            final(self)@ == old(self)@.remove(p),
            r == old(self)@.contains(p),
    {
        let r = self.keys.remove((p.x, p.y, p.z));
        assert(self@ =~= old(self)@.remove(p));
        r
    }

    pub fn is_empty(&self) -> (r: bool)
        ensures
            r == (self@ =~= Set::<ChunkPos>::empty()),
    {
        let r = self.keys.is_empty();
        proof {
            if !r {
                let k = self.keys.keys()[0];
                assert(self.keys.keys().contains(k));
                assert(self@.contains(key_chunk(k)));
            }
        }
        r
    }

    pub fn len(&self) -> (n: usize)
        ensures
            self@.finite(),
            n == self@.len(),
    {
        let n: usize = self.keys.len();
        proof {
            let keys = self.keys@;
            let f = |k: Key| key_chunk(k);
            assert(keys.map(f) =~= self@) by {
                assert forall|p: ChunkPos| #[trigger] self@.contains(p) implies keys.map(
                    f,
                ).contains(p) by {
                    assert(keys.contains(chunk_key(p)) && f(chunk_key(p)) == p);
                }
                assert forall|p: ChunkPos| #[trigger] keys.map(f).contains(p) implies self@.contains(
                    p,
                ) by {
                    let k = choose|k: Key| keys.contains(k) && f(k) == p;
                    assert(chunk_key(p) == k);
                }
            }
            vstd::set_lib::lemma_map_size(keys, self@, f);
        }
        n
    }

    /// The positions, by x, then y, then z.
    pub fn list(&self) -> (r: Vec<ChunkPos>)
        ensures
            forall|p: ChunkPos| #[trigger] r@.contains(p) <==> self@.contains(p),
            r@.no_duplicates(),
            r@.to_set() == self@,
    {
        let keys = self.keys.list_keys();
        let r = chunks_of_keys(&keys);
        proof {
            lemma_chunks_of(keys@, r@, self.keys@, self@);
            assert forall|i: int, j: int| 0 <= i < r.len() && 0 <= j < r.len() && i != j implies r@[i]
                != r@[j] by {
                assert(chunk_key(r@[i]) == keys@[i]);
                assert(chunk_key(r@[j]) == keys@[j]);
            }
            assert(r@.to_set() =~= self@);
        }
        r
    }
}

/// A set of LOD nodes.
pub struct NodeSet {
    keys: SortedSet,
}

impl View for NodeSet {
    type V = Set<LodNodeId>;

    closed spec fn view(&self) -> Set<LodNodeId> {
        Set::new(|n: LodNodeId| self.keys@.contains(n.key()))
    }
}

impl NodeSet {
    /// Every key is that of a node.
    #[verifier::type_invariant]
    spec fn inv(self) -> bool {
        forall|k: Key| #[trigger] self.keys@.contains(k) ==> 0 <= k.0 <= u32::MAX
    }

    pub fn new() -> (r: Self)
        ensures
            r@ == Set::<LodNodeId>::empty(),
    {
        let r = NodeSet { keys: SortedSet::new() };
        assert(r@ =~= Set::<LodNodeId>::empty());
        r
    }

    pub fn contains(&self, n: LodNodeId) -> (r: bool)
        ensures
            r == self@.contains(n),
    {
        self.keys.contains(n.to_key())
    }

    /// Adds `n`; says whether it was missing.
    pub fn insert(&mut self, n: LodNodeId) -> (r: bool)
        ensures
            final(self)@ == old(self)@.insert(n),
            r == !old(self)@.contains(n),
    {
        proof {
            use_type_invariant(&*self);
        }
        let mut keys = SortedSet::new();
        core::mem::swap(&mut self.keys, &mut keys);
        let r = keys.insert(n.to_key());
        self.keys = keys;
        assert(self@ =~= old(self)@.insert(n)) by {
            assert forall|m: LodNodeId| m.key() == n.key() implies m == n by {}
        }
        r
    }

    /// Removes `n`; says whether it was there.
    pub fn remove(&mut self, n: LodNodeId) -> (r: bool)
        ensures
            final(self)@ == old(self)@.remove(n),
            r == old(self)@.contains(n),
    {
        proof {
            use_type_invariant(&*self);
        }
        let mut keys = SortedSet::new();
        core::mem::swap(&mut self.keys, &mut keys);
        let r = keys.remove(n.to_key());
        self.keys = keys;
        assert(self@ =~= old(self)@.remove(n)) by {
            assert forall|m: LodNodeId| m.key() == n.key() implies m == n by {}
        }
        r
    }

    pub fn is_empty(&self) -> (r: bool)
        ensures
            r == (self@ =~= Set::<LodNodeId>::empty()),
    {
        proof {
            use_type_invariant(self);
        }
        let r = self.keys.is_empty();
        proof {
            if !r {
                let k = self.keys.keys()[0];
                assert(self.keys.keys().contains(k));
                assert(self.keys@.contains(k));
                let n = LodNodeId { level: k.0 as u32, x: k.1, z: k.2 };
                assert(n.key() == k);
                assert(self@.contains(n));
            }
        }
        r
    }

    pub fn clear(&mut self)
        ensures
            final(self)@ == Set::<LodNodeId>::empty(),
    {
        self.keys = SortedSet::new();
        assert(self@ =~= Set::<LodNodeId>::empty());
    }

    /// The nodes, by level, then x, then z.
    pub fn list(&self) -> (r: Vec<LodNodeId>)
        ensures
            forall|n: LodNodeId| #[trigger] r@.contains(n) <==> self@.contains(n),
            r@.no_duplicates(),
            r@.to_set() == self@,
    {
        proof {
            use_type_invariant(self);
        }
        let keys = self.keys.list_keys();
        let mut out: Vec<LodNodeId> = Vec::with_capacity(keys.len());
        let mut i: usize = 0;
        while i < keys.len()
            invariant
                i <= keys.len(),
                keys@ == self.keys.keys(),
                self.keys.keys_listed(),
                forall|k: Key| #[trigger] self.keys@.contains(k) ==> 0 <= k.0 <= u32::MAX,
                out.len() == i,
                forall|j: int| 0 <= j < i ==> (#[trigger] out[j]).key() == keys[j],
            decreases keys.len() - i,
        {
            let k: Key = keys[i];
            assert(self.keys.keys().contains(k));
            assert(self.keys@.contains(k));
            out.push(LodNodeId::from_key(k));
            i += 1;
        }
        proof {
            assert forall|n: LodNodeId| #[trigger] out@.contains(n) <==> self@.contains(n) by {
                if out@.contains(n) {
                    let j = choose|j: int| 0 <= j < out.len() && out@[j] == n;
                    assert(self.keys.keys().contains(keys[j]));
                }
                if self@.contains(n) {
                    assert(self.keys.keys().contains(n.key()));
                    let j = choose|j: int| 0 <= j < keys.len() && keys[j] == n.key();
                    assert(out[j].key() == n.key());
                    assert(out[j] == n);
                }
            }
            assert(out@.no_duplicates());
            assert(out@.to_set() =~= self@);
        }
        out
    }
}

} // verus!
