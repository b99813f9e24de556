//! The sky-light column heightmap, bounded by residency.
//!
//! World `(x, z)` to the highest solid block among the *resident* chunks of
//! that column. It drives each chunk's sky-light top boundary, so that a chunk
//! computes its daylight in one pass without waiting on the chunks above it.
//!
//! The map counts resident chunks per chunk column and drops a column's heights
//! when its last chunk unloads. Writes to a column with no resident chunk are
//! ignored, so the map cannot outgrow the loaded world. Dropping restores
//! "unknown", which the sky-light code treats as *covered*.
//!
//! Coordinates are unwrapped: nothing here knows the world wraps.

use crate::arith::{div_floor, mod_floor};
use crate::coords::{ChunkPos, WorldPos};
use crate::sorted::{Key, SortedMap};
use vstd::prelude::*;

verus! {

/// The heights of one chunk column and how many of its chunks are resident.
#[derive(Debug)]
struct Bucket {
    count: u32,
    heights: Vec<Option<i64>>,
}

/// What the heightmap knows.
#[verifier::ext_equal]
pub struct HeightsView {
    /// World `(x, z)` to highest solid world-Y. `i64::MIN` stands for "known,
    /// and nothing solid", which differs from absent ("unknown").
    pub heights: Map<(i64, i64), i64>,
    /// Chunk column to the number of resident chunks in it, where not 0.
    pub residents: Map<(i64, i64), int>,
}

impl HeightsView {
    /// A chunk of the column is resident.
    pub open spec fn resident(self, x: int, z: int) -> bool {
        self.residents.dom().contains(((x / 32) as i64, (z / 32) as i64))
    }

    /// After a chunk of the column became resident.
    pub open spec fn after_load(self, pos: ChunkPos) -> HeightsView {
        let col = (pos.x, pos.z);
        HeightsView {
            residents: self.residents.insert(
                col,
                if self.residents.dom().contains(col) {
                    self.residents[col] + 1
                } else {
                    1
                },
            ),
            ..self
        }
    }

    /// After a chunk of the column stopped being resident: the last one takes
    /// the column's heights with it, and one that was never counted changes
    /// nothing.
    pub open spec fn after_unload(self, pos: ChunkPos) -> HeightsView {
        let col = (pos.x, pos.z);
        if !self.residents.dom().contains(col) {
            self
        } else if self.residents[col] > 1 {
            HeightsView {
                residents: self.residents.insert(col, self.residents[col] - 1),
                ..self
            }
        } else {
            HeightsView {
                heights: self.heights.remove_keys(column_footprint(pos)),
                residents: self.residents.remove(col),
            }
        }
    }

    /// After raising a column to at least `h`, if it is resident.
    pub open spec fn after_raise(self, x: i64, z: i64, h: i64) -> HeightsView {
        if self.resident(x as int, z as int) {
            HeightsView {
                heights: self.heights.insert(
                    (x, z),
                    if h > self.height_or_least(x, z) {
                        h
                    } else {
                        self.height_or_least(x, z)
                    },
                ),
                ..self
            }
        } else {
            self
        }
    }

    /// The height of a column, or the least number if it is unknown.
    pub open spec fn height_or_least(self, x: i64, z: i64) -> i64 {
        if self.heights.dom().contains((x, z)) {
            self.heights[(x, z)]
        } else {
            i64::MIN
        }
    }

    /// Only columns with resident chunks have heights.
    pub open spec fn bounded(self) -> bool {
        forall|x: i64, z: i64| #[trigger]
            self.heights.dom().contains((x, z)) ==> self.resident(x as int, z as int)
    }
}

/// Per-column highest-solid heights for the resident world.
#[derive(Debug)]
pub struct ColumnHeights {
    buckets: SortedMap<Bucket>,
    known: usize,
}

/// The place of a column within its chunk column.
spec fn col_place(x: int, z: int) -> int {
    x % 32 + 32 * (z % 32)
}

/// The place of a bucket is a column of the world.
spec fn real_column(k: Key, n: int) -> bool {
    &&& i64::MIN <= k.0 * 32 + n % 32 <= i64::MAX
    &&& i64::MIN <= k.2 * 32 + n / 32 <= i64::MAX
}

spec fn bucket_key(x: int, z: int) -> Key {
    ((x / 32) as i64, 0, (z / 32) as i64)
}

impl View for ColumnHeights {
    type V = HeightsView;

    closed spec fn view(&self) -> HeightsView {
        HeightsView {
            heights: Map::new(
                |c: (i64, i64)|
                    self.buckets@.dom().contains(bucket_key(c.0 as int, c.1 as int))
                        && self.buckets@[bucket_key(c.0 as int, c.1 as int)].heights[col_place(
                        c.0 as int,
                        c.1 as int,
                    )] is Some,
                |c: (i64, i64)|
                    self.buckets@[bucket_key(c.0 as int, c.1 as int)].heights[col_place(
                        c.0 as int,
                        c.1 as int,
                    )]->0,
            ),
            residents: Map::new(
                |c: (i64, i64)| self.buckets@.dom().contains((c.0, 0, c.1)),
                |c: (i64, i64)| self.buckets@[(c.0, 0, c.1)].count as int,
            ),
        }
    }
}

impl Default for ColumnHeights {
    fn default() -> (r: Self)
        ensures
            r.wf(),
            r@ == (HeightsView { heights: Map::empty(), residents: Map::empty() }),
    {
        Self::new()
    }
}

impl ColumnHeights {
    /// The heights are bounded and counted.
    pub closed spec fn wf(self) -> bool {
        &&& forall|k: Key| #[trigger]
            self.buckets@.dom().contains(k) ==> k.1 == 0 && self.buckets@[k].heights.len() == 1024
                && self.buckets@[k].count > 0
        &&& forall|k: Key, n: int|
            self.buckets@.dom().contains(k) && 0 <= n < 1024
                && #[trigger] self.buckets@[k].heights[n] is Some ==> real_column(k, n)
        &&& self@.heights.dom().finite()
        &&& self.known == self@.heights.dom().len()
    }

    /// Finitely many heights are known.
    pub proof fn lemma_finite(self)
        requires
            self.wf(),
        ensures
            self@.heights.dom().finite(),
    {
    }

    pub fn new() -> (r: Self)
        ensures
            r.wf(),
            r@ == (HeightsView { heights: Map::empty(), residents: Map::empty() }),
    {
        let r = ColumnHeights { buckets: SortedMap::new(), known: 0 };
        assert(r@ =~= (HeightsView { heights: Map::empty(), residents: Map::empty() }));
        r
    }

    /// The known height of a column, or `None` when it is unknown: no resident
    /// chunk has reported a solid there. Unknown means *covered* to the
    /// sky-light code, never open.
    pub fn get(&self, x: i64, z: i64) -> (r: Option<i64>)
        requires
            self.wf(),
        ensures
            match r {
                Some(h) => self@.heights.dom().contains((x, z)) && self@.heights[(x, z)] == h,
                None => !self@.heights.dom().contains((x, z)),
            },
    {
        let key: Key = (div_floor(x, 32), 0, div_floor(z, 32));
        let place: usize = (mod_floor(x, 32) + 32 * mod_floor(z, 32)) as usize;
        match self.buckets.get(key) {
            Some(b) => b.heights[place],
            None => None,
        }
    }

    /// Puts `h` into a column with a resident chunk.
    fn put(&mut self, x: i64, z: i64, h: i64)
        requires
            old(self).wf(),
            old(self)@.resident(x as int, z as int),
            old(self)@.heights.dom().len() < usize::MAX,
        ensures
            final(self).wf(),
            final(self)@ == (HeightsView {
                heights: old(self)@.heights.insert((x, z), h),
                ..old(self)@
            }),
    {
        let ghost before = *self;
        let key: Key = (div_floor(x, 32), 0, div_floor(z, 32));
        let place: usize = (mod_floor(x, 32) + 32 * mod_floor(z, 32)) as usize;
        let mut bucket = Bucket { count: 1, heights: Vec::new() };
        self.buckets.exchange(key, &mut bucket);
        if bucket.heights[place].is_none() {
            self.known = self.known + 1;
        }
        bucket.heights[place] = Some(h);
        self.buckets.exchange(key, &mut bucket);
        proof {
            let ghost after = *self;
            let nb = after.buckets@[key];
            let ob = before.buckets@[key];
            assert(after.buckets@ =~= before.buckets@.insert(key, nb));
            assert(nb.heights@ =~= ob.heights@.update(place as int, Some(h)));
            assert(nb.count == ob.count);
            assert forall|c: (i64, i64)|
                #![trigger after@.heights.dom().contains(c)]
                after@.heights.dom().contains(c) == before@.heights.insert(
                    (x, z),
                    h,
                ).dom().contains(c) && (after@.heights.dom().contains(c) ==> after@.heights[c]
                    == before@.heights.insert((x, z), h)[c]) by {
                lemma_place(c.0 as int, c.1 as int);
                lemma_place(x as int, z as int);
                let k = bucket_key(c.0 as int, c.1 as int);
                if k == key && col_place(c.0 as int, c.1 as int) == place {
                    assert(c == (x, z));
                }
            }
            assert(after@ =~= (HeightsView {
                heights: before@.heights.insert((x, z), h),
                ..before@
            }));
        }
    }

    /// Raise a column to at least `h`. Returns whether it changed.
    ///
    /// Chunks of a column stream in any order and the highest solid wins.
    /// Ignored for a column with no resident chunk.
    pub fn raise(&mut self, x: i64, z: i64, h: i64) -> (r: bool)
        requires
            old(self).wf(),
            old(self)@.heights.dom().len() < usize::MAX,
        ensures
            final(self).wf(),
            final(self)@ == old(self)@.after_raise(x, z, h),
            r == (old(self)@.resident(x as int, z as int) && h > old(self)@.height_or_least(x, z)),
    {
        if !self.is_resident(x, z) {
            return false;
        }
        let was: i64 = match self.get(x, z) {
            Some(v) => v,
            None => i64::MIN,
        };
        if h > was {
            self.put(x, z, h);
            true
        } else {
            self.put(x, z, was);
            false
        }
    }

    /// Replace a column's height with a fresh rescan of its resident blocks:
    /// the edit path, which must be able to lower it. `i64::MIN` records
    /// "known, nothing solid". Ignored for a column with no resident chunk.
    pub fn set(&mut self, x: i64, z: i64, h: i64)
        requires
            old(self).wf(),
            old(self)@.heights.dom().len() < usize::MAX,
        ensures
            final(self).wf(),
            final(self)@ == (if old(self)@.resident(x as int, z as int) {
                HeightsView { heights: old(self)@.heights.insert((x, z), h), ..old(self)@ }
            } else {
                old(self)@
            }),
    {
        if self.is_resident(x, z) {
            self.put(x, z, h);
        }
    }

    /// A chunk became resident. Called once per chunk actually inserted into
    /// the world, not for one that replaced another.
    pub fn chunk_loaded(&mut self, pos: ChunkPos)
        requires
            old(self).wf(),
            old(self)@.residents.dom().contains((pos.x, pos.z)) ==> old(self)@.residents[(
                pos.x,
                pos.z,
            )] < u32::MAX,
        ensures
            final(self).wf(),
            final(self)@ == old(self)@.after_load(pos),
    {
        let ghost before = *self;
        let key: Key = (pos.x, 0, pos.z);
        if self.buckets.contains(key) {
            let mut bucket = Bucket { count: 1, heights: Vec::new() };
            self.buckets.exchange(key, &mut bucket);
            bucket.count = bucket.count + 1;
            self.buckets.exchange(key, &mut bucket);
            assert(self.buckets@ =~= before.buckets@.insert(key, self.buckets@[key]));
        } else {
            let heights: Vec<Option<i64>> = vec![None; 1024];
            self.buckets.insert(key, Bucket { count: 1, heights });
        }
        assert forall|c: (i64, i64)|
            #![trigger self@.heights.dom().contains(c)]
            self@.heights.dom().contains(c) == before@.heights.dom().contains(c) && (
            self@.heights.dom().contains(c) ==> self@.heights[c] == before@.heights[c]) by {
            lemma_place(c.0 as int, c.1 as int);
        }
        assert(self@.heights =~= before@.heights);
        assert forall|c: (i64, i64)| (c.0, 0i64, c.1) == key implies c == (pos.x, pos.z) by {}
        assert(self@.residents =~= before@.residents.insert(
            (pos.x, pos.z),
            if before@.residents.dom().contains((pos.x, pos.z)) {
                before@.residents[(pos.x, pos.z)] + 1
            } else {
                1
            },
        ));
    }

    /// A chunk stopped being resident. When it was its column's last, the
    /// column's heights are dropped. An unload with no matching load is
    /// ignored.
    pub fn chunk_unloaded(&mut self, pos: ChunkPos)
        requires
            old(self).wf(),
        ensures
            final(self).wf(),
            final(self)@ == old(self)@.after_unload(pos),
    {
        let ghost before = *self;
        let key: Key = (pos.x, 0, pos.z);
        if !self.buckets.contains(key) {
            return;
        }
        let mut bucket = Bucket { count: 1, heights: Vec::new() };
        self.buckets.exchange(key, &mut bucket);
        let ghost ob = before.buckets@[key];
        if bucket.count > 1 {
            bucket.count = bucket.count - 1;
            self.buckets.exchange(key, &mut bucket);
            proof {
                assert(self.buckets@ =~= before.buckets@.insert(key, self.buckets@[key]));
                assert forall|c: (i64, i64)|
                    #![trigger self@.heights.dom().contains(c)]
                    self@.heights.dom().contains(c) == before@.heights.dom().contains(c) && (
                    self@.heights.dom().contains(c) ==> self@.heights[c] == before@.heights[c]) by {
                    lemma_place(c.0 as int, c.1 as int);
                }
                assert(self@.heights =~= before@.heights);
                assert(self@.residents =~= before@.residents.insert(
                    (pos.x, pos.z),
                    before@.residents[(pos.x, pos.z)] - 1,
                ));
            }
            return;
        }
        self.buckets.remove(key);
        assert(self.buckets@ =~= before.buckets@.remove(key));
        let ghost all = before@.heights.dom();
        let ghost upto = |n: int| all.difference(
            Set::new(
                |c: (i64, i64)|
                    bucket_key(c.0 as int, c.1 as int) == key && col_place(c.0 as int, c.1 as int)
                        < n,
            ),
        );
        assert(upto(0) =~= all) by {
            assert forall|c: (i64, i64)| all.contains(c) implies upto(0).contains(c) by {
                lemma_place(c.0 as int, c.1 as int);
            }
        }
        let mut i: usize = 0;
        while i < bucket.heights.len()
            invariant
                i <= bucket.heights.len() == 1024,
                bucket == ob,
                before.wf(),
                self.buckets@ == before.buckets@.remove(key),
                ob == before.buckets@[key],
                before.buckets@.dom().contains(key),
                key == (pos.x, 0i64, pos.z),
                all == before@.heights.dom(),
                all.finite(),
                upto == (|n: int|
                    all.difference(
                        Set::new(
                            |c: (i64, i64)|
                                bucket_key(c.0 as int, c.1 as int) == key && col_place(
                                    c.0 as int,
                                    c.1 as int,
                                ) < n,
                        ),
                    )),
                upto(i as int).finite(),
                self.known == upto(i as int).len(),
            decreases bucket.heights.len() - i,
        {
            proof {
                lemma_drop_one(before, key, pos, i as int);
            }
            if bucket.heights[i].is_some() {
                self.known = self.known - 1;
            }
            i += 1;
        }
        proof {
            assert forall|c: (i64, i64)|
                #![trigger self@.heights.dom().contains(c)]
                self@.heights.dom().contains(c) == (before@.heights.dom().contains(c)
                    && !column_footprint(pos).contains(c)) && (self@.heights.dom().contains(c)
                    ==> self@.heights[c] == before@.heights[c]) by {
                lemma_place(c.0 as int, c.1 as int);
            }
            assert(self@.heights =~= before@.heights.remove_keys(column_footprint(pos)));
            assert(self@.heights.dom() =~= upto(1024)) by {
                assert forall|c: (i64, i64)| self@.heights.dom().contains(c) == upto(
                    1024,
                ).contains(c) by {
                    lemma_place(c.0 as int, c.1 as int);
                }
            }
            assert(self@.residents =~= before@.residents.remove((pos.x, pos.z)));
        }
    }

    /// Number of columns with a known height.
    pub fn len(&self) -> (r: usize)
        requires
            self.wf(),
        ensures
            self@.heights.dom().finite(),
            r == self@.heights.dom().len(),
    {
        self.known
    }

    pub fn is_empty(&self) -> (r: bool)
        requires
            self.wf(),
        ensures
            r == (self@.heights.dom() =~= Set::<(i64, i64)>::empty()),
    {
        proof {
            if self.known == 0 {
                self@.heights.dom().lemma_len0_is_empty();
            }
        }
        self.known == 0
    }

    /// Number of chunk columns with at least one resident chunk.
    pub fn resident_columns(&self) -> (r: usize)
        requires
            self.wf(),
        ensures
            self@.residents.dom().finite(),
            r == self@.residents.dom().len(),
    {
        let n: usize = self.buckets.len();
        proof {
            let keys = self.buckets@.dom();
            let cols = self@.residents.dom();
            let f = |k: Key| (k.0, k.2);
            assert(keys.map(f) =~= cols) by {
                assert forall|c: (i64, i64)| #[trigger] cols.contains(c) implies keys.map(
                    f,
                ).contains(c) by {
                    assert(keys.contains((c.0, 0, c.1)) && f((c.0, 0, c.1)) == c);
                }
                assert forall|c: (i64, i64)| #[trigger] keys.map(f).contains(c) implies cols.contains(
                    c,
                ) by {
                    let k = choose|k: Key| keys.contains(k) && f(k) == c;
                    assert(k == (c.0, 0i64, c.1));
                }
            }
            vstd::set_lib::lemma_map_size(keys, cols, f);
        }
        n
    }

    fn is_resident(&self, x: i64, z: i64) -> (r: bool)
        ensures
            r == self@.resident(x as int, z as int),
    {
        self.buckets.contains((div_floor(x, 32), 0, div_floor(z, 32)))
    }
}

/// The columns of a chunk column.
pub open spec fn column_footprint(pos: ChunkPos) -> Set<(i64, i64)> {
    Set::new(|c: (i64, i64)| c.0 as int / 32 == pos.x && c.1 as int / 32 == pos.z)
}

proof fn lemma_place(x: int, z: int)
    requires
        i64::MIN <= x <= i64::MAX,
        i64::MIN <= z <= i64::MAX,
    ensures
        0 <= col_place(x, z) < 1024,
        bucket_key(x, z).0 == x / 32,
        bucket_key(x, z).2 == z / 32,
        x == (x / 32) * 32 + col_place(x, z) % 32,
        z == (z / 32) * 32 + col_place(x, z) / 32,
{
}

/// Taking one more place of a bucket out of the known columns.
proof fn lemma_drop_one(h: ColumnHeights, key: Key, pos: ChunkPos, n: int)
    requires
        h.buckets@.dom().contains(key),
        key == (pos.x, 0i64, pos.z),
        0 <= n < 1024,
        h.buckets@[key].heights.len() == 1024,
        h.buckets@[key].heights[n] is Some ==> real_column(key, n),
        h@.heights.dom().finite(),
    ensures
        ({
            let all = h@.heights.dom();
            let below = |m: int| Set::new(
                |c: (i64, i64)|
                    bucket_key(c.0 as int, c.1 as int) == key && col_place(c.0 as int, c.1 as int)
                        < m,
            );
            let a = all.difference(below(n));
            let b = all.difference(below(n + 1));
            &&& b.finite()
            &&& h.buckets@[key].heights[n] is Some ==> a.len() == b.len() + 1
            &&& h.buckets@[key].heights[n] is None ==> a.len() == b.len()
        }),
{
    let all = h@.heights.dom();
    let below = |m: int| Set::new(
        |c: (i64, i64)|
            bucket_key(c.0 as int, c.1 as int) == key && col_place(c.0 as int, c.1 as int) < m,
    );
    let a = all.difference(below(n));
    let b = all.difference(below(n + 1));
    let x = pos.x * 32 + n % 32;
    let z = pos.z * 32 + n / 32;
    if h.buckets@[key].heights[n] is Some {
        let c = (x as i64, z as i64);
        lemma_place(x, z);
        assert(col_place(x, z) == n && bucket_key(x, z) == key);
        assert(all.contains(c));
        assert(a.contains(c));
        assert(b =~= a.remove(c)) by {
            assert forall|d: (i64, i64)| b.contains(d) == a.remove(c).contains(d) by {
                lemma_place(d.0 as int, d.1 as int);
            }
        }
    } else {
        assert(a =~= b) by {
            assert forall|d: (i64, i64)| a.contains(d) implies b.contains(d) by {
                lemma_place(d.0 as int, d.1 as int);
            }
        }
    }
}

/// The heightmap is bounded by what is resident: only columns with a resident
/// chunk have a height, and there are at most 1024 of them per chunk column.
pub proof fn lemma_heights_bounded(h: ColumnHeights)
    requires
        h.wf(),
        h@.residents.dom().finite(),
    ensures
        h@.bounded(),
        h@.heights.dom().len() <= 1024 * h@.residents.dom().len(),
{
    let cols = h@.heights.dom();
    assert forall|c: (i64, i64)| #[trigger] cols.contains(c) implies h@.residents.dom().contains(
        chunk_column(c),
    ) by {
        lemma_place(c.0 as int, c.1 as int);
    }
    lemma_fibres(cols, h@.residents.dom());
}

/// The chunk column of a column.
spec fn chunk_column(c: (i64, i64)) -> (i64, i64) {
    ((c.0 as int / 32) as i64, (c.1 as int / 32) as i64)
}

proof fn lemma_fibres(cols: Set<(i64, i64)>, keys: Set<(i64, i64)>)
    requires
        keys.finite(),
        forall|c: (i64, i64)| #[trigger] cols.contains(c) ==> keys.contains(chunk_column(c)),
    ensures
        cols.finite(),
        cols.len() <= 1024 * keys.len(),
    decreases keys.len(),
{
    if keys.len() == 0 {
        keys.lemma_len0_is_empty();
        assert(cols =~= Set::empty());
    } else {
        let k = keys.choose();
        let fibre = cols.filter(|c: (i64, i64)| chunk_column(c) == k);
        let rest = cols.difference(fibre);
        lemma_fibres(rest, keys.remove(k));
        let g = |n: int| ((k.0 * 32 + n % 32) as i64, (k.1 * 32 + n / 32) as i64);
        let range = vstd::set_lib::set_int_range(0, 1024);
        vstd::set_lib::lemma_int_range(0, 1024);
        vstd::set_lib::lemma_map_size_bound(range, range.map(g), g);
        assert(fibre.subset_of(range.map(g))) by {
            assert forall|c: (i64, i64)| #[trigger] fibre.contains(c) implies range.map(g).contains(
                c,
            ) by {
                lemma_place(c.0 as int, c.1 as int);
                let n = col_place(c.0 as int, c.1 as int);
                assert(range.contains(n) && g(n) == c);
            }
        }
        vstd::set_lib::lemma_len_subset(fibre, range.map(g));
        vstd::set_lib::lemma_set_disjoint_lens(fibre, rest);
        assert(fibre.union(rest) =~= cols);
    }
}

/// A column is resident iff the chunk column that holds it has a resident chunk.
pub proof fn lemma_resident_by_chunk(v: HeightsView, p: WorldPos)
    ensures
        v.resident(p.x as int, p.z as int) == v.residents.dom().contains(
            (p.spec_chunk().x, p.spec_chunk().z),
        ),
{
}

/// The highest solid block wins, in whatever order chunks report: raising a
/// resident column never lowers it, leaves it at least as high as told, and no
/// higher than it must be. No other column changes, and without a resident chunk
/// nothing does.
pub proof fn lemma_highest_wins(v: HeightsView, x: i64, z: i64, a: i64, b: i64, c: (i64, i64))
    ensures
        v.after_raise(x, z, a).after_raise(x, z, b) == v.after_raise(x, z, b).after_raise(x, z, a),
        v.after_raise(x, z, a).residents == v.residents,
        c != (x, z) ==> v.after_raise(x, z, a).heights.dom().contains(c) == v.heights.dom().contains(
            c,
        ) && v.after_raise(x, z, a).heights[c] == v.heights[c],
        !v.resident(x as int, z as int) ==> v.after_raise(x, z, a) == v,
        v.resident(x as int, z as int) ==> {
            let w = v.after_raise(x, z, a);
            &&& w.heights.dom().contains((x, z))
            &&& w.heights[(x, z)] >= a
            &&& v.heights.dom().contains((x, z)) ==> w.heights[(x, z)] >= v.heights[(x, z)]
            &&& w.heights[(x, z)] == a || (v.heights.dom().contains((x, z)) && w.heights[(x, z)]
                == v.heights[(x, z)])
        },
{
    let l = v.after_raise(x, z, a).after_raise(x, z, b);
    let r = v.after_raise(x, z, b).after_raise(x, z, a);
    assert(l.heights =~= r.heights);
    assert(l =~= r);
}

/// A chunk that comes and goes leaves no trace.
pub proof fn lemma_load_then_unload(v: HeightsView, pos: ChunkPos)
    requires
        v.bounded(),
        v.residents.dom().contains((pos.x, pos.z)) ==> v.residents[(pos.x, pos.z)] >= 1,
    ensures
        v.after_load(pos).after_unload(pos) == v,
{
    let w = v.after_load(pos).after_unload(pos);
    assert(w.residents =~= v.residents);
    assert(w.heights =~= v.heights) by {
        assert forall|c: (i64, i64)| #[trigger] v.heights.dom().contains(c) implies w.heights.dom().contains(
            c,
        ) by {
            assert(v.resident(c.0 as int, c.1 as int));
        }
    }
    assert(w =~= v);
}

/// Unloading counts down, and only a chunk column's last chunk takes heights with
/// it: those of the columns in it, and no others.
pub proof fn lemma_last_chunk_drops_heights(v: HeightsView, pos: ChunkPos, p: WorldPos)
    requires
        v.residents.dom().contains((pos.x, pos.z)),
    ensures
        ({
            let w = v.after_unload(pos);
            let col = (pos.x, pos.z);
            let mine = p.spec_chunk().x == pos.x && p.spec_chunk().z == pos.z;
            let known = v.heights.dom().contains((p.x, p.z));
            &&& v.residents[col] > 1 ==> w.residents.dom().contains(col) && w.residents[col]
                == v.residents[col] - 1 && w.heights == v.heights
            &&& v.residents[col] <= 1 ==> !w.residents.dom().contains(col)
                && w.heights.dom().contains((p.x, p.z)) == (known && !mine)
            &&& !mine ==> w.heights.dom().contains((p.x, p.z)) == known && (known
                ==> w.heights[(p.x, p.z)] == v.heights[(p.x, p.z)])
            &&& forall|c: (i64, i64)| #[trigger]
                v.residents.dom().contains(c) && c != col ==> w.residents.dom().contains(c)
                    && w.residents[c] == v.residents[c]
        }),
{
}

} // verus!
