//! Surface heights of the columns the player has changed.

use crate::arith::{div_floor, lemma_div_floor, lemma_div_is, lemma_mod_add_multiple};
use crate::coords::ChunkPos;
use crate::planet::{lemma_canonical_chunk_holds_block, WorldShape};
use crate::seqs::lemma_contains_push;
use crate::sorted::{key_lt, Key, SortedMap};
use vstd::prelude::*;
use vstd::set_lib::lemma_map_size;

verus! {

/// The key of a canonical column: its chunk, then its place within it.
spec fn col_key(p: (int, int)) -> Key {
    ((p.0 / 32) as i64, (p.1 / 32) as i64, (p.0 % 32 + 32 * (p.1 % 32)) as i64)
}

/// The column with a given key.
spec fn key_col(k: Key) -> (int, int) {
    (k.0 * 32 + k.2 as int % 32, k.1 * 32 + k.2 as int / 32)
}

/// Surface heights for columns the player has *changed*, kept sparse so that
/// every LOD level can honour edits.
///
/// A coarse cell's height is the minimum real surface over the cell: coarse
/// terrain may sit below real ground but never above it. A mined column is
/// exactly where the seed and reality diverge, and the seed always reads
/// higher, so the affected cells are lowered after sampling.
///
/// Columns are stored under their *canonical* position, so that an edit made on
/// one lap of the world reaches every lap. They are ordered by chunk, so that a
/// node visits only the edits inside its own footprint.
#[derive(Debug)]
pub struct EditedColumns {
    heights: SortedMap<i32>,
    shape: WorldShape,
}

/// The recorded columns and the world's shape.
pub struct EditsView {
    /// Heights by canonical column.
    pub columns: Map<(int, int), i32>,
    pub shape: WorldShape,
}

impl EditsView {
    /// The canonical column of a column on any lap.
    pub open spec fn canon(self, x: int, z: int) -> (int, int) {
        (x % self.shape.sx(), z % self.shape.sz())
    }

    /// The recorded height of a column on any lap.
    pub open spec fn edit_at(self, x: int, z: int) -> Option<i32> {
        if self.columns.dom().contains(self.canon(x, z)) {
            Some(self.columns[self.canon(x, z)])
        } else {
            None
        }
    }

    /// Column `(wx, wz)` was edited and lies in the cell `(ix, iz)` of a node,
    /// within the chunks of the node's footprint.
    pub open spec fn touches(
        self,
        node: Footprint,
        ix: int,
        iz: int,
        wx: int,
        wz: int,
    ) -> bool {
        &&& self.edit_at(wx, wz) is Some
        &&& (wx - node.x) / node.stride == ix
        &&& (wz - node.z) / node.stride == iz
        &&& node.x / 32 <= wx / 32 < node.x / 32 + node.stride
        &&& node.z / 32 <= wz / 32 < node.z / 32 + node.stride
    }

    /// The height an edited column gives its cell, not below the floor.
    pub open spec fn height_over(self, wx: int, wz: int, floor: i32) -> i32 {
        let h = self.edit_at(wx, wz)->0;
        if h > floor {
            h
        } else {
            floor
        }
    }
}

/// A node's origin in blocks and its blocks per cell.
pub struct Footprint {
    pub x: int,
    pub z: int,
    pub stride: int,
}

impl View for EditedColumns {
    type V = EditsView;

    closed spec fn view(&self) -> EditsView {
        EditsView {
            columns: Map::new(
                |p: (int, int)|
                    0 <= p.0 < self.shape.sx() && 0 <= p.1 < self.shape.sz()
                        && self.heights@.dom().contains(col_key(p)),
                |p: (int, int)| self.heights@[col_key(p)],
            ),
            shape: self.shape,
        }
    }
}

/// Every key is that of a canonical column.
spec fn keys_canonical(heights: Map<Key, i32>, shape: WorldShape) -> bool {
    forall|k: Key| #[trigger]
        heights.dom().contains(k) ==> 0 <= k.2 < 1024 && 0 <= k.0 < shape.sx() / 32 && 0 <= k.1
            < shape.sz() / 32
}

proof fn lemma_key_col(k: Key, shape: WorldShape)
    requires
        shape.legal(),
        0 <= k.2 < 1024,
        0 <= k.0 < shape.sx() / 32,
        0 <= k.1 < shape.sz() / 32,
    ensures
        col_key(key_col(k)) == k,
        0 <= key_col(k).0 < shape.sx(),
        0 <= key_col(k).1 < shape.sz(),
{
    let p = key_col(k);
    assert(p.0 / 32 == k.0 && p.0 % 32 == k.2 as int % 32);
    assert(p.1 / 32 == k.1 && p.1 % 32 == k.2 as int / 32);
}

impl Clone for EditedColumns {
    fn clone(&self) -> (r: Self)
        ensures
            r@ == self@,
    {
        proof {
            use_type_invariant(self);
        }
        let mut heights: SortedMap<i32> = SortedMap::new();
        let n: usize = self.heights.len();
        let ghost keys = self.heights.keys();
        let mut i: usize = 0;
        while i < n
            invariant
                i <= n,
                n == keys.len(),
                keys == self.heights.keys(),
                forall|k: Key| #[trigger]
                    heights@.dom().contains(k) <==> keys.take(i as int).contains(k),
                forall|k: Key| #[trigger]
                    heights@.dom().contains(k) ==> self.heights@.dom().contains(k) && heights@[k]
                        == self.heights@[k],
            decreases n - i,
        {
            let k: Key = self.heights.key_at(i);
            proof {
                assert(keys.take(i + 1) =~= keys.take(i as int).push(k));
                lemma_contains_push(keys.take(i as int), k);
            }
            heights.insert(k, *self.heights.value_at(i));
            i += 1;
        }
        proof {
            assert(keys.take(i as int) =~= keys);
            assert forall|k: Key| #[trigger]
                self.heights@.dom().contains(k) implies heights@.dom().contains(k) by {
                assert(self.heights.keys().contains(k));
            }
            assert(heights@ =~= self.heights@);
        }
        EditedColumns { heights, shape: self.shape }
    }
}

impl EditedColumns {
    #[verifier::type_invariant]
    spec fn inv(self) -> bool {
        self.shape.legal() && keys_canonical(self.heights@, self.shape)
    }

    /// An empty overlay for a world of the given shape.
    pub fn new(shape: WorldShape) -> (r: Self)
        ensures
            r@.columns == Map::<(int, int), i32>::empty(),
            r@.shape == shape,
    {
        proof {
            use_type_invariant(&shape);
        }
        let r = EditedColumns { heights: SortedMap::new(), shape };
        assert(r@.columns =~= Map::<(int, int), i32>::empty());
        r
    }

    pub fn is_empty(&self) -> (r: bool)
        ensures
            r == (self@.columns.dom() =~= Set::<(int, int)>::empty()),
    {
        proof {
            use_type_invariant(self);
        }
        let r = self.heights.is_empty();
        proof {
            if !r {
                let k = self.heights.keys()[0];
                assert(self.heights.keys().contains(k));
                assert(self.heights@.dom().contains(k));
                lemma_key_col(k, self.shape);
                assert(self@.columns.dom().contains(key_col(k)));
            }
        }
        r
    }

    /// Number of recorded columns.
    pub fn len(&self) -> (r: usize)
        ensures
            self@.columns.dom().finite(),
            r == self@.columns.dom().len(),
    {
        proof {
            use_type_invariant(self);
        }
        let n: usize = self.heights.len();
        proof {
            let keys = self.heights@.dom();
            let cols = self@.columns.dom();
            let f = |k: Key| key_col(k);
            assert(keys.map(f) =~= cols) by {
                assert forall|p: (int, int)| #[trigger] cols.contains(p) implies keys.map(
                    f,
                ).contains(p) by {
                    let k = col_key(p);
                    assert(keys.contains(k));
                    assert(f(k) == p);
                }
                assert forall|p: (int, int)| #[trigger] keys.map(f).contains(p) implies cols.contains(
                    p,
                ) by {
                    let k = choose|k: Key| keys.contains(k) && f(k) == p;
                    lemma_key_col(k, self.shape);
                }
            }
            assert(vstd::relations::injective_on(f, keys)) by {
                assert forall|a: Key, b: Key|
                    keys.contains(a) && keys.contains(b) && #[trigger] f(a) == #[trigger] f(
                        b,
                    ) implies a == b by {
                    lemma_key_col(a, self.shape);
                    lemma_key_col(b, self.shape);
                }
            }
            lemma_map_size(keys, cols, f);
        }
        n
    }

    /// The key under which a column on any lap is stored.
    fn key_for(&self, x: i64, z: i64) -> (k: Key)
        ensures
            k == col_key(self@.canon(x as int, z as int)),
            0 <= k.2 < 1024,
            0 <= k.0 < self@.shape.sx() / 32,
            0 <= k.1 < self@.shape.sz() / 32,
            0 <= self@.canon(x as int, z as int).0 < self@.shape.sx(),
            0 <= self@.canon(x as int, z as int).1 < self@.shape.sz(),
    {
        proof {
            use_type_invariant(self);
        }
        let cx: i64 = self.shape.canonical_x(x);
        let cz: i64 = self.shape.canonical_z(z);
        (cx / 32, cz / 32, cx % 32 + 32 * (cz % 32))
    }

    /// Record a column's *true* surface height (highest solid block), replacing
    /// any previous value. The column may be on any lap of the world.
    ///
    /// Replace rather than minimum: the caller rescans the column, and
    /// refilling a hole must be able to undo the drop.
    pub fn record(&mut self, x: i64, z: i64, surface_y: i32)
        ensures
            final(self)@.shape == old(self)@.shape,
            final(self)@.columns == old(self)@.columns.insert(
                old(self)@.canon(x as int, z as int),
                surface_y,
            ),
    {
        proof {
            use_type_invariant(&*self);
        }
        let ghost before = self@;
        let ghost p = before.canon(x as int, z as int);
        let k: Key = self.key_for(x, z);
        let mut heights: SortedMap<i32> = SortedMap::new();
        core::mem::swap(&mut self.heights, &mut heights);
        heights.insert(k, surface_y);
        self.heights = heights;
        proof {
            assert forall|q: (int, int)|
                0 <= q.0 < before.shape.sx() && 0 <= q.1 < before.shape.sz() && #[trigger] col_key(q)
                    == k implies q == p by {
                assert(key_col(col_key(q)) == q);
                assert(key_col(col_key(p)) == p);
            }
            assert(self@.columns =~= before.columns.insert(p, surface_y));
        }
    }

    /// The recorded height for a column, if it has been edited. The column may
    /// be on any lap of the world.
    pub fn get(&self, x: i64, z: i64) -> (r: Option<i32>)
        ensures
            r == self@.edit_at(x as int, z as int),
    {
        let k: Key = self.key_for(x, z);
        match self.heights.get(k) {
            Some(h) => Some(*h),
            None => None,
        }
    }
}

/// A set of columns.
type Columns = spec_fn(int, int) -> bool;

/// `now` is `was` with every cell lowered to the edited columns of `done` that
/// lie in it, as far as those are lower.
pub open spec fn lowered(
    v: EditsView,
    node: Footprint,
    floor: i32,
    was: Seq<i32>,
    now: Seq<i32>,
    done: spec_fn(int, int) -> bool,
) -> bool {
    &&& now.len() == was.len()
    &&& forall|idx: int|
        0 <= idx < 1024 ==> cell_lowered(v, node, floor, was[idx], #[trigger] now[idx], idx, done)
}

/// The cell at `idx` has the least of its own height and those of its columns.
pub open spec fn cell_lowered(
    v: EditsView,
    node: Footprint,
    floor: i32,
    was: i32,
    now: i32,
    idx: int,
    done: spec_fn(int, int) -> bool,
) -> bool {
    &&& now <= was
    &&& now == was || exists|wx: int, wz: int|
        done(wx, wz) && #[trigger] v.touches(node, idx % 32, idx / 32, wx, wz) && now
            == v.height_over(wx, wz, floor)
    &&& forall|wx: int, wz: int|
        done(wx, wz) && #[trigger] v.touches(node, idx % 32, idx / 32, wx, wz) ==> now
            <= v.height_over(wx, wz, floor)
}

/// Taking one more column into account.
proof fn lemma_lower_one(
    v: EditsView,
    node: Footprint,
    floor: i32,
    was: Seq<i32>,
    mid: Seq<i32>,
    now: Seq<i32>,
    before: Columns,
    after: Columns,
    wx: int,
    wz: int,
)
    requires
        was.len() == 1024,
        lowered(v, node, floor, was, mid, before),
        forall|x: int, z: int| #[trigger] after(x, z) <==> before(x, z) || (x == wx && z == wz),
        now.len() == 1024,
        forall|idx: int|
            0 <= idx < 1024 ==> #[trigger] now[idx] == (if v.touches(
                node,
                idx % 32,
                idx / 32,
                wx,
                wz,
            ) && v.height_over(wx, wz, floor) < mid[idx] {
                v.height_over(wx, wz, floor)
            } else {
                mid[idx]
            }),
    ensures
        lowered(v, node, floor, was, now, after),
{
    assert forall|idx: int| 0 <= idx < 1024 implies cell_lowered(
        v,
        node,
        floor,
        was[idx],
        #[trigger] now[idx],
        idx,
        after,
    ) by {
        let m = mid[idx];
        assert(cell_lowered(v, node, floor, was[idx], m, idx, before));
        if now[idx] != m {
            assert(after(wx, wz) && v.touches(node, idx % 32, idx / 32, wx, wz));
        } else if m != was[idx] {
            let (x, z) = choose|x: int, z: int|
                before(x, z) && #[trigger] v.touches(node, idx % 32, idx / 32, x, z) && m
                    == v.height_over(x, z, floor);
            assert(after(x, z) && v.touches(node, idx % 32, idx / 32, x, z));
        }
        assert forall|x: int, z: int|
            after(x, z) && #[trigger] v.touches(node, idx % 32, idx / 32, x, z) implies now[idx]
            <= v.height_over(x, z, floor) by {}
    }
}

/// Columns outside `before` that no edit touches make no difference.
proof fn lemma_lowered_same(
    v: EditsView,
    node: Footprint,
    floor: i32,
    was: Seq<i32>,
    now: Seq<i32>,
    before: Columns,
    after: Columns,
)
    requires
        lowered(v, node, floor, was, now, before),
        forall|x: int, z: int, ix: int, iz: int| #[trigger]
            v.touches(node, ix, iz, x, z) ==> before(x, z) == after(x, z),
    ensures
        lowered(v, node, floor, was, now, after),
{
    assert forall|idx: int| 0 <= idx < 1024 implies cell_lowered(
        v,
        node,
        floor,
        was[idx],
        #[trigger] now[idx],
        idx,
        after,
    ) by {
        assert(cell_lowered(v, node, floor, was[idx], now[idx], idx, before));
        if now[idx] != was[idx] {
            let (x, z) = choose|x: int, z: int|
                before(x, z) && #[trigger] v.touches(node, idx % 32, idx / 32, x, z) && now[idx]
                    == v.height_over(x, z, floor);
            assert(after(x, z) && v.touches(node, idx % 32, idx / 32, x, z));
        }
        assert forall|x: int, z: int|
            after(x, z) && #[trigger] v.touches(node, idx % 32, idx / 32, x, z) implies now[idx]
            <= v.height_over(x, z, floor) by {}
    }
}

/// The key of an edited column of chunk `(cx, cz)`.
proof fn lemma_chunk_key(shape: WorldShape, x: int, z: int)
    requires
        shape.legal(),
    ensures
        ({
            let p = (x % shape.sx(), z % shape.sz());
            col_key(p) == (
                ((x / 32) % (shape.sx() / 32)) as i64,
                ((z / 32) % (shape.sz() / 32)) as i64,
                (x % 32 + 32 * (z % 32)) as i64,
            )
        }),
        0 <= x % shape.sx() < shape.sx(),
        0 <= z % shape.sz() < shape.sz(),
{
    lemma_canonical_chunk_holds_block(shape, x);
    lemma_canonical_chunk_holds_block(shape, z);
    lemma_div_floor(x, shape.sx());
    lemma_div_floor(z, shape.sz());
}

/// The cell of a node that lies `d` blocks from its origin, along one axis.
fn cell_along(d: i128, stride: i64) -> (r: Option<usize>)
    requires
        stride >= 1,
        -0x1_0000_0000_0000_0000_0000 <= d <= 0x1_0000_0000_0000_0000_0000,
    ensures
        match r {
            Some(i) => i < 32 && d as int / stride as int == i,
            None => !(0 <= d as int / stride as int && d as int / (stride as int) < 32),
        },
{
    proof {
        lemma_div_floor(d as int, stride as int);
    }
    if d < 0 {
        assert(d as int / (stride as int) < 0) by (nonlinear_arith)
            requires
                (d as int / stride as int) * stride <= d,
                d < 0,
                stride >= 1,
        ;
        return None;
    }
    let q: i128 = d / stride as i128;
    assert(q >= 0) by (nonlinear_arith)
        requires
            d < q * stride + stride,
            d >= 0,
            stride >= 1,
    ;
    if q < 32 {
        Some(q as usize)
    } else {
        None
    }
}

impl EditedColumns {
    /// Takes the edits of one chunk column into account.
    fn apply_chunk(
        &self,
        heights: &mut [i32],
        cx: i64,
        cz: i64,
        origin_x: i64,
        origin_z: i64,
        h_stride: i64,
        floor_y: i32,
        Ghost(was): Ghost<Seq<i32>>,
        Ghost(before): Ghost<Columns>,
        Ghost(after): Ghost<Columns>,
    )
        requires
            old(heights).len() == 1024,
            was.len() == 1024,
            1 <= h_stride,
            origin_x as int / 32 + h_stride <= i64::MAX,
            origin_z as int / 32 + h_stride <= i64::MAX,
            origin_x as int / 32 <= cx < origin_x as int / 32 + h_stride,
            origin_z as int / 32 <= cz < origin_z as int / 32 + h_stride,
            lowered(
                self@,
                Footprint { x: origin_x as int, z: origin_z as int, stride: h_stride as int },
                floor_y,
                was,
                old(heights)@,
                before,
            ),
            forall|x: int, z: int| #[trigger]
                after(x, z) <==> before(x, z) || (x / 32 == cx && z / 32 == cz),
        ensures
            final(heights).len() == 1024,
            lowered(
                self@,
                Footprint { x: origin_x as int, z: origin_z as int, stride: h_stride as int },
                floor_y,
                was,
                final(heights)@,
                after,
            ),
    {
        proof {
            use_type_invariant(self);
        }
        let ghost v = self@;
        let ghost node = Footprint {
            x: origin_x as int,
            z: origin_z as int,
            stride: h_stride as int,
        };
        let canon = self.shape.canonical_chunk(ChunkPos::new(cx, 0, cz));
        let start: usize = self.heights.rank((canon.x, canon.z, 0));
        let mut i: usize = start;
        let n: usize = self.heights.len();
        let ghost keys = self.heights.keys();
        let ghost upto = |j: int| -> Columns
            {
                |x: int, z: int|
                    before(x, z) || (x / 32 == cx && z / 32 == cz && exists|m: int|
                        0 <= m < j && #[trigger] keys[m] == col_key(v.canon(x, z)))
            };
        assert forall|x: int, z: int, ix: int, iz: int| #[trigger]
            v.touches(node, ix, iz, x, z) implies before(x, z) == upto(start as int)(x, z) by {
            lemma_chunk_key(self.shape, x, z);
            if x / 32 == cx && z / 32 == cz {
                assert forall|m: int| 0 <= m < start implies #[trigger] keys[m] != col_key(
                    v.canon(x, z),
                ) by {
                    assert(key_lt(keys[m], (canon.x, canon.z, 0)));
                }
            }
        }
        proof {
            lemma_lowered_same(v, node, floor_y, was, heights@, before, upto(start as int));
        }
        let mut going: bool = true;
        while i < n && going
            invariant
                v == self@,
                v.shape == self.shape,
                self.shape.legal(),
                keys_canonical(self.heights@, self.shape),
                self.heights.keys_listed(),
                keys == self.heights.keys(),
                n == keys.len(),
                start <= i <= n,
                heights.len() == 1024,
                was.len() == 1024,
                canon.x == cx as int % (self.shape.sx() / 32),
                canon.z == cz as int % (self.shape.sz() / 32),
                node == (Footprint {
                    x: origin_x as int,
                    z: origin_z as int,
                    stride: h_stride as int,
                }),
                1 <= h_stride,
                origin_x as int / 32 + h_stride <= i64::MAX,
                origin_z as int / 32 + h_stride <= i64::MAX,
                origin_x as int / 32 <= cx < origin_x as int / 32 + h_stride,
                origin_z as int / 32 <= cz < origin_z as int / 32 + h_stride,
                forall|m: int|
                    start <= m < n ==> !key_lt(#[trigger] keys[m], (canon.x, canon.z, 0)),
                forall|j: int, x: int, z: int| #[trigger]
                    upto(j)(x, z) == (before(x, z) || (x / 32 == cx && z / 32 == cz && exists|m: int|
                        0 <= m < j && #[trigger] keys[m] == col_key(v.canon(x, z)))),
                lowered(v, node, floor_y, was, heights@, upto(i as int)),
                !going ==> i < n && !(keys[i as int].0 == canon.x && keys[i as int].1 == canon.z),
            decreases n - i, going as int,
        {
            let k: Key = self.heights.key_at(i);
            if k.0 == canon.x && k.1 == canon.z {
                assert(self.heights@.dom().contains(k));
                let h: i32 = *self.heights.value_at(i);
                let wx: i128 = cx as i128 * 32 + (k.2 % 32) as i128;
                let wz: i128 = cz as i128 * 32 + (k.2 / 32) as i128;
                let ghost mid = heights@;
                proof {
                    lemma_chunk_key(self.shape, wx as int, wz as int);
                    assert(wx as int / 32 == cx && wz as int / 32 == cz);
                    assert(col_key(v.canon(wx as int, wz as int)) == k);
                    assert(v.edit_at(wx as int, wz as int) == Some(h));
                }
                let ix: Option<usize> = cell_along(wx - origin_x as i128, h_stride);
                let iz: Option<usize> = cell_along(wz - origin_z as i128, h_stride);
                if let (Some(ix), Some(iz)) = (ix, iz) {
                    let idx: usize = iz * 32 + ix;
                    let h: i32 = if h > floor_y {
                        h
                    } else {
                        floor_y
                    };
                    if h < heights[idx] {
                        heights[idx] = h;
                    }
                }
                proof {
                    assert forall|x: int, z: int| #[trigger]
                        upto(i + 1)(x, z) <==> upto(i as int)(x, z) || (x == wx && z == wz) by {
                        lemma_chunk_key(self.shape, x, z);
                        assert(keys[i as int] == k);
                        if upto(i + 1)(x, z) && !upto(i as int)(x, z) {
                            let m = choose|m: int|
                                0 <= m < i + 1 && #[trigger] keys[m] == col_key(v.canon(x, z));
                            assert(m == i);
                        }
                        if upto(i as int)(x, z) && !before(x, z) {
                            let m = choose|m: int|
                                0 <= m < i && #[trigger] keys[m] == col_key(v.canon(x, z));
                            assert(0 <= m < i + 1 && keys[m] == col_key(v.canon(x, z)));
                        }
                    }
                    lemma_lower_one(
                        v,
                        node,
                        floor_y,
                        was,
                        mid,
                        heights@,
                        upto(i as int),
                        upto(i + 1),
                        wx as int,
                        wz as int,
                    );
                }
                i += 1;
            } else {
                going = false;
            }
        }
        assert forall|x: int, z: int, ix: int, iz: int| #[trigger]
            v.touches(node, ix, iz, x, z) implies upto(i as int)(x, z) == after(x, z) by {
            lemma_chunk_key(self.shape, x, z);
            let k = col_key(v.canon(x, z));
            if x / 32 == cx && z / 32 == cz {
                assert(self.heights@.dom().contains(k));
                assert(keys.contains(k));
                let m = choose|m: int| 0 <= m < keys.len() && keys[m] == k;
                if m >= i {
                    assert(i < n);
                    if m > i {
                        assert(key_lt(keys[i as int], keys[m]));
                    }
                    assert(!key_lt(keys[i as int], (canon.x, canon.z, 0)));
                    assert(false);
                }
            }
        }
        proof {
            lemma_lowered_same(v, node, floor_y, was, heights@, upto(i as int), after);
        }
    }

    /// Lower this node's cells to account for the edits inside its footprint.
    ///
    /// `heights` is a grid of 32 x 32 cells, z-major, as sampled from the seed;
    /// `origin_x` and `origin_z` are the node's origin in blocks, on whatever
    /// lap the node is, and `h_stride` its blocks per cell. `floor_y` bounds
    /// the result: a column mined out entirely reports no terrain.
    ///
    /// A cell already at or below an edit keeps its value, and a column built
    /// *up* does not raise it: that would put coarse terrain above the real
    /// ground of the columns sharing the cell.
    pub fn apply_to_node(
        &self,
        heights: &mut [i32],
        origin_x: i64,
        origin_z: i64,
        h_stride: i64,
        floor_y: i32,
    )
        requires
            !(self@.columns.dom() =~= Set::<(int, int)>::empty()) ==> {
                &&& old(heights).len() == 1024
                &&& 1 <= h_stride
                &&& origin_x as int / 32 + h_stride <= i64::MAX
                &&& origin_z as int / 32 + h_stride <= i64::MAX
            },
        ensures
            self@.columns.dom() =~= Set::<(int, int)>::empty() ==> final(heights)@ == old(
                heights,
            )@,
            !(self@.columns.dom() =~= Set::<(int, int)>::empty()) ==> lowered(
                self@,
                Footprint { x: origin_x as int, z: origin_z as int, stride: h_stride as int },
                floor_y,
                old(heights)@,
                final(heights)@,
                |x: int, z: int| true,
            ),
    {
        if self.is_empty() {
            return;
        }
        let ghost was = heights@;
        let ghost v = self@;
        let ghost node = Footprint {
            x: origin_x as int,
            z: origin_z as int,
            stride: h_stride as int,
        };
        let c0x: i64 = div_floor(origin_x, 32);
        let c0z: i64 = div_floor(origin_z, 32);
        let ghost upto = |bx: int, bz: int| -> Columns
            { |x: int, z: int| z / 32 < bz || (z / 32 == bz && x / 32 < bx) };
        proof {
            let none: Columns = |x: int, z: int| false;
            assert(lowered(v, node, floor_y, was, heights@, none));
            lemma_lowered_same(v, node, floor_y, was, heights@, none, upto(c0x as int, c0z as int));
        }
        let mut cz: i64 = c0z;
        while cz < c0z + h_stride
            invariant
                v == self@,
                heights.len() == 1024,
                was.len() == 1024,
                node == (Footprint {
                    x: origin_x as int,
                    z: origin_z as int,
                    stride: h_stride as int,
                }),
                1 <= h_stride,
                origin_x as int / 32 + h_stride <= i64::MAX,
                origin_z as int / 32 + h_stride <= i64::MAX,
                c0x == origin_x as int / 32,
                c0z == origin_z as int / 32,
                c0z <= cz <= c0z + h_stride,
                upto == (|bx: int, bz: int| -> Columns
                    { |x: int, z: int| z / 32 < bz || (z / 32 == bz && x / 32 < bx) }),
                lowered(v, node, floor_y, was, heights@, upto(c0x as int, cz as int)),
            decreases c0z + h_stride - cz,
        {
            let mut cx: i64 = c0x;
            while cx < c0x + h_stride
                invariant
                    v == self@,
                    heights.len() == 1024,
                    was.len() == 1024,
                    node == (Footprint {
                        x: origin_x as int,
                        z: origin_z as int,
                        stride: h_stride as int,
                    }),
                    1 <= h_stride,
                    origin_x as int / 32 + h_stride <= i64::MAX,
                    origin_z as int / 32 + h_stride <= i64::MAX,
                    c0x == origin_x as int / 32,
                    c0z == origin_z as int / 32,
                    c0z <= cz < c0z + h_stride,
                    c0x <= cx <= c0x + h_stride,
                    upto == (|bx: int, bz: int| -> Columns
                        { |x: int, z: int| z / 32 < bz || (z / 32 == bz && x / 32 < bx) }),
                    lowered(v, node, floor_y, was, heights@, upto(cx as int, cz as int)),
                decreases c0x + h_stride - cx,
            {
                self.apply_chunk(
                    heights,
                    cx,
                    cz,
                    origin_x,
                    origin_z,
                    h_stride,
                    floor_y,
                    Ghost(was),
                    Ghost(upto(cx as int, cz as int)),
                    Ghost(upto(cx + 1, cz as int)),
                );
                cx += 1;
            }
            proof {
                lemma_lowered_same(
                    v,
                    node,
                    floor_y,
                    was,
                    heights@,
                    upto(cx as int, cz as int),
                    upto(c0x as int, cz + 1),
                );
            }
            cz += 1;
        }
        proof {
            lemma_lowered_same(
                v,
                node,
                floor_y,
                was,
                heights@,
                upto(c0x as int, cz as int),
                |x: int, z: int| true,
            );
        }
    }
}

/// An edit is seen on every lap of the world, in both directions.
pub proof fn lemma_edit_on_every_lap(v: EditsView, x: int, z: int, laps_x: int, laps_z: int)
    requires
        v.shape.legal(),
    ensures
        v.edit_at(x + laps_x * v.shape.sx(), z + laps_z * v.shape.sz()) == v.edit_at(x, z),
{
    lemma_mod_add_multiple(x, laps_x, v.shape.sx());
    lemma_mod_add_multiple(z, laps_z, v.shape.sz());
}

/// Whatever the stride of a node, the cell over an edited column of its area is
/// at or below the edit, once the edits are applied.
pub proof fn lemma_edit_lowers_every_level(
    v: EditsView,
    node: Footprint,
    floor: i32,
    was: Seq<i32>,
    now: Seq<i32>,
    wx: int,
    wz: int,
)
    requires
        node.stride >= 1,
        node.x % 32 == 0,
        node.z % 32 == 0,
        lowered(v, node, floor, was, now, |x: int, z: int| true),
        v.edit_at(wx, wz) is Some,
        node.x <= wx < node.x + 32 * node.stride,
        node.z <= wz < node.z + 32 * node.stride,
    ensures
        ({
            let ix = (wx - node.x) / node.stride;
            let iz = (wz - node.z) / node.stride;
            &&& 0 <= ix < 32
            &&& 0 <= iz < 32
            &&& now[iz * 32 + ix] <= v.height_over(wx, wz, floor)
        }),
{
    let s = node.stride;
    let ix = (wx - node.x) / s;
    let iz = (wz - node.z) / s;
    lemma_cell_bound(wx - node.x, s);
    lemma_cell_bound(wz - node.z, s);
    let idx = iz * 32 + ix;
    assert(idx % 32 == ix && idx / 32 == iz);
    assert(cell_lowered(v, node, floor, was[idx], now[idx], idx, |x: int, z: int| true));
    assert(v.touches(node, idx % 32, idx / 32, wx, wz));
}

proof fn lemma_cell_bound(d: int, s: int)
    requires
        s >= 1,
        0 <= d < 32 * s,
    ensures
        0 <= d / s < 32,
{
    lemma_div_floor(d, s);
    let q = d / s;
    assert(q < 32) by (nonlinear_arith)
        requires
            q * s <= d,
            d < 32 * s,
            s >= 1,
    ;
}

/// In a node that starts on a chunk, each cell ends at the lowest of what it was
/// and what the edited columns in it give, none below the floor. A cell with no
/// edited column keeps its height, and none rises.
pub proof fn lemma_cell_takes_lowest_edit(
    v: EditsView,
    node: Footprint,
    floor: i32,
    was: Seq<i32>,
    now: Seq<i32>,
    ix: int,
    iz: int,
)
    requires
        node.stride >= 1,
        node.x % 32 == 0,
        node.z % 32 == 0,
        lowered(v, node, floor, was, now, |x: int, z: int| true),
        was.len() == 1024,
        0 <= ix < 32,
        0 <= iz < 32,
    ensures
        ({
            let at = iz * 32 + ix;
            let in_cell = |wx: int, wz: int|
                node.x + ix * node.stride <= wx < node.x + ix * node.stride + node.stride && node.z
                    + iz * node.stride <= wz < node.z + iz * node.stride + node.stride;
            &&& now[at] <= was[at]
            &&& now[at] == was[at] || exists|wx: int, wz: int|
                in_cell(wx, wz) && (#[trigger] v.edit_at(wx, wz) matches Some(h) && now[at] == (if h
                    > floor {
                    h
                } else {
                    floor
                }))
            &&& forall|wx: int, wz: int|
                in_cell(wx, wz) && #[trigger] v.edit_at(wx, wz) is Some ==> now[at] <= v.edit_at(
                    wx,
                    wz,
                )->0 || now[at] <= floor
        }),
{
    let s = node.stride;
    let at = iz * 32 + ix;
    assert(at % 32 == ix && at / 32 == iz);
    let all: Columns = |x: int, z: int| true;
    assert(cell_lowered(v, node, floor, was[at], now[at], at, all));
    assert forall|wx: int, wz: int|
        node.x + ix * s <= wx < node.x + ix * s + s && node.z + iz * s <= wz < node.z + iz * s + s
            && #[trigger] v.edit_at(wx, wz) is Some implies v.touches(node, ix, iz, wx, wz) by {
        lemma_div_is(wx - node.x, s, ix);
        lemma_div_is(wz - node.z, s, iz);
        lemma_in_footprint(node.x, s, ix, wx);
        lemma_in_footprint(node.z, s, iz, wz);
    }
    if now[at] != was[at] {
        let (wx, wz) = choose|wx: int, wz: int|
            all(wx, wz) && #[trigger] v.touches(node, at % 32, at / 32, wx, wz) && now[at]
                == v.height_over(wx, wz, floor);
        lemma_div_floor(wx - node.x, s);
        lemma_div_floor(wz - node.z, s);
        assert(v.edit_at(wx, wz) is Some);
    }
}

proof fn lemma_in_footprint(origin: int, s: int, i: int, w: int)
    requires
        s >= 1,
        origin % 32 == 0,
        0 <= i < 32,
        origin + i * s <= w < origin + i * s + s,
    ensures
        origin / 32 <= w / 32 < origin / 32 + s,
{
    assert(0 <= i * s && i * s + s <= 32 * s) by (nonlinear_arith)
        requires
            0 <= i < 32,
            s >= 1,
    ;
    assert(origin == (origin / 32) * 32);
}

/// An edit is recorded for its place on every lap of the world, replacing what was
/// there, and for no other place.
pub proof fn lemma_record_is_seen(v: EditsView, w: EditsView, x: int, z: int, h: i32, a: int, b: int)
    requires
        v.shape.legal(),
        w.shape == v.shape,
        w.columns == v.columns.insert(v.canon(x, z), h),
    ensures
        (a - x) % v.shape.sx() == 0 && (b - z) % v.shape.sz() == 0 ==> w.edit_at(a, b) == Some(h),
        !((a - x) % v.shape.sx() == 0 && (b - z) % v.shape.sz() == 0) ==> w.edit_at(a, b)
            == v.edit_at(a, b),
{
    lemma_same_place(x, a, v.shape.sx());
    lemma_same_place(z, b, v.shape.sz());
}

proof fn lemma_same_place(x: int, a: int, m: int)
    requires
        m > 0,
    ensures
        (a - x) % m == 0 <==> a % m == x % m,
{
    lemma_div_floor(a, m);
    lemma_div_floor(x, m);
    lemma_div_floor(a - x, m);
    let q = a / m - x / m;
    let r = a % m - x % m;
    assert(a - x == q * m + r) by (nonlinear_arith)
        requires
            a == (a / m) * m + a % m,
            x == (x / m) * m + x % m,
            q == a / m - x / m,
            r == a % m - x % m,
    ;
    if r >= 0 {
        lemma_div_is(a - x, m, q);
    } else {
        assert((q - 1) * m == q * m - m) by (nonlinear_arith);
        lemma_div_is(a - x, m, q - 1);
    }
}

} // verus!
