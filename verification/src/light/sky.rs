//! Sky light of a padded chunk, brightest cells first.

use crate::coords::{LocalPos, CHUNK_SIZE, CHUNK_VOLUME};
use crate::light::flood::owes;
use crate::light::model::{
    adjacent, below, is_light_of, lit_by, passed_on, straight_down, Cell, Field, Scene, MAX_LIGHT,
};
use crate::light::padded::{
    in_pad, inner, lemma_pad_index, pad_idx, pad_index, padded_cell, plane_light, plane_value,
    planes_valid, rim_cell, ring_cell, ring_value, NeighborSky, PAD, PAD_VOLUME,
};
use vstd::prelude::*;

verus! {

/// Sky light on the ring. From above comes the brighter of the daylight that
/// the heightmap gives each column (`top`) and the sky light of the chunk
/// above; from the sides, the neighbours' sky light; from below, none.
pub open spec fn sky_ring(
    top: Seq<u8>,
    planes: NeighborSky,
) -> spec_fn(int, int, int) -> int {
    |f: int, u: int, v: int|
        if f == 2 {
            if top[u + v * 32] as int > plane_value(planes, 2, u, v) {
                top[u + v * 32] as int
            } else {
                plane_value(planes, 2, u, v)
            }
        } else if f == 3 {
            0
        } else {
            plane_value(planes, f, u, v)
        }
}

/// The sources of sky light: the ring alone.
pub open spec fn ring_sky_sources(top: Seq<u8>, planes: NeighborSky) -> Field {
    |c: Cell|
        if inner(c) {
            0
        } else {
            ring_value(sky_ring(top, planes), c)
        }
}

/// The planes hold light levels.
pub open spec fn sky_levels(top: Seq<u8>, planes: NeighborSky) -> bool {
    &&& forall|i: int| 0 <= i < 1024 ==> #[trigger] top[i] <= MAX_LIGHT
    &&& forall|f: int, u: int, v: int|
        0 <= f < 6 && f != 3 && 0 <= u < 32 && 0 <= v < 32 ==> #[trigger] plane_value(
            planes,
            f,
            u,
            v,
        ) <= MAX_LIGHT
}

/// The padded volume given by a solidity map.
pub open spec fn map_scene(solid: Seq<bool>) -> Scene {
    Scene {
        size: (34, 34, 34),
        solid: |c: Cell| inner(c) && solid[pad_index(c)],
        accepts: |c: Cell| inner(c),
    }
}

/// A field held in an array over the padded volume.
pub open spec fn field_of(light: Seq<u8>) -> Field {
    |c: Cell| light[pad_index(c)] as int
}

/// Light in the making. `buckets[l]` lists cells that were at level `l` and may
/// have light to pass on.
struct SkyFlood {
    light: Vec<u8>,
    buckets: Vec<Vec<u32>>,
}

/// `c` is listed at level `l`.
spec fn listed(buckets: Seq<Vec<u32>>, l: int, c: Cell) -> bool {
    buckets[l]@.contains(pad_index(c) as u32)
}

/// `i` is the flat index of an inner cell.
spec fn is_inner_index(i: int) -> bool {
    exists|c: Cell| #[trigger] inner(c) && pad_index(c) == i
}

impl SkyFlood {
    spec fn lit(self) -> Field {
        field_of(self.light@)
    }

    /// The arrays have their sizes, levels are in range and lists hold inner
    /// cells.
    spec fn shaped(self) -> bool {
        &&& self.light.len() == PAD_VOLUME
        &&& self.buckets.len() == 16
        &&& forall|i: int| 0 <= i < PAD_VOLUME ==> #[trigger] self.light[i] <= 15
        &&& forall|l: int, k: int|
            #![trigger self.buckets[l]@[k]]
            0 <= l < 16 && 0 <= k < self.buckets[l].len() ==> is_inner_index(
                self.buckets[l]@[k] as int,
            )
    }

    /// Every inner cell with light to pass on is listed at its level.
    spec fn all_listed(self) -> bool {
        forall|c: Cell| #[trigger]
            inner(c) && self.lit()(c) >= 2 ==> listed(self.buckets@, self.lit()(c), c)
    }

    /// Full daylight has fallen as far as it can below `c`.
    spec fn fallen(self, scene: Scene, c: Cell) -> bool {
        let d = (c.0, c.1 - 1, c.2);
        inner(c) && self.lit()(c) == 15 ==> !scene.open_to_light(d) || self.lit()(d) == 15
    }

    /// The ring owes nothing and full daylight has fallen, but for `except`.
    spec fn settled_but(self, scene: Scene, except: Cell) -> bool {
        &&& forall|c: Cell| #[trigger] inner(c) && c != except ==> self.fallen(scene, c)
        &&& forall|a: Cell, b: Cell| #[trigger]
            owes(scene, true, self.lit(), a, b) ==> inner(a) || a == except
    }

    /// No cell is brighter than the sources account for, and on the ring the
    /// light is either still 0 or the source's.
    spec fn accounted(self, scene: Scene, sources: Field) -> bool {
        &&& forall|other: Field| #[trigger]
            lit_by(scene, true, sources, other) ==> below(scene, self.lit(), other)
        &&& forall|c: Cell| #[trigger]
            in_pad(c) && !inner(c) ==> self.lit()(c) == 0 || self.lit()(c) == sources(c)
    }

    spec fn seeding(self, scene: Scene, sources: Field, except: Cell) -> bool {
        &&& self.shaped()
        &&& self.all_listed()
        &&& self.settled_but(scene, except)
        &&& self.accounted(scene, sources)
    }

    /// The ring on `face` holds its sources, up to place `(u, v)`.
    spec fn face_done(self, sources: Field, face: int, u: int, v: int) -> bool {
        forall|s: int, t: int|
            0 <= s < 32 && 0 <= t < 32 && (t < v || (t == v && s < u)) ==> self.lit()(
                #[trigger] ring_cell(face, s, t),
            ) == sources(ring_cell(face, s, t))
    }

    /// The light only grew, and on the ring only in cell `r`.
    spec fn grew(self, before: SkyFlood, r: Cell) -> bool {
        forall|c: Cell| #[trigger]
            in_pad(c) ==> self.lit()(c) >= before.lit()(c) && (!inner(c) && c != r ==> self.lit()(c)
                == before.lit()(c))
    }

    /// Raises a cell to `val` if it is dimmer, listing it.
    fn raise(&mut self, i: usize, val: u8, Ghost(c): Ghost<Cell>)
        requires
            old(self).shaped(),
            inner(c),
            i == pad_index(c),
            val <= 15,
        ensures
            final(self).shaped(),
            old(self).all_listed() ==> final(self).all_listed(),
            old(self).lit()(c) < val && val > 1 ==> listed(final(self).buckets@, val as int, c),
            final(self).lit()(c) == (if old(self).lit()(c) < val {
                val as int
            } else {
                old(self).lit()(c)
            }),
            forall|d: Cell| #[trigger]
                in_pad(d) && d != c ==> final(self).lit()(d) == old(self).lit()(d),
            forall|l: int, d: Cell|
                0 <= l < 16 && listed(old(self).buckets@, l, d) ==> #[trigger] listed(
                    final(self).buckets@,
                    l,
                    d,
                ),
            forall|l: int|
                0 <= l < 16 && l != val ==> #[trigger] final(self).buckets[l] == old(
                    self,
                ).buckets[l],
    {
        proof {
            lemma_pad_index(c);
        }
        if self.light[i] < val {
            let ghost before = *self;
            self.light[i] = val;
            if val > 1 {
                let entry: u32 = i as u32;
                let ghost list = self.buckets[val as int]@;
                self.buckets[val as usize].push(entry);
                assert(self.buckets[val as int]@ == list.push(entry));
                assert(self.buckets[val as int]@[list.len() as int] == entry);
            }
            assert forall|d: Cell| #[trigger] in_pad(d) && d != c implies self.lit()(d)
                == before.lit()(d) by {
                lemma_pad_index(d);
            }
            assert forall|l: int, d: Cell|
                0 <= l < 16 && listed(before.buckets@, l, d) implies #[trigger] listed(
                self.buckets@,
                l,
                d,
            ) by {
                let k = choose|k: int|
                    0 <= k < before.buckets[l].len() && before.buckets[l]@[k] == pad_index(
                        d,
                    ) as u32;
                assert(self.buckets[l]@[k] == pad_index(d) as u32);
            }
            assert forall|l: int, k: int|
                #![trigger self.buckets[l]@[k]]
                0 <= l < 16 && 0 <= k < self.buckets[l].len() implies is_inner_index(
                self.buckets[l]@[k] as int,
            ) by {
                if l == val && val > 1 && k == before.buckets[l].len() {
                    assert(inner(c) && pad_index(c) == self.buckets[l]@[k]);
                } else {
                    assert(self.buckets[l]@[k] == before.buckets[l]@[k]);
                }
            }
            assert forall|d: Cell|
                before.all_listed() && #[trigger] inner(d) && self.lit()(d) >= 2 implies listed(
                self.buckets@,
                self.lit()(d),
                d,
            ) by {
                lemma_pad_index(d);
                if d != c {
                    assert(in_pad(d));
                    assert(self.lit()(d) == before.lit()(d));
                    assert(listed(before.buckets@, before.lit()(d), d));
                }
            }
        }
    }

    /// Puts `val` on the ring and passes it on to the chunk, one dimmer.
    fn seed_place(
        &mut self,
        solid: &Vec<bool>,
        face: usize,
        u: usize,
        v: usize,
        val: u8,
        Ghost(sources): Ghost<Field>,
    )
        requires
            solid.len() == PAD_VOLUME,
            face < 6,
            u < 32,
            v < 32,
            val == sources(ring_cell(face as int, u as int, v as int)),
            val <= 15,
            face == 2 ==> val < 15,
            old(self).seeding(map_scene(solid@), sources, nowhere()),
        ensures
            final(self).seeding(map_scene(solid@), sources, nowhere()),
            final(self).lit()(ring_cell(face as int, u as int, v as int)) == val,
            final(self).grew(*old(self), ring_cell(face as int, u as int, v as int)),
    {
        let ghost before = *self;
        let ghost scene = map_scene(solid@);
        let ghost r = ring_cell(face as int, u as int, v as int);
        let ghost b = rim_cell(face as int, u as int, v as int);
        let ri: usize = ring_idx(face, u, v);
        let bi: usize = rim_idx(face, u, v);
        proof {
            lemma_pad_index(r);
            lemma_pad_index(b);
            assert(in_pad(r) && !inner(r) && inner(b));
        }
        self.light[ri] = val;
        let ghost mid = *self;
        proof {
            assert forall|c: Cell| #[trigger] in_pad(c) && c != r implies mid.lit()(c)
                == before.lit()(c) by {
                lemma_pad_index(c);
            }
            assert forall|c: Cell| #[trigger] inner(c) implies mid.lit()(c) == before.lit()(c) by {
                assert(in_pad(c));
            }
            assert(mid.shaped());
            assert(mid.all_listed()) by {
                assert forall|c: Cell| #[trigger] inner(c) && mid.lit()(c) >= 2 implies listed(
                    mid.buckets@,
                    mid.lit()(c),
                    c,
                ) by {
                    assert(listed(before.buckets@, before.lit()(c), c));
                }
            }
        }
        if val > 1 && !solid[bi] {
            self.raise(bi, val - 1, Ghost(b));
        }
        proof {
            let now = self.lit();
            assert forall|c: Cell| #[trigger] in_pad(c) implies now(c) >= before.lit()(c) || c
                == r by {
                assert(in_pad(b));
            }
            assert(before.lit()(r) <= val) by {
                assert(in_pad(r) && !inner(r));
            }
            assert forall|c: Cell| #[trigger] in_pad(c) && c != r && c != b implies now(c)
                == before.lit()(c) by {}
            assert forall|c: Cell| #[trigger] inner(c) && c != nowhere() implies self.fallen(
                scene,
                c,
            ) by {
                assert(in_pad(c));
                let d = (c.0, c.1 - 1, c.2);
                assert(in_pad(d));
                assert(before.fallen(scene, c));
                assert(mid.lit()(c) == before.lit()(c));
            }
            assert forall|a: Cell, t: Cell| #[trigger] owes(scene, true, now, a, t) implies inner(a)
                || a == nowhere() by {
                assert(in_pad(a) && in_pad(t));
                if !inner(a) {
                    if a == r {
                        assert(t == b);
                    } else {
                        assert(now(a) == before.lit()(a));
                        assert(now(t) >= before.lit()(t));
                        assert(owes(scene, true, before.lit(), a, t));
                    }
                }
            }
            assert forall|other: Field| #[trigger] lit_by(scene, true, sources, other) implies below(
                scene,
                now,
                other,
            ) by {
                assert(below(scene, before.lit(), other));
                assert forall|c: Cell| #[trigger] scene.has(c) implies now(c) <= other(c) by {
                    assert(in_pad(c));
                    assert(before.lit()(c) <= other(c));
                    assert(scene.has(r));
                    assert(sources(r) <= other(r));
                    if c == b && now(c) != before.lit()(c) {
                        assert(scene.edge(r, b));
                        assert(other(b) >= passed_on(true, r, b, other(r)));
                    }
                }
            }
        }
    }

    /// Puts full daylight above a column and lets it fall to the first solid
    /// cell.
    fn seed_column(
        &mut self,
        solid: &Vec<bool>,
        u: usize,
        v: usize,
        Ghost(sources): Ghost<Field>,
    )
        requires
            solid.len() == PAD_VOLUME,
            u < 32,
            v < 32,
            sources(ring_cell(2, u as int, v as int)) == 15,
            old(self).seeding(map_scene(solid@), sources, nowhere()),
        ensures
            final(self).seeding(map_scene(solid@), sources, nowhere()),
            final(self).lit()(ring_cell(2, u as int, v as int)) == 15,
            final(self).grew(*old(self), ring_cell(2, u as int, v as int)),
    {
        let ghost before = *self;
        let ghost scene = map_scene(solid@);
        let ghost r = ring_cell(2, u as int, v as int);
        let ri: usize = ring_idx(2, u, v);
        proof {
            lemma_pad_index(r);
            assert(in_pad(r) && !inner(r));
        }
        self.light[ri] = MAX_LIGHT;
        proof {
            let mid = *self;
            assert forall|c: Cell| #[trigger] in_pad(c) && c != r implies mid.lit()(c)
                == before.lit()(c) by {
                lemma_pad_index(c);
            }
            assert forall|c: Cell| #[trigger] inner(c) implies mid.lit()(c) == before.lit()(c) by {
                assert(in_pad(c));
            }
            assert(mid.all_listed()) by {
                assert forall|c: Cell| #[trigger] inner(c) && mid.lit()(c) >= 2 implies listed(
                    mid.buckets@,
                    mid.lit()(c),
                    c,
                ) by {
                    assert(listed(before.buckets@, before.lit()(c), c));
                }
            }
            assert forall|c: Cell| #[trigger] inner(c) && c != r implies mid.fallen(scene, c) by {
                let d = (c.0, c.1 - 1, c.2);
                assert(in_pad(d) && in_pad(c));
                assert(before.fallen(scene, c));
                if scene.open_to_light(d) {
                    assert(inner(d));
                }
            }
            assert forall|a: Cell, t: Cell| #[trigger]
                owes(scene, true, mid.lit(), a, t) implies inner(a) || a == r by {
                assert(in_pad(a) && inner(t));
                if !inner(a) && a != r {
                    assert(owes(scene, true, before.lit(), a, t));
                }
            }
            assert forall|other: Field| #[trigger] lit_by(scene, true, sources, other) implies below(
                scene,
                mid.lit(),
                other,
            ) by {
                assert(below(scene, before.lit(), other));
                assert forall|c: Cell| #[trigger] scene.has(c) implies mid.lit()(c) <= other(
                    c,
                ) by {
                    assert(in_pad(c));
                    assert(before.lit()(c) <= other(c));
                    assert(sources(c) <= other(c));
                }
            }
            assert forall|c: Cell| #[trigger] in_pad(c) && !inner(c) implies mid.lit()(c) == 0
                || mid.lit()(c) == sources(c) by {
                if c != r {
                    assert(mid.lit()(c) == before.lit()(c));
                }
            }
            assert(mid.shaped());
            assert(mid.seeding(scene, sources, r));
        }
        let mut y: usize = CHUNK_SIZE;
        let x: usize = u + 1;
        let z: usize = v + 1;
        assert(r == (x as int, y + 1, z as int));
        while y >= 1 && !solid[pad_idx(x, y, z)]
            invariant
                y <= 32,
                x == u + 1,
                z == v + 1,
                u < 32,
                v < 32,
                solid.len() == PAD_VOLUME,
                scene == map_scene(solid@),
                r == (x as int, 33int, z as int),
                self.seeding(scene, sources, (x as int, y + 1, z as int)),
                self.lit()((x as int, y + 1, z as int)) == 15,
                self.lit()(r) == 15,
                self.grew(before, r),
            decreases y,
        {
            let ghost above = (x as int, y + 1, z as int);
            let ghost at = (x as int, y as int, z as int);
            let ghost mid = *self;
            let i: usize = pad_idx(x, y, z);
            assert(inner(at));
            assert(in_pad(at) && in_pad(above) && in_pad(r));
            self.raise(i, MAX_LIGHT, Ghost(at));
            proof {
                let now = self.lit();
                assert(now(at) == 15) by {
                    lemma_pad_index(at);
                }
                assert forall|c: Cell| #[trigger] in_pad(c) implies now(c) >= mid.lit()(c) && (c
                    != at ==> now(c) == mid.lit()(c)) by {}
                assert(scene.edge(above, at));
                assert forall|c: Cell| #[trigger] inner(c) && c != at implies self.fallen(
                    scene,
                    c,
                ) by {
                    let d = (c.0, c.1 - 1, c.2);
                    assert(in_pad(c) && in_pad(d));
                    if c != above {
                        assert(mid.fallen(scene, c));
                    } else {
                        assert(d == at);
                    }
                }
                assert forall|a: Cell, t: Cell| #[trigger]
                    owes(scene, true, now, a, t) implies inner(a) || a == at by {
                    assert(in_pad(a) && in_pad(t) && inner(t));
                    if !inner(a) {
                        if a == above {
                            assert(t == at);
                        } else {
                            assert(owes(scene, true, mid.lit(), a, t));
                        }
                    }
                }
                assert forall|other: Field| #[trigger]
                    lit_by(scene, true, sources, other) implies below(scene, now, other) by {
                    assert(below(scene, mid.lit(), other));
                    assert forall|c: Cell| #[trigger] scene.has(c) implies now(c) <= other(c) by {
                        assert(in_pad(c));
                        assert(mid.lit()(c) <= other(c));
                        if c == at {
                            assert(scene.has(above));
                            assert(mid.lit()(above) <= other(above));
                            assert(other(at) >= passed_on(true, above, at, other(above)));
                        }
                    }
                }
            }
            y -= 1;
        }
        proof {
            let except = (x as int, y + 1, z as int);
            let d = (x as int, y as int, z as int);
            assert(!scene.open_to_light(d));
            assert forall|a: Cell, t: Cell| #[trigger]
                owes(scene, true, self.lit(), a, t) implies inner(a) || a == nowhere() by {
                if a == except && !inner(a) {
                    assert(t == d);
                }
            }
        }
    }
}

impl SkyFlood {
    /// Open neighbours of `from` dimmer than `val` may have been raised to it,
    /// and are then listed; other levels' lists are unchanged.
    spec fn raised_from(self, before: SkyFlood, scene: Scene, from: Cell, val: int) -> bool {
        &&& self.shaped()
        &&& forall|d: Cell| #[trigger]
            in_pad(d) ==> self.lit()(d) == before.lit()(d) || (before.lit()(d) < val && self.lit()(
                d,
            ) == val && inner(d) && scene.edge(from, d) && (val > 1 ==> listed(
                self.buckets@,
                val,
                d,
            )))
        &&& forall|l: int, d: Cell|
            0 <= l < 16 && listed(before.buckets@, l, d) ==> #[trigger] listed(self.buckets@, l, d)
        &&& forall|l: int|
            0 <= l < 16 && l != val ==> #[trigger] self.buckets[l] == before.buckets[l]
    }

    /// Passes `val` on to the cell with flat index `i`, if it is an open cell of
    /// the chunk.
    fn pass_on(
        &mut self,
        solid: &Vec<bool>,
        i: usize,
        val: u8,
        Ghost(from): Ghost<Cell>,
        Ghost(c): Ghost<Cell>,
    )
        requires
            old(self).shaped(),
            solid.len() == PAD_VOLUME,
            in_pad(from),
            in_pad(c),
            adjacent(from, c),
            i == pad_index(c),
            val <= 15,
        ensures
            final(self).raised_from(*old(self), map_scene(solid@), from, val as int),
            map_scene(solid@).open_to_light(c) ==> final(self).lit()(c) >= val,
    {
        proof {
            lemma_pad_index(c);
        }
        let x: usize = i % PAD;
        let y: usize = i / PAD % PAD;
        let z: usize = i / (PAD * PAD);
        let interior: bool = 1 <= x && x <= CHUNK_SIZE && 1 <= y && y <= CHUNK_SIZE && 1 <= z && z
            <= CHUNK_SIZE;
        if interior && !solid[i] {
            self.raise(i, val, Ghost(c));
        }
    }

    /// Passes light of `level` on from the cell with flat index `i`.
    fn spread_from(&mut self, solid: &Vec<bool>, i: usize, level: u8, Ghost(c): Ghost<Cell>)
        requires
            old(self).shaped(),
            solid.len() == PAD_VOLUME,
            inner(c),
            i == pad_index(c),
            1 <= level <= 15,
        ensures
            final(self).raised_from(*old(self), map_scene(solid@), c, level - 1),
            forall|b: Cell| #[trigger]
                map_scene(solid@).edge(c, b) ==> final(self).lit()(b) >= level - 1,
    {
        let ghost s0 = *self;
        let ghost scene = map_scene(solid@);
        let val: u8 = level - 1;
        let ghost c1 = (c.0 + 1, c.1, c.2);
        let ghost c2 = (c.0 - 1, c.1, c.2);
        let ghost c3 = (c.0, c.1 + 1, c.2);
        let ghost c4 = (c.0, c.1 - 1, c.2);
        let ghost c5 = (c.0, c.1, c.2 + 1);
        let ghost c6 = (c.0, c.1, c.2 - 1);
        assert(in_pad(c1) && in_pad(c2) && in_pad(c3) && in_pad(c4) && in_pad(c5) && in_pad(c6));
        self.pass_on(solid, i + 1, val, Ghost(c), Ghost(c1));
        let ghost s1 = *self;
        self.pass_on(solid, i - 1, val, Ghost(c), Ghost(c2));
        let ghost s2 = *self;
        proof {
            lemma_raised_trans(s0, s1, s2, scene, c, val as int);
        }
        self.pass_on(solid, i + PAD, val, Ghost(c), Ghost(c3));
        let ghost s3 = *self;
        proof {
            lemma_raised_trans(s0, s2, s3, scene, c, val as int);
        }
        self.pass_on(solid, i - PAD, val, Ghost(c), Ghost(c4));
        let ghost s4 = *self;
        proof {
            lemma_raised_trans(s0, s3, s4, scene, c, val as int);
        }
        self.pass_on(solid, i + PAD * PAD, val, Ghost(c), Ghost(c5));
        let ghost s5 = *self;
        proof {
            lemma_raised_trans(s0, s4, s5, scene, c, val as int);
        }
        self.pass_on(solid, i - PAD * PAD, val, Ghost(c), Ghost(c6));
        proof {
            lemma_raised_trans(s0, s5, *self, scene, c, val as int);
            assert forall|b: Cell| #[trigger] scene.edge(c, b) implies self.lit()(b) >= val by {
                assert(in_pad(b));
                assert(s1.lit()(b) <= s2.lit()(b) <= s3.lit()(b) <= s4.lit()(b) <= s5.lit()(b)
                    <= self.lit()(b));
                assert(b == c1 || b == c2 || b == c3 || b == c4 || b == c5 || b == c6);
            }
        }
    }

    /// Every cell that owes light is listed at its level, and is no brighter
    /// than `level`.
    spec fn pending_to(self, scene: Scene, level: int) -> bool {
        forall|a: Cell, b: Cell| #[trigger]
            owes(scene, true, self.lit(), a, b) ==> self.lit()(a) <= level && listed(
                self.buckets@,
                self.lit()(a),
                a,
            )
    }

    /// Passes light on, brightest cells first, until no cell owes any.
    fn flood(&mut self, solid: &Vec<bool>, Ghost(sources): Ghost<Field>)
        requires
            solid.len() == PAD_VOLUME,
            old(self).seeding(map_scene(solid@), sources, nowhere()),
        ensures
            final(self).shaped(),
            final(self).accounted(map_scene(solid@), sources),
            forall|c: Cell| #[trigger]
                in_pad(c) && !inner(c) ==> final(self).lit()(c) == old(self).lit()(c),
            forall|a: Cell, b: Cell| !#[trigger] owes(
                map_scene(solid@),
                true,
                final(self).lit(),
                a,
                b,
            ),
    {
        let ghost start = *self;
        let ghost scene = map_scene(solid@);
        proof {
            assert forall|a: Cell, b: Cell| #[trigger]
                owes(scene, true, self.lit(), a, b) implies self.lit()(a) <= 15 && listed(
                self.buckets@,
                self.lit()(a),
                a,
            ) by {
                lemma_pad_index(a);
                lemma_pad_index(b);
                assert(inner(a));
            }
        }
        let mut level: usize = MAX_LIGHT as usize;
        while level >= 2
            invariant
                1 <= level <= 15,
                solid.len() == PAD_VOLUME,
                scene == map_scene(solid@),
                self.shaped(),
                self.accounted(scene, sources),
                self.settled_but(scene, nowhere()),
                self.pending_to(scene, level as int),
                forall|c: Cell| #[trigger]
                    in_pad(c) && !inner(c) ==> self.lit()(c) == start.lit()(c),
            decreases level,
        {
            while self.buckets[level].len() > 0
                invariant
                    2 <= level <= 15,
                    solid.len() == PAD_VOLUME,
                    scene == map_scene(solid@),
                    self.shaped(),
                    self.accounted(scene, sources),
                    self.settled_but(scene, nowhere()),
                    self.pending_to(scene, level as int),
                    forall|c: Cell| #[trigger]
                        in_pad(c) && !inner(c) ==> self.lit()(c) == start.lit()(c),
                decreases self.buckets[level as int].len(),
            {
                let ghost s0 = *self;
                let ghost last = self.buckets[level as int].len() - 1;
                let ghost entry = self.buckets[level as int]@[last];
                let i: usize = match self.buckets[level].pop() {
                    Some(e) => e as usize,
                    None => 0,
                };
                assert(i == entry);
                assert(is_inner_index(s0.buckets[level as int]@[last] as int));
                let ghost c = choose|c: Cell| #[trigger] inner(c) && pad_index(c) == i;
                let ghost s1 = *self;
                proof {
                    lemma_pad_index(c);
                    assert(s1.light == s0.light);
                    assert forall|l: int, k: int|
                        #![trigger s1.buckets[l]@[k]]
                        0 <= l < 16 && 0 <= k < s1.buckets[l].len() implies is_inner_index(
                        s1.buckets[l]@[k] as int,
                    ) by {
                        assert(s1.buckets[l]@[k] == s0.buckets[l]@[k]);
                    }
                    assert(s1.shaped());
                    assert forall|l: int, d: Cell|
                        0 <= l < 16 && listed(s0.buckets@, l, d) implies #[trigger] listed(
                        s1.buckets@,
                        l,
                        d,
                    ) || (l == level && pad_index(d) as u32 == entry) by {
                        let k = choose|k: int|
                            0 <= k < s0.buckets[l].len() && s0.buckets[l]@[k] == pad_index(
                                d,
                            ) as u32;
                        if l != level || k < last {
                            assert(s1.buckets[l]@[k] == pad_index(d) as u32);
                        }
                    }
                }
                if self.light[i] as usize == level {
                    self.spread_from(solid, i, level as u8, Ghost(c));
                    proof {
                        self.lemma_spread(s0, s1, scene, sources, c, level as int);
                    }
                } else {
                    proof {
                        assert forall|a: Cell, b: Cell| #[trigger]
                            owes(scene, true, self.lit(), a, b) implies self.lit()(a) <= level
                            && listed(self.buckets@, self.lit()(a), a) by {
                            assert(owes(scene, true, s0.lit(), a, b));
                            lemma_pad_index(a);
                            if self.lit()(a) == level && pad_index(a) as u32 == entry {
                                assert(a == c);
                            }
                        }
                    }
                }
            }
            proof {
                assert forall|a: Cell, b: Cell| #[trigger]
                    owes(scene, true, self.lit(), a, b) implies self.lit()(a) <= level - 1
                    && listed(self.buckets@, self.lit()(a), a) by {
                    assert(!listed(self.buckets@, level as int, a));
                }
            }
            level -= 1;
        }
        assert forall|a: Cell, b: Cell| !#[trigger] owes(scene, true, self.lit(), a, b) by {
            if owes(scene, true, self.lit(), a, b) {
                assert(self.lit()(b) >= 0);
            }
        }
    }

    /// What spreading from the cell `c`, taken off its list, keeps.
    proof fn lemma_spread(
        self,
        s0: SkyFlood,
        s1: SkyFlood,
        scene: Scene,
        sources: Field,
        c: Cell,
        level: int,
    )
        requires
            2 <= level <= 15,
            scene.size == (34int, 34int, 34int),
            forall|d: Cell| #[trigger] scene.open_to_light(d) ==> inner(d),
            inner(c),
            s0.shaped(),
            s0.accounted(scene, sources),
            s0.settled_but(scene, nowhere()),
            s0.pending_to(scene, level),
            s1.light == s0.light,
            s0.lit()(c) == level,
            forall|l: int, d: Cell|
                0 <= l < 16 && listed(s0.buckets@, l, d) ==> #[trigger] listed(s1.buckets@, l, d)
                    || (l == level && pad_index(d) as u32 == pad_index(c) as u32),
            self.raised_from(s1, scene, c, level - 1),
            forall|b: Cell| #[trigger] scene.edge(c, b) ==> self.lit()(b) >= level - 1,
        ensures
            self.accounted(scene, sources),
            self.settled_but(scene, nowhere()),
            self.pending_to(scene, level),
            forall|d: Cell| #[trigger] in_pad(d) && !inner(d) ==> self.lit()(d) == s0.lit()(d),
    {
        let val = level - 1;
        let now = self.lit();
        let was = s0.lit();
        assert forall|d: Cell| #[trigger] in_pad(d) implies now(d) == was(d) || (was(d) < val && now(
            d,
        ) == val && inner(d) && scene.edge(c, d)) by {
            assert(s1.lit()(d) == was(d));
        }
        assert forall|d: Cell| #[trigger] inner(d) && d != nowhere() implies self.fallen(
            scene,
            d,
        ) by {
            let e = (d.0, d.1 - 1, d.2);
            assert(in_pad(d) && in_pad(e));
            assert(s0.fallen(scene, d));
        }
        assert forall|a: Cell, b: Cell| #[trigger] owes(scene, true, now, a, b) implies now(a)
            <= level && inner(a) && listed(self.buckets@, now(a), a) by {
            assert(in_pad(a) && in_pad(b) && inner(b));
            lemma_pad_index(a);
            lemma_pad_index(c);
            if a == c {
                if straight_down(c, b) && level == 15 {
                    assert(s0.fallen(scene, c));
                }
                assert(in_pad(c));
                assert(false);
            } else if now(a) == was(a) {
                assert(owes(scene, true, was, a, b));
                assert(listed(s0.buckets@, was(a), a));
                assert(listed(s1.buckets@, was(a), a));
            } else {
                assert(s1.lit()(a) == was(a));
                assert(now(b) >= 0);
            }
        }
        assert forall|other: Field| #[trigger] lit_by(scene, true, sources, other) implies below(
            scene,
            now,
            other,
        ) by {
            assert(below(scene, was, other));
            assert forall|d: Cell| #[trigger] scene.has(d) implies now(d) <= other(d) by {
                assert(in_pad(d));
                assert(was(d) <= other(d));
                if now(d) != was(d) {
                    assert(scene.has(c));
                    assert(was(c) <= other(c));
                    assert(other(d) >= passed_on(true, c, d, other(c)));
                }
            }
        }
    }
}

proof fn lemma_raised_trans(
    a: SkyFlood,
    b: SkyFlood,
    c: SkyFlood,
    scene: Scene,
    from: Cell,
    val: int,
)
    requires
        0 <= val < 16,
        b.raised_from(a, scene, from, val),
        c.raised_from(b, scene, from, val),
    ensures
        c.raised_from(a, scene, from, val),
{
    assert forall|d: Cell| #[trigger] in_pad(d) implies c.lit()(d) == a.lit()(d) || (a.lit()(d)
        < val && c.lit()(d) == val && inner(d) && scene.edge(from, d) && (val > 1 ==> listed(
        c.buckets@,
        val,
        d,
    ))) by {
        assert(b.lit()(d) == a.lit()(d) || listed(b.buckets@, val, d) || val <= 1);
    }
    assert forall|l: int, d: Cell| 0 <= l < 16 && listed(a.buckets@, l, d) implies #[trigger] listed(
        c.buckets@,
        l,
        d,
    ) by {
        assert(listed(b.buckets@, l, d));
    }
    assert forall|l: int| 0 <= l < 16 && l != val implies #[trigger] c.buckets[l]
        == a.buckets[l] by {
        assert(b.buckets[l] == a.buckets[l]);
    }
}

/// The sky light arriving at one place of the ring.
fn ring_sky(top_sky: &[u8], sky: &NeighborSky, face: usize, u: usize, v: usize) -> (r: u8)
    requires
        planes_valid(*sky),
        top_sky.len() == 1024,
        face < 6,
        face != 3,
        u < 32,
        v < 32,
    ensures
        r == sky_ring(top_sky@, *sky)(face as int, u as int, v as int),
{
    let side: u8 = plane_light(sky, face, u, v);
    if face == 2 {
        let top: u8 = top_sky[u + v * CHUNK_SIZE];
        if top > side {
            return top;
        }
    }
    side
}

impl SkyFlood {
    /// Seeds the ring on one face.
    fn seed_face(&mut self, solid: &Vec<bool>, top_sky: &[u8], sky: &NeighborSky, face: usize)
        requires
            solid.len() == PAD_VOLUME,
            planes_valid(*sky),
            top_sky.len() == 1024,
            sky_levels(top_sky@, *sky),
            face < 6,
            face != 3,
            old(self).seeding(map_scene(solid@), ring_sky_sources(top_sky@, *sky), nowhere()),
        ensures
            final(self).seeding(map_scene(solid@), ring_sky_sources(top_sky@, *sky), nowhere()),
            final(self).face_done(ring_sky_sources(top_sky@, *sky), face as int, 0, 32),
            forall|g: int, s: int, t: int|
                0 <= g < 6 && g != face && 0 <= s < 32 && 0 <= t < 32 ==> final(self).lit()(
                    #[trigger] ring_cell(g, s, t),
                ) == old(self).lit()(ring_cell(g, s, t)),
    {
        let ghost start = *self;
        let ghost scene = map_scene(solid@);
        let ghost sources = ring_sky_sources(top_sky@, *sky);
        let mut v: usize = 0;
        while v < CHUNK_SIZE
            invariant
                v <= 32,
                solid.len() == PAD_VOLUME,
                planes_valid(*sky),
                top_sky.len() == 1024,
                sky_levels(top_sky@, *sky),
                face < 6,
                face != 3,
                scene == map_scene(solid@),
                sources == ring_sky_sources(top_sky@, *sky),
                self.seeding(scene, sources, nowhere()),
                self.face_done(sources, face as int, 0, v as int),
                forall|g: int, s: int, t: int|
                    0 <= g < 6 && g != face && 0 <= s < 32 && 0 <= t < 32 ==> self.lit()(
                        #[trigger] ring_cell(g, s, t),
                    ) == start.lit()(ring_cell(g, s, t)),
            decreases 32 - v,
        {
            let mut u: usize = 0;
            while u < CHUNK_SIZE
                invariant
                    v < 32,
                    u <= 32,
                    solid.len() == PAD_VOLUME,
                    planes_valid(*sky),
                    top_sky.len() == 1024,
                    sky_levels(top_sky@, *sky),
                    face < 6,
                    face != 3,
                    scene == map_scene(solid@),
                    sources == ring_sky_sources(top_sky@, *sky),
                    self.seeding(scene, sources, nowhere()),
                    self.face_done(sources, face as int, u as int, v as int),
                    forall|g: int, s: int, t: int|
                        0 <= g < 6 && g != face && 0 <= s < 32 && 0 <= t < 32 ==> self.lit()(
                            #[trigger] ring_cell(g, s, t),
                        ) == start.lit()(ring_cell(g, s, t)),
                decreases 32 - u,
            {
                let ghost before = *self;
                let ghost r = ring_cell(face as int, u as int, v as int);
                let val: u8 = ring_sky(top_sky, sky, face, u, v);
                proof {
                    assert(plane_value(*sky, face as int, u as int, v as int) <= MAX_LIGHT);
                    assert(top_sky@[u + v * 32] <= MAX_LIGHT);
                    assert(sources(r) == val);
                }
                if face == 2 && val == MAX_LIGHT {
                    self.seed_column(solid, u, v, Ghost(sources));
                } else {
                    self.seed_place(solid, face, u, v, val, Ghost(sources));
                }
                proof {
                    assert forall|g: int, s: int, t: int|
                        0 <= g < 6 && 0 <= s < 32 && 0 <= t < 32 && ring_cell(g, s, t)
                            != r implies self.lit()(#[trigger] ring_cell(g, s, t)) == before.lit()(
                        ring_cell(g, s, t),
                    ) by {
                        assert(in_pad(ring_cell(g, s, t)) && !inner(ring_cell(g, s, t)));
                    }
                }
                u += 1;
            }
            v += 1;
        }
    }
}

/// Sky-light flood over a chunk's padded volume; returns the light of the
/// chunk's cells.
///
/// The top boundary is the brighter of `top_sky`, the daylight entering each
/// column as the heightmap gives it (15 where nothing solid is above this
/// chunk), and the sky light of the chunk above, which carries daylight down
/// shafts. The side planes seed light spilling across chunk borders. The plane
/// below is ignored.
pub(crate) fn compute_padded_sky(
    solid: &Vec<bool>,
    top_sky: &[u8],
    sky: &NeighborSky,
    Ghost(scene): Ghost<Scene>,
) -> (out: Vec<u8>)
    requires
        solid.len() == PAD_VOLUME,
        planes_valid(*sky),
        top_sky.len() == 1024,
        sky_levels(top_sky@, *sky),
        scene == map_scene(solid@),
    ensures
        out.len() == CHUNK_VOLUME,
        exists|f: Field|
            #![trigger is_light_of(scene, true, ring_sky_sources(top_sky@, *sky), f)]
            is_light_of(scene, true, ring_sky_sources(top_sky@, *sky), f) && forall|i: int|
                0 <= i < CHUNK_VOLUME ==> #[trigger] out[i] == f(padded_cell(i)),
        forall|i: int| 0 <= i < CHUNK_VOLUME ==> #[trigger] out[i] <= 15,
{
    let ghost sources = ring_sky_sources(top_sky@, *sky);
    let light: Vec<u8> = vec![0; PAD_VOLUME];
    let mut buckets: Vec<Vec<u32>> = Vec::new();
    while buckets.len() < 16
        invariant
            buckets.len() <= 16,
            forall|l: int| 0 <= l < buckets.len() ==> (#[trigger] buckets[l]).len() == 0,
        decreases 16 - buckets.len(),
    {
        buckets.push(Vec::new());
    }
    let mut flood = SkyFlood { light, buckets };
    proof {
        assert forall|c: Cell| #[trigger] in_pad(c) implies flood.lit()(c) == 0 by {
            lemma_pad_index(c);
        }
        assert forall|c: Cell| #[trigger] inner(c) implies flood.lit()(c) == 0 by {
            assert(in_pad(c));
        }
        assert forall|a: Cell, b: Cell| !#[trigger] owes(scene, true, flood.lit(), a, b) by {
            if owes(scene, true, flood.lit(), a, b) {
                assert(in_pad(a) && in_pad(b));
            }
        }
        assert forall|other: Field| #[trigger] lit_by(scene, true, sources, other) implies below(
            scene,
            flood.lit(),
            other,
        ) by {
            assert forall|c: Cell| #[trigger] scene.has(c) implies flood.lit()(c) <= other(c) by {
                assert(in_pad(c));
                assert(sources(c) <= other(c));
                lemma_sources_nonnegative(top_sky@, *sky, c);
            }
        }
        assert(flood.seeding(scene, sources, nowhere()));
    }
    flood.seed_face(solid, top_sky, sky, 0);
    flood.seed_face(solid, top_sky, sky, 1);
    flood.seed_face(solid, top_sky, sky, 2);
    flood.seed_face(solid, top_sky, sky, 4);
    flood.seed_face(solid, top_sky, sky, 5);
    let ghost seeded = flood;
    flood.flood(solid, Ghost(sources));
    proof {
        let f = flood.lit();
        assert forall|c: Cell| #[trigger] scene.has(c) implies sources(c) <= f(c) by {
            assert(in_pad(c));
            lemma_pad_index(c);
            if !inner(c) {
                assert(f(c) == seeded.lit()(c));
                if c.0 == 33 && 1 <= c.1 <= 32 && 1 <= c.2 <= 32 {
                    assert(c == ring_cell(0, c.1 - 1, c.2 - 1));
                } else if c.0 == 0 && 1 <= c.1 <= 32 && 1 <= c.2 <= 32 {
                    assert(c == ring_cell(1, c.1 - 1, c.2 - 1));
                } else if c.1 == 33 && 1 <= c.0 <= 32 && 1 <= c.2 <= 32 {
                    assert(c == ring_cell(2, c.0 - 1, c.2 - 1));
                } else if c.2 == 33 && 1 <= c.0 <= 32 && 1 <= c.1 <= 32 {
                    assert(c == ring_cell(4, c.0 - 1, c.1 - 1));
                } else if c.2 == 0 && 1 <= c.0 <= 32 && 1 <= c.1 <= 32 {
                    assert(c == ring_cell(5, c.0 - 1, c.1 - 1));
                }
            }
        }
        assert forall|a: Cell, b: Cell| #[trigger] scene.edge(a, b) implies f(b) >= passed_on(
            true,
            a,
            b,
            f(a),
        ) by {
            assert(!owes(scene, true, f, a, b));
        }
        assert(is_light_of(scene, true, sources, f));
    }
    let mut out: Vec<u8> = Vec::with_capacity(CHUNK_VOLUME);
    let mut i: usize = 0;
    while i < CHUNK_VOLUME
        invariant
            i <= CHUNK_VOLUME,
            flood.shaped(),
            out.len() == i,
            forall|j: int| 0 <= j < i ==> #[trigger] out[j] == flood.lit()(padded_cell(j)),
            forall|j: int| 0 <= j < i ==> #[trigger] out[j] <= 15,
        decreases CHUNK_VOLUME - i,
    {
        let pos = LocalPos::from_index(i);
        let p: usize = pad_idx(pos.x() as usize + 1, pos.y() as usize + 1, pos.z() as usize + 1);
        assert(p == pad_index(padded_cell(i as int)));
        out.push(flood.light[p]);
        i += 1;
    }
    out
}

proof fn lemma_sources_nonnegative(top: Seq<u8>, planes: NeighborSky, c: Cell)
    ensures
        ring_sky_sources(top, planes)(c) >= 0,
{
}

/// A cell outside every volume.
spec fn nowhere() -> Cell {
    (-1, -1, -1)
}

fn ring_idx(face: usize, u: usize, v: usize) -> (r: usize)
    requires
        face < 6,
        u < 32,
        v < 32,
    ensures
        r == pad_index(ring_cell(face as int, u as int, v as int)),
        r < PAD_VOLUME,
{
    let n: usize = CHUNK_SIZE;
    match face {
        0 => pad_idx(n + 1, u + 1, v + 1),
        1 => pad_idx(0, u + 1, v + 1),
        2 => pad_idx(u + 1, n + 1, v + 1),
        3 => pad_idx(u + 1, 0, v + 1),
        4 => pad_idx(u + 1, v + 1, n + 1),
        _ => pad_idx(u + 1, v + 1, 0),
    }
}

fn rim_idx(face: usize, u: usize, v: usize) -> (r: usize)
    requires
        face < 6,
        u < 32,
        v < 32,
    ensures
        r == pad_index(rim_cell(face as int, u as int, v as int)),
        r < PAD_VOLUME,
{
    let n: usize = CHUNK_SIZE;
    match face {
        0 => pad_idx(n, u + 1, v + 1),
        1 => pad_idx(1, u + 1, v + 1),
        2 => pad_idx(u + 1, n, v + 1),
        3 => pad_idx(u + 1, 1, v + 1),
        4 => pad_idx(u + 1, v + 1, n),
        _ => pad_idx(u + 1, v + 1, 1),
    }
}

} // verus!
