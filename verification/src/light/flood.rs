//! Flood fill of light through an abstract volume.

use crate::light::model::{
    adjacent, below, in_box, is_light_of, lemma_total_bounds, lemma_total_lt, lit_by, passed_on,
    row_sum, slab_sum, sum_to, total, Cell, Field, Scene, MAX_LIGHT,
};
use vstd::prelude::*;

verus! {

/// A rectangular volume the propagator can read solidity and emission from and
/// read and write light in. Coordinates are volume-local `(x, y, z)`, each in
/// `0..dim(axis)`. Implementors decide how borders are represented (an extra
/// ring of cells carrying neighbour light, say).
pub trait LightVolume {
    /// The volume is well formed.
    spec fn valid(&self) -> bool;

    /// Its size, its solid cells and the cells that accept light.
    spec fn scene(&self) -> Scene;

    /// Light that cell `c` emits on its own.
    spec fn emits(&self, c: Cell) -> u8;

    /// Light in cell `c`.
    spec fn level(&self, c: Cell) -> u8;

    /// Dimensions `[x, y, z]` of the volume in cells.
    fn dims(&self) -> (r: [usize; 3])
        requires
            self.valid(),
        ensures
            self.scene().size == (r@[0] as int, r@[1] as int, r@[2] as int),
    ;

    /// Whether the cell blocks light (light does not enter solid cells).
    fn is_solid(&self, x: usize, y: usize, z: usize) -> (r: bool)
        requires
            self.valid(),
            self.scene().has(cell_of((x, y, z))),
        ensures
            r == (self.scene().solid)(cell_of((x, y, z))),
    ;

    /// Light this cell emits on its own (0 for non-emitters).
    fn emission(&self, x: usize, y: usize, z: usize) -> (r: u8)
        requires
            self.valid(),
            self.scene().has(cell_of((x, y, z))),
        ensures
            r == self.emits(cell_of((x, y, z))),
    ;

    /// Current light at the cell.
    fn get_light(&self, x: usize, y: usize, z: usize) -> (r: u8)
        requires
            self.valid(),
            self.scene().has(cell_of((x, y, z))),
        ensures
            r == self.level(cell_of((x, y, z))),
    ;

    /// Set the light at the cell.
    fn set_light(&mut self, x: usize, y: usize, z: usize, level: u8)
        requires
            old(self).valid(),
            old(self).scene().has(cell_of((x, y, z))),
        ensures
            final(self).valid(),
            final(self).scene() == old(self).scene(),
            forall|c: Cell| #[trigger] final(self).emits(c) == old(self).emits(c),
            forall|c: Cell|
                old(self).scene().has(c) ==> #[trigger] final(self).level(c) == (if c == cell_of(
                    (x, y, z),
                ) {
                    level
                } else {
                    old(self).level(c)
                }),
    ;

    /// Whether light may spread *into* this cell during a flood. A volume
    /// whose outer shell stands in for neighbour light answers `false` there:
    /// such cells push light inward but never receive or relay it, since the
    /// space they stand for belongs to the neighbour and may be solid.
    fn accepts_spread(&self, x: usize, y: usize, z: usize) -> (r: bool)
        requires
            self.valid(),
            self.scene().has(cell_of((x, y, z))),
        ensures
            r == (self.scene().accepts)(cell_of((x, y, z))),
    ;
}

/// The cell with the given coordinates.
pub open spec fn cell_of(t: (usize, usize, usize)) -> Cell {
    (t.0 as int, t.1 as int, t.2 as int)
}

/// The light in a volume, as a field.
pub open spec fn light_in<V: LightVolume>(v: &V) -> Field {
    |c: Cell| v.level(c) as int
}

/// The emission in a volume, as a field.
pub open spec fn emission_in<V: LightVolume>(v: &V) -> Field {
    |c: Cell| v.emits(c) as int
}

/// Nothing but the light differs.
pub open spec fn same_volume<V: LightVolume>(a: &V, b: &V) -> bool {
    &&& a.scene() == b.scene()
    &&& forall|c: Cell| #[trigger] a.emits(c) == b.emits(c)
}

/// How many of the cells are lit.
pub open spec fn lit_count(scene: Scene, light: Field) -> int {
    total(
        scene.size,
        |c: Cell|
            if light(c) > 0 {
                1int
            } else {
                0
            },
    )
}

/// `a` has light to pass on to `b` that `b` does not hold yet.
pub(crate) open spec fn owes(scene: Scene, sky: bool, light: Field, a: Cell, b: Cell) -> bool {
    scene.edge(a, b) && light(b) < passed_on(sky, a, b, light(a))
}

/// `c` stands in the queue, at `from` or later.
pub(crate) open spec fn queued(queue: Seq<(usize, usize, usize)>, from: int, c: Cell) -> bool {
    exists|k: int| from <= k < queue.len() && #[trigger] cell_of(queue[k]) == c
}

/// How far the light is from being full everywhere.
spec fn slack(scene: Scene, light: Field) -> int {
    total(scene.size, |c: Cell| 255 - light(c))
}

/// Light passed on grows with the light that passes it on.
proof fn lemma_passed_on_monotone(sky: bool, a: Cell, b: Cell, l: int, m: int)
    requires
        l <= m,
    ensures
        passed_on(sky, a, b, l) <= passed_on(sky, a, b, m),
{
}

/// The in-bounds neighbours of a cell.
pub(crate) fn neighbors(x: usize, y: usize, z: usize, dx: usize, dy: usize, dz: usize) -> (out: Vec<
    (usize, usize, usize),
>)
    requires
        x < dx,
        y < dy,
        z < dz,
    ensures
        forall|k: int|
            0 <= k < out.len() ==> adjacent((x as int, y as int, z as int), cell_of(
                #[trigger] out[k],
            )) && out[k].0 < dx && out[k].1 < dy && out[k].2 < dz,
        forall|b: Cell|
            adjacent((x as int, y as int, z as int), b) && 0 <= b.0 < dx && 0 <= b.1 < dy && 0
                <= b.2 < dz ==> #[trigger] queued(out@, 0, b),
{
    let mut out: Vec<(usize, usize, usize)> = Vec::with_capacity(6);
    if x + 1 < dx {
        out.push((x + 1, y, z));
        assert(cell_of(out@[out.len() - 1]) == (x + 1, y as int, z as int));
    }
    let ghost i1 = out.len() as int;
    if x > 0 {
        out.push((x - 1, y, z));
    }
    let ghost i2 = out.len() as int;
    if y + 1 < dy {
        out.push((x, y + 1, z));
    }
    let ghost i3 = out.len() as int;
    if y > 0 {
        out.push((x, y - 1, z));
    }
    let ghost i4 = out.len() as int;
    if z + 1 < dz {
        out.push((x, y, z + 1));
    }
    let ghost i5 = out.len() as int;
    if z > 0 {
        out.push((x, y, z - 1));
    }
    assert forall|b: Cell|
        adjacent((x as int, y as int, z as int), b) && 0 <= b.0 < dx && 0 <= b.1 < dy && 0 <= b.2
            < dz implies #[trigger] queued(out@, 0, b) by {
        let k = if b.0 == x + 1 {
            0
        } else if b.0 + 1 == x {
            i1
        } else if b.1 == y + 1 {
            i2
        } else if b.1 + 1 == y {
            i3
        } else if b.2 == z + 1 {
            i4
        } else {
            i5
        };
        assert(cell_of(out@[k]) == b);
    }
    out
}

/// Every cell that owes its neighbours light is queued.
pub(crate) open spec fn all_queued(
    scene: Scene,
    sky: bool,
    light: Field,
    queue: Seq<(usize, usize, usize)>,
) -> bool {
    forall|a: Cell, b: Cell| #[trigger] owes(scene, sky, light, a, b) ==> queued(queue, 0, a)
}

spec fn pending(covered: bool, scene: Scene, sky: bool, light: Field, a: Cell, b: Cell) -> bool {
    covered && owes(scene, sky, light, a, b)
}

/// Spreads the light of the queued cells. If those outside the queue owe
/// nothing at the start, no cell does in the end.
pub(crate) fn spread<V: LightVolume>(vol: &mut V, queue: Vec<(usize, usize, usize)>, sky: bool)
    requires
        old(vol).valid(),
        forall|k: int|
            0 <= k < queue.len() ==> old(vol).scene().has(cell_of(#[trigger] queue[k])),
    ensures
        final(vol).valid(),
        same_volume(old(vol), final(vol)),
        all_queued(old(vol).scene(), sky, light_in(old(vol)), queue@) ==> is_light_of(
            old(vol).scene(),
            sky,
            light_in(old(vol)),
            light_in(final(vol)),
        ),
{
    let ghost scene = vol.scene();
    let ghost start = light_in(vol);
    let ghost covered = all_queued(scene, sky, start, queue@);
    let mut queue = queue;
    let dims = vol.dims();
    let dx: usize = dims[0];
    let dy: usize = dims[1];
    let dz: usize = dims[2];
    let mut head: usize = 0;
    proof {
        lemma_slack(scene, light_in(vol));
    }
    while head < queue.len()
        invariant
            vol.valid(),
            same_volume(old(vol), vol),
            scene == vol.scene(),
            start == light_in(old(vol)),
            scene.size == (dx as int, dy as int, dz as int),
            head <= queue.len(),
            forall|k: int| 0 <= k < queue.len() ==> scene.has(cell_of(#[trigger] queue[k])),
            forall|a: Cell, b: Cell| #[trigger]
                pending(covered, scene, sky, light_in(vol), a, b) ==> queued(queue@, head as int, a),
            below(scene, start, light_in(vol)),
            forall|other: Field| #[trigger]
                lit_by(scene, sky, start, other) ==> below(scene, light_in(vol), other),
            slack(scene, light_in(vol)) >= 0,
        decreases slack(scene, light_in(vol)), queue.len() - head,
    {
        let (x, y, z) = queue[head];
        let ghost c0 = cell_of((x, y, z));
        let ghost qlen = queue.len();
        let ghost pot = slack(scene, light_in(vol));
        assert(cell_of(queue@[head as int]) == c0);
        assert(scene.has(c0));
        let ghost from = head as int;
        head += 1;
        let level: u8 = vol.get_light(x, y, z);
        assert forall|a: Cell, b: Cell| #[trigger]
            pending(covered, scene, sky, light_in(vol), a, b) implies a == c0 || queued(
            queue@,
            head as int,
            a,
        ) by {
            let k = choose|k: int| from <= k < queue.len() && #[trigger] cell_of(queue@[k]) == a;
            if k != from {
                assert(cell_of(queue@[k]) == a);
            }
        }
        if level <= 1 {
            assert forall|a: Cell, b: Cell| #[trigger]
                pending(covered, scene, sky, light_in(vol), a, b) implies queued(queue@, head as int, a) by {
                assert(light_in(vol)(b) >= 0);
            }
            continue;
        }
        let ns = neighbors(x, y, z, dx, dy, dz);
        assert forall|a: Cell, b: Cell| #[trigger]
            pending(covered, scene, sky, light_in(vol), a, b) implies queued(queue@, head as int, a) || (a
            == c0 && queued(ns@, 0, b)) by {
            if a == c0 {
                assert(queued(ns@, 0, b));
            }
        }
        let mut j: usize = 0;
        while j < ns.len()
            invariant
                vol.valid(),
                same_volume(old(vol), vol),
                scene == vol.scene(),
                start == light_in(old(vol)),
                scene.size == (dx as int, dy as int, dz as int),
                scene.has(c0),
                c0 == cell_of((x, y, z)),
                vol.level(c0) == level,
                level > 1,
                j <= ns.len(),
                head <= queue.len(),
                forall|k: int|
                    0 <= k < ns.len() ==> adjacent(c0, cell_of(#[trigger] ns[k])) && scene.has(
                        cell_of(ns[k]),
                    ),
                forall|k: int| 0 <= k < queue.len() ==> scene.has(cell_of(#[trigger] queue[k])),
                forall|a: Cell, b: Cell| #[trigger]
                    pending(covered, scene, sky, light_in(vol), a, b) ==> queued(queue@, head as int, a) || (a
                        == c0 && queued(ns@, j as int, b)),
                below(scene, start, light_in(vol)),
                forall|other: Field| #[trigger]
                    lit_by(scene, sky, start, other) ==> below(scene, light_in(vol), other),
                0 <= slack(scene, light_in(vol)) <= pot,
                slack(scene, light_in(vol)) < pot || queue.len() == qlen,
            decreases ns.len() - j,
        {
            let (nx, ny, nz) = ns[j];
            let ghost n = cell_of((nx, ny, nz));
            assert(n == cell_of(ns@[j as int]));
            let ghost was = light_in(vol);
            let ghost queue_was = queue@;
            let ghost jj = j as int;
            if !vol.is_solid(nx, ny, nz) && vol.accepts_spread(nx, ny, nz) {
                let going_down: bool = nz == z && nx == x && ny + 1 == y;
                let next: u8 = if sky && going_down && level == MAX_LIGHT {
                    MAX_LIGHT
                } else {
                    level - 1
                };
                assert(scene.edge(c0, n));
                assert(next == passed_on(sky, c0, n, was(c0)));
                if vol.get_light(nx, ny, nz) < next {
                    vol.set_light(nx, ny, nz, next);
                    queue.push((nx, ny, nz));
                    proof {
                        let now = light_in(vol);
                        assert(cell_of(queue@[queue.len() - 1]) == n);
                        assert forall|other: Field| #[trigger]
                            lit_by(scene, sky, start, other) implies below(scene, now, other) by {
                            assert(below(scene, was, other));
                            assert forall|c: Cell| #[trigger] scene.has(c) implies now(c) <= other(
                                c,
                            ) by {
                                assert(was(c) <= other(c));
                                if c == n {
                                    assert(was(c0) <= other(c0));
                                    lemma_passed_on_monotone(sky, c0, n, was(c0), other(c0));
                                    assert(other(n) >= passed_on(sky, c0, n, other(c0)));
                                }
                            }
                        }
                        assert forall|c: Cell| #[trigger] in_box(scene.size, c) implies 255 - now(c)
                            <= 255 - was(c) by {
                            assert(scene.has(c));
                        }
                        lemma_total_lt(
                            scene.size,
                            |c: Cell| 255 - now(c),
                            |c: Cell| 255 - was(c),
                            n,
                        );
                        lemma_slack(scene, now);
                        assert forall|a: Cell, b: Cell| #[trigger]
                            pending(covered, scene, sky, now, a, b) implies queued(queue@, head as int, a) || (a
                            == c0 && queued(ns@, jj + 1, b)) by {
                            if a == n {
                                assert(cell_of(queue@[queue.len() - 1]) == a);
                            } else {
                                assert(pending(covered, scene, sky, was, a, b));
                                lemma_queued_push(queue_was, (nx, ny, nz), head as int, a);
                                lemma_queued_next(ns@, jj, b);
                            }
                        }
                    }
                } else {
                    assert forall|a: Cell, b: Cell| #[trigger]
                        pending(covered, scene, sky, was, a, b) implies queued(queue@, head as int, a) || (a
                        == c0 && queued(ns@, jj + 1, b)) by {
                        lemma_queued_next(ns@, jj, b);
                    }
                }
            } else {
                assert forall|a: Cell, b: Cell| #[trigger]
                    pending(covered, scene, sky, was, a, b) implies queued(queue@, head as int, a) || (a == c0
                    && queued(ns@, jj + 1, b)) by {
                    lemma_queued_next(ns@, jj, b);
                }
            }
            j += 1;
        }
        assert forall|a: Cell, b: Cell| #[trigger]
            pending(covered, scene, sky, light_in(vol), a, b) implies queued(queue@, head as int, a) by {}
    }
    assert forall|a: Cell, b: Cell| covered && #[trigger] scene.edge(a, b) implies light_in(vol)(b)
        >= passed_on(sky, a, b, light_in(vol)(a)) by {
        assert(!queued(queue@, head as int, a));
        assert(!pending(covered, scene, sky, light_in(vol), a, b));
    }
}

/// `c` comes before `(x, y, z)` when cells are visited row by row.
spec fn visited(c: Cell, x: int, y: int, z: int) -> bool {
    c.2 < z || (c.2 == z && (c.1 < y || (c.1 == y && c.0 < x)))
}

/// The cells before `(x, y, z)` hold their emission, and those with light to
/// pass on are queued.
spec fn seeded_to<V: LightVolume>(
    vol: &V,
    queue: Seq<(usize, usize, usize)>,
    x: int,
    y: int,
    z: int,
) -> bool {
    forall|c: Cell|
        vol.scene().has(c) && #[trigger] visited(c, x, y, z) ==> vol.level(c) == vol.emits(c) && (
        vol.emits(c) > 1 ==> queued(queue, 0, c))
}

/// Flood-fill block light through `vol` from scratch: each cell starts at its
/// own emission, and light spreads one level dimmer into each open neighbour.
/// Solid cells hold their emission (a glowing solid block reads as lit) but
/// receive no other light.
///
/// Returns the number of cells that ended up lit.
pub fn propagate_block_light<V: LightVolume>(vol: &mut V) -> (lit: usize)
    requires
        old(vol).valid(),
        old(vol).scene().size.2 * (old(vol).scene().size.1 * old(vol).scene().size.0) <= usize::MAX,
    ensures
        final(vol).valid(),
        same_volume(old(vol), final(vol)),
        is_light_of(old(vol).scene(), false, emission_in(old(vol)), light_in(final(vol))),
        lit == lit_count(old(vol).scene(), light_in(final(vol))),
{
    let ghost scene = vol.scene();
    let dims = vol.dims();
    let dx: usize = dims[0];
    let dy: usize = dims[1];
    let dz: usize = dims[2];
    let mut queue: Vec<(usize, usize, usize)> = Vec::new();
    let mut z: usize = 0;
    while z < dz
        invariant
            vol.valid(),
            same_volume(old(vol), vol),
            scene == vol.scene(),
            scene.size == (dx as int, dy as int, dz as int),
            z <= dz,
            forall|k: int| 0 <= k < queue.len() ==> scene.has(cell_of(#[trigger] queue[k])),
            seeded_to(vol, queue@, 0, 0, z as int),
        decreases dz - z,
    {
        let mut y: usize = 0;
        while y < dy
            invariant
                vol.valid(),
                same_volume(old(vol), vol),
                scene == vol.scene(),
                scene.size == (dx as int, dy as int, dz as int),
                z < dz,
                y <= dy,
                forall|k: int| 0 <= k < queue.len() ==> scene.has(cell_of(#[trigger] queue[k])),
                seeded_to(vol, queue@, 0, y as int, z as int),
            decreases dy - y,
        {
            let mut x: usize = 0;
            while x < dx
                invariant
                    vol.valid(),
                    same_volume(old(vol), vol),
                    scene == vol.scene(),
                    scene.size == (dx as int, dy as int, dz as int),
                    z < dz,
                    y < dy,
                    x <= dx,
                    forall|k: int| 0 <= k < queue.len() ==> scene.has(cell_of(#[trigger] queue[k])),
                    seeded_to(vol, queue@, x as int, y as int, z as int),
                decreases dx - x,
            {
                let ghost at = cell_of((x, y, z));
                assert(scene.has(at));
                let e: u8 = vol.emission(x, y, z);
                let ghost before = *vol;
                let ghost queue_was = queue@;
                vol.set_light(x, y, z, e);
                if e > 1 {
                    queue.push((x, y, z));
                    assert(cell_of(queue@[queue.len() - 1]) == at);
                }
                x += 1;
                assert forall|c: Cell|
                    vol.scene().has(c) && #[trigger] visited(
                        c,
                        x as int,
                        y as int,
                        z as int,
                    ) implies vol.level(c) == vol.emits(c) && (vol.emits(c) > 1 ==> queued(
                    queue@,
                    0,
                    c,
                )) by {
                    assert(vol.emits(c) == before.emits(c));
                    if c != at {
                        assert(visited(c, x - 1, y as int, z as int));
                        lemma_queued_push(queue_was, ((x - 1) as usize, y, z), 0, c);
                    } else if e > 1 {
                        assert(cell_of(queue@[queue.len() - 1]) == c);
                    }
                }
            }
            y += 1;
            assert(seeded_to(vol, queue@, 0, y as int, z as int)) by {
                assert forall|c: Cell|
                    vol.scene().has(c) && #[trigger] visited(c, 0, y as int, z as int) implies
                    vol.level(c) == vol.emits(c) && (vol.emits(c) > 1 ==> queued(queue@, 0, c)) by {
                    assert(visited(c, dx as int, y - 1, z as int));
                }
            }
        }
        z += 1;
        assert(seeded_to(vol, queue@, 0, 0, z as int)) by {
            assert forall|c: Cell| vol.scene().has(c) && #[trigger] visited(c, 0, 0, z as int) implies
                vol.level(c) == vol.emits(c) && (vol.emits(c) > 1 ==> queued(queue@, 0, c)) by {
                assert(visited(c, 0, dy as int, z - 1));
            }
        }
    }
    let ghost seeded = light_in(vol);
    assert forall|a: Cell, b: Cell| #[trigger] owes(scene, false, light_in(vol), a, b) implies
        queued(queue@, 0, a) by {
        assert(scene.has(a) && visited(a, 0, 0, dz as int));
        assert(vol.level(a) == vol.emits(a));
        assert(light_in(vol)(b) >= 0);
    }
    spread(vol, queue, false);
    proof {
        let sources = emission_in(old(vol));
        assert forall|c: Cell| #[trigger] scene.has(c) implies seeded(c) == sources(c) by {
            assert(visited(c, 0, 0, dz as int));
        }
        lemma_same_sources(scene, false, seeded, sources, light_in(vol));
    }
    count_lit(vol)
}

/// The cells before `(x, y, z)` are dark.
spec fn dark_to<V: LightVolume>(vol: &V, x: int, y: int, z: int) -> bool {
    forall|c: Cell| vol.scene().has(c) && #[trigger] visited(c, x, y, z) ==> vol.level(c) == 0
}

/// Sets the light of every cell to 0.
fn clear_all<V: LightVolume>(vol: &mut V)
    requires
        old(vol).valid(),
    ensures
        final(vol).valid(),
        same_volume(old(vol), final(vol)),
        forall|c: Cell| old(vol).scene().has(c) ==> #[trigger] final(vol).level(c) == 0,
{
    let ghost scene = vol.scene();
    let dims = vol.dims();
    let dx: usize = dims[0];
    let dy: usize = dims[1];
    let dz: usize = dims[2];
    let mut z: usize = 0;
    while z < dz
        invariant
            vol.valid(),
            same_volume(old(vol), vol),
            scene == vol.scene(),
            scene.size == (dx as int, dy as int, dz as int),
            z <= dz,
            dark_to(vol, 0, 0, z as int),
        decreases dz - z,
    {
        let mut y: usize = 0;
        while y < dy
            invariant
                vol.valid(),
                same_volume(old(vol), vol),
                scene == vol.scene(),
                scene.size == (dx as int, dy as int, dz as int),
                z < dz,
                y <= dy,
                dark_to(vol, 0, y as int, z as int),
            decreases dy - y,
        {
            let mut x: usize = 0;
            while x < dx
                invariant
                    vol.valid(),
                    same_volume(old(vol), vol),
                    scene == vol.scene(),
                    scene.size == (dx as int, dy as int, dz as int),
                    z < dz,
                    y < dy,
                    x <= dx,
                    dark_to(vol, x as int, y as int, z as int),
                decreases dx - x,
            {
                let ghost at = cell_of((x, y, z));
                assert(scene.has(at));
                let ghost before = *vol;
                vol.set_light(x, y, z, 0);
                x += 1;
                assert forall|c: Cell|
                    vol.scene().has(c) && #[trigger] visited(
                        c,
                        x as int,
                        y as int,
                        z as int,
                    ) implies vol.level(c) == 0 by {
                    if c != at {
                        assert(visited(c, x - 1, y as int, z as int));
                    }
                }
            }
            y += 1;
            assert(dark_to(vol, 0, y as int, z as int)) by {
                assert forall|c: Cell|
                    vol.scene().has(c) && #[trigger] visited(c, 0, y as int, z as int) implies
                    vol.level(c) == 0 by {
                    assert(visited(c, dx as int, y - 1, z as int));
                }
            }
        }
        z += 1;
        assert(dark_to(vol, 0, 0, z as int)) by {
            assert forall|c: Cell| vol.scene().has(c) && #[trigger] visited(c, 0, 0, z as int) implies
                vol.level(c) == 0 by {
                assert(visited(c, 0, dy as int, z - 1));
            }
        }
    }
    assert forall|c: Cell| scene.has(c) implies #[trigger] vol.level(c) == 0 by {
        assert(visited(c, 0, 0, dz as int));
    }
}

/// Light that enters a volume from straight above: full daylight stays full,
/// anything else enters one dimmer.
pub open spec fn entering(above: int) -> int {
    if above == MAX_LIGHT {
        MAX_LIGHT as int
    } else if above > 0 {
        above - 1
    } else {
        0
    }
}

/// The sources of sky light: what enters the open cells of the top layer, with
/// `top[x + z * size.0]` arriving from above column `(x, z)`.
pub open spec fn sky_sources(scene: Scene, top: Seq<u8>) -> Field {
    |c: Cell|
        if c.1 == scene.size.1 - 1 && !(scene.solid)(c) {
            entering(top[c.0 + c.2 * scene.size.0] as int)
        } else {
            0
        }
}

/// The columns before `(x, z)` of the top layer hold their sources, the rest
/// of the volume is dark, and lit cells are queued.
spec fn sky_seeded_to<V: LightVolume>(
    vol: &V,
    top: Seq<u8>,
    queue: Seq<(usize, usize, usize)>,
    x: int,
    z: int,
) -> bool {
    forall|c: Cell|
        vol.scene().has(c) ==> #[trigger] vol.level(c) == (if visited(c, x, c.1, z) {
            sky_sources(vol.scene(), top)(c)
        } else {
            0
        }) && (vol.level(c) > 0 ==> queued(queue, 0, c))
}

/// Propagate **sky light** through `vol` from scratch. It enters from the top
/// boundary and floods down and sideways. Two rules set it apart from block
/// light:
///
/// 1. **No dimming straight down at full strength.** A downward step into an
///    open cell keeps the level iff it is [`MAX_LIGHT`]: a shaft open to the
///    sky stays at 15 to the floor.
/// 2. **Open-top boundary.** `top_sky[x + z * dx]` is the sky light arriving
///    from directly above each column: 15 for open sky, or the value of the
///    cell above.
///
/// All other steps dim by one, and solid cells block sky light.
pub fn propagate_sky_light<V: LightVolume>(vol: &mut V, top_sky: &[u8])
    requires
        old(vol).valid(),
        old(vol).scene().size.1 >= 1,
        top_sky.len() == old(vol).scene().size.0 * old(vol).scene().size.2,
    ensures
        final(vol).valid(),
        same_volume(old(vol), final(vol)),
        is_light_of(
            old(vol).scene(),
            true,
            sky_sources(old(vol).scene(), top_sky@),
            light_in(final(vol)),
        ),
{
    let ghost scene = vol.scene();
    let dims = vol.dims();
    let dx: usize = dims[0];
    let dy: usize = dims[1];
    let dz: usize = dims[2];
    clear_all(vol);
    let mut queue: Vec<(usize, usize, usize)> = Vec::new();
    let top_y: usize = dy - 1;
    let mut z: usize = 0;
    while z < dz
        invariant
            vol.valid(),
            same_volume(old(vol), vol),
            scene == vol.scene(),
            scene.size == (dx as int, dy as int, dz as int),
            top_sky.len() == dx * dz,
            top_y == dy - 1,
            z <= dz,
            forall|k: int| 0 <= k < queue.len() ==> scene.has(cell_of(#[trigger] queue[k])),
            sky_seeded_to(vol, top_sky@, queue@, 0, z as int),
        decreases dz - z,
    {
        let mut x: usize = 0;
        while x < dx
            invariant
                vol.valid(),
                same_volume(old(vol), vol),
                scene == vol.scene(),
                scene.size == (dx as int, dy as int, dz as int),
                top_sky.len() == dx * dz,
                top_y == dy - 1,
                z < dz,
                x <= dx,
                forall|k: int| 0 <= k < queue.len() ==> scene.has(cell_of(#[trigger] queue[k])),
                sky_seeded_to(vol, top_sky@, queue@, x as int, z as int),
            decreases dx - x,
        {
            let ghost at = cell_of((x, top_y, z));
            assert(scene.has(at));
            let ghost before = *vol;
            let ghost queue_was = queue@;
            let ghost sources = sky_sources(scene, top_sky@);
            assert(0 <= z * dx && z * dx + dx <= dx * dz) by (nonlinear_arith)
                requires
                    0 <= z,
                    z + 1 <= dz,
                    0 <= dx,
            ;
            if !vol.is_solid(x, top_y, z) {
                let incoming: u8 = top_sky[x + z * dx];
                let level: u8 = if incoming == MAX_LIGHT {
                    MAX_LIGHT
                } else if incoming > 0 {
                    incoming - 1
                } else {
                    0
                };
                assert(level == sources(at));
                if level > 0 {
                    vol.set_light(x, top_y, z, level);
                    queue.push((x, top_y, z));
                    assert(cell_of(queue@[queue.len() - 1]) == at);
                }
            }
            assert forall|c: Cell| vol.scene().has(c) implies #[trigger] vol.level(c) == (
            if visited(c, x + 1, c.1, z as int) {
                sources(c)
            } else {
                0
            }) && (vol.level(c) > 0 ==> queued(queue@, 0, c)) by {
                let v = before.level(c);
                lemma_queued_push(queue_was, (x, top_y, z), 0, c);
            }
            x += 1;
        }
        assert forall|c: Cell| vol.scene().has(c) implies #[trigger] vol.level(c) == (if visited(
            c,
            0,
            c.1,
            z + 1,
        ) {
            sky_sources(scene, top_sky@)(c)
        } else {
            0
        }) && (vol.level(c) > 0 ==> queued(queue@, 0, c)) by {}
        z += 1;
    }
    let ghost seeded = light_in(vol);
    assert forall|a: Cell, b: Cell| #[trigger] owes(scene, true, seeded, a, b) implies queued(
        queue@,
        0,
        a,
    ) by {
        assert(vol.level(a) > 0) by {
            assert(seeded(b) >= 0);
        }
    }
    spread(vol, queue, true);
    proof {
        let sources = sky_sources(scene, top_sky@);
        assert forall|c: Cell| #[trigger] scene.has(c) implies seeded(c) == sources(c) by {
            assert(visited(c, 0, c.1, dz as int));
        }
        lemma_same_sources(scene, true, seeded, sources, light_in(vol));
    }
}

/// The light depends on the sources only inside the volume.
pub(crate) proof fn lemma_same_sources(scene: Scene, sky: bool, a: Field, b: Field, light: Field)
    requires
        is_light_of(scene, sky, a, light),
        forall|c: Cell| #[trigger] scene.has(c) ==> a(c) == b(c),
    ensures
        is_light_of(scene, sky, b, light),
{
    assert forall|other: Field| #[trigger] lit_by(scene, sky, b, other) implies below(
        scene,
        light,
        other,
    ) by {
        assert(below(scene, a, other)) by {
            assert forall|c: Cell| #[trigger] scene.has(c) implies a(c) <= other(c) by {
                assert(b(c) <= other(c));
            }
        }
        assert(lit_by(scene, sky, a, other));
    }
    assert forall|c: Cell| #[trigger] scene.has(c) implies b(c) <= light(c) by {
        assert(a(c) <= light(c));
    }
}

/// The number of lit cells.
fn count_lit<V: LightVolume>(vol: &V) -> (lit: usize)
    requires
        vol.valid(),
        vol.scene().size.2 * (vol.scene().size.1 * vol.scene().size.0) <= usize::MAX,
    ensures
        lit == lit_count(vol.scene(), light_in(vol)),
{
    let ghost scene = vol.scene();
    let dims = vol.dims();
    let dx: usize = dims[0];
    let dy: usize = dims[1];
    let dz: usize = dims[2];
    let ghost light = light_in(vol);
    let ghost one: Field = |c: Cell|
        if light(c) > 0 {
            1int
        } else {
            0
        };
    let ghost slabs = |z: int| slab_sum(one, dx as int, dy as int, z);
    let mut lit: usize = 0;
    let mut z: usize = 0;
    while z < dz
        invariant
            vol.valid(),
            scene == vol.scene(),
            scene.size == (dx as int, dy as int, dz as int),
            dz * (dy * dx) <= usize::MAX,
            light == light_in(vol),
            forall|c: Cell|
                #[trigger] one(c) == (if light(c) > 0 {
                    1int
                } else {
                    0
                }),
            slabs == (|z: int| slab_sum(one, dx as int, dy as int, z)),
            z <= dz,
            lit == sum_to(slabs, z as int),
            lit <= z * (dy * dx),
        decreases dz - z,
    {
        let ghost rows = |y: int| row_sum(one, dx as int, y, z as int);
        let mut y: usize = 0;
        assert(z * (dy * dx) + dy * dx <= dz * (dy * dx)) by (nonlinear_arith)
            requires
                z + 1 <= dz,
                dy * dx >= 0,
        ;
        while y < dy
            invariant
                vol.valid(),
                scene == vol.scene(),
                scene.size == (dx as int, dy as int, dz as int),
                z * (dy * dx) + dy * dx <= usize::MAX,
                light == light_in(vol),
                forall|c: Cell|
                    #[trigger] one(c) == (if light(c) > 0 {
                        1int
                    } else {
                        0
                    }),
                rows == (|y: int| row_sum(one, dx as int, y, z as int)),
                z < dz,
                y <= dy,
                lit == sum_to(slabs, z as int) + sum_to(rows, y as int),
                lit <= z * (dy * dx) + y * dx,
            decreases dy - y,
        {
            let ghost cells = |x: int| one((x, y as int, z as int));
            let mut x: usize = 0;
            assert(y * dx + dx <= dy * dx) by (nonlinear_arith)
                requires
                    y + 1 <= dy,
                    dx >= 0,
            ;
            while x < dx
                invariant
                    vol.valid(),
                    scene == vol.scene(),
                    scene.size == (dx as int, dy as int, dz as int),
                    z * (dy * dx) + y * dx + dx <= usize::MAX,
                    light == light_in(vol),
                    forall|c: Cell|
                        #[trigger] one(c) == (if light(c) > 0 {
                            1int
                        } else {
                            0
                        }),
                    cells == (|x: int| one((x, y as int, z as int))),
                    z < dz,
                    y < dy,
                    x <= dx,
                    lit == sum_to(slabs, z as int) + sum_to(rows, y as int) + sum_to(
                        cells,
                        x as int,
                    ),
                    lit <= z * (dy * dx) + y * dx + x,
                decreases dx - x,
            {
                assert(scene.has(cell_of((x, y, z))));
                assert(cells(x as int) == one(cell_of((x, y, z))));
                if vol.get_light(x, y, z) > 0 {
                    lit += 1;
                }
                x += 1;
            }
            assert(rows(y as int) == sum_to(cells, dx as int));
            assert((y + 1) * dx == y * dx + dx) by (nonlinear_arith);
            y += 1;
        }
        assert(slabs(z as int) == sum_to(rows, dy as int));
        assert((z + 1) * (dy * dx) == z * (dy * dx) + dy * dx) by (nonlinear_arith);
        z += 1;
    }
    assert(one =~= |c: Cell|
        if light(c) > 0 {
            1int
        } else {
            0
        });
    lit
}

pub(crate) proof fn lemma_queued_push(
    queue: Seq<(usize, usize, usize)>,
    t: (usize, usize, usize),
    from: int,
    c: Cell,
)
    requires
        0 <= from,
    ensures
        queued(queue, from, c) ==> queued(queue.push(t), from, c),
{
    if queued(queue, from, c) {
        let k = choose|k: int| from <= k < queue.len() && #[trigger] cell_of(queue[k]) == c;
        assert(cell_of(queue.push(t)[k]) == c);
    }
}

proof fn lemma_queued_next(queue: Seq<(usize, usize, usize)>, from: int, c: Cell)
    ensures
        queued(queue, from, c) ==> queued(queue, from + 1, c) || (from < queue.len() && cell_of(
            queue[from],
        ) == c),
{
    if queued(queue, from, c) {
        let k = choose|k: int| from <= k < queue.len() && #[trigger] cell_of(queue[k]) == c;
        assert(cell_of(queue[k]) == c);
    }
}

proof fn lemma_slack(scene: Scene, light: Field)
    requires
        scene.size.0 >= 0,
        scene.size.1 >= 0,
        scene.size.2 >= 0,
        forall|c: Cell| 0 <= #[trigger] light(c) <= 255,
    ensures
        slack(scene, light) >= 0,
{
    lemma_total_bounds(scene.size, |c: Cell| 255 - light(c), 255);
}

/// A volume's light and emission are those of its cells, and the coordinates of a
/// cell are in the order x, y, z.
pub proof fn lemma_volume_fields<V: LightVolume>(v: &V, x: usize, y: usize, z: usize)
    ensures
        light_in(v)((x as int, y as int, z as int)) == v.level((x as int, y as int, z as int)),
        emission_in(v)((x as int, y as int, z as int)) == v.emits((x as int, y as int, z as int)),
        cell_of((x, y, z)) == (x as int, y as int, z as int),
{
}

proof fn lemma_sum_changed(f: spec_fn(int) -> int, g: spec_fn(int) -> int, n: int, i: int)
    requires
        forall|j: int| 0 <= j < n && j != i ==> #[trigger] f(j) == g(j),
    ensures
        sum_to(g, n) == sum_to(f, n) + (if 0 <= i < n {
            g(i) - f(i)
        } else {
            0
        }),
    decreases n,
{
    if n > 0 {
        lemma_sum_changed(f, g, n - 1, i);
    }
}

/// The count of lit cells is 0 in the dark, and goes up by one for each further
/// cell that is lit.
pub proof fn lemma_lit_count(scene: Scene, light: Field, more: Field, c: Cell)
    requires
        scene.has(c),
        light(c) == 0,
        more(c) > 0,
        forall|d: Cell| scene.has(d) && d != c ==> #[trigger] more(d) == light(d),
    ensures
        lit_count(scene, more) == lit_count(scene, light) + 1,
        (forall|d: Cell| #[trigger] scene.has(d) ==> light(d) == 0) ==> lit_count(scene, light) == 0,
{
    let one = |field: Field| |d: Cell|
        if field(d) > 0 {
            1int
        } else {
            0
        };
    let f = one(light);
    let g = one(more);
    let (nx, ny, nz) = scene.size;
    assert forall|y: int, z: int| 0 <= y < ny && 0 <= z < nz implies #[trigger] row_sum(g, nx, y, z)
        == row_sum(f, nx, y, z) + (if y == c.1 && z == c.2 {
        1int
    } else {
        0
    }) by {
        let i = if y == c.1 && z == c.2 { c.0 } else { -1 };
        let a = |x: int| f((x, y, z));
        let b = |x: int| g((x, y, z));
        assert forall|x: int| 0 <= x < nx && x != i implies #[trigger] a(x) == b(x) by {
            assert(scene.has((x, y, z)));
            assert(more((x, y, z)) == light((x, y, z)));
        }
        lemma_sum_changed(a, b, nx, i);
    }
    assert forall|z: int| 0 <= z < nz implies #[trigger] slab_sum(g, nx, ny, z) == slab_sum(
        f,
        nx,
        ny,
        z,
    ) + (if z == c.2 {
        1int
    } else {
        0
    }) by {
        let i = if z == c.2 { c.1 } else { -1 };
        let a = |y: int| row_sum(f, nx, y, z);
        let b = |y: int| row_sum(g, nx, y, z);
        assert forall|y: int| 0 <= y < ny && y != i implies #[trigger] a(y) == b(y) by {
            assert(row_sum(g, nx, y, z) == row_sum(f, nx, y, z));
        }
        lemma_sum_changed(a, b, ny, i);
        if z == c.2 {
            assert(row_sum(g, nx, c.1, z) == row_sum(f, nx, c.1, z) + 1);
        }
    }
    let a = |z: int| slab_sum(f, nx, ny, z);
    let b = |z: int| slab_sum(g, nx, ny, z);
    assert forall|z: int| 0 <= z < nz && z != c.2 implies #[trigger] a(z) == b(z) by {
        assert(slab_sum(g, nx, ny, z) == slab_sum(f, nx, ny, z));
    }
    lemma_sum_changed(a, b, nz, c.2);
    assert(slab_sum(g, nx, ny, c.2) == slab_sum(f, nx, ny, c.2) + 1);
    if forall|d: Cell| #[trigger] scene.has(d) ==> light(d) == 0 {
        assert forall|d: Cell| in_box(scene.size, d) implies #[trigger] f(d) == 0 by {
            assert(scene.has(d));
        }
        lemma_total_bounds(scene.size, f, 0);
        assert(nz * (ny * (nx * 0)) == 0) by (nonlinear_arith);
    }
}

} // verus!
