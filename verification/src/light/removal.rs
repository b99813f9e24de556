//! Taking light away without a full recompute.

use crate::light::flood::{
    all_queued, cell_of, emission_in, lemma_queued_push, lemma_same_sources, light_in, neighbors,
    owes, queued, same_volume, spread, LightVolume,
};
use crate::light::model::{
    adjacent, below, in_box, is_light_of, lemma_light_supported, lemma_total_bounds, lemma_total_lt,
    lit_by, passed_on, total, Cell, Field, Scene,
};
use vstd::prelude::*;

verus! {

/// The second scene is the first after a change at `o` alone: its emission may
/// be any other, and it may have become solid, but not open.
pub open spec fn changed_at(was: Scene, emitted: Field, now: Scene, emits: Field, o: Cell) -> bool {
    &&& was.size == now.size
    &&& forall|c: Cell|
        now.has(c) && c != o ==> #[trigger] emits(c) == emitted(c) && now.open_to_light(c)
            == was.open_to_light(c)
    &&& now.open_to_light(o) ==> was.open_to_light(o)
}

/// The cells share a face within the volume.
spec fn touching(scene: Scene, a: Cell, b: Cell) -> bool {
    scene.has(a) && scene.has(b) && adjacent(a, b)
}

/// Clearing `unlit` took every cell that only it could have lit.
spec fn clearing_done(scene: Scene, light: Field, unlit: spec_fn(Cell) -> bool) -> bool {
    forall|a: Cell, b: Cell| #[trigger]
        touching(scene, a, b) && unlit(a) && 0 < light(b) < light(a) ==> unlit(b)
}

/// The light that clearing left and the emission it gave back.
spec fn left_over(light: Field, emits: Field, unlit: spec_fn(Cell) -> bool) -> Field {
    |c: Cell|
        if unlit(c) {
            emits(c)
        } else {
            light(c)
        }
}

/// Light that was not cleared is still owed to sources other than the origin.
proof fn lemma_survivor(
    was: Scene,
    emitted: Field,
    now: Scene,
    emits: Field,
    o: Cell,
    light: Field,
    unlit: spec_fn(Cell) -> bool,
    other: Field,
    c: Cell,
)
    requires
        changed_at(was, emitted, now, emits, o),
        is_light_of(was, false, emitted, light),
        forall|d: Cell| #[trigger] light(d) <= 255,
        unlit(o),
        clearing_done(now, light, unlit),
        forall|d: Cell| #[trigger] other(d) >= 0,
        lit_by(now, false, emits, other),
        now.has(c),
        !unlit(c),
    ensures
        light(c) <= other(c),
    decreases 255 - light(c),
{
    if light(c) > 0 {
        assert(was.has(c));
        lemma_light_supported(was, emitted, light, c);
        if emitted(c) == light(c) {
            assert(emits(c) == emitted(c));
            assert(emits(c) <= other(c));
        } else {
            let p = choose|p: Cell| #[trigger] was.edge(p, c) && light(p) == light(c) + 1;
            assert(touching(now, p, c));
            assert(!unlit(p));
            lemma_survivor(was, emitted, now, emits, o, light, unlit, other, p);
            assert(emits(c) == emitted(c));
            assert(now.edge(p, c));
            assert(other(c) >= passed_on(false, p, c, other(p)));
        }
    }
}

/// A lit field is nowhere negative where its sources are not.
proof fn lemma_clamped(scene: Scene, sources: Field, other: Field) -> (r: Field)
    requires
        lit_by(scene, false, sources, other),
        forall|c: Cell| #[trigger] sources(c) >= 0,
    ensures
        lit_by(scene, false, sources, r),
        forall|c: Cell| #[trigger] r(c) >= 0,
        forall|c: Cell| #[trigger] scene.has(c) ==> r(c) == other(c),
{
    let r: Field = |c: Cell|
        if scene.has(c) {
            other(c)
        } else {
            0
        };
    assert forall|c: Cell| #[trigger] r(c) >= 0 by {
        if scene.has(c) {
            assert(sources(c) <= other(c));
        }
    }
    assert forall|c: Cell| #[trigger] scene.has(c) implies sources(c) <= r(c) by {
        assert(sources(c) <= other(c));
    }
    assert forall|a: Cell, b: Cell| #[trigger] scene.edge(a, b) implies r(b) >= passed_on(
        false,
        a,
        b,
        r(a),
    ) by {
        assert(other(b) >= passed_on(false, a, b, other(a)));
    }
    r
}

/// Flooding what clearing left over gives the light of the changed scene.
proof fn lemma_relit(
    was: Scene,
    emitted: Field,
    now: Scene,
    emits: Field,
    o: Cell,
    light: Field,
    unlit: spec_fn(Cell) -> bool,
    relit: Field,
)
    requires
        changed_at(was, emitted, now, emits, o),
        is_light_of(was, false, emitted, light),
        forall|d: Cell| #[trigger] light(d) <= 255,
        forall|d: Cell| #[trigger] emits(d) >= 0,
        unlit(o),
        clearing_done(now, light, unlit),
        is_light_of(now, false, left_over(light, emits, unlit), relit),
    ensures
        is_light_of(now, false, emits, relit),
{
    let base = left_over(light, emits, unlit);
    assert forall|c: Cell| #[trigger] now.has(c) implies emits(c) <= relit(c) by {
        assert(base(c) <= relit(c));
        if !unlit(c) {
            assert(was.has(c));
            assert(emits(c) == emitted(c));
            assert(emitted(c) <= light(c));
        }
    }
    assert forall|other: Field| #[trigger] lit_by(now, false, emits, other) implies below(
        now,
        relit,
        other,
    ) by {
        let r = lemma_clamped(now, emits, other);
        assert forall|c: Cell| #[trigger] now.has(c) implies base(c) <= r(c) by {
            if !unlit(c) {
                lemma_survivor(was, emitted, now, emits, o, light, unlit, r, c);
            } else {
                assert(emits(c) <= r(c));
            }
        }
        assert(lit_by(now, false, base, r));
        assert(below(now, relit, r));
        assert forall|c: Cell| #[trigger] now.has(c) implies relit(c) <= other(c) by {
            assert(relit(c) <= r(c));
        }
    }
}

spec fn entry_cell(t: (usize, usize, usize, u8)) -> Cell {
    (t.0 as int, t.1 as int, t.2 as int)
}

/// `c` is among the first `n` entries.
spec fn cleared(unlight: Seq<(usize, usize, usize, u8)>, n: int, c: Cell) -> bool {
    exists|k: int| 0 <= k < n && #[trigger] entry_cell(unlight[k]) == c
}

/// What clearing has made of neighbour `b` of the cleared cell `a`.
spec fn handled(
    light: Field,
    unlight: Seq<(usize, usize, usize, u8)>,
    relight: Seq<(usize, usize, usize)>,
    a: Cell,
    b: Cell,
) -> bool {
    ||| light(b) == 0
    ||| cleared(unlight, unlight.len() as int, b)
    ||| (light(b) >= light(a) && queued(relight, 0, b))
}

proof fn lemma_cleared_push(
    unlight: Seq<(usize, usize, usize, u8)>,
    t: (usize, usize, usize, u8),
    c: Cell,
)
    ensures
        cleared(unlight.push(t), unlight.push(t).len() as int, c) == (cleared(unlight, unlight.len() as int, c)
            || entry_cell(t) == c),
{
    let u = unlight.push(t);
    if cleared(unlight, unlight.len() as int, c) {
        let k = choose|k: int| 0 <= k < unlight.len() && #[trigger] entry_cell(unlight[k]) == c;
        assert(entry_cell(u[k]) == c);
    }
    if entry_cell(t) == c {
        assert(entry_cell(u[unlight.len() as int]) == c);
    }
    if cleared(u, u.len() as int, c) {
        let k = choose|k: int| 0 <= k < u.len() && #[trigger] entry_cell(u[k]) == c;
        if k < unlight.len() {
            assert(entry_cell(unlight[k]) == c);
        }
    }
}

/// Remove block light after a light-affecting change at `(sx, sy, sz)`: a
/// light source was broken, or a solid block was placed where light used to
/// be. Called with the volume's `emission` and `is_solid` already reflecting
/// the change, it repairs the light field without a full recompute.
///
/// Phase 1 (un-light): from the changed cell, clear the cells whose light could
/// only have come from here (strictly dimmer than the cell being cleared),
/// keeping as seeds the neighbours that are as bright or brighter. Phase 2
/// (re-light): spread from those seeds and from the emitters that were cleared.
pub fn remove_block_light<V: LightVolume>(vol: &mut V, sx: usize, sy: usize, sz: usize)
    requires
        old(vol).valid(),
        old(vol).scene().has(cell_of((sx, sy, sz))),
    ensures
        final(vol).valid(),
        same_volume(old(vol), final(vol)),
        forall|was: Scene, emitted: Field|
            #![trigger is_light_of(was, false, emitted, light_in(old(vol)))]
            is_light_of(was, false, emitted, light_in(old(vol))) && changed_at(
                was,
                emitted,
                old(vol).scene(),
                emission_in(old(vol)),
                cell_of((sx, sy, sz)),
            ) ==> is_light_of(
                old(vol).scene(),
                false,
                emission_in(old(vol)),
                light_in(final(vol)),
            ),
{
    let ghost scene = vol.scene();
    let ghost light = light_in(vol);
    let ghost emits = emission_in(vol);
    let ghost o = cell_of((sx, sy, sz));
    let dims = vol.dims();
    let dx: usize = dims[0];
    let dy: usize = dims[1];
    let dz: usize = dims[2];
    let start_level: u8 = vol.get_light(sx, sy, sz);
    let start_emit: u8 = vol.emission(sx, sy, sz);

    if start_level == 0 {
        let ghost unlit = |c: Cell| c == o;
        let ghost base = left_over(light, emits, unlit);
        if start_emit > 0 {
            vol.set_light(sx, sy, sz, start_emit);
            assert(same_volume(old(vol), vol));
            let queue: Vec<(usize, usize, usize)> = vec![(sx, sy, sz)];
            let ghost seeded = light_in(vol);
            spread(vol, queue, false);
            assert forall|was: Scene, emitted: Field|
                #![trigger is_light_of(was, false, emitted, light)]
                is_light_of(was, false, emitted, light) && changed_at(
                    was,
                    emitted,
                    scene,
                    emits,
                    o,
                ) implies is_light_of(scene, false, emits, light_in(vol)) by {
                assert(cell_of(queue@[0]) == o);
                assert forall|a: Cell, b: Cell| #[trigger] owes(
                    scene,
                    false,
                    seeded,
                    a,
                    b,
                ) implies queued(queue@, 0, a) by {
                    if a != o {
                        if b != o {
 assert(emits(b) == emitted(b));
}
                        assert(was.edge(a, b));
                        assert(light(b) >= passed_on(false, a, b, light(a)));
                        assert(seeded(a) == light(a));
                        assert(seeded(b) >= light(b));
                    }
                }
                assert(all_queued(scene, false, seeded, queue@));
                assert forall|c: Cell| #[trigger] scene.has(c) implies seeded(c) == base(c) by {}
                lemma_same_sources(scene, false, seeded, base, light_in(vol));
                lemma_relit(was, emitted, scene, emits, o, light, unlit, light_in(vol));
            }
        } else {
            assert forall|was: Scene, emitted: Field|
                #![trigger is_light_of(was, false, emitted, light)]
                is_light_of(was, false, emitted, light) && changed_at(
                    was,
                    emitted,
                    scene,
                    emits,
                    o,
                ) implies is_light_of(scene, false, emits, light_in(vol)) by {
                assert forall|a: Cell, b: Cell| #[trigger] scene.edge(a, b) implies light(b)
                    >= passed_on(false, a, b, light(a)) by {
                    if b != o {
 assert(emits(b) == emitted(b));
}
                    assert(was.edge(a, b));
                }
                assert forall|c: Cell| #[trigger] scene.has(c) implies light(c) == base(c) by {}
                assert(is_light_of(scene, false, base, light)) by {
                    assert forall|other: Field| #[trigger]
                        lit_by(scene, false, base, other) implies below(scene, light, other) by {
                        assert forall|c: Cell| #[trigger] scene.has(c) implies light(c) <= other(
                            c,
                        ) by {
                            assert(base(c) <= other(c));
                        }
                    }
                }
                lemma_relit(was, emitted, scene, emits, o, light, unlit, light);
            }
        }
        return;
    }
    let mut unlight: Vec<(usize, usize, usize, u8)> = vec![(sx, sy, sz, start_level)];
    let mut relight: Vec<(usize, usize, usize)> = Vec::new();
    vol.set_light(sx, sy, sz, 0);
    proof {
        assert(entry_cell(unlight@[0]) == o);
        assert forall|c: Cell| scene.has(c) implies #[trigger] vol.level(c) == (if cleared(
            unlight@,
            unlight.len() as int,
            c,
        ) {
            0
        } else {
            light(c)
        }) by {
            if c == o {
                assert(entry_cell(unlight@[0]) == c);
            }
        }
        lemma_total_bounds(scene.size, light_in(vol), 255);
    }
    let mut head: usize = 0;
    while head < unlight.len()
        invariant
            vol.valid(),
            same_volume(old(vol), vol),
            scene == vol.scene(),
            light == light_in(old(vol)),
            scene.size == (dx as int, dy as int, dz as int),
            head <= unlight.len(),
            forall|k: int|
                0 <= k < unlight.len() ==> scene.has(entry_cell(#[trigger] unlight[k]))
                    && unlight[k].3 == light(entry_cell(unlight[k])) && unlight[k].3 > 0,
            forall|k: int| 0 <= k < relight.len() ==> scene.has(cell_of(#[trigger] relight[k])),
            forall|c: Cell|
                scene.has(c) ==> #[trigger] vol.level(c) == (if cleared(
                    unlight@,
                    unlight.len() as int,
                    c,
                ) {
                    0
                } else {
                    light(c)
                }),
            cleared(unlight@, unlight.len() as int, o),
            forall|a: Cell, b: Cell| #[trigger]
                touching(scene, a, b) && cleared(unlight@, head as int, a) ==> handled(
                    light,
                    unlight@,
                    relight@,
                    a,
                    b,
                ),
            total(scene.size, light_in(vol)) >= 0,
        decreases total(scene.size, light_in(vol)), unlight.len() - head,
    {
        let (x, y, z, level) = unlight[head];
        let ghost c0 = entry_cell(unlight@[head as int]);
        let ghost from = head as int;
        let ghost ulen = unlight.len();
        let ghost pot = total(scene.size, light_in(vol));
        let ns = neighbors(x, y, z, dx, dy, dz);
        head += 1;
        let mut j: usize = 0;
        while j < ns.len()
            invariant
                vol.valid(),
                same_volume(old(vol), vol),
                scene == vol.scene(),
                light == light_in(old(vol)),
                scene.size == (dx as int, dy as int, dz as int),
                j <= ns.len(),
                0 <= from,
                from + 1 == head,
                head <= unlight.len(),
                c0 == entry_cell(unlight@[from]),
                level == light(c0),
                forall|k: int|
                    0 <= k < ns.len() ==> scene.has(cell_of(#[trigger] ns[k])),
                forall|k: int|
                    0 <= k < unlight.len() ==> scene.has(entry_cell(#[trigger] unlight[k]))
                        && unlight[k].3 == light(entry_cell(unlight[k])) && unlight[k].3 > 0,
                forall|k: int| 0 <= k < relight.len() ==> scene.has(cell_of(#[trigger] relight[k])),
                forall|c: Cell|
                    scene.has(c) ==> #[trigger] vol.level(c) == (if cleared(
                        unlight@,
                        unlight.len() as int,
                        c,
                    ) {
                        0
                    } else {
                        light(c)
                    }),
                cleared(unlight@, unlight.len() as int, o),
                forall|a: Cell, b: Cell| #[trigger]
                    touching(scene, a, b) && cleared(unlight@, from, a) ==> handled(
                        light,
                        unlight@,
                        relight@,
                        a,
                        b,
                    ),
                forall|m: int|
                    0 <= m < j ==> handled(light, unlight@, relight@, c0, cell_of(#[trigger] ns[m])),
                0 <= total(scene.size, light_in(vol)) <= pot,
                total(scene.size, light_in(vol)) < pot || unlight.len() == ulen,
            decreases ns.len() - j,
        {
            let (nx, ny, nz) = ns[j];
            let ghost n = cell_of(ns@[j as int]);
            let ghost unlight_was = unlight@;
            let ghost relight_was = relight@;
            let ghost was = light_in(vol);
            let nl: u8 = vol.get_light(nx, ny, nz);
            if nl != 0 {
                if nl < level {
                    vol.set_light(nx, ny, nz, 0);
                    unlight.push((nx, ny, nz, nl));
                    proof {
                        let now = light_in(vol);
                        assert forall|c: Cell| scene.has(c) implies #[trigger] vol.level(c) == (
                        if cleared(unlight@, unlight.len() as int, c) {
                            0
                        } else {
                            light(c)
                        }) by {
                            lemma_cleared_push(unlight_was, (nx, ny, nz, nl), c);
                        }
                        assert forall|c: Cell| #[trigger] in_box(scene.size, c) implies now(c)
                            <= was(c) by {
                            assert(scene.has(c));
                        }
                        lemma_total_lt(scene.size, now, was, n);
                        lemma_total_bounds(scene.size, now, 255);
                        lemma_cleared_push(unlight_was, (nx, ny, nz, nl), o);
                    }
                } else {
                    relight.push((nx, ny, nz));
                    proof {
                        assert(cell_of(relight@[relight.len() - 1]) == n);
                    }
                }
            }
            proof {
                assert forall|a: Cell, b: Cell|
                    handled(light, unlight_was, relight_was, a, b) implies #[trigger] handled(
                    light,
                    unlight@,
                    relight@,
                    a,
                    b,
                ) by {
                    lemma_cleared_push(unlight_was, (nx, ny, nz, nl), b);
                    lemma_queued_push(relight_was, (nx, ny, nz), 0, b);
                }
                lemma_cleared_push(unlight_was, (nx, ny, nz, nl), n);
                assert(handled(light, unlight@, relight@, c0, n));
                assert forall|a: Cell, b: Cell| #[trigger]
                    touching(scene, a, b) && cleared(unlight@, from, a) implies handled(
                    light,
                    unlight@,
                    relight@,
                    a,
                    b,
                ) by {
                    let k = choose|k: int| 0 <= k < from && #[trigger] entry_cell(unlight@[k]) == a;
                    assert(entry_cell(unlight_was[k]) == a);
                    assert(cleared(unlight_was, from, a));
                    assert(handled(light, unlight_was, relight_was, a, b));
                }
                assert forall|m: int| 0 <= m < j + 1 implies handled(
                    light,
                    unlight@,
                    relight@,
                    c0,
                    cell_of(#[trigger] ns@[m]),
                ) by {
                    if m < j {
                        assert(handled(light, unlight_was, relight_was, c0, cell_of(ns@[m])));
                    }
                }
            }
            j += 1;
        }
        assert forall|a: Cell, b: Cell| #[trigger]
            touching(scene, a, b) && cleared(unlight@, head as int, a) implies handled(
            light,
            unlight@,
            relight@,
            a,
            b,
        ) by {
            let k = choose|k: int| 0 <= k < head && #[trigger] entry_cell(unlight@[k]) == a;
            if k < from {
                assert(cleared(unlight@, from, a));
            } else {
                assert(a == c0);
                assert(queued(ns@, 0, b));
                let m = choose|m: int| 0 <= m < ns.len() && #[trigger] cell_of(ns@[m]) == b;
                assert(handled(light, unlight@, relight@, c0, cell_of(ns@[m])));
            }
        }
    }
    let ghost unlit = |c: Cell| cleared(unlight@, unlight.len() as int, c);
    let ghost after_clearing = light_in(vol);

    let mut queue: Vec<(usize, usize, usize)> = Vec::new();
    let mut k: usize = 0;
    while k < relight.len()
        invariant
            vol.valid(),
            same_volume(old(vol), vol),
            scene == vol.scene(),
            after_clearing == light_in(vol),
            k <= relight.len(),
            forall|k: int| 0 <= k < relight.len() ==> scene.has(cell_of(#[trigger] relight[k])),
            forall|k: int| 0 <= k < queue.len() ==> scene.has(cell_of(#[trigger] queue[k])),
            forall|m: int|
                0 <= m < k && after_clearing(cell_of(relight[m])) > 0 ==> #[trigger] queued(
                    queue@,
                    0,
                    cell_of(relight[m]),
                ),
        decreases relight.len() - k,
    {
        let (x, y, z) = relight[k];
        let ghost c = cell_of(relight@[k as int]);
        let ghost queue_was = queue@;
        if vol.get_light(x, y, z) > 0 {
            queue.push((x, y, z));
            assert(cell_of(queue@[queue.len() - 1]) == c);
        }
        assert forall|m: int|
            0 <= m < k + 1 && after_clearing(cell_of(relight@[m])) > 0 implies #[trigger] queued(
            queue@,
            0,
            cell_of(relight@[m]),
        ) by {
            lemma_queued_push(queue_was, (x, y, z), 0, cell_of(relight@[m]));
            if m < k {
                assert(queued(queue_was, 0, cell_of(relight@[m])));
            }
        }
        k += 1;
    }
    let ghost seeds = queue@;
    assert forall|b: Cell| queued(relight@, 0, b) && after_clearing(b) > 0 implies queued(
        queue@,
        0,
        b,
    ) by {
        let m = choose|m: int| 0 <= m < relight.len() && #[trigger] cell_of(relight@[m]) == b;
        assert(queued(queue@, 0, cell_of(relight@[m])));
    }
    let mut k: usize = 0;
    while k < unlight.len()
        invariant
            vol.valid(),
            same_volume(old(vol), vol),
            scene == vol.scene(),
            light == light_in(old(vol)),
            emits == emission_in(old(vol)),
            k <= unlight.len(),
            forall|k: int|
                0 <= k < unlight.len() ==> scene.has(entry_cell(#[trigger] unlight[k])),
            forall|k: int| 0 <= k < queue.len() ==> scene.has(cell_of(#[trigger] queue[k])),
            forall|b: Cell| queued(seeds, 0, b) ==> #[trigger] queued(queue@, 0, b),
            forall|c: Cell|
                scene.has(c) ==> #[trigger] vol.level(c) == (if cleared(unlight@, k as int, c) {
                    emits(c)
                } else if cleared(unlight@, unlight.len() as int, c) {
                    0
                } else {
                    light(c)
                }),
            forall|c: Cell|
                cleared(unlight@, k as int, c) && emits(c) > 0 ==> #[trigger] queued(queue@, 0, c),
        decreases unlight.len() - k,
    {
        let (x, y, z, _) = unlight[k];
        let ghost at = entry_cell(unlight@[k as int]);
        let ghost queue_was = queue@;
        let ghost before = *vol;
        assert(cleared(unlight@, unlight.len() as int, at));
        let e: u8 = vol.emission(x, y, z);
        if e > vol.get_light(x, y, z) {
            vol.set_light(x, y, z, e);
            queue.push((x, y, z));
            assert(cell_of(queue@[queue.len() - 1]) == at);
        }
        assert forall|c: Cell| #![trigger cleared(unlight@, k + 1, c)]
            cleared(unlight@, k + 1, c) == (cleared(unlight@, k as int, c) || c == at) by {
            if cleared(unlight@, k as int, c) {
                let m = choose|m: int| 0 <= m < k && #[trigger] entry_cell(unlight@[m]) == c;
                assert(0 <= m < k + 1 && entry_cell(unlight@[m]) == c);
            }
            if c == at {
                assert(entry_cell(unlight@[k as int]) == c);
            }
        }
        assert forall|c: Cell| scene.has(c) implies #[trigger] vol.level(c) == (if cleared(
            unlight@,
            k + 1,
            c,
        ) {
            emits(c)
        } else if cleared(unlight@, unlight.len() as int, c) {
            0
        } else {
            light(c)
        }) by {
            let v = before.level(c);
        }
        assert forall|b: Cell| queued(queue_was, 0, b) implies #[trigger] queued(queue@, 0, b) by {
            lemma_queued_push(queue_was, (x, y, z), 0, b);
        }
        assert forall|c: Cell| cleared(unlight@, k + 1, c) && emits(c) > 0 implies #[trigger] queued(
            queue@,
            0,
            c,
        ) by {
            lemma_queued_push(queue_was, (x, y, z), 0, c);
            if c == at && !cleared(unlight@, k as int, c) {
                assert(before.level(c) == 0);
                assert(cell_of(queue@[queue.len() - 1]) == c);
            }
        }
        k += 1;
    }
    let ghost seeded = light_in(vol);
    let ghost base = left_over(light, emits, unlit);
    spread(vol, queue, false);
    assert forall|was: Scene, emitted: Field|
        #![trigger is_light_of(was, false, emitted, light)]
        is_light_of(was, false, emitted, light) && changed_at(was, emitted, scene, emits, o) implies
        is_light_of(scene, false, emits, light_in(vol)) by {
        assert forall|c: Cell| #[trigger] scene.has(c) implies seeded(c) == base(c) by {}
        assert forall|a: Cell, b: Cell| #[trigger] owes(scene, false, seeded, a, b) implies queued(
            queue@,
            0,
            a,
        ) by {
            assert(scene.has(a) && scene.has(b));
            assert(seeded(b) >= 0);
            if unlit(a) {
                assert(queued(queue@, 0, a));
            } else if unlit(b) {
                assert(touching(scene, b, a));
                assert(handled(light, unlight@, relight@, b, a));
                assert(after_clearing(a) > 0);
                assert(queued(seeds, 0, a));
            } else {
                assert(emits(b) == emitted(b));
                assert(was.edge(a, b));
                assert(light(b) >= passed_on(false, a, b, light(a)));
            }
        }
        assert(clearing_done(scene, light, unlit)) by {
            assert forall|a: Cell, b: Cell| #[trigger]
                touching(scene, a, b) && unlit(a) && 0 < light(b) < light(a) implies unlit(b) by {
                assert(handled(light, unlight@, relight@, a, b));
            }
        }
        lemma_same_sources(scene, false, seeded, base, light_in(vol));
        lemma_relit(was, emitted, scene, emits, o, light, unlit, light_in(vol));
    }
}

/// Taking a light away, putting a block in its place, or both, in one cell and
/// leaving every other as it is, is a change at that cell.
pub proof fn lemma_change_at_one_cell(was: Scene, emitted: Field, now: Scene, emits: Field, o: Cell)
    requires
        was.size == now.size,
        forall|c: Cell|
            c != o ==> #[trigger] emits(c) == emitted(c) && (now.solid)(c) == (was.solid)(c) && (
            now.accepts)(c) == (was.accepts)(c),
        (now.accepts)(o) == (was.accepts)(o),
        (now.solid)(o) || !(was.solid)(o),
    ensures
        changed_at(was, emitted, now, emits, o),
{
    assert forall|c: Cell| now.has(c) && c != o implies #[trigger] emits(c) == emitted(c)
        && now.open_to_light(c) == was.open_to_light(c) by {
        assert(emits(c) == emitted(c));
        assert((now.solid)(c) == (was.solid)(c));
        assert((now.accepts)(c) == (was.accepts)(c));
        assert(now.has(c) == was.has(c));
    }
}

} // verus!
