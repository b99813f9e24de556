//! What light is: the least field that holds every source and passes light on.

use vstd::prelude::*;

verus! {

/// A cell of a rectangular volume.
pub type Cell = (int, int, int);

/// A light level for every cell.
pub type Field = spec_fn(Cell) -> int;

/// Maximum light level.
pub const MAX_LIGHT: u8 = 15;

/// The volume light spreads in.
#[verifier::ext_equal]
pub struct Scene {
    /// Cells per axis.
    pub size: Cell,
    /// Cells that block light.
    pub solid: spec_fn(Cell) -> bool,
    /// Cells that light may spread into, unless they are solid.
    pub accepts: spec_fn(Cell) -> bool,
}

impl Scene {
    /// `c` is a cell of the volume.
    pub open spec fn has(self, c: Cell) -> bool {
        &&& 0 <= c.0 < self.size.0
        &&& 0 <= c.1 < self.size.1
        &&& 0 <= c.2 < self.size.2
    }

    /// Light may spread into `c`.
    pub open spec fn open_to_light(self, c: Cell) -> bool {
        self.has(c) && !(self.solid)(c) && (self.accepts)(c)
    }

    /// `a` and `b` share a face and light may go from `a` into `b`.
    pub open spec fn edge(self, a: Cell, b: Cell) -> bool {
        self.has(a) && self.open_to_light(b) && adjacent(a, b)
    }
}

/// The two cells share a face.
pub open spec fn adjacent(a: Cell, b: Cell) -> bool {
    ||| (a.1 == b.1 && a.2 == b.2 && (a.0 + 1 == b.0 || b.0 + 1 == a.0))
    ||| (a.0 == b.0 && a.2 == b.2 && (a.1 + 1 == b.1 || b.1 + 1 == a.1))
    ||| (a.0 == b.0 && a.1 == b.1 && (a.2 + 1 == b.2 || b.2 + 1 == a.2))
}

/// `b` lies directly below `a`.
pub open spec fn straight_down(a: Cell, b: Cell) -> bool {
    a.0 == b.0 && a.2 == b.2 && b.1 + 1 == a.1
}

/// What light of level `level` at `a` gives to the neighbour `b`: one less,
/// except that full daylight (`sky`) does not dim going straight down.
pub open spec fn passed_on(sky: bool, a: Cell, b: Cell, level: int) -> int {
    if sky && level == MAX_LIGHT && straight_down(a, b) {
        MAX_LIGHT as int
    } else {
        level - 1
    }
}

/// In the field, every cell that light may enter has what each neighbour
/// passes on to it.
pub open spec fn passes_on(scene: Scene, sky: bool, field: Field) -> bool {
    forall|a: Cell, b: Cell|
        #[trigger] scene.edge(a, b) ==> field(b) >= passed_on(sky, a, b, field(a))
}

/// In the volume, `lower` is nowhere above `upper`.
pub open spec fn below(scene: Scene, lower: Field, upper: Field) -> bool {
    forall|c: Cell| #[trigger] scene.has(c) ==> lower(c) <= upper(c)
}

/// `field` holds the sources and passes light on.
pub open spec fn lit_by(scene: Scene, sky: bool, sources: Field, field: Field) -> bool {
    below(scene, sources, field) && passes_on(scene, sky, field)
}

/// `field` is the light of the sources: the least field that holds them and
/// passes light on. So overlapping sources give the brighter value, and light
/// that reaches a cell comes from a source along a path of open cells.
pub open spec fn is_light_of(scene: Scene, sky: bool, sources: Field, field: Field) -> bool {
    &&& lit_by(scene, sky, sources, field)
    &&& forall|other: Field| #[trigger]
        lit_by(scene, sky, sources, other) ==> below(scene, field, other)
}

/// The light of given sources is unique.
pub proof fn lemma_light_unique(scene: Scene, sky: bool, sources: Field, a: Field, b: Field)
    requires
        is_light_of(scene, sky, sources, a),
        is_light_of(scene, sky, sources, b),
    ensures
        forall|c: Cell| #[trigger] scene.has(c) ==> a(c) == b(c),
{
    assert(below(scene, a, b));
    assert(below(scene, b, a));
}

/// More or brighter sources never make a cell darker.
pub proof fn lemma_light_monotone(
    scene: Scene,
    sky: bool,
    sources: Field,
    brighter: Field,
    a: Field,
    b: Field,
)
    requires
        below(scene, sources, brighter),
        is_light_of(scene, sky, sources, a),
        is_light_of(scene, sky, brighter, b),
    ensures
        below(scene, a, b),
{
    assert(lit_by(scene, sky, sources, b)) by {
        assert forall|c: Cell| #[trigger] scene.has(c) implies sources(c) <= b(c) by {
            assert(sources(c) <= brighter(c));
        }
    }
}

/// Every lit cell owes its level to its own source or to a neighbour one
/// level brighter.
pub proof fn lemma_light_supported(scene: Scene, sources: Field, field: Field, c: Cell)
    requires
        is_light_of(scene, false, sources, field),
        scene.has(c),
        field(c) > 0,
    ensures
        sources(c) == field(c) || exists|p: Cell| #[trigger]
            scene.edge(p, c) && field(p) == field(c) + 1,
{
    if sources(c) != field(c) && !exists|p: Cell| #[trigger]
        scene.edge(p, c) && field(p) == field(c) + 1 {
        let dimmer: Field = |d: Cell|
            if d == c {
                field(c) - 1
            } else {
                field(d)
            };
        assert forall|a: Cell, b: Cell| #[trigger] scene.edge(a, b) implies dimmer(b) >= passed_on(
            false,
            a,
            b,
            dimmer(a),
        ) by {
            assert(field(b) >= passed_on(false, a, b, field(a)));
            if b == c {
                assert(field(a) != field(c) + 1);
            }
        }
        assert forall|d: Cell| #[trigger] scene.has(d) implies sources(d) <= dimmer(d) by {
            assert(sources(d) <= field(d));
        }
        assert(lit_by(scene, false, sources, dimmer));
        assert(below(scene, field, dimmer));
        assert(field(c) <= dimmer(c));
    }
}

/// Light is never brighter than the brightest source allows.
pub proof fn lemma_light_bounded(scene: Scene, sky: bool, sources: Field, field: Field)
    requires
        is_light_of(scene, sky, sources, field),
        forall|c: Cell| #[trigger] scene.has(c) ==> 0 <= sources(c) <= 15,
    ensures
        forall|c: Cell| #[trigger] scene.has(c) ==> 0 <= field(c) <= 15,
{
    let full: Field = |c: Cell| 15;
    assert(lit_by(scene, sky, sources, full));
    assert(below(scene, field, full));
    assert(below(scene, sources, field));
    assert forall|c: Cell| #[trigger] scene.has(c) implies 0 <= field(c) <= 15 by {
        assert(sources(c) <= field(c) <= full(c));
    }
}

/// Every cell in daylight owes its level to its own source or to a neighbour that
/// passes it on.
pub proof fn lemma_daylight_supported(scene: Scene, sources: Field, field: Field, c: Cell)
    requires
        is_light_of(scene, true, sources, field),
        scene.has(c),
        field(c) > 0,
        forall|d: Cell| #[trigger] scene.has(d) ==> field(d) <= 15,
    ensures
        sources(c) == field(c) || exists|p: Cell| #[trigger]
            scene.edge(p, c) && passed_on(true, p, c, field(p)) == field(c),
{
    if sources(c) != field(c) && !exists|p: Cell| #[trigger]
        scene.edge(p, c) && passed_on(true, p, c, field(p)) == field(c) {
        let dimmer: Field = |d: Cell|
            if d == c {
                field(c) - 1
            } else {
                field(d)
            };
        assert forall|a: Cell, b: Cell| #[trigger] scene.edge(a, b) implies dimmer(b) >= passed_on(
            true,
            a,
            b,
            dimmer(a),
        ) by {
            assert(field(b) >= passed_on(true, a, b, field(a)));
            assert(scene.has(a));
        }
        assert forall|d: Cell| #[trigger] scene.has(d) implies sources(d) <= dimmer(d) by {
            assert(sources(d) <= field(d));
        }
        assert(lit_by(scene, true, sources, dimmer));
        assert(below(scene, field, dimmer));
        assert(field(c) <= dimmer(c));
    }
}

/// `f(0) + .. + f(n - 1)`.
pub open spec fn sum_to(f: spec_fn(int) -> int, n: int) -> int
    decreases n,
{
    if n <= 0 {
        0
    } else {
        sum_to(f, n - 1) + f(n - 1)
    }
}

/// The sum of a field over a row of `nx` cells.
pub open spec fn row_sum(field: Field, nx: int, y: int, z: int) -> int {
    sum_to(|x: int| field((x, y, z)), nx)
}

/// The sum of a field over `ny` rows.
pub open spec fn slab_sum(field: Field, nx: int, ny: int, z: int) -> int {
    sum_to(|y: int| row_sum(field, nx, y, z), ny)
}

/// The sum of a field over a volume.
pub open spec fn total(size: Cell, field: Field) -> int {
    sum_to(|z: int| slab_sum(field, size.0, size.1, z), size.2)
}

pub proof fn lemma_sum_le(f: spec_fn(int) -> int, g: spec_fn(int) -> int, n: int)
    requires
        forall|i: int| 0 <= i < n ==> #[trigger] f(i) <= g(i),
    ensures
        sum_to(f, n) <= sum_to(g, n),
    decreases n,
{
    if n > 0 {
        lemma_sum_le(f, g, n - 1);
        assert(f(n - 1) <= g(n - 1));
    }
}

pub proof fn lemma_sum_lt(f: spec_fn(int) -> int, g: spec_fn(int) -> int, n: int, k: int)
    requires
        forall|i: int| 0 <= i < n ==> #[trigger] f(i) <= g(i),
        0 <= k < n,
        f(k) < g(k),
    ensures
        sum_to(f, n) < sum_to(g, n),
    decreases n,
{
    assert(f(n - 1) <= g(n - 1));
    if k == n - 1 {
        lemma_sum_le(f, g, n - 1);
    } else {
        lemma_sum_lt(f, g, n - 1, k);
    }
}

pub proof fn lemma_sum_bounds(f: spec_fn(int) -> int, n: int, hi: int)
    requires
        0 <= n,
        forall|i: int| 0 <= i < n ==> 0 <= #[trigger] f(i) <= hi,
    ensures
        0 <= sum_to(f, n) <= n * hi,
    decreases n,
{
    if n > 0 {
        lemma_sum_bounds(f, n - 1, hi);
        assert(0 <= f(n - 1) <= hi);
        assert(n * hi == (n - 1) * hi + hi) by (nonlinear_arith);
    } else {
        assert(n * hi == 0) by (nonlinear_arith)
            requires
                n == 0,
        ;
    }
}

pub open spec fn in_box(size: Cell, c: Cell) -> bool {
    0 <= c.0 < size.0 && 0 <= c.1 < size.1 && 0 <= c.2 < size.2
}

proof fn lemma_slab_le(size: Cell, f: Field, g: Field, z: int)
    requires
        forall|c: Cell| #[trigger] in_box(size, c) ==> f(c) <= g(c),
        0 <= z < size.2,
    ensures
        slab_sum(f, size.0, size.1, z) <= slab_sum(g, size.0, size.1, z),
        forall|y: int|
            0 <= y < size.1 ==> #[trigger] row_sum(f, size.0, y, z) <= row_sum(g, size.0, y, z),
{
    assert forall|y: int| 0 <= y < size.1 implies #[trigger] row_sum(f, size.0, y, z) <= row_sum(
        g,
        size.0,
        y,
        z,
    ) by {
        let fx = |x: int| f((x, y, z));
        let gx = |x: int| g((x, y, z));
        assert forall|x: int| 0 <= x < size.0 implies #[trigger] fx(x) <= gx(x) by {
            assert(in_box(size, (x, y, z)));
        }
        lemma_sum_le(fx, gx, size.0);
    }
    lemma_sum_le(
        |y: int| row_sum(f, size.0, y, z),
        |y: int| row_sum(g, size.0, y, z),
        size.1,
    );
}

/// A field nowhere above another, and strictly below it somewhere, has a smaller
/// total.
pub proof fn lemma_total_lt(size: Cell, f: Field, g: Field, c: Cell)
    requires
        forall|d: Cell| #[trigger] in_box(size, d) ==> f(d) <= g(d),
        in_box(size, c),
        f(c) < g(c),
    ensures
        total(size, f) < total(size, g),
{
    let (cx, cy, cz) = c;
    let fx = |x: int| f((x, cy, cz));
    let gx = |x: int| g((x, cy, cz));
    assert forall|x: int| 0 <= x < size.0 implies #[trigger] fx(x) <= gx(x) by {
        assert(in_box(size, (x, cy, cz)));
    }
    lemma_sum_lt(fx, gx, size.0, cx);
    lemma_slab_le(size, f, g, cz);
    let fy = |y: int| row_sum(f, size.0, y, cz);
    let gy = |y: int| row_sum(g, size.0, y, cz);
    lemma_sum_lt(fy, gy, size.1, cy);
    let fz = |z: int| slab_sum(f, size.0, size.1, z);
    let gz = |z: int| slab_sum(g, size.0, size.1, z);
    assert forall|z: int| 0 <= z < size.2 implies #[trigger] fz(z) <= gz(z) by {
        lemma_slab_le(size, f, g, z);
    }
    lemma_sum_lt(fz, gz, size.2, cz);
}

/// A field of values between 0 and `hi` has a total between 0 and `hi` times
/// the volume.
pub proof fn lemma_total_bounds(size: Cell, f: Field, hi: int)
    requires
        0 <= size.0,
        0 <= size.1,
        0 <= size.2,
        forall|c: Cell| #[trigger] in_box(size, c) ==> 0 <= f(c) <= hi,
    ensures
        0 <= total(size, f) <= size.2 * (size.1 * (size.0 * hi)),
{
    let fz = |z: int| slab_sum(f, size.0, size.1, z);
    assert forall|z: int| 0 <= z < size.2 implies 0 <= #[trigger] fz(z) <= size.1 * (size.0 * hi)
        by {
        let fy = |y: int| row_sum(f, size.0, y, z);
        assert forall|y: int| 0 <= y < size.1 implies 0 <= #[trigger] fy(y) <= size.0 * hi by {
            let fx = |x: int| f((x, y, z));
            assert forall|x: int| 0 <= x < size.0 implies 0 <= #[trigger] fx(x) <= hi by {
                assert(in_box(size, (x, y, z)));
            }
            lemma_sum_bounds(fx, size.0, hi);
        }
        lemma_sum_bounds(fy, size.1, size.0 * hi);
    }
    lemma_sum_bounds(fz, size.2, size.1 * (size.0 * hi));
}

/// Light in plain terms: between two cells that differ by one along one axis, an
/// open cell is at most one level dimmer than the other; and full daylight goes
/// straight down undimmed.
pub proof fn lemma_light_steps(scene: Scene, sky: bool, sources: Field, field: Field, a: Cell, b: Cell)
    requires
        is_light_of(scene, sky, sources, field),
        scene.has(a),
        scene.has(b),
        !(scene.solid)(b),
        (scene.accepts)(b),
        (a.0 - b.0) * (a.0 - b.0) + (a.1 - b.1) * (a.1 - b.1) + (a.2 - b.2) * (a.2 - b.2) == 1,
    ensures
        field(b) >= field(a) - 1,
        field(a) >= sources(a),
        sky && field(a) == 15 && a.0 == b.0 && a.2 == b.2 && a.1 == b.1 + 1 ==> field(b) >= 15,
        !((scene.solid)(a)) && (scene.accepts)(a) ==> field(a) >= field(b) - 1,
{
    let x = a.0 - b.0;
    let y = a.1 - b.1;
    let z = a.2 - b.2;
    assert(x * x >= 0 && y * y >= 0 && z * z >= 0) by (nonlinear_arith);
    assert((x == 0 || x == 1 || x == -1) && (y == 0 || y == 1 || y == -1) && (z == 0 || z == 1 || z
        == -1)) by (nonlinear_arith)
        requires
            x * x <= 1,
            y * y <= 1,
            z * z <= 1,
    ;
    assert(1int * 1 == 1 && (-1int) * (-1) == 1 && 0int * 0 == 0);
    assert(adjacent(a, b) && adjacent(b, a));
    assert(scene.edge(a, b));
    assert(field(b) >= passed_on(sky, a, b, field(a)));
    if !(scene.solid)(a) && (scene.accepts)(a) {
        assert(scene.edge(b, a));
        assert(field(a) >= passed_on(sky, b, a, field(b)));
    }
    assert(below(scene, sources, field));
}

/// Cells share a face iff they differ by one along one axis.
pub proof fn lemma_adjacent(a: Cell, b: Cell)
    ensures
        adjacent(a, b) ==> (a.0 - b.0) + (a.1 - b.1) + (a.2 - b.2) == 1 || (a.0 - b.0) + (a.1 - b.1)
            + (a.2 - b.2) == -1,
        adjacent(a, b) ==> (a.0 == b.0 && a.1 == b.1) || (a.0 == b.0 && a.2 == b.2) || (a.1 == b.1
            && a.2 == b.2),
        adjacent(a, b) == adjacent(b, a),
        straight_down(a, b) ==> adjacent(a, b) && b.1 < a.1,
{
}

} // verus!
