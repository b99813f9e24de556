//! Walking a ray through the voxel grid.
//!
//! The walk visits one cell at a time, along the axis whose next cell boundary
//! is nearest. Where the boundaries lie is the caller's to compute; the walk
//! keeps the cells, and says what was struck and where a block would be placed.

use crate::coords::WorldPos;
use vstd::prelude::*;

verus! {

/// What a ray hit.
#[derive(Debug, Clone, Copy, PartialEq, Eq)]
pub struct RayHit {
    /// The solid voxel the ray entered.
    pub block_pos: WorldPos,
    /// The empty voxel just before it along the ray, where a placed block would
    /// go. `None` only when the ray starts inside a solid block.
    pub place_pos: Option<WorldPos>,
    /// Outward unit normal of the struck face; all zero only when the ray
    /// starts inside a solid block.
    pub normal: (i64, i64, i64),
}

/// A component of a step: -1, 0 or 1.
pub open spec fn is_step(s: int) -> bool {
    -1 <= s <= 1
}

/// A ray on its way: the cell it is in, the direction it steps in on each axis,
/// and the axis of its last step.
#[derive(Debug, Clone, Copy)]
pub struct RayWalk {
    voxel: WorldPos,
    step: (i64, i64, i64),
    last_axis: Option<usize>,
}

/// A position moved by `d` along an axis (0: x, 1: y, otherwise z).
pub open spec fn moved(p: WorldPos, axis: int, d: int) -> WorldPos {
    if axis == 0 {
        WorldPos { x: (p.x + d) as i64, ..p }
    } else if axis == 1 {
        WorldPos { y: (p.y + d) as i64, ..p }
    } else {
        WorldPos { z: (p.z + d) as i64, ..p }
    }
}

/// The coordinate of a position along an axis.
pub open spec fn along(p: WorldPos, axis: int) -> int {
    if axis == 0 {
        p.x as int
    } else if axis == 1 {
        p.y as int
    } else {
        p.z as int
    }
}

/// The component of a step along an axis.
pub open spec fn step_along(s: (i64, i64, i64), axis: int) -> int {
    if axis == 0 {
        s.0 as int
    } else if axis == 1 {
        s.1 as int
    } else {
        s.2 as int
    }
}

/// The unit vector along an axis, times `d`.
pub open spec fn axis_vector(axis: int, d: int) -> (i64, i64, i64) {
    if axis == 0 {
        (d as i64, 0, 0)
    } else if axis == 1 {
        (0, d as i64, 0)
    } else {
        (0, 0, d as i64)
    }
}

/// The one of three numbers that belongs to an axis.
pub open spec fn component(axis: int, x: int, y: int, z: int) -> int {
    if axis == 0 {
        x
    } else if axis == 1 {
        y
    } else {
        z
    }
}

/// The axis whose boundary is nearest, given how the three distances compare;
/// ties go to x before y before z.
pub fn nearest_axis(x_le_y: bool, x_le_z: bool, y_le_z: bool) -> (axis: usize)
    ensures
        axis <= 2,
        axis == 0 <==> x_le_y && x_le_z,
        axis == 1 <==> !(x_le_y && x_le_z) && y_le_z,
        forall|x: int, y: int, z: int|
            (x <= y) == x_le_y && (x <= z) == x_le_z && (y <= z) == y_le_z ==> {
                let nearest = #[trigger] component(axis as int, x, y, z);
                nearest <= x && nearest <= y && nearest <= z
            },
{
    if x_le_y && x_le_z {
        0
    } else if y_le_z {
        1
    } else {
        2
    }
}

impl RayWalk {
    /// The cell the walk is in.
    pub closed spec fn cell(self) -> WorldPos {
        self.voxel
    }

    /// The step on each axis.
    pub closed spec fn steps(self) -> (i64, i64, i64) {
        self.step
    }

    /// The axis of the last step, if any was made.
    pub closed spec fn came_along(self) -> Option<usize> {
        self.last_axis
    }

    /// What is struck if the walk's cell is solid: the cell it came from is
    /// where a block would be placed, and the normal points back at it.
    pub open spec fn strikes(self) -> RayHit {
        match self.came_along() {
            None => RayHit { block_pos: self.cell(), place_pos: None, normal: (0, 0, 0) },
            Some(a) => RayHit {
                block_pos: self.cell(),
                place_pos: Some(
                    moved(self.cell(), a as int, -step_along(self.steps(), a as int)),
                ),
                normal: axis_vector(a as int, -step_along(self.steps(), a as int)),
            },
        }
    }

    /// Steps are by one cell, and the last one can be taken back.
    #[verifier::type_invariant]
    pub open spec fn inv(self) -> bool {
        &&& is_step(self.steps().0 as int)
        &&& is_step(self.steps().1 as int)
        &&& is_step(self.steps().2 as int)
        &&& (self.came_along() matches Some(a) ==> a <= 2 && i64::MIN <= along(
            self.cell(),
            a as int,
        ) - step_along(self.steps(), a as int) <= i64::MAX)
    }

    /// A walk that starts in a cell, with the signs of the ray's direction.
    pub fn start(voxel: WorldPos, step: (i64, i64, i64)) -> (r: Self)
        requires
            is_step(step.0 as int),
            is_step(step.1 as int),
            is_step(step.2 as int),
        ensures
            r.cell() == voxel,
            r.steps() == step,
            r.came_along() is None,
    {
        RayWalk { voxel, step, last_axis: None }
    }

    pub fn voxel(&self) -> (r: WorldPos)
        ensures
            r == self.cell(),
    {
        self.voxel
    }

    /// Steps into the next cell along an axis.
    pub fn advance(&mut self, axis: usize)
        requires
            axis <= 2,
            i64::MIN <= along(old(self).cell(), axis as int) + step_along(
                old(self).steps(),
                axis as int,
            ) <= i64::MAX,
        ensures
            final(self).cell() == moved(
                old(self).cell(),
                axis as int,
                step_along(old(self).steps(), axis as int),
            ),
            axis == 0 ==> final(self).cell().x == old(self).cell().x + old(self).steps().0,
            axis == 1 ==> final(self).cell().y == old(self).cell().y + old(self).steps().1,
            axis == 2 ==> final(self).cell().z == old(self).cell().z + old(self).steps().2,
            axis != 0 ==> final(self).cell().x == old(self).cell().x,
            axis != 1 ==> final(self).cell().y == old(self).cell().y,
            axis != 2 ==> final(self).cell().z == old(self).cell().z,
            final(self).steps() == old(self).steps(),
            final(self).came_along() == Some(axis),
    {
        proof {
            use_type_invariant(&*self);
        }
        let p = self.voxel;
        let s = self.step;
        let voxel: WorldPos = match axis {
            0 => WorldPos::new(p.x + s.0, p.y, p.z),
            1 => WorldPos::new(p.x, p.y + s.1, p.z),
            _ => WorldPos::new(p.x, p.y, p.z + s.2),
        };
        *self = RayWalk { voxel, step: s, last_axis: Some(axis) };
    }

    /// What is struck if the walk's cell is solid.
    pub fn hit(&self) -> (r: RayHit)
        ensures
            r == self.strikes(),
            r.block_pos == self.cell(),
            r.place_pos matches Some(p) ==> p.x == r.block_pos.x + r.normal.0 && p.y
                == r.block_pos.y + r.normal.1 && p.z == r.block_pos.z + r.normal.2,
    {
        proof {
            use_type_invariant(self);
        }
        let p = self.voxel;
        let s = self.step;
        match self.last_axis {
            None => RayHit { block_pos: p, place_pos: None, normal: (0, 0, 0) },
            Some(0) => RayHit {
                block_pos: p,
                place_pos: Some(WorldPos::new(p.x - s.0, p.y, p.z)),
                normal: (-s.0, 0, 0),
            },
            Some(1) => RayHit {
                block_pos: p,
                place_pos: Some(WorldPos::new(p.x, p.y - s.1, p.z)),
                normal: (0, -s.1, 0),
            },
            Some(_) => RayHit {
                block_pos: p,
                place_pos: Some(WorldPos::new(p.x, p.y, p.z - s.2)),
                normal: (0, 0, -s.2),
            },
        }
    }
}

/// What is struck in the walk's cell, if the query says that it is solid.
///
/// A caller that finds the next boundary as it goes looks, steps with
/// [`RayWalk::advance`], and looks again until something is struck.
pub fn look<F: Fn(WorldPos) -> bool>(walk: &RayWalk, is_solid: &F) -> (r: Option<RayHit>)
    requires
        call_requires(is_solid, (walk.cell(),)),
    ensures
        call_ensures(is_solid, (walk.cell(),), r is Some),
        r matches Some(hit) ==> hit == walk.strikes(),
        r matches Some(hit) ==> (hit.place_pos matches Some(p) ==> p.x == hit.block_pos.x
            + hit.normal.0 && p.y == hit.block_pos.y + hit.normal.1 && p.z == hit.block_pos.z
            + hit.normal.2),
{
    if is_solid(walk.voxel()) {
        Some(walk.hit())
    } else {
        None
    }
}

/// The cell after the first `k` steps of a walk along the given axes.
pub open spec fn cell_after(
    start: WorldPos,
    step: (i64, i64, i64),
    axes: Seq<usize>,
    k: int,
) -> WorldPos
    decreases k,
{
    if k <= 0 {
        start
    } else {
        let axis = axes[k - 1] as int;
        moved(cell_after(start, step, axes, k - 1), axis, step_along(step, axis))
    }
}

/// What is struck if the cell after `k` steps is solid.
pub open spec fn hit_after(
    start: WorldPos,
    step: (i64, i64, i64),
    axes: Seq<usize>,
    k: int,
) -> RayHit {
    RayHit {
        block_pos: cell_after(start, step, axes, k),
        place_pos: if k <= 0 {
            None
        } else {
            Some(cell_after(start, step, axes, k - 1))
        },
        normal: if k <= 0 {
            (0, 0, 0)
        } else {
            axis_vector(axes[k - 1] as int, -step_along(step, axes[k - 1] as int))
        },
    }
}

/// The walk was answered to be free up to, and without, its `k`-th cell.
pub open spec fn free_before<F: Fn(WorldPos) -> bool>(
    start: WorldPos,
    step: (i64, i64, i64),
    axes: Seq<usize>,
    is_solid: F,
    k: int,
) -> bool {
    forall|j: int|
        0 <= j < k ==> call_ensures(is_solid, (#[trigger] cell_after(start, step, axes, j),), false)
}

/// The walk was free up to its `k`-th cell, and that one solid.
pub open spec fn first_solid<F: Fn(WorldPos) -> bool>(
    start: WorldPos,
    step: (i64, i64, i64),
    axes: Seq<usize>,
    is_solid: F,
    k: int,
) -> bool {
    &&& 0 <= k <= axes.len()
    &&& free_before(start, step, axes, is_solid, k)
    &&& call_ensures(is_solid, (cell_after(start, step, axes, k),), true)
}

/// After `k` steps a walk is at most `k` cells away.
proof fn lemma_cell_after(start: WorldPos, step: (i64, i64, i64), axes: Seq<usize>, k: int)
    requires
        0 <= k <= axes.len(),
        is_step(step.0 as int),
        is_step(step.1 as int),
        is_step(step.2 as int),
        has_room(start, axes.len() as int),
    ensures
        ({
            let c = cell_after(start, step, axes, k);
            &&& start.x - k <= c.x <= start.x + k
            &&& start.y - k <= c.y <= start.y + k
            &&& start.z - k <= c.z <= start.z + k
        }),
    decreases k,
{
    if k > 0 {
        lemma_cell_after(start, step, axes, k - 1);
    }
}

/// There are `n` cells on every side.
pub open spec fn has_room(p: WorldPos, n: int) -> bool {
    &&& i64::MIN + n <= p.x <= i64::MAX - n
    &&& i64::MIN + n <= p.y <= i64::MAX - n
    &&& i64::MIN + n <= p.z <= i64::MAX - n
}

/// Walk a ray from its first cell along the axes whose boundaries it crosses,
/// in the order in which it does, to the first solid cell. `None` if no cell
/// on the way is solid. Starting inside a solid cell strikes it, with no face
/// and no cell to place a block in.
pub fn walk_to_hit<F: Fn(WorldPos) -> bool>(
    start: WorldPos,
    step: (i64, i64, i64),
    axes: &[usize],
    is_solid: &F,
) -> (r: Option<RayHit>)
    requires
        is_step(step.0 as int),
        is_step(step.1 as int),
        is_step(step.2 as int),
        forall|i: int| 0 <= i < axes.len() ==> #[trigger] axes[i] <= 2,
        has_room(start, axes.len() as int),
        forall|p: WorldPos| #[trigger] call_requires(is_solid, (p,)),
    ensures
        r matches Some(hit) ==> exists|k: int| #[trigger]
            first_solid(start, step, axes@, *is_solid, k) && hit == hit_after(start, step, axes@, k),
        r matches Some(hit) ==> call_ensures(is_solid, (hit.block_pos,), true) && (
        hit.place_pos matches Some(p) ==> p.x == hit.block_pos.x + hit.normal.0 && p.y
            == hit.block_pos.y + hit.normal.1 && p.z == hit.block_pos.z + hit.normal.2),
        r is None ==> free_before(start, step, axes@, *is_solid, axes.len() + 1),
{
    let mut walk = RayWalk::start(start, step);
    let mut k: usize = 0;
    loop
        invariant
            k <= axes.len(),
            is_step(step.0 as int),
            is_step(step.1 as int),
            is_step(step.2 as int),
            forall|i: int| 0 <= i < axes.len() ==> #[trigger] axes[i] <= 2,
            has_room(start, axes.len() as int),
            forall|p: WorldPos| #[trigger] call_requires(is_solid, (p,)),
            walk.cell() == cell_after(start, step, axes@, k as int),
            walk.steps() == step,
            walk.came_along() == (if k == 0 {
                None
            } else {
                Some(axes[k - 1])
            }),
            free_before(start, step, axes@, *is_solid, k as int),
        decreases axes.len() - k,
    {
        let struck = look(&walk, is_solid);
        if struck.is_some() {
            proof {
                assert(first_solid(start, step, axes@, *is_solid, k as int));
                if k > 0 {
                    let axis = axes[k - 1] as int;
                    lemma_cell_after(start, step, axes@, k - 1);
                    lemma_place_is_beyond_face(
                        cell_after(start, step, axes@, k - 1),
                        axis,
                        step_along(step, axis),
                    );
                }
            }
            return struck;
        }
        if k == axes.len() {
            return None;
        }
        proof {
            lemma_cell_after(start, step, axes@, k as int);
        }
        walk.advance(axes[k]);
        k += 1;
    }
}

/// Placing a block against a struck face puts it in the cell the ray came from,
/// one step along the face's normal.
pub proof fn lemma_place_is_beyond_face(from: WorldPos, axis: int, d: int)
    requires
        0 <= axis <= 2,
        is_step(d),
        i64::MIN <= along(from, axis) + d <= i64::MAX,
    ensures
        moved(moved(from, axis, d), axis, -d) == from,
        ({
            let at = moved(from, axis, d);
            let n = axis_vector(axis, -d);
            from.x == at.x + n.0 && from.y == at.y + n.1 && from.z == at.z + n.2
        }),
{
}

/// What is struck is entered through the face that the normal looks out of: one
/// step along the normal from the struck cell is the cell to place a block in,
/// and the ray was going the other way. Only a ray that has not moved has
/// neither.
pub proof fn lemma_normal_points_to_place(walk: RayWalk)
    requires
        walk.inv(),
    ensures
        ({
            let h = walk.strikes();
            let n = h.normal;
            let s = walk.steps();
            &&& h.block_pos == walk.cell()
            &&& (h.place_pos matches Some(p) ==> p.x == h.block_pos.x + n.0 && p.y
                == h.block_pos.y + n.1 && p.z == h.block_pos.z + n.2)
            &&& h.place_pos is None <==> walk.came_along() is None
            &&& h.place_pos is None ==> n.0 == 0 && n.1 == 0 && n.2 == 0
            &&& (walk.came_along() matches Some(a) ==> {
                &&& n.0 == (if a == 0 { -s.0 } else { 0 })
                &&& n.1 == (if a == 1 { -s.1 } else { 0 })
                &&& n.2 == (if a == 2 { -s.2 } else { 0 })
            })
        }),
{
}

/// A step goes to the next cell in the ray's direction along its axis, stays
/// where it is along the others, and a hit right after it places a block in the
/// cell that was left.
pub proof fn lemma_step_then_hit(before: RayWalk, after: RayWalk, axis: usize)
    requires
        before.inv(),
        after.inv(),
        axis <= 2,
        i64::MIN <= along(before.cell(), axis as int) + step_along(before.steps(), axis as int)
            <= i64::MAX,
        after.cell() == moved(
            before.cell(),
            axis as int,
            step_along(before.steps(), axis as int),
        ),
        after.steps() == before.steps(),
        after.came_along() == Some(axis),
    ensures
        after.cell().x - before.cell().x == (if axis == 0 { before.steps().0 as int } else { 0 }),
        after.cell().y - before.cell().y == (if axis == 1 { before.steps().1 as int } else { 0 }),
        after.cell().z - before.cell().z == (if axis == 2 { before.steps().2 as int } else { 0 }),
        after.strikes().place_pos == Some(before.cell()),
{
}

/// How many of the first `k` steps go along an axis.
pub open spec fn steps_along(axes: Seq<usize>, axis: usize, k: int) -> int {
    axes.take(k).filter(|a: usize| a == axis).len() as int
}

proof fn lemma_count_step(axes: Seq<usize>, axis: usize, k: int)
    requires
        0 < k <= axes.len(),
    ensures
        steps_along(axes, axis, k) == steps_along(axes, axis, k - 1) + (if axes[k - 1] == axis {
            1int
        } else {
            0
        }),
{
    let f = |a: usize| a == axis;
    assert(axes.take(k).drop_last() =~= axes.take(k - 1));
    reveal(Seq::filter);
}

/// A walk ends as far from its start, along each axis, as it made steps along
/// it, in the ray's direction.
pub proof fn lemma_walk_follows_ray(start: WorldPos, step: (i64, i64, i64), axes: Seq<usize>, k: int)
    requires
        0 <= k <= axes.len(),
        is_step(step.0 as int),
        is_step(step.1 as int),
        is_step(step.2 as int),
        forall|i: int| 0 <= i < axes.len() ==> #[trigger] axes[i] <= 2,
        has_room(start, axes.len() as int),
    ensures
        ({
            let c = cell_after(start, step, axes, k);
            &&& c.x == start.x + step.0 * steps_along(axes, 0, k)
            &&& c.y == start.y + step.1 * steps_along(axes, 1, k)
            &&& c.z == start.z + step.2 * steps_along(axes, 2, k)
        }),
        steps_along(axes, 0, k) + steps_along(axes, 1, k) + steps_along(axes, 2, k) == k,
    decreases k,
{
    if k == 0 {
        reveal(Seq::filter);
        assert(axes.take(0).len() == 0);
        assert(steps_along(axes, 0, 0) == 0 && steps_along(axes, 1, 0) == 0 && steps_along(
            axes,
            2,
            0,
        ) == 0);
    } else {
        lemma_walk_follows_ray(start, step, axes, k - 1);
        lemma_cell_after(start, step, axes, k - 1);
        lemma_count_step(axes, 0, k);
        lemma_count_step(axes, 1, k);
        lemma_count_step(axes, 2, k);
        assert(axes[k - 1] <= 2);
        let s0 = step.0 as int;
        let s1 = step.1 as int;
        let s2 = step.2 as int;
        let n0 = steps_along(axes, 0, k - 1);
        let n1 = steps_along(axes, 1, k - 1);
        let n2 = steps_along(axes, 2, k - 1);
        assert(s0 * (n0 + 1) == s0 * n0 + s0) by (nonlinear_arith);
        assert(s1 * (n1 + 1) == s1 * n1 + s1) by (nonlinear_arith);
        assert(s2 * (n2 + 1) == s2 * n2 + s2) by (nonlinear_arith);
    }
}

/// A walk that strikes something strikes the first solid cell on its way: every
/// cell before it was answered to be free. The normal leads from it to the cell
/// before it, against the ray's last step.
pub proof fn lemma_first_solid_is_struck<F: Fn(WorldPos) -> bool>(
    start: WorldPos,
    step: (i64, i64, i64),
    axes: Seq<usize>,
    is_solid: F,
    k: int,
)
    requires
        is_step(step.0 as int),
        is_step(step.1 as int),
        is_step(step.2 as int),
        forall|i: int| 0 <= i < axes.len() ==> #[trigger] axes[i] <= 2,
        has_room(start, axes.len() as int),
        first_solid(start, step, axes, is_solid, k),
    ensures
        ({
            let h = hit_after(start, step, axes, k);
            let n = h.normal;
            &&& 0 <= k <= axes.len()
            &&& call_ensures(is_solid, (h.block_pos,), true)
            &&& forall|j: int|
                0 <= j < k ==> call_ensures(
                    is_solid,
                    (#[trigger] cell_after(start, step, axes, j),),
                    false,
                )
            &&& h.block_pos == cell_after(start, step, axes, k)
            &&& k == 0 ==> h.block_pos == start && h.place_pos is None && n.0 == 0 && n.1 == 0
                && n.2 == 0
            &&& k > 0 ==> h.place_pos == Some(cell_after(start, step, axes, k - 1))
            &&& (h.place_pos matches Some(p) ==> p.x == h.block_pos.x + n.0 && p.y
                == h.block_pos.y + n.1 && p.z == h.block_pos.z + n.2)
            &&& k > 0 ==> n.0 == (if axes[k - 1] == 0 { -step.0 } else { 0 })
            &&& k > 0 ==> n.1 == (if axes[k - 1] == 1 { -step.1 } else { 0 })
            &&& k > 0 ==> n.2 == (if axes[k - 1] == 2 { -step.2 } else { 0 })
        }),
{
    if k > 0 {
        lemma_cell_after(start, step, axes, k - 1);
        assert(axes[k - 1] <= 2);
    }
}

/// A walk that strikes nothing was answered that the start and every cell on
/// its way are free.
pub proof fn lemma_miss_is_free<F: Fn(WorldPos) -> bool>(
    start: WorldPos,
    step: (i64, i64, i64),
    axes: Seq<usize>,
    is_solid: F,
    j: int,
)
    requires
        free_before(start, step, axes, is_solid, axes.len() as int + 1),
        0 <= j <= axes.len(),
    ensures
        call_ensures(is_solid, (cell_after(start, step, axes, j),), false),
        call_ensures(is_solid, (start,), false),
{
    assert(call_ensures(is_solid, (cell_after(start, step, axes, 0),), false));
}

} // verus!
