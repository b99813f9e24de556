//! Rays through the voxel grid.

use std::collections::HashSet;
use voxterra::raycast::{look, nearest_axis, walk_to_hit, RayWalk};
use voxterra::{RayHit, WorldPos};

fn solids(cells: &[(i64, i64, i64)]) -> impl Fn(WorldPos) -> bool + '_ {
    let set: HashSet<(i64, i64, i64)> = cells.iter().copied().collect();
    move |p| set.contains(&(p.x, p.y, p.z))
}

fn sign(x: f64) -> i64 {
    if x > 0.0 {
        1
    } else if x < 0.0 {
        -1
    } else {
        0
    }
}

/// The walk along the cell boundaries that a ray crosses within its reach.
fn raycast_voxels(
    origin: [f64; 3],
    dir: [f64; 3],
    max_distance: f64,
    is_solid: impl Fn(WorldPos) -> bool,
) -> Option<RayHit> {
    let len = (dir[0] * dir[0] + dir[1] * dir[1] + dir[2] * dir[2]).sqrt();
    if len == 0.0 || !len.is_finite() {
        return None;
    }
    let d = dir.map(|c| c / len);
    let cell = origin.map(|c| c.floor() as i64);
    let mut t_max = [f64::INFINITY; 3];
    let mut t_delta = [f64::INFINITY; 3];
    for a in 0..3 {
        if d[a] != 0.0 {
            t_delta[a] = 1.0 / d[a].abs();
            let edge = cell[a] as f64 + if d[a] > 0.0 { 1.0 } else { 0.0 };
            t_max[a] = (edge - origin[a]) / d[a];
        }
    }
    let step = d.map(sign);
    let start = WorldPos::new(cell[0], cell[1], cell[2]);
    let mut walk = RayWalk::start(start, (step[0], step[1], step[2]));
    loop {
        if let Some(hit) = look(&walk, &is_solid) {
            return Some(hit);
        }
        let axis = nearest_axis(
            t_max[0] <= t_max[1],
            t_max[0] <= t_max[2],
            t_max[1] <= t_max[2],
        );
        if t_max[axis] > max_distance {
            return None;
        }
        walk.advance(axis);
        t_max[axis] += t_delta[axis];
    }
}

#[test]
fn hits_straight_ahead_on_x() {
    // Solid at x=5; ray from x=0 looking +X along the row y=z=0.
    let solid = solids(&[(5, 0, 0)]);
    let hit = raycast_voxels([0.5, 0.5, 0.5], [1.0, 0.0, 0.0], 100.0, solid).unwrap();
    assert_eq!(hit.block_pos, WorldPos::new(5, 0, 0));
    assert_eq!(hit.place_pos, Some(WorldPos::new(4, 0, 0)));
    assert_eq!(hit.normal, (-1, 0, 0)); // we approached from -X
}

#[test]
fn hits_from_negative_direction() {
    let solid = solids(&[(0, 0, 0)]);
    // Start at x=5.5 looking -X.
    let hit = raycast_voxels([5.5, 0.5, 0.5], [-1.0, 0.0, 0.0], 100.0, solid).unwrap();
    assert_eq!(hit.block_pos, WorldPos::new(0, 0, 0));
    assert_eq!(hit.place_pos, Some(WorldPos::new(1, 0, 0)));
    assert_eq!(hit.normal, (1, 0, 0)); // approached from +X
}

#[test]
fn reports_top_face_normal() {
    // Looking down onto a floor block.
    let solid = solids(&[(0, 0, 0)]);
    let hit = raycast_voxels([0.5, 5.5, 0.5], [0.0, -1.0, 0.0], 100.0, solid).unwrap();
    assert_eq!(hit.block_pos, WorldPos::new(0, 0, 0));
    assert_eq!(hit.normal, (0, 1, 0)); // struck the top face
    assert_eq!(hit.place_pos, Some(WorldPos::new(0, 1, 0)));
}

#[test]
fn misses_when_nothing_in_range() {
    let solid = solids(&[(50, 0, 0)]);
    // Reach only 10 units; block is 50 away.
    assert!(raycast_voxels([0.5, 0.5, 0.5], [1.0, 0.0, 0.0], 10.0, solid).is_none());
}

#[test]
fn misses_empty_world() {
    let solid = |_: WorldPos| false;
    assert!(raycast_voxels([0.0, 0.0, 0.0], [1.0, 2.0, 3.0], 1000.0, solid).is_none());
}

#[test]
fn diagonal_ray_hits_correct_cell_and_face() {
    // A wall of solids at x=3 (any y,z in range). A diagonal ray should
    // strike the wall and report an X-facing normal (it crosses the x=3
    // boundary to enter).
    let solid = |p: WorldPos| p.x == 3 && (0..6).contains(&p.y) && (0..6).contains(&p.z);
    let hit = raycast_voxels([0.5, 0.5, 0.5], [1.0, 0.7, 0.3], 100.0, solid).unwrap();
    assert_eq!(hit.block_pos.x, 3);
    assert_eq!(hit.normal, (-1, 0, 0));
    // Place cell is just outside the wall on the -X side.
    assert_eq!(hit.place_pos.unwrap().x, 2);
}

#[test]
fn start_inside_solid_returns_immediately() {
    let solid = solids(&[(0, 0, 0)]);
    let hit = raycast_voxels([0.5, 0.5, 0.5], [1.0, 0.0, 0.0], 100.0, solid).unwrap();
    assert_eq!(hit.block_pos, WorldPos::new(0, 0, 0));
    assert_eq!(hit.place_pos, None);
    assert_eq!(hit.normal, (0, 0, 0));
}

#[test]
fn marches_without_skipping_cells() {
    // First solid along a shallow diagonal is the nearest one; ensure we
    // don't tunnel past it. Solids at x=2 and x=4; must hit x=2 first.
    let solid = |p: WorldPos| (p.x == 2 || p.x == 4) && p.y == 0 && p.z == 0;
    let hit = raycast_voxels([0.5, 0.5, 0.5], [1.0, 0.0, 0.0], 100.0, solid).unwrap();
    assert_eq!(hit.block_pos.x, 2);
}

#[test]
fn negative_coordinate_region() {
    let solid = solids(&[(-10, -10, -10)]);
    let hit = raycast_voxels([-5.5, -5.5, -5.5], [-1.0, -1.0, -1.0], 100.0, solid).unwrap();
    assert_eq!(hit.block_pos, WorldPos::new(-10, -10, -10));
    // Entered along one axis; normal points back toward +.
    let (nx, ny, nz) = hit.normal;
    assert_eq!(nx.abs() + ny.abs() + nz.abs(), 1, "exactly one face axis");
}

#[test]
fn place_cell_is_adjacent_to_hit_across_normal() {
    // For any hit (not start-inside), place_pos = block_pos + normal.
    let solid = solids(&[(7, 2, 3)]);
    let hit = raycast_voxels([0.5, 2.5, 3.5], [1.0, 0.0, 0.0], 100.0, solid).unwrap();
    let b = hit.block_pos;
    let n = hit.normal;
    assert_eq!(
        hit.place_pos.unwrap(),
        WorldPos::new(b.x + n.0, b.y + n.1, b.z + n.2)
    );
}

#[test]
fn the_nearest_axis_breaks_ties_in_order() {
    assert_eq!(nearest_axis(true, true, true), 0);
    assert_eq!(nearest_axis(false, true, true), 1);
    assert_eq!(nearest_axis(true, false, false), 2);
}

#[test]
fn a_walk_can_be_stepped_by_hand() {
    let mut walk = RayWalk::start(WorldPos::new(0, 0, 0), (1, -1, 0));
    assert_eq!(walk.hit().place_pos, None);
    walk.advance(0);
    walk.advance(1);
    assert_eq!(walk.voxel(), WorldPos::new(1, -1, 0));
    let hit = walk.hit();
    assert_eq!(hit.place_pos, Some(WorldPos::new(1, 0, 0)));
    assert_eq!(hit.normal, (0, 1, 0));
}

#[test]
fn a_ray_without_end_stops_at_what_it_strikes() {
    let far = [(70_000, 0, 0)];
    let is_solid = solids(&far);
    let hit = raycast_voxels([0.5, 0.5, 0.5], [1.0, 0.0, 0.0], f64::INFINITY, is_solid).unwrap();
    assert_eq!(hit.block_pos, WorldPos::new(70_000, 0, 0));
    assert_eq!(hit.place_pos, Some(WorldPos::new(69_999, 0, 0)));
    assert_eq!(hit.normal, (-1, 0, 0));
}

#[test]
fn a_walk_along_given_axes_strikes_the_first_solid_cell() {
    let cells = [(1, 1, 0), (2, 1, 0)];
    let is_solid = solids(&cells);
    let start = WorldPos::new(0, 0, 0);
    let hit = walk_to_hit(start, (1, 1, 0), &[0, 1, 0, 0], &is_solid).unwrap();
    assert_eq!(hit.block_pos, WorldPos::new(1, 1, 0));
    assert_eq!(hit.place_pos, Some(WorldPos::new(1, 0, 0)));
    assert_eq!(hit.normal, (0, -1, 0));
    assert_eq!(walk_to_hit(start, (1, 1, 0), &[0, 0, 0], &is_solid), None);
}
