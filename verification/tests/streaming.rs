//! Streaming around the camera.

use std::collections::HashSet;
use voxterra::planet::{
    chunk_in_vertical_bounds, DEFAULT_WORLD_SIZE_BLOCKS, WORLD_Y_MAX_BLOCKS, WORLD_Y_MIN_BLOCKS,
};
use voxterra::{nearest_first, ChunkPos, ColumnWindow, Streamer, CHUNK_SIZE};

fn cp(x: i64, y: i64, z: i64) -> ChunkPos {
    ChunkPos::new(x, y, z)
}

fn horiz_dist_sq(a: ChunkPos, b: ChunkPos) -> i64 {
    (a.x - b.x) * (a.x - b.x) + (a.z - b.z) * (a.z - b.z)
}

fn dist_sq(a: ChunkPos, b: ChunkPos) -> i64 {
    horiz_dist_sq(a, b) + (a.y - b.y) * (a.y - b.y)
}

fn flat(_cx: i64, _cz: i64) -> (i64, i64) {
    (0, 0)
}

/// A long ramp: the surface climbs one chunk layer every four columns of X.
/// Deep enough to prove the window tracks terrain rather than the camera.
fn ramp(cx: i64, _cz: i64) -> (i64, i64) {
    let y = cx.div_euclid(4);
    (y, y)
}

/// Flat terrain reduces to the old fixed band: a horizontal disc crossed
/// with a constant vertical window.
#[test]
fn flat_terrain_loads_a_cylinder_around_origin() {
    let mut s = Streamer::surface_following(3, 5, 2, 2, 2);
    let update = s.update(cp(0, 0, 0), flat);
    for &p in &update.to_load {
        let horiz = p.x * p.x + p.z * p.z;
        assert!(horiz <= 9, "loaded {p:?} outside horizontal radius");
        assert!((-2..=2).contains(&p.y), "loaded {p:?} outside the band");
    }
    assert!(update.to_load.contains(&cp(0, 0, 0)));
    assert!(update.to_unload.is_empty());
}

#[test]
fn flying_high_keeps_the_ground_loaded() {
    let mut s = Streamer::surface_following(3, 5, 2, 2, 2);
    let first = s.update(cp(0, 0, 0), flat);
    s.apply(&first);
    let ground = cp(0, 0, 0);
    assert!(s.is_loaded(ground));
    // Climb far above the surface window.
    let update = s.update(cp(0, 40, 0), flat);
    assert!(
        !update.to_unload.contains(&ground),
        "ground unloaded when the camera climbed"
    );
    assert!(s.is_loaded(ground));
}

#[test]
fn moving_loads_leading_unloads_trailing() {
    let mut s = Streamer::surface_following(2, 4, 1, 1, 1);
    let first = s.update(cp(0, 0, 0), flat);
    s.apply(&first);
    let before = s.loaded_count();
    let update = s.update(cp(6, 0, 0), flat);
    assert!(!update.to_load.is_empty(), "moving should load new chunks");
    assert!(
        !update.to_unload.is_empty(),
        "moving should unload old ones"
    );
    s.apply(&update);
    // Bounded: the set does not grow without limit as the camera travels.
    assert!(s.loaded_count() <= before * 2);
}

#[test]
fn loaded_count_bounded_regardless_of_travel() {
    let mut s = Streamer::surface_following(2, 4, 1, 1, 1);
    for step in 0..40 {
        let u = s.update(cp(step * 3, 0, step), flat);
        s.apply(&u);
    }
    // A cylinder of radius 4 (unload) x 3 layers is the hard ceiling.
    assert!(
        s.loaded_count() <= 9 * 9 * 3,
        "unbounded growth: {}",
        s.loaded_count()
    );
}

#[test]
fn to_load_is_nearest_first() {
    let mut s = Streamer::surface_following(3, 5, 1, 1, 1);
    let update = s.update(cp(10, 0, 10), flat);
    let mut prev = -1;
    for &p in &update.to_load {
        let d = dist_sq(p, cp(10, 0, 10));
        assert!(d >= prev, "to_load not sorted nearest-first");
        prev = d;
    }
    assert_eq!(update.to_load.first(), Some(&cp(10, 0, 10)));
}

#[test]
fn works_in_deep_negative_coordinates() {
    let mut s = Streamer::surface_following(2, 4, 1, 1, 1);
    let center = cp(-3_000, -300, -3_000);
    let deep = |_: i64, _: i64| (-300, -300);
    let update = s.update(center, deep);
    s.apply(&update);
    assert!(s.is_loaded(center));
    assert!(s.is_loaded(cp(-2_999, -300, -3_000)));
}

/// THE property. Every resident chunk sits within the margins of its OWN
/// column's surface, or within the camera's own neighbourhood — never in a
/// band shared by the world. This is what makes a 640-layer world
/// affordable: a trench column and a summit column each load the same
/// handful of chunks, 600 layers apart.
#[test]
fn every_resident_chunk_tracks_its_column_surface_or_the_camera() {
    let (below, above, cam) = (2, 3, 1);
    let mut s = Streamer::surface_following(6, 8, below, above, cam);
    // Travel along the ramp so columns enter and leave from every side.
    let mut center = cp(0, 0, 0);
    for step in 0..30 {
        let cx = step * 2;
        center = cp(cx, ramp(cx, 0).0, 0);
        let u = s.update(center, ramp);
        s.apply(&u);
    }
    for p in s.loaded() {
        let (lo, hi) = ramp(p.x, p.z);
        let in_surface = (lo - below..=hi + above).contains(&p.y);
        // `+ 1`: the camera window's hysteresis layer.
        let near_camera = (p.y - center.y).abs() <= cam + 1;
        assert!(
            in_surface || near_camera,
            "chunk {p:?} is outside both its column's surface window {:?} \
             and the camera's neighbourhood",
            (lo - below, hi + above)
        );
    }
}

/// A 640-layer world must not cost 640 layers. The resident set is bounded
/// by the disc area times the surface window plus the camera window,
/// independent of how tall the world is or how far the terrain climbs.
#[test]
fn resident_count_is_independent_of_world_height() {
    let (r, below, above, cam): (i64, i64, i64, i64) = (4, 2, 2, 1);
    let mut s = Streamer::surface_following(r, r + 2, below, above, cam);
    // A surface that swings across hundreds of chunk layers.
    let wild = |cx: i64, _cz: i64| {
        let y = (cx * 37).rem_euclid(600) - 300;
        (y, y)
    };
    for step in 0..40 {
        let u = s.update(cp(step, wild(step, 0).0, 0), wild);
        s.apply(&u);
    }
    let disc = ((2 * (r + 2) + 1) * (2 * (r + 2) + 1)) as usize;
    // Surface window, plus the camera's keep window (hysteresis included).
    let window = ((below + above + 1) + (2 * (cam + 1) + 1)) as usize;
    assert!(
        s.loaded_count() <= disc * window,
        "resident set {} exceeds the disc x window ceiling {}",
        s.loaded_count(),
        disc * window
    );
}

/// A chunk column 32 blocks wide can hold a cliff face crossing many
/// layers. The query returns a SPAN for exactly this reason — asking for a
/// single height would load the cliff top and leave a hole down its face.
#[test]
fn a_cliff_column_loads_its_whole_face() {
    let mut s = Streamer::surface_following(2, 4, 1, 1, 1);
    // One column is a 10-layer cliff; its neighbours are flat.
    let cliff = |cx: i64, _cz: i64| if cx == 1 { (0, 9) } else { (0, 0) };
    let u = s.update(cp(0, 0, 0), cliff);
    s.apply(&u);
    for y in 0..=9 {
        assert!(
            s.is_loaded(cp(1, y, 0)),
            "layer {y} of the cliff face was never loaded"
        );
    }
}

/// The window clamps to the world's vertical bounds, so a seabed column
/// near the floor does not request chunks below the world.
#[test]
fn the_window_clamps_to_the_world_floor_and_ceiling() {
    let mut s = Streamer::surface_following(2, 4, 8, 8, 8);
    let sc = CHUNK_SIZE as i64;
    let floor = WORLD_Y_MIN_BLOCKS / sc;
    let ceiling = WORLD_Y_MAX_BLOCKS / sc - 1;
    for surface in [floor, ceiling] {
        let mut s2 = Streamer::surface_following(2, 4, 8, 8, 8);
        let u = s2.update(cp(0, surface, 0), |_, _| (surface, surface));
        for p in &u.to_load {
            assert!(
                (floor..=ceiling).contains(&p.y),
                "requested {p:?} outside the world's vertical bounds"
            );
        }
    }
    let u = s.update(cp(0, floor, 0), |_, _| (floor, floor));
    assert!(!u.to_load.is_empty(), "the floor column loaded nothing");
}

#[test]
fn streaming_is_identical_on_every_lap_of_the_world() {
    let lap = DEFAULT_WORLD_SIZE_BLOCKS / CHUNK_SIZE as i64;
    let mut here = Streamer::surface_following(4, 6, 2, 2, 2);
    let mut there = Streamer::surface_following(4, 6, 2, 2, 2);
    let a = here.update(cp(3, 0, -2), flat);
    let b = there.update(cp(3 + 3 * lap, 0, -2 - 5 * lap), flat);
    let shifted: HashSet<ChunkPos> = b
        .to_load
        .iter()
        .map(|p| cp(p.x - 3 * lap, p.y, p.z + 5 * lap))
        .collect();
    let first: HashSet<ChunkPos> = a.to_load.iter().copied().collect();
    assert_eq!(first, shifted);
}

/// Chunks outside the world's VERTICAL bounds are never requested.
/// Horizontally there is nothing to be outside of.
#[test]
fn chunks_outside_the_vertical_bounds_are_never_requested() {
    let sc = CHUNK_SIZE as i64;
    let top = WORLD_Y_MAX_BLOCKS / sc - 1;
    let mut s = Streamer::surface_following(4, 6, 8, 8, 8);
    let u = s.update(cp(0, top, 0), |_, _| (top, top));
    assert!(!u.to_load.is_empty());
    for p in &u.to_load {
        assert!(
            chunk_in_vertical_bounds(*p),
            "requested {p:?} outside the world"
        );
    }
    s.apply(&u);
    assert!(s.loaded().into_iter().all(chunk_in_vertical_bounds));
}

/// A camera sitting still must produce no further work, and a camera
/// oscillating across a horizontal chunk boundary must not thrash — the
/// unload radius's hysteresis band absorbs it.
#[test]
fn a_settled_camera_produces_no_further_work() {
    let mut s = Streamer::surface_following(3, 5, 2, 2, 2);
    let first = s.update(cp(0, 0, 0), ramp);
    s.apply(&first);
    let second = s.update(cp(0, 0, 0), ramp);
    assert!(
        second.is_empty(),
        "settled camera still churning: {second:?}"
    );

    // Oscillate across a boundary; the hysteresis band must absorb it.
    for _ in 0..8 {
        let a = s.update(cp(1, 0, 0), ramp);
        s.apply(&a);
        let b = s.update(cp(0, 0, 0), ramp);
        s.apply(&b);
        assert!(
            b.to_unload.is_empty(),
            "oscillating camera unloaded chunks: {:?}",
            b.to_unload
        );
    }
}

// ---- View-settings changes keep the resident set ----

#[test]
fn reconfiguring_does_not_re_request_resident_chunks() {
    let mut s = Streamer::surface_following(4, 6, 1, 1, 1);
    let first = s.update(cp(0, 0, 0), flat);
    s.apply(&first);
    s.reconfigure(4, 6, 1, 1, 1);
    let again = s.update(cp(0, 0, 0), flat);
    assert!(again.is_empty(), "re-requested resident chunks: {again:?}");
}

/// Growing the radius loads only the new ring.
#[test]
fn a_larger_radius_loads_only_what_is_new() {
    let mut s = Streamer::surface_following(3, 5, 1, 1, 1);
    let first = s.update(cp(0, 0, 0), flat);
    s.apply(&first);
    let before: HashSet<ChunkPos> = s.loaded().into_iter().collect();
    s.reconfigure(6, 8, 1, 1, 1);
    let grow = s.update(cp(0, 0, 0), flat);
    assert!(grow.to_unload.is_empty());
    assert!(!grow.to_load.is_empty());
    for p in &grow.to_load {
        assert!(!before.contains(p), "re-requested resident {p:?}");
    }
}

/// Shrinking the radius unloads what the new window no longer wants. A
/// fresh streamer never did: it had not loaded those chunks, so it never
/// released them.
#[test]
fn a_smaller_radius_unloads_the_excess() {
    let mut s = Streamer::surface_following(8, 10, 1, 1, 1);
    let first = s.update(cp(0, 0, 0), flat);
    s.apply(&first);
    s.reconfigure(3, 5, 1, 1, 1);
    let shrink = s.update(cp(0, 0, 0), flat);
    assert!(shrink.to_load.is_empty());
    s.apply(&shrink);
    for p in s.loaded() {
        assert!(
            horiz_dist_sq(p, cp(0, 0, 0)) <= 25,
            "{p:?} still resident beyond the new unload radius"
        );
    }
}

#[test]
fn digging_deep_keeps_the_camera_neighbourhood_loaded() {
    let mut s = Streamer::surface_following(3, 5, 2, 2, 2);
    let deep = cp(0, -20, 0);
    let u = s.update(deep, flat);
    s.apply(&u);
    for y in -22..=-18 {
        for (x, z) in [(0, 0), (3, 0), (0, -3), (2, 2)] {
            assert!(
                s.is_loaded(cp(x, y, z)),
                "{:?} near the camera was not loaded",
                cp(x, y, z)
            );
        }
    }
    // ...and the ground above is still there to walk back up to.
    assert!(s.is_loaded(cp(0, 0, 0)), "the surface unloaded");
    // The gap between the two windows is not loaded: the camera window is
    // a window, not a column.
    assert!(!s.is_loaded(cp(0, -10, 0)), "loaded the whole column");
}

/// The same, upward: a build more than `above` layers over the terrain
/// stays resident while the player is up there with it.
#[test]
fn building_high_keeps_the_camera_neighbourhood_loaded() {
    let mut s = Streamer::surface_following(3, 5, 2, 2, 2);
    let u = s.update(cp(1, 15, -1), flat);
    s.apply(&u);
    for y in 13..=17 {
        assert!(s.is_loaded(cp(1, y, -1)), "layer {y} not loaded");
    }
    assert!(s.is_loaded(cp(1, 0, -1)), "the ground unloaded");
}

/// The camera window follows the camera: descending loads the layers
/// ahead and releases the ones left behind (beyond the hysteresis layer),
/// so the resident set does not grow into a shaft down the whole descent.
#[test]
fn the_camera_window_moves_with_the_camera() {
    let mut s = Streamer::surface_following(2, 4, 1, 1, 1);
    let mut peak = 0;
    for y in (-40..=-10).rev() {
        let u = s.update(cp(0, y, 0), flat);
        s.apply(&u);
        peak = peak.max(s.loaded_count());
    }
    assert!(s.is_loaded(cp(0, -41, 0)), "the layer below was not loaded");
    assert!(!s.is_loaded(cp(0, -20, 0)), "layers above were never freed");
    assert!(s.is_loaded(cp(0, 0, 0)), "the surface unloaded");
    // Disc of radius 2 (13 columns) x (surface 3 + camera keep 5 layers).
    assert!(
        peak <= 13 * 8,
        "resident set grew to {peak} while descending"
    );
}

/// The camera window moves, so it needs its own hysteresis: a camera
/// bobbing across a chunk-layer boundary must not load and unload a whole
/// disc of chunks per bob.
#[test]
fn a_camera_bobbing_across_a_layer_does_not_thrash() {
    let mut s = Streamer::surface_following(3, 5, 1, 1, 2);
    let a = s.update(cp(0, -20, 0), flat);
    s.apply(&a);
    let b = s.update(cp(0, -21, 0), flat);
    s.apply(&b);
    for _ in 0..8 {
        for y in [-20, -21] {
            let u = s.update(cp(0, y, 0), flat);
            assert!(
                u.to_unload.is_empty(),
                "bobbing to layer {y} unloaded {:?}",
                u.to_unload
            );
            s.apply(&u);
        }
    }
}

/// A camera far outside the world's vertical bounds pins nothing: the
/// camera window is intersected with the world, not clamped onto it, so a
/// spectator above the ceiling does not load the ceiling layer of the
/// whole disc.
#[test]
fn a_camera_outside_the_world_loads_only_the_surface() {
    let sc = CHUNK_SIZE as i64;
    let ceiling = WORLD_Y_MAX_BLOCKS / sc - 1;
    let mut s = Streamer::surface_following(2, 4, 1, 1, 2);
    let u = s.update(cp(0, ceiling + 50, 0), flat);
    assert!(!u.to_load.is_empty());
    for p in &u.to_load {
        assert!(
            (-1..=1).contains(&p.y),
            "requested {p:?} for a camera outside the world"
        );
    }
}

#[test]
fn wants_agrees_with_update_exactly() {
    let s_cfg = || Streamer::surface_following(3, 5, 1, 2, 2);
    for center in [cp(0, 0, 0), cp(2, -12, -1), cp(-1, 9, 3)] {
        let mut s = s_cfg();
        let requested: HashSet<ChunkPos> = s.update(center, ramp).to_load.into_iter().collect();
        for x in center.x - 6..=center.x + 6 {
            for z in center.z - 6..=center.z + 6 {
                for y in center.y - 20..=center.y + 20 {
                    let p = cp(x, y, z);
                    assert_eq!(
                        s.wants(p, center, ramp(x, z)),
                        requested.contains(&p),
                        "wants and update disagree about {p:?} (camera {center:?})"
                    );
                }
            }
        }
    }
}

#[test]
fn column_window_merges_overlapping_and_adjacent_ranges() {
    let w = ColumnWindow::union((0, 5), (3, 9));
    assert_eq!(w.ranges(), &[(0, 9)]);
    let w = ColumnWindow::union((6, 9), (0, 5)); // adjacent, either order
    assert_eq!(w.ranges(), &[(0, 9)]);
    let w = ColumnWindow::union((2, 4), (0, 9)); // contained
    assert_eq!(w.ranges(), &[(0, 9)]);
}

#[test]
fn column_window_keeps_disjoint_ranges_apart_in_order() {
    let w = ColumnWindow::union((10, 12), (-5, -3));
    assert_eq!(w.ranges(), &[(-5, -3), (10, 12)]);
    assert!(w.contains(-4) && w.contains(11));
    assert!(!w.contains(0), "the gap between the windows is not in it");
    let up: Vec<i64> = w.layers();
    assert_eq!(up, vec![-5, -4, -3, 10, 11, 12]);
    let down: Vec<i64> = w.layers().into_iter().rev().collect();
    assert_eq!(down, vec![12, 11, 10, -3, -4, -5]);
}

#[test]
fn column_window_with_an_empty_camera_window_is_the_surface_window() {
    let w = ColumnWindow::union((1, 4), (7, 6));
    assert_eq!(w.ranges(), &[(1, 4)]);
    assert_eq!(w.layers().len(), 4);
}

#[test]
fn nearest_first_picks_closest_and_sorts_them() {
    let cam = cp(0, 0, 0);
    let set = [cp(10, 0, 0), cp(1, 0, 0), cp(5, 0, 0), cp(2, 0, 0)];
    let got = nearest_first(&set, cam, 3);
    assert_eq!(got, vec![cp(1, 0, 0), cp(2, 0, 0), cp(5, 0, 0)]);
}

#[test]
fn nearest_first_handles_fewer_than_requested() {
    let cam = cp(0, 0, 0);
    let set = [cp(3, 0, 0), cp(1, 0, 0)];
    let got = nearest_first(&set, cam, 10);
    assert_eq!(got, vec![cp(1, 0, 0), cp(3, 0, 0)]);
    assert!(nearest_first(&[], cam, 5).is_empty());
    assert!(nearest_first(&set, cam, 0).is_empty());
}

#[test]
fn nearest_first_uses_3d_distance_and_is_deterministic() {
    let cam = cp(0, 0, 0);
    // Equidistant on different axes: order must be stable across runs
    // (ties broken by position), so batches don't shuffle frame to frame.
    let set = [cp(0, 0, 2), cp(2, 0, 0), cp(0, 2, 0), cp(1, 1, 1)];
    let a = nearest_first(&set, cam, 4);
    let b = nearest_first(&set.iter().rev().copied().collect::<Vec<_>>(), cam, 4);
    assert_eq!(a, b, "selection must not depend on input order");
    // (1,1,1) is d²=3, nearer than the d²=4 trio.
    assert_eq!(a[0], cp(1, 1, 1));
}

#[test]
fn nearest_first_survives_huge_coordinates() {
    // Distances must not overflow at extreme world positions.
    let cam = cp(2_000_000_000, 0, -2_000_000_000);
    let set = [
        cp(-2_000_000_000, 0, 2_000_000_000),
        cp(2_000_000_001, 0, -2_000_000_000),
    ];
    let got = nearest_first(&set, cam, 1);
    assert_eq!(got, vec![cp(2_000_000_001, 0, -2_000_000_000)]);
}

#[test]
fn the_margins_are_those_given() {
    let mut s = Streamer::surface_following(3, 5, 1, 2, 4);
    assert_eq!(s.vertical_margins(), (1, 2));
    assert_eq!(s.camera_margin(), 4);
    s.reconfigure(4, 9, 0, 7, 1);
    assert_eq!(s.vertical_margins(), (0, 7));
    assert_eq!(s.camera_margin(), 1);
    assert_eq!((s.load_radius(), s.unload_radius()), (4, 9));
}

#[test]
fn the_last_columns_of_the_coordinates_are_streamed() {
    let mut s = Streamer::surface_following(2, 4, 0, 0, 0);
    let update = s.update(cp(i64::MAX - 2, 0, i64::MIN + 2), flat);
    assert!(update.to_load.contains(&cp(i64::MAX, 0, i64::MIN + 2)));
    assert!(update.to_load.contains(&cp(i64::MAX - 2, 0, i64::MIN)));
    assert_eq!(update.to_load.len(), 13);
}

#[test]
fn equal_streamers_give_equal_updates() {
    let mut a = Streamer::surface_following(3, 5, 2, 2, 2);
    let mut b = Streamer::surface_following(3, 5, 2, 2, 2);
    for cam in [cp(0, 0, 0), cp(4, 1, 0), cp(4, 1, -9), cp(0, 0, 0)] {
        let (u, v) = (a.update(cam, ramp), b.update(cam, ramp));
        assert_eq!(u.to_load, v.to_load);
        assert_eq!(u.to_unload, v.to_unload);
        a.apply(&u);
        b.apply(&v);
        assert_eq!(a.loaded(), b.loaded());
    }
}

#[test]
fn a_reconfigured_streamer_acts_like_a_new_one() {
    let mut s = Streamer::surface_following(3, 5, 2, 2, 2);
    let first = s.update(cp(0, 0, 0), ramp);
    s.apply(&first);
    s.reconfigure(2, 3, 1, 0, 1);
    let mut new = Streamer::surface_following(2, 3, 1, 0, 1);
    for p in s.loaded() {
        new.mark_loaded(p);
    }
    let (u, v) = (s.update(cp(1, 0, 0), ramp), new.update(cp(1, 0, 0), ramp));
    assert!(!u.to_unload.is_empty());
    assert_eq!(u.to_load, v.to_load);
    assert_eq!(u.to_unload, v.to_unload);
}
