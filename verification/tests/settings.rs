//! View settings and the horizon they ask for.

use voxterra::horizon::{apply_view, coarse_terrain, view_plan};
use voxterra::lod::check_config;
use voxterra::planet::{WORLD_Y_MAX_BLOCKS, WORLD_Y_MIN_BLOCKS};
use voxterra::residency::Residency;
use voxterra::settings::{LOAD_RADIUS_MAX, LOAD_RADIUS_MIN, LOD_EXTRA_LEVELS_MAX};
use voxterra::{BlockRegistry, LodLevel, Streamer, ViewSettings};

#[test]
fn defaults_are_already_valid() {
    let mut s = ViewSettings::default();
    let before = s;
    s.sanitize();
    assert_eq!(s, before, "defaults should survive sanitize unchanged");
}

#[test]
fn sanitize_clamps_out_of_range_values() {
    let mut s = ViewSettings {
        load_radius: 9999,
        lod_extra_levels: 99,
        ..Default::default()
    };
    s.sanitize();
    assert_eq!(s.load_radius, LOAD_RADIUS_MAX);
    assert_eq!(s.lod_extra_levels, LOD_EXTRA_LEVELS_MAX);
    let mut low = ViewSettings {
        load_radius: -3,
        lod_extra_levels: -1,
        ..Default::default()
    };
    low.sanitize();
    assert_eq!(low.load_radius, LOAD_RADIUS_MIN);
    assert_eq!(low.lod_extra_levels, 0);
}

/// Each of the expensive settings asks for a rebuild.
#[test]
fn only_expensive_changes_request_a_rebuild() {
    let base = ViewSettings::default();
    assert!(!base.rebuild_needed(&base));

    let mut radius = base;
    radius.load_radius = 12;
    assert!(radius.rebuild_needed(&base));

    let mut levels = base;
    levels.lod_extra_levels = 2;
    assert!(levels.rebuild_needed(&base));

    let mut toggled = base;
    toggled.lod_enabled = false;
    assert!(toggled.rebuild_needed(&base));
}

fn level(stride: i64, outer_chunks: i64) -> LodLevel {
    LodLevel {
        stride,
        outer_chunks,
    }
}

#[test]
fn the_plan_without_extra_levels() {
    let plan = view_plan(0);
    assert_eq!(plan.levels, vec![level(2, 16), level(4, 32), level(8, 64)]);
    assert_eq!(plan.margin, 8);
    assert_eq!(plan.far_chunks, 64);
    // A negative number asks for none.
    assert_eq!(view_plan(-4).levels, plan.levels);
}

/// Two extra levels raise the coarsest stride to 32, onto which every radius
/// is rounded, and no two levels may end at the same radius.
#[test]
fn extra_levels_drag_the_radii_outward() {
    let plan = view_plan(2);
    assert_eq!(
        plan.levels,
        vec![
            level(2, 32),
            level(4, 64),
            level(8, 96),
            level(16, 128),
            level(32, 256)
        ]
    );
    assert_eq!(plan.margin, 32);
    assert_eq!(plan.far_chunks, 256);
}

#[test]
fn every_plan_makes_a_ring() {
    for extra in 0..=24 {
        let plan = view_plan(extra);
        let band = (WORLD_Y_MIN_BLOCKS, WORLD_Y_MAX_BLOCKS);
        assert_eq!(check_config(0, &plan.levels, plan.margin, band), None);
    }
    let coarse = coarse_terrain(&ViewSettings::default());
    assert_eq!(coarse.ring().level_count(), 3);
    assert!(coarse.drawn().is_empty());
}

#[test]
fn applying_the_view_keeps_what_is_loaded() {
    let streamer = Streamer::surface_following(8, 10, 3, 3, 3);
    let mut residency = Residency::new(streamer, BlockRegistry::default_set());
    let settings = ViewSettings {
        load_radius: 12,
        ..Default::default()
    };
    apply_view(&mut residency, &settings);
    assert_eq!(residency.streamer().load_radius(), 12);
    assert_eq!(residency.streamer().unload_radius(), 14);
}

#[test]
fn switching_coarse_terrain_off_drops_it() {
    let mut s = ViewSettings::default();
    assert!(s.toggle_lod());
    assert!(!s.lod_enabled);
    assert!(!s.toggle_lod());
    assert!(s.lod_enabled);
}
