//! The resident world and the work it owes.

use voxterra::raycast::RayHit;
use voxterra::registry::{lamp, stone};
use voxterra::residency::flow::{is_in_world, GEN_SPAWN_BUDGET};
use voxterra::residency::meshing::mesh_job;
use voxterra::residency::relight::{relight_job, top_sky_from_heightmap, Relit};
use voxterra::residency::sides::neighbor;
use voxterra::residency::Residency;
use voxterra::{
    BlockId, BlockRegistry, Chunk, ChunkPos, LocalPos, Streamer, WorldPos, CHUNK_VOLUME,
};

const AIR: BlockId = BlockId(0);

fn cp(x: i64, y: i64, z: i64) -> ChunkPos {
    ChunkPos::new(x, y, z)
}

fn flat(_x: i64, _z: i64) -> (i64, i64) {
    (0, 0)
}

/// Nothing resident, streaming one layer around flat ground.
fn fresh() -> Residency {
    let streamer = Streamer::surface_following(2, 4, 1, 1, 1);
    Residency::new(streamer, BlockRegistry::default_set())
}

/// A chunk whose lower half is stone.
fn ground() -> Chunk {
    let mut c = Chunk::new_air();
    for p in LocalPos::iter() {
        if p.y() < 16 {
            c.set(p, stone());
        }
    }
    c.mark_unmodified();
    c
}

fn bring(r: &mut Residency, pos: ChunkPos, chunk: Chunk) -> bool {
    r.arrive(pos, chunk);
    r.settle(pos)
}

fn light_everything(r: &mut Residency) {
    loop {
        r.prune();
        let batch = r.relight_candidates(cp(0, 0, 0));
        if batch.is_empty() {
            break;
        }
        r.start_relight(&batch);
        let jobs: Vec<Relit> = batch
            .iter()
            .filter_map(|&p| relight_job(r.world(), r.registry(), r.heights(), p))
            .collect();
        for job in &jobs {
            r.apply_relit(job);
        }
    }
}

#[test]
fn an_arrived_chunk_owes_light_and_a_mesh() {
    let mut r = fresh();
    assert!(!bring(&mut r, cp(0, 0, 0), ground()));
    assert!(r.streamer().is_loaded(cp(0, 0, 0)));
    assert_eq!(r.heights().get(5, 5), Some(15));
    assert_eq!(r.relight_candidates(cp(0, 0, 0)).len(), 7);
    r.prune();
    assert_eq!(r.relight_candidates(cp(0, 0, 0)), vec![cp(0, 0, 0)]);
}

#[test]
fn an_edited_chunk_says_so_when_it_arrives() {
    let mut r = fresh();
    let mut c = ground();
    c.mark_modified();
    assert!(bring(&mut r, cp(1, 0, 0), c));
    assert_eq!(r.modified(), vec![cp(1, 0, 0)]);
}

#[test]
fn spawns_skip_what_is_loaded_or_on_its_way() {
    let mut r = fresh();
    bring(&mut r, cp(0, 0, 0), Chunk::new_air());
    let wanted = [cp(0, 0, 0), cp(1, 0, 0), cp(1, 0, 0), cp(2, 0, 0), cp(3, 0, 0)];
    assert_eq!(r.take_spawns(&wanted, 2), vec![cp(1, 0, 0), cp(2, 0, 0)]);
    assert_eq!(r.take_spawns(&wanted, GEN_SPAWN_BUDGET), vec![cp(3, 0, 0)]);
    // Arrived: no longer on its way, but loaded.
    r.arrive(cp(1, 0, 0), Chunk::new_air());
    assert!(r.take_spawns(&wanted, 2).is_empty());
}

#[test]
fn unloading_hands_back_edits_and_exposes_neighbours() {
    let mut r = fresh();
    let mut edited = ground();
    edited.mark_modified();
    bring(&mut r, cp(0, 0, 0), edited);
    bring(&mut r, cp(1, 0, 0), ground());
    light_everything(&mut r);
    // From far above no neighbour is to come, and nothing waits.
    let all = r.mesh_candidates(cp(0, 400, 0), &|_, _| (500, 500));
    assert_eq!(all, vec![cp(0, 0, 0), cp(1, 0, 0)]);
    r.start_mesh(&all);
    assert!(r.mesh_candidates(cp(0, 0, 0), &flat).is_empty());

    let saves = r.unload_all(&[cp(0, 0, 0)]);
    assert_eq!(saves.len(), 1);
    assert_eq!(saves[0].0, cp(0, 0, 0));
    assert!(r.world().chunk(cp(0, 0, 0)).is_none());
    assert_eq!(r.heights().get(5, 5), None, "the column is unknown again");
    assert_eq!(r.heights().get(37, 5), Some(15));
    assert_eq!(r.mesh_candidates(cp(0, 0, 0), &flat), vec![cp(1, 0, 0)]);
}

#[test]
fn a_replaced_chunk_is_counted_once() {
    let mut r = fresh();
    r.arrive(cp(0, 0, 0), ground());
    r.arrive(cp(0, 0, 0), ground());
    r.settle(cp(0, 0, 0));
    assert_eq!(r.heights().resident_columns(), 1);
    r.unload(cp(0, 0, 0));
    assert_eq!(r.heights().resident_columns(), 0);
    assert!(r.heights().is_empty());
}

#[test]
fn a_first_mesh_waits_for_coming_neighbours() {
    let mut r = fresh();
    let center = cp(0, 0, 0);
    bring(&mut r, center, ground());
    r.prune();
    // Everything around is within the load radius, so it is still to come.
    assert!(!r.ready_for_first_mesh(center, center, &flat));
    assert_eq!(r.sealed_faces(center, center, &flat), 0);
    for face in 0..6 {
        r.arrive(neighbor(center, face), ground());
    }
    assert!(r.ready_for_first_mesh(center, center, &flat));
}

#[test]
fn a_neighbour_that_never_comes_is_sealed() {
    let mut r = fresh();
    let center = cp(0, 1, 0);
    // The layer above the window around the surface is never loaded.
    bring(&mut r, center, Chunk::new_air());
    let camera = cp(0, 0, 0);
    assert_eq!(r.sealed_faces(center, camera, &flat), 0b000100);
    assert!(r.neighbor_coming(cp(0, 0, 0), camera, &flat));
    assert!(!r.neighbor_coming(cp(0, 2, 0), camera, &flat));
}

#[test]
fn meshing_waits_for_light() {
    let mut r = fresh();
    let camera = cp(0, 0, 0);
    let far = |_: i64, _: i64| (500i64, 500i64);
    bring(&mut r, camera, ground());
    r.prune();
    assert!(r.mesh_candidates(camera, &far).is_empty(), "still to be relit");
    light_everything(&mut r);
    // The surface is far away for this query: no neighbour is to come but the
    // camera's own surroundings.
    assert_eq!(r.mesh_candidates(cp(0, 400, 0), &far), vec![camera]);
    r.start_mesh(&[camera]);
    assert!(r.is_meshed(camera));
    assert!(r.ready_for_first_mesh(camera, camera, &flat), "meshed once");
}

#[test]
fn relighting_reaches_the_neighbours() {
    let mut r = fresh();
    let mut lit = Chunk::new_air();
    lit.set(LocalPos::new(31, 8, 8), lamp());
    r.arrive(cp(0, 0, 0), lit);
    r.settle(cp(0, 0, 0));
    r.arrive(cp(1, 0, 0), Chunk::new_air());
    r.settle(cp(1, 0, 0));
    light_everything(&mut r);
    let east = r.world().chunk(cp(1, 0, 0)).unwrap();
    assert_eq!(east.block_light(LocalPos::new(0, 8, 8)), 13);
    assert_eq!(east.block_light(LocalPos::new(3, 8, 8)), 10);
}

#[test]
fn a_relit_chunk_marks_what_its_faces_touch() {
    let mut r = fresh();
    for x in -1..=1 {
        for y in -1..=1 {
            for z in -1..=1 {
                r.arrive(cp(x, y, z), Chunk::new_air());
            }
        }
    }
    // Only the face toward +X changed.
    let job = Relit {
        pos: cp(0, 0, 0),
        light: vec![0; CHUNK_VOLUME],
        interior_changed: false,
        border_faces: 1,
    };
    r.apply_relit(&job);
    assert_eq!(r.relight_candidates(cp(0, 0, 0)), vec![cp(1, 0, 0)]);
    r.start_relight(&[cp(1, 0, 0)]);
    let mut dirty = r.mesh_candidates(cp(0, 400, 0), &|_, _| (500, 500));
    dirty.sort_by_key(|p| (p.x, p.y, p.z));
    // Across the face and at its four edges, but not at its corners.
    assert_eq!(
        dirty,
        vec![cp(1, -1, 0), cp(1, 0, -1), cp(1, 0, 0), cp(1, 0, 1), cp(1, 1, 0)]
    );
}

#[test]
fn changed_light_is_stored() {
    let mut r = fresh();
    r.arrive(cp(0, 0, 0), Chunk::new_air());
    let mut light = vec![0; CHUNK_VOLUME];
    light[LocalPos::new(1, 2, 3).index()] = 0xA5;
    r.apply_relit(&Relit {
        pos: cp(0, 0, 0),
        light,
        interior_changed: true,
        border_faces: 0,
    });
    let c = r.world().chunk(cp(0, 0, 0)).unwrap();
    assert_eq!(c.sky_light(LocalPos::new(1, 2, 3)), 10);
    assert_eq!(c.block_light(LocalPos::new(1, 2, 3)), 5);
}

#[test]
fn only_resident_chunks_are_relit_or_meshed() {
    let r = fresh();
    assert!(relight_job(r.world(), r.registry(), r.heights(), cp(0, 0, 0)).is_none());
    assert!(mesh_job(r.world(), r.registry(), cp(0, 0, 0), 0).is_none());
}

#[test]
fn a_chunk_of_air_needs_no_mesh() {
    let mut r = fresh();
    r.arrive(cp(0, 0, 0), Chunk::new_air());
    assert!(mesh_job(r.world(), r.registry(), cp(0, 0, 0), 0).is_none());
    r.arrive(cp(0, 0, 0), Chunk::filled(stone()));
    let mesh = mesh_job(r.world(), r.registry(), cp(0, 0, 0), 0).unwrap();
    assert_eq!(mesh.quad_count(), 6);
    assert!(mesh.quads.iter().all(|q| q.layer == r.registry().face_layer(stone(), q.face)));
}

fn hit(block: WorldPos, place: Option<WorldPos>) -> Option<RayHit> {
    Some(RayHit {
        block_pos: block,
        place_pos: place,
        normal: (0, 1, 0),
    })
}

#[test]
fn breaking_a_block_lowers_what_is_recorded() {
    let mut r = fresh();
    let camera = cp(0, 0, 0);
    bring(&mut r, camera, ground());
    let top = WorldPos::new(3, 15, 4);
    assert_eq!(r.break_block(hit(top, None), camera, &flat), Some((top, 14)));
    assert_eq!(r.world().get_block(top), AIR);
    assert_eq!(r.heights().get(3, 4), Some(14));
    assert_eq!(r.modified(), vec![camera]);
    // The cell is empty now, and nothing happens.
    assert_eq!(r.break_block(hit(top, None), camera, &flat), None);
    assert_eq!(r.break_block(None, camera, &flat), None);
}

#[test]
fn a_fully_mined_column_is_recorded_at_the_foot_of_the_world() {
    let mut r = fresh();
    let camera = cp(0, 0, 0);
    let mut one = Chunk::new_air();
    one.set(LocalPos::new(3, 0, 4), stone());
    bring(&mut r, camera, one);
    let at = WorldPos::new(3, 0, 4);
    assert_eq!(r.break_block(hit(at, None), camera, &flat), Some((at, -11264)));
    assert_eq!(r.heights().get(3, 4), Some(i64::MIN));
}

#[test]
fn placing_a_block_raises_the_column() {
    let mut r = fresh();
    let camera = cp(0, 0, 0);
    bring(&mut r, camera, ground());
    let ground_block = WorldPos::new(3, 15, 4);
    let above = WorldPos::new(3, 16, 4);
    let target = hit(ground_block, Some(above));
    assert_eq!(r.place_block(target, stone(), true, camera, &flat), None, "blocked");
    assert_eq!(
        r.place_block(target, stone(), false, camera, &flat),
        Some((above, 16))
    );
    assert_eq!(r.world().get_block(above), stone());
    assert_eq!(r.heights().get(3, 4), Some(16));
    assert_eq!(r.place_block(target, stone(), false, camera, &flat), None, "occupied");
    assert_eq!(
        r.place_block(hit(above, None), stone(), false, camera, &flat),
        None,
        "no cell to place in"
    );
}

/// What is built above the layers around the surface is seen through those
/// around the camera.
#[test]
fn the_camera_window_shows_what_is_built_high() {
    let mut r = fresh();
    bring(&mut r, cp(0, 0, 0), ground());
    bring(&mut r, cp(0, 9, 0), Chunk::new_air());
    let high = WorldPos::new(3, 9 * 32 + 5, 4);
    let target = hit(high, Some(high));
    assert_eq!(
        r.place_block(target, stone(), false, cp(0, 9, 0), &flat),
        Some((high, 293))
    );
}

#[test]
fn a_punched_hole_is_a_sphere() {
    let mut r = fresh();
    r.arrive(cp(0, 0, 0), Chunk::filled(stone()));
    r.arrive(cp(1, 0, 0), Chunk::filled(stone()));
    let center = WorldPos::new(28, 16, 16);
    r.debug_punch_hole(center);
    let mut cleared = 0;
    for x in 0..64 {
        for y in 0..32 {
            for z in 0..32 {
                let p = WorldPos::new(x, y, z);
                let d = (x - 28).pow(2) + (y - 16).pow(2) + (z - 16).pow(2);
                let air = r.world().get_block(p) == AIR;
                assert_eq!(air, d <= 36, "{p:?}");
                cleared += air as u32;
            }
        }
    }
    assert_eq!(cleared, 925);
    assert_eq!(r.modified(), vec![cp(0, 0, 0), cp(1, 0, 0)]);
    // Both chunks and what is across their faces: 12 in all.
    assert_eq!(r.relight_candidates(cp(0, 0, 0)).len(), 12);
}

#[test]
fn the_streamer_is_asked_through_the_residency() {
    let mut r = fresh();
    let u = r.stream_update(cp(0, 0, 0), flat);
    assert_eq!(u.to_load[0], cp(0, 0, 0));
    assert!(u.to_unload.is_empty());
    let started = r.take_spawns(&u.to_load, GEN_SPAWN_BUDGET);
    assert_eq!(started.len(), u.to_load.len().min(64));
}

#[test]
fn the_ends_of_the_coordinates_are_outside() {
    assert!(is_in_world(cp(0, -352, 0)));
    assert!(is_in_world(cp(i64::MAX / 32, 0, 0)));
    assert!(!is_in_world(cp(i64::MAX / 32 + 1, 0, 0)));
    assert!(!is_in_world(cp(0, 0, i64::MIN / 32 - 1)));
}

#[test]
fn daylight_enters_above_known_ground() {
    let mut r = fresh();
    bring(&mut r, cp(0, 0, 0), ground());
    assert_eq!(top_sky_from_heightmap(r.heights(), cp(0, 1, 0))[0], 15);
    assert_eq!(top_sky_from_heightmap(r.heights(), cp(0, 0, 0))[0], 0);
    assert_eq!(top_sky_from_heightmap(r.heights(), cp(5, 1, 0))[0], 0, "unknown");
}

/// Once a chunk's light is taken over, relighting it again changes nothing.
#[test]
fn relighting_settles() {
    let mut r = fresh();
    let mut lit = ground();
    lit.set(LocalPos::new(0, 20, 0), lamp());
    r.arrive(cp(0, 0, 0), lit);
    r.settle(cp(0, 0, 0));
    let first = relight_job(r.world(), r.registry(), r.heights(), cp(0, 0, 0)).unwrap();
    assert!(first.interior_changed);
    assert_ne!(first.border_faces, 0);
    r.apply_relit(&first);
    let again = relight_job(r.world(), r.registry(), r.heights(), cp(0, 0, 0)).unwrap();
    assert_eq!(again.light, first.light);
    assert!(!again.interior_changed);
    assert_eq!(again.border_faces, 0);
}

/// With everything that is wanted resident, every chunk may be meshed.
#[test]
fn no_first_mesh_waits_forever() {
    let mut r = fresh();
    let camera = cp(0, 0, 0);
    let wanted = r.stream_update(camera, flat).to_load;
    for p in &wanted {
        r.arrive(*p, Chunk::new_air());
    }
    assert!(r.stream_update(camera, flat).to_load.is_empty());
    for p in &wanted {
        assert!(r.ready_for_first_mesh(*p, camera, &flat), "{p:?} waits");
    }
}

#[test]
fn a_sealed_face_is_not_drawn() {
    let mut r = fresh();
    let center = cp(0, 1, 0);
    let camera = cp(0, 0, 0);
    bring(&mut r, center, Chunk::filled(stone()));
    let sealed = r.sealed_faces(center, camera, &flat);
    assert_eq!(sealed, 0b000100);
    let mesh = mesh_job(r.world(), r.registry(), center, sealed).unwrap();
    assert_eq!(mesh.quad_count(), 5);
    assert!(mesh.quads.iter().all(|q| q.face != 2));
    // Without the seal there would be a roof.
    let open = mesh_job(r.world(), r.registry(), center, 0).unwrap();
    assert_eq!(open.quad_count(), 6);
}
