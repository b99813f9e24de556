//! The block registry.

use voxterra::registry::{
    cobblestone, dirt, grass, planks, sand, stone, DEFAULT_LAYER_COUNT, L_DIRT, L_GRASS_SIDE,
    L_GRASS_TOP, L_STONE, NEG_X, NEG_Y, NEG_Z, POS_X, POS_Y, POS_Z,
};
use voxterra::{BlockId, BlockRegistry};

const AIR: BlockId = BlockId(0);

#[test]
fn ids_are_stable() {
    assert_eq!(stone(), BlockId(1));
    assert_eq!(dirt(), BlockId(2));
    assert_eq!(grass(), BlockId(3));
    assert_eq!(AIR, BlockId(0));
}

#[test]
fn registry_indices_match_ids() {
    let reg = BlockRegistry::default_set();
    assert_eq!(reg.get(stone()).name, "stone");
    assert_eq!(reg.get(dirt()).name, "dirt");
    assert_eq!(reg.get(grass()).name, "grass");
    assert_eq!(reg.get(sand()).name, "sand");
    assert_eq!(reg.get(cobblestone()).name, "cobblestone");
    assert_eq!(reg.get(planks()).name, "planks");
}

#[test]
fn air_is_not_solid_others_are() {
    let reg = BlockRegistry::default_set();
    assert!(!reg.is_solid(AIR));
    assert!(reg.is_solid(stone()));
    assert!(reg.is_solid(grass()));
}

#[test]
fn grass_has_distinct_faces() {
    let reg = BlockRegistry::default_set();
    let top = reg.face_layer(grass(), POS_Y);
    let bottom = reg.face_layer(grass(), NEG_Y);
    let side = reg.face_layer(grass(), POS_X);
    assert_eq!(top, L_GRASS_TOP);
    assert_eq!(side, L_GRASS_SIDE);
    assert_eq!(bottom, L_DIRT); // grass sits on dirt
    assert_ne!(top, side);
    assert_ne!(side, bottom);
    // Side faces are all the same.
    assert_eq!(reg.face_layer(grass(), NEG_X), side);
    assert_eq!(reg.face_layer(grass(), POS_Z), side);
    assert_eq!(reg.face_layer(grass(), NEG_Z), side);
}

#[test]
fn uniform_block_same_on_all_faces() {
    let reg = BlockRegistry::default_set();
    for f in 0..6 {
        assert_eq!(reg.face_layer(stone(), f), L_STONE);
    }
}

#[test]
fn unknown_id_resolves_to_air() {
    let reg = BlockRegistry::default_set();
    let unknown = BlockId(9999);
    assert_eq!(reg.get(unknown).name, "air");
    assert!(!reg.is_solid(unknown));
}

#[test]
fn all_face_layers_within_array_bounds() {
    let reg = BlockRegistry::default_set();
    for i in 0..reg.len() {
        for f in 0..6 {
            let layer = reg.face_layer(BlockId(i as u16), f);
            assert!(layer < DEFAULT_LAYER_COUNT, "layer {layer} out of bounds");
        }
    }
}

#[test]
fn placeable_excludes_air() {
    let reg = BlockRegistry::default_set();
    let placeable: Vec<BlockId> = reg.placeable();
    assert!(!placeable.contains(&AIR));
    assert!(placeable.contains(&stone()));
    assert_eq!(placeable.len(), 6); // stone..planks
}

#[test]
fn interim_colors_match_milestone02_values() {
    let reg = BlockRegistry::default_set();
    assert_eq!(reg.color(stone()), [55, 55, 58]);
    assert_eq!(reg.color(dirt()), [55, 40, 27]);
    assert_eq!(reg.color(grass()), [33, 62, 28]);
}
