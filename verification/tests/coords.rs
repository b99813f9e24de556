//! World, chunk and local coordinates.

use voxterra::{ChunkPos, LocalPos, WorldPos, CHUNK_SIZE, CHUNK_VOLUME};

#[test]
fn positive_coords_split() {
    let (chunk, local) = WorldPos::new(33, 0, 70).split();
    assert_eq!(chunk, ChunkPos::new(1, 0, 2));
    assert_eq!(local, LocalPos::new(1, 0, 6));
}

/// THE classic bug: block -1 lives in chunk -1 at local 31, not chunk 0.
#[test]
fn negative_coords_split() {
    let (chunk, local) = WorldPos::new(-1, -32, -33).split();
    assert_eq!(chunk, ChunkPos::new(-1, -1, -2));
    assert_eq!(local, LocalPos::new(31, 0, 31));
}

#[test]
fn chunk_boundaries() {
    // Exactly at a chunk's minimum corner.
    assert_eq!(WorldPos::new(32, 32, 32).chunk(), ChunkPos::new(1, 1, 1));
    assert_eq!(WorldPos::new(31, 31, 31).chunk(), ChunkPos::new(0, 0, 0));
    assert_eq!(WorldPos::new(0, 0, 0).chunk(), ChunkPos::new(0, 0, 0));
    assert_eq!(WorldPos::new(-32, 0, 0).chunk(), ChunkPos::new(-1, 0, 0));
}

/// split → recompose must be the identity for any world position,
/// including deep negatives and huge values.
#[test]
fn split_recompose_roundtrip() {
    let cases = [
        WorldPos::new(0, 0, 0),
        WorldPos::new(-1, -1, -1),
        WorldPos::new(123_456, -789_012, 31),
        WorldPos::new(i64::MIN / 2, i64::MAX / 2, -1_000_000),
    ];
    for pos in cases {
        let (chunk, local) = pos.split();
        assert_eq!(chunk.world_pos(local), pos, "roundtrip failed for {pos:?}");
    }
}

#[test]
fn chunk_origin() {
    assert_eq!(ChunkPos::new(-1, 0, 2).origin(), WorldPos::new(-32, 0, 64));
}

#[test]
fn index_roundtrip_covers_whole_chunk() {
    for i in 0..CHUNK_VOLUME {
        assert_eq!(LocalPos::from_index(i).index(), i);
    }
}

#[test]
fn index_layout_is_y_major() {
    assert_eq!(LocalPos::new(1, 0, 0).index(), 1);
    assert_eq!(LocalPos::new(0, 0, 1).index(), CHUNK_SIZE);
    assert_eq!(LocalPos::new(0, 1, 0).index(), CHUNK_SIZE * CHUNK_SIZE);
}

#[test]
fn iter_visits_every_position_once() {
    assert_eq!(LocalPos::iter().len(), CHUNK_VOLUME);
    let mut seen = vec![false; CHUNK_VOLUME];
    for pos in LocalPos::iter() {
        assert!(!seen[pos.index()], "duplicate position {pos:?}");
        seen[pos.index()] = true;
    }
}
