//! The block world.

use voxterra::{BlockId, World, WorldPos};

const AIR: BlockId = BlockId(0);

const STONE: BlockId = BlockId(1);

#[test]
fn missing_chunks_read_as_air() {
    let world = World::new();
    assert_eq!(world.get_block(WorldPos::new(0, 0, 0)), AIR);
    assert_eq!(
        world.get_block(WorldPos::new(-1000, 99999, 12)),
        AIR
    );
    assert_eq!(world.chunk_count(), 0);
}

#[test]
fn set_creates_chunk_and_roundtrips() {
    let mut world = World::new();
    let pos = WorldPos::new(100, -200, 305);

    world.set_block(pos, STONE);

    assert_eq!(world.get_block(pos), STONE);
    assert_eq!(world.chunk_count(), 1);
    // Neighbor block in the same chunk is air.
    assert_eq!(world.get_block(WorldPos::new(101, -200, 305)), AIR);
}

/// Adjacent world positions that straddle a chunk border must land in
/// different chunks and both read back correctly — exercises the
/// negative-coordinate math end to end.
#[test]
fn blocks_across_chunk_borders() {
    let mut world = World::new();
    let a = WorldPos::new(-1, 5, 5); // chunk (-1, 0, 0), local x=31
    let b = WorldPos::new(0, 5, 5); // chunk (0, 0, 0), local x=0

    world.set_block(a, STONE);
    world.set_block(b, BlockId(2));

    assert_eq!(world.chunk_count(), 2);
    assert_eq!(world.get_block(a), STONE);
    assert_eq!(world.get_block(b), BlockId(2));
}

#[test]
fn writing_air_into_missing_chunk_creates_nothing() {
    let mut world = World::new();
    world.set_block(WorldPos::new(5, 5, 5), AIR);
    assert_eq!(world.chunk_count(), 0);
}

#[test]
fn overwriting_with_air_works_in_existing_chunk() {
    let mut world = World::new();
    let pos = WorldPos::new(5, 5, 5);
    world.set_block(pos, STONE);
    world.set_block(pos, AIR);
    assert_eq!(world.get_block(pos), AIR);
    assert_eq!(world.chunk_count(), 1);
}
