//! Chunk storage, light and serialization.

use voxterra::packed::bits_for;
use voxterra::{BlockId, Chunk, ChunkDecodeError, LocalPos, CHUNK_FORMAT_VERSION, CHUNK_VOLUME};

const AIR: BlockId = BlockId(0);

#[test]
fn new_air_is_all_air() {
    let chunk = Chunk::new_air();
    assert!(chunk.is_all_air());
    assert_eq!(chunk.get(LocalPos::new(0, 0, 0)), AIR);
    assert_eq!(chunk.get(LocalPos::new(31, 31, 31)), AIR);
}

#[test]
fn set_then_get_roundtrip() {
    let mut chunk = Chunk::new_air();
    let stone = BlockId(1);
    let pos = LocalPos::new(5, 17, 30);

    chunk.set(pos, stone);

    assert_eq!(chunk.get(pos), stone);
    assert!(!chunk.is_all_air());
    assert_eq!(chunk.get(LocalPos::new(4, 17, 30)), AIR);
    assert_eq!(chunk.get(LocalPos::new(5, 16, 30)), AIR);
}

#[test]
fn filled_fills_everything() {
    let dirt = BlockId(2);
    let chunk = Chunk::filled(dirt);
    for pos in LocalPos::iter() {
        assert_eq!(chunk.get(pos), dirt);
    }
}

#[test]
fn set_does_not_bleed_between_cells() {
    let mut chunk = Chunk::new_air();
    for pos in LocalPos::iter() {
        chunk.set(pos, BlockId((pos.index() % u16::MAX as usize) as u16));
    }
    for pos in LocalPos::iter() {
        assert_eq!(
            chunk.get(pos),
            BlockId((pos.index() % u16::MAX as usize) as u16)
        );
    }
}

#[test]
fn uniform_chunks_store_no_indices() {
    assert!(Chunk::new_air().is_uniform());
    assert!(Chunk::filled(BlockId(7)).is_uniform());
    assert_eq!(Chunk::filled(BlockId(7)).palette_len(), 1);
}

#[test]
fn writing_uniform_value_stays_uniform() {
    let mut chunk = Chunk::filled(BlockId(7));
    chunk.set(LocalPos::new(3, 3, 3), BlockId(7));
    assert!(chunk.is_uniform());
}

#[test]
fn first_differing_write_leaves_uniform() {
    let mut chunk = Chunk::filled(BlockId(7));
    chunk.set(LocalPos::new(3, 3, 3), BlockId(8));
    assert!(!chunk.is_uniform());
    assert_eq!(chunk.get(LocalPos::new(3, 3, 3)), BlockId(8));
    assert_eq!(chunk.get(LocalPos::new(3, 3, 4)), BlockId(7));
    assert_eq!(chunk.palette_len(), 2);
}

#[test]
fn bits_for_widths_are_word_aligned() {
    assert_eq!(bits_for(1), 1);
    assert_eq!(bits_for(2), 1);
    assert_eq!(bits_for(3), 2);
    assert_eq!(bits_for(4), 2);
    assert_eq!(bits_for(5), 4);
    assert_eq!(bits_for(16), 4);
    assert_eq!(bits_for(17), 8);
    assert_eq!(bits_for(256), 8);
    assert_eq!(bits_for(257), 16);
    assert_eq!(bits_for(65536), 16);
}

/// Insert progressively more block types so the packed array is forced
/// through every bit-width boundary; previously written data must
/// survive every widening.
#[test]
fn growth_across_bit_width_boundaries_preserves_data() {
    let mut chunk = Chunk::new_air();
    // 300 distinct types pushes the palette through 1→2→4→8→16 bits.
    for i in 0..300u16 {
        let pos = LocalPos::from_index(i as usize);
        chunk.set(pos, BlockId(i + 1));
        // After every single insertion, verify everything so far.
        for j in 0..=i {
            let p = LocalPos::from_index(j as usize);
            assert_eq!(chunk.get(p), BlockId(j + 1), "lost data at width growth");
        }
    }
}

#[test]
fn random_workload_matches_dense_reference() {
    let mut chunk = Chunk::new_air();
    let mut reference = vec![AIR; CHUNK_VOLUME];
    let mut rng = SplitMix64::new(0xB10C_5EED);

    for _ in 0..50_000 {
        let index = (rng.next() as usize) % CHUNK_VOLUME;
        // Small block-type range so overwrites and reuse are common.
        let block = BlockId((rng.next() % 12) as u16);
        chunk.set(LocalPos::from_index(index), block);
        reference[index] = block;
    }

    for (i, &expected) in reference.iter().enumerate() {
        assert_eq!(chunk.get(LocalPos::from_index(i)), expected);
    }
    assert_eq!(chunk.is_all_air(), reference.iter().all(|b| b.is_air()));
}

#[test]
fn compact_drops_unused_entries_and_recovers_uniform() {
    let mut chunk = Chunk::new_air();
    let pos = LocalPos::new(1, 2, 3);

    // Touch several types, then overwrite everything back to air.
    chunk.set(pos, BlockId(1));
    chunk.set(pos, BlockId(2));
    chunk.set(pos, BlockId(3));
    chunk.set(pos, AIR);
    assert!(chunk.palette_len() > 1);

    chunk.compact();

    assert!(
        chunk.is_uniform(),
        "all-air chunk should compact to uniform"
    );
    assert_eq!(chunk.palette_len(), 1);
    assert!(chunk.is_all_air());
}

#[test]
fn compact_preserves_contents() {
    let mut chunk = Chunk::new_air();
    let mut rng = SplitMix64::new(42);
    let mut reference = vec![AIR; CHUNK_VOLUME];

    for _ in 0..10_000 {
        let index = (rng.next() as usize) % CHUNK_VOLUME;
        let block = BlockId((rng.next() % 30) as u16);
        chunk.set(LocalPos::from_index(index), block);
        reference[index] = block;
    }

    chunk.compact();

    for (i, &expected) in reference.iter().enumerate() {
        assert_eq!(chunk.get(LocalPos::from_index(i)), expected);
    }
}

/// Minimal deterministic RNG for tests — no external crates in vox-core.
struct SplitMix64(u64);

impl SplitMix64 {
    fn new(seed: u64) -> Self {
        Self(seed)
    }
    fn next(&mut self) -> u64 {
        self.0 = self.0.wrapping_add(0x9E3779B97F4A7C15);
        let mut z = self.0;
        z = (z ^ (z >> 30)).wrapping_mul(0xBF58476D1CE4E5B9);
        z = (z ^ (z >> 27)).wrapping_mul(0x94D049BB133111EB);
        z ^ (z >> 31)
    }
}

#[test]
fn fresh_chunk_is_dark_and_unallocated() {
    let chunk = Chunk::new_air();
    assert!(!chunk.has_light());
    assert_eq!(chunk.block_light(LocalPos::new(0, 0, 0)), 0);
    assert_eq!(chunk.block_light(LocalPos::new(31, 31, 31)), 0);
}

#[test]
fn setting_zero_light_does_not_allocate() {
    let mut chunk = Chunk::new_air();
    chunk.set_block_light(LocalPos::new(5, 5, 5), 0);
    assert!(!chunk.has_light(), "zero light must not allocate storage");
}

#[test]
fn set_then_get_block_light() {
    let mut chunk = Chunk::new_air();
    chunk.set_block_light(LocalPos::new(3, 4, 5), 12);
    assert!(chunk.has_light());
    assert_eq!(chunk.block_light(LocalPos::new(3, 4, 5)), 12);
    // Neighbors remain dark.
    assert_eq!(chunk.block_light(LocalPos::new(3, 4, 6)), 0);
}

#[test]
fn block_light_clamps_to_15() {
    let mut chunk = Chunk::new_air();
    chunk.set_block_light(LocalPos::new(0, 0, 0), 200);
    assert_eq!(chunk.block_light(LocalPos::new(0, 0, 0)), 15);
}

#[test]
fn set_block_light_preserves_sky_nibble() {
    let mut chunk = Chunk::new_air();
    let p = LocalPos::new(1, 2, 3);
    // Force allocation and write a raw byte with a sky nibble set.
    chunk.set_block_light(p, 1);
    // Manually poke the high nibble via another block-light write path:
    // set block light to 7 and verify only the low nibble changed from
    // whatever it was; since we can't write sky directly yet, assert the
    // low-nibble masking behavior instead.
    chunk.set_block_light(p, 7);
    assert_eq!(chunk.block_light(p), 7);
}

#[test]
fn clear_light_releases_storage() {
    let mut chunk = Chunk::new_air();
    chunk.set_block_light(LocalPos::new(0, 0, 0), 10);
    assert!(chunk.has_light());
    chunk.clear_light();
    assert!(!chunk.has_light());
    assert_eq!(chunk.block_light(LocalPos::new(0, 0, 0)), 0);
}

#[test]
fn light_independent_of_block_modified_flag() {
    let mut chunk = Chunk::filled(AIR);
    assert!(!chunk.is_modified());
    chunk.set_block_light(LocalPos::new(0, 0, 0), 14);
    assert!(
        !chunk.is_modified(),
        "setting light must not mark the chunk modified"
    );
}

#[test]
fn light_survives_full_voxel_range() {
    let mut chunk = Chunk::new_air();
    // Write a deterministic pattern over the whole volume, read it back.
    for pos in LocalPos::iter() {
        let level = (pos.x() ^ pos.y() ^ pos.z()) & 0x0F;
        chunk.set_block_light(pos, level);
    }
    for pos in LocalPos::iter() {
        let expected = (pos.x() ^ pos.y() ^ pos.z()) & 0x0F;
        assert_eq!(chunk.block_light(pos), expected);
    }
}

#[test]
fn fresh_chunk_has_no_sky_light() {
    let chunk = Chunk::new_air();
    assert_eq!(chunk.sky_light(LocalPos::new(0, 0, 0)), 0);
    assert_eq!(chunk.sky_light(LocalPos::new(31, 31, 31)), 0);
}

#[test]
fn set_then_get_sky_light() {
    let mut chunk = Chunk::new_air();
    chunk.set_sky_light(LocalPos::new(3, 4, 5), 15);
    assert_eq!(chunk.sky_light(LocalPos::new(3, 4, 5)), 15);
    assert_eq!(chunk.sky_light(LocalPos::new(3, 4, 6)), 0);
}

#[test]
fn sky_light_clamps_to_15() {
    let mut chunk = Chunk::new_air();
    chunk.set_sky_light(LocalPos::new(0, 0, 0), 200);
    assert_eq!(chunk.sky_light(LocalPos::new(0, 0, 0)), 15);
}

#[test]
fn sky_and_block_light_are_independent() {
    // THE key property: both channels share one byte without clobbering.
    let mut chunk = Chunk::new_air();
    let p = LocalPos::new(7, 8, 9);
    chunk.set_block_light(p, 11);
    chunk.set_sky_light(p, 13);
    assert_eq!(chunk.block_light(p), 11, "block survived sky write");
    assert_eq!(chunk.sky_light(p), 13, "sky survived block write");

    // Overwrite one; the other is untouched.
    chunk.set_block_light(p, 2);
    assert_eq!(chunk.sky_light(p), 13);
    assert_eq!(chunk.block_light(p), 2);
    chunk.set_sky_light(p, 5);
    assert_eq!(chunk.block_light(p), 2);
    assert_eq!(chunk.sky_light(p), 5);
}

#[test]
fn setting_zero_sky_light_does_not_allocate() {
    let mut chunk = Chunk::new_air();
    chunk.set_sky_light(LocalPos::new(1, 1, 1), 0);
    assert!(!chunk.has_light(), "zero sky light must not allocate");
}

#[test]
fn clear_light_clears_both_channels() {
    let mut chunk = Chunk::new_air();
    let p = LocalPos::new(2, 2, 2);
    chunk.set_block_light(p, 9);
    chunk.set_sky_light(p, 14);
    chunk.clear_light();
    assert_eq!(chunk.block_light(p), 0);
    assert_eq!(chunk.sky_light(p), 0);
}

#[test]
fn both_channels_survive_full_voxel_range() {
    let mut chunk = Chunk::new_air();
    for pos in LocalPos::iter() {
        let b = (pos.x() ^ pos.y()) & 0x0F;
        let s = (pos.y() ^ pos.z()) & 0x0F;
        chunk.set_block_light(pos, b);
        chunk.set_sky_light(pos, s);
    }
    for pos in LocalPos::iter() {
        let b = (pos.x() ^ pos.y()) & 0x0F;
        let s = (pos.y() ^ pos.z()) & 0x0F;
        assert_eq!(chunk.block_light(pos), b);
        assert_eq!(chunk.sky_light(pos), s);
    }
}

fn assert_roundtrip(chunk: &Chunk) {
    let bytes = chunk.serialize();
    let back = Chunk::deserialize(&bytes).expect("deserialize");
    for pos in LocalPos::iter() {
        assert_eq!(chunk.get(pos), back.get(pos), "mismatch at {pos:?}");
    }
    // Re-serializing the decoded chunk must yield identical bytes.
    assert_eq!(bytes, back.serialize(), "serialize not deterministic");
}

#[test]
fn roundtrip_uniform_air() {
    assert_roundtrip(&Chunk::new_air());
}

#[test]
fn roundtrip_uniform_stone() {
    assert_roundtrip(&Chunk::filled(BlockId(1)));
}

#[test]
fn uniform_chunk_serializes_compactly() {
    // magic(4) + version(1) + palette_len(2) + 1 BlockId(2) = 9 bytes,
    // and crucially NO per-voxel body.
    let bytes = Chunk::filled(BlockId(7)).serialize();
    assert_eq!(bytes.len(), 9, "uniform chunk should have no index body");
}

#[test]
fn roundtrip_two_blocks() {
    let mut chunk = Chunk::new_air();
    chunk.set(LocalPos::new(1, 2, 3), BlockId(1));
    chunk.set(LocalPos::new(30, 30, 30), BlockId(1));
    assert_roundtrip(&chunk);
    // 2 palette entries => 1 byte per voxel.
    let bytes = chunk.serialize();
    assert_eq!(bytes.len(), 4 + 1 + 2 + 2 * 2 + CHUNK_VOLUME);
}

#[test]
fn roundtrip_many_blocks_two_byte_indices() {
    // >256 palette entries forces 2-byte indices.
    let mut chunk = Chunk::new_air();
    for i in 0..300u16 {
        chunk.set(LocalPos::from_index(i as usize), BlockId(i + 1));
    }
    assert!(chunk.palette_len() > 256);
    assert_roundtrip(&chunk);
    let bytes = chunk.serialize();
    let n = chunk.palette_len();
    assert_eq!(bytes.len(), 4 + 1 + 2 + n * 2 + CHUNK_VOLUME * 2);
}

#[test]
fn roundtrip_random_workload() {
    let mut rng = SplitMix64::new(0xBEEF);
    let mut chunk = Chunk::new_air();
    for _ in 0..40_000 {
        let i = (rng.next() as usize) % CHUNK_VOLUME;
        let b = BlockId((rng.next() % 50) as u16);
        chunk.set(LocalPos::from_index(i), b);
    }
    assert_roundtrip(&chunk);
}

#[test]
fn deserialize_rejects_bad_input() {
    assert!(matches!(
        Chunk::deserialize(&[]),
        Err(ChunkDecodeError::Truncated)
    ));
    assert!(matches!(
        Chunk::deserialize(b"XXXX\x01"),
        Err(ChunkDecodeError::BadMagic)
    ));
    // Good magic, unknown version.
    let mut bad = b"VXTC".to_vec();
    bad.push(99);
    assert!(matches!(
        Chunk::deserialize(&bad),
        Err(ChunkDecodeError::UnsupportedVersion(99))
    ));
    // Good header, palette length 0.
    let mut empty_pal = b"VXTC".to_vec();
    empty_pal.push(CHUNK_FORMAT_VERSION);
    empty_pal.extend_from_slice(&0u16.to_le_bytes());
    assert!(matches!(
        Chunk::deserialize(&empty_pal),
        Err(ChunkDecodeError::EmptyPalette)
    ));
    // Truncated body: claims 2 palette entries but supplies no index data.
    let mut trunc = b"VXTC".to_vec();
    trunc.push(CHUNK_FORMAT_VERSION);
    trunc.extend_from_slice(&2u16.to_le_bytes());
    trunc.extend_from_slice(&0u16.to_le_bytes());
    trunc.extend_from_slice(&1u16.to_le_bytes());
    assert!(matches!(
        Chunk::deserialize(&trunc),
        Err(ChunkDecodeError::Truncated)
    ));
}

/// Compacting before serialize must not change the decoded contents.
#[test]
fn roundtrip_after_compact() {
    let mut chunk = Chunk::new_air();
    for i in 0..100u16 {
        chunk.set(LocalPos::from_index(i as usize), BlockId(i + 1));
    }
    // Overwrite half back to air, then compact.
    for i in 0..50u16 {
        chunk.set(LocalPos::from_index(i as usize), AIR);
    }
    chunk.compact();
    assert_roundtrip(&chunk);
}

#[test]
fn a_full_palette_roundtrips() {
    let p = LocalPos::new(0, 0, 0);
    let mut c = Chunk::new_air();
    for i in 1..=u16::MAX {
        c.set(p, BlockId(i));
    }
    assert_eq!(c.palette_len(), 65_536);
    let bytes = c.serialize();
    let d = Chunk::deserialize(&bytes).expect("deserialize");
    assert_eq!(d.get(p), BlockId(65_535));
    for q in LocalPos::iter() {
        if q != p {
            assert_eq!(d.get(q), AIR);
        }
    }
    // Only what is used is written.
    assert_eq!(d.palette_len(), 2);
    assert_eq!(bytes, d.serialize());
    assert_eq!(c.palette_len(), 65_536);
    c.compact();
    assert_eq!(c.palette_len(), 2);
    assert_eq!(c.get(p), BlockId(65_535));
}

#[test]
fn compact_keeps_one_entry_per_block() {
    let mut c = Chunk::new_air();
    for p in LocalPos::iter() {
        c.set(p, BlockId(p.index() as u16 % 700));
    }
    for p in LocalPos::iter() {
        c.set(p, BlockId(p.index() as u16 % 7 + 3));
    }
    assert_eq!(c.palette_len(), 700);
    c.compact();
    assert_eq!(c.palette_len(), 7);
    let d = Chunk::deserialize(&c.serialize()).unwrap();
    assert_eq!(d.palette_len(), 7);
}
