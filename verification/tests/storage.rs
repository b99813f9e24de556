//! Saved worlds: metadata, file names and chunk files.

use std::collections::HashMap;
use voxterra::storage::{read_meta, write_meta};
use voxterra::{
    BlockId, Chunk, ChunkDecodeError, ChunkPos, LocalPos, StoreError, WorldMeta, WorldShape,
    WorldStore, CHUNK_SIZE, WORLD_META_VERSION,
};

const AIR: BlockId = BlockId(0);

fn new_world(seed: u64) -> WorldMeta {
    WorldMeta {
        seed,
        shape: WorldShape::default_shape(),
        generator_version: 7,
    }
}

/// A directory held in memory: file name to contents.
struct Disk {
    meta: Option<Vec<u8>>,
    chunks: HashMap<String, Vec<u8>>,
}

impl Disk {
    fn new() -> Self {
        Disk {
            meta: None,
            chunks: HashMap::new(),
        }
    }

    fn open(&mut self, world: WorldMeta) -> Result<WorldStore, StoreError> {
        let (store, write) = WorldStore::open("world".to_string(), world, self.meta.as_deref())?;
        if write.is_some() {
            self.meta = write;
        }
        Ok(store)
    }

    fn save(&mut self, store: &WorldStore, pos: ChunkPos, chunk: &Chunk) {
        let (name, bytes) = store.save_chunk(pos, chunk);
        self.chunks.insert(name, bytes);
    }

    fn has(&self, store: &WorldStore, pos: ChunkPos) -> bool {
        self.chunks.contains_key(&store.chunk_path(pos))
    }

    fn load(&self, store: &WorldStore, pos: ChunkPos) -> Result<Option<Chunk>, StoreError> {
        store.load_chunk(self.chunks.get(&store.chunk_path(pos)).map(|b| b.as_slice()))
    }
}

#[test]
fn open_creates_world_and_persists_seed() {
    let mut disk = Disk::new();
    let store = disk.open(new_world(0xABCD)).unwrap();
    assert_eq!(store.seed(), 0xABCD);
    assert!(disk.meta.is_some());

    // Reopening reads the stored seed, ignoring the passed one.
    let store2 = disk.open(new_world(0x9999)).unwrap();
    assert_eq!(store2.seed(), 0xABCD, "stored seed must be authoritative");
}

/// Size and generator version survive a round trip, and an existing
/// world's size wins over whatever a new world would have been given.
#[test]
fn world_size_and_generator_are_recorded_and_authoritative() {
    let mut disk = Disk::new();
    let small = WorldShape::new(32_768, 65_536).unwrap();
    let made = WorldMeta {
        seed: 3,
        shape: small,
        generator_version: 7,
    };
    disk.open(made).unwrap();
    let reopened = disk.open(new_world(99)).unwrap();
    assert_eq!(reopened.meta(), made);
    assert_eq!(reopened.shape(), small);
}

/// A world made by a different terrain generator is refused, not opened
/// with its edited chunks stranded in new terrain.
#[test]
fn a_world_from_another_generator_is_refused() {
    let mut disk = Disk::new();
    disk.open(new_world(1)).unwrap();
    let mut newer = new_world(1);
    newer.generator_version = 8;
    assert!(matches!(
        disk.open(newer),
        Err(StoreError::GeneratorMismatch {
            saved: 7,
            current: 8
        })
    ));
}

/// Worlds saved at first carry version-1 metadata: no size, no generator.
#[test]
fn a_pre_m10_world_is_refused_with_a_clear_reason() {
    let mut disk = Disk::new();
    let mut v1 = b"VXTW".to_vec();
    v1.push(1);
    v1.extend_from_slice(&42u64.to_le_bytes());
    disk.meta = Some(v1);
    let err = disk.open(new_world(1)).err().unwrap();
    assert!(matches!(err, StoreError::LegacyWorld));
    assert!(err.message().contains("move or delete"));
}

/// A chunk edited on one lap of the world must be found on every other: the
/// player's coordinates never wrap, so the same place is asked for at a
/// different unwrapped position each lap.
#[test]
fn a_chunk_saved_on_one_lap_is_found_on_every_other() {
    let mut disk = Disk::new();
    let store = disk.open(new_world(1)).unwrap();
    let lap = WorldShape::default_shape().size_x() / CHUNK_SIZE as i64;
    let mut chunk = Chunk::new_air();
    chunk.set(LocalPos::new(4, 5, 6), BlockId(3));
    // Saved just west of the seam, through a negative unwrapped position.
    disk.save(&store, ChunkPos::new(-1, 2, -3), &chunk);
    for pos in [
        ChunkPos::new(-1, 2, -3),
        ChunkPos::new(lap - 1, 2, lap - 3),
        ChunkPos::new(-1 + 5 * lap, 2, -3 - 2 * lap),
    ] {
        assert!(disk.has(&store, pos), "not found at {pos:?}");
        let loaded = disk.load(&store, pos).unwrap().expect("exists");
        assert_eq!(loaded.get(LocalPos::new(4, 5, 6)), BlockId(3));
    }
    // Y does not wrap: the same X/Z one layer up is a different chunk.
    assert!(!disk.has(&store, ChunkPos::new(-1, 3, -3)));
    // One place, one file.
    assert_eq!(disk.chunks.len(), 1);
}

#[test]
fn save_then_load_roundtrips() {
    let mut disk = Disk::new();
    let store = disk.open(new_world(1)).unwrap();
    let pos = ChunkPos::new(-3, 5, 7);

    let mut chunk = Chunk::new_air();
    chunk.set(LocalPos::new(1, 2, 3), BlockId(1));
    chunk.set(LocalPos::new(30, 0, 30), BlockId(2));

    assert!(!disk.has(&store, pos));
    disk.save(&store, pos, &chunk);
    assert!(disk.has(&store, pos));

    let loaded = disk.load(&store, pos).unwrap().expect("should exist");
    for p in LocalPos::iter() {
        assert_eq!(loaded.get(p), chunk.get(p));
    }
    // Loaded chunk is marked modified so it keeps persisting.
    assert!(loaded.is_modified());
}

#[test]
fn load_missing_returns_none() {
    let mut disk = Disk::new();
    let store = disk.open(new_world(1)).unwrap();
    assert!(disk.load(&store, ChunkPos::new(0, 0, 0)).unwrap().is_none());
}

#[test]
fn save_overwrites() {
    let mut disk = Disk::new();
    let store = disk.open(new_world(1)).unwrap();
    let pos = ChunkPos::new(0, 0, 0);

    let mut a = Chunk::new_air();
    a.set(LocalPos::new(0, 0, 0), BlockId(1));
    disk.save(&store, pos, &a);

    let mut b = Chunk::new_air();
    b.set(LocalPos::new(5, 5, 5), BlockId(9));
    disk.save(&store, pos, &b);

    let loaded = disk.load(&store, pos).unwrap().unwrap();
    assert_eq!(loaded.get(LocalPos::new(5, 5, 5)), BlockId(9));
    assert_eq!(loaded.get(LocalPos::new(0, 0, 0)), AIR);
}

#[test]
fn negative_coordinate_chunks_save_and_load() {
    let mut disk = Disk::new();
    let store = disk.open(new_world(1)).unwrap();
    let pos = ChunkPos::new(-1_000_000, -42, 1_000_000);
    let mut chunk = Chunk::new_air();
    chunk.set(LocalPos::new(7, 7, 7), BlockId(3));
    disk.save(&store, pos, &chunk);
    let loaded = disk.load(&store, pos).unwrap().unwrap();
    assert_eq!(loaded.get(LocalPos::new(7, 7, 7)), BlockId(3));
}

#[test]
fn rejects_foreign_metadata() {
    let mut disk = Disk::new();
    disk.meta = Some(b"NOPExxxxxxxxx".to_vec());
    assert!(matches!(
        disk.open(new_world(1)),
        Err(StoreError::BadMetaMagic)
    ));
}

#[test]
fn metadata_layout_is_fixed() {
    let bytes = write_meta(&new_world(0x0102));
    assert_eq!(bytes.len(), 33);
    assert_eq!(&bytes[..5], b"VXTW\x02");
    assert_eq!(bytes[5..13], 0x0102u64.to_le_bytes());
    assert_eq!(bytes[13..21], 204_800u64.to_le_bytes());
    assert_eq!(bytes[21..29], 204_800u64.to_le_bytes());
    assert_eq!(bytes[29..33], 7u32.to_le_bytes());
    assert_eq!(read_meta(&bytes).ok(), Some(new_world(0x0102)));
}

#[test]
fn damaged_metadata_is_refused() {
    let good = write_meta(&new_world(5));
    assert!(matches!(read_meta(&[]), Err(StoreError::BadMeta)));
    assert!(matches!(read_meta(&good[..20]), Err(StoreError::BadMeta)));
    let mut version = good.clone();
    version[4] = 9;
    let err = read_meta(&version).err().unwrap();
    assert!(matches!(err, StoreError::UnsupportedMetaVersion(9)));
    assert_eq!(err.message(), "unsupported world metadata version 9");
    let mut size = good.clone();
    size[13] = 1;
    assert!(read_meta(&size).is_err());
    assert_eq!(good[4], WORLD_META_VERSION);
}

#[test]
fn a_damaged_chunk_file_is_reported() {
    let mut disk = Disk::new();
    let store = disk.open(new_world(1)).unwrap();
    assert!(matches!(
        store.load_chunk(Some(b"VXTC".as_slice())),
        Err(StoreError::Chunk(ChunkDecodeError::Truncated))
    ));
}

#[test]
fn chunk_files_are_named_by_canonical_position() {
    let mut disk = Disk::new();
    let store = disk.open(new_world(1)).unwrap();
    assert_eq!(store.chunk_path(ChunkPos::new(1, -2, 3)), "c.1.-2.3.vxc");
    assert_eq!(store.chunk_path(ChunkPos::new(-1, 0, 0)), "c.6399.0.0.vxc");
    assert_eq!(store.root(), "world");
}
