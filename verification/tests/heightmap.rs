//! The sky-light heightmap and residency.

use voxterra::{ChunkPos, ColumnHeights, CHUNK_SIZE};

const S: i64 = CHUNK_SIZE as i64;

fn cp(x: i64, y: i64, z: i64) -> ChunkPos {
    ChunkPos::new(x, y, z)
}

/// Load one chunk and report a height for every column of it, the way
/// chunk arrival does.
fn load_column(h: &mut ColumnHeights, pos: ChunkPos, height: i64) {
    h.chunk_loaded(pos);
    for z in pos.z * S..(pos.z + 1) * S {
        for x in pos.x * S..(pos.x + 1) * S {
            h.raise(x, z, height);
        }
    }
}

#[test]
fn travelling_does_not_grow_the_heightmap() {
    let mut h = ColumnHeights::new();
    // A 3-column-wide strip sliding 200 chunk columns along +X.
    for step in 0..200 {
        for dz in -1..=1 {
            load_column(&mut h, cp(step + 1, 0, dz), 10);
        }
        if step >= 2 {
            for dz in -1..=1 {
                h.chunk_unloaded(cp(step - 2, 0, dz));
            }
        }
    }
    // At most the 3x3 resident window's columns remain.
    assert!(
        h.resident_columns() <= 9,
        "{} columns resident",
        h.resident_columns()
    );
    assert!(
        h.len() <= 9 * (S * S) as usize,
        "heightmap grew to {} entries",
        h.len()
    );
}

/// A column keeps its heights while ANY of its chunks is resident: the
/// surface chunk unloading while the camera window keeps a deep chunk of
/// the same column does not make the column unknown.
#[test]
fn heights_survive_until_the_last_chunk_of_the_column_unloads() {
    let mut h = ColumnHeights::new();
    load_column(&mut h, cp(0, 0, 0), 20);
    h.chunk_loaded(cp(0, -5, 0));
    h.chunk_unloaded(cp(0, 0, 0));
    assert_eq!(h.get(3, 4), Some(20), "dropped with a chunk still resident");
    h.chunk_unloaded(cp(0, -5, 0));
    assert_eq!(h.get(3, 4), None, "kept after the last chunk unloaded");
    assert!(h.is_empty());
}

/// Dropping must restore UNKNOWN, not some stale value: a reloaded column
/// is rebuilt from what actually arrives, and until then reads unknown
/// (covered) — never the old height.
#[test]
fn a_reloaded_column_starts_unknown_and_is_rebuilt() {
    let mut h = ColumnHeights::new();
    load_column(&mut h, cp(2, 0, 2), 40);
    h.chunk_unloaded(cp(2, 0, 2));
    h.chunk_loaded(cp(2, 0, 2));
    assert_eq!(h.get(2 * S, 2 * S), None, "a stale height survived");
    h.raise(2 * S, 2 * S, 7);
    assert_eq!(h.get(2 * S, 2 * S), Some(7));
}

/// Writes to a column with no resident chunk are ignored, so no caller
/// can leak an entry that nothing will ever prune.
#[test]
fn writes_to_non_resident_columns_are_ignored() {
    let mut h = ColumnHeights::new();
    assert!(!h.raise(5, 5, 10));
    h.set(5, 5, 10);
    assert!(h.is_empty());
}

#[test]
fn raise_only_raises_and_reports_change() {
    let mut h = ColumnHeights::new();
    h.chunk_loaded(cp(0, 0, 0));
    assert!(h.raise(1, 1, 10));
    assert!(!h.raise(1, 1, 5), "a lower height must not change it");
    assert!(!h.raise(1, 1, 10), "an equal height is no change");
    assert!(h.raise(1, 1, 12));
    assert_eq!(h.get(1, 1), Some(12));
}

/// The edit path rescans and replaces — including lowering when mined,
/// and recording a fully mined column as known-empty, not unknown.
#[test]
fn set_replaces_including_lowering_and_known_empty() {
    let mut h = ColumnHeights::new();
    load_column(&mut h, cp(0, 0, 0), 30);
    h.set(4, 4, 12);
    assert_eq!(h.get(4, 4), Some(12));
    h.set(4, 4, i64::MIN);
    assert_eq!(
        h.get(4, 4),
        Some(i64::MIN),
        "known-empty collapsed to unknown"
    );
}

/// Negative coordinates belong to the chunk column that floor division
/// gives, and pruning removes exactly that column's footprint.
#[test]
fn negative_columns_prune_their_own_footprint() {
    let mut h = ColumnHeights::new();
    load_column(&mut h, cp(-1, 0, -1), 3);
    load_column(&mut h, cp(0, 0, 0), 4);
    assert_eq!(h.get(-1, -1), Some(3));
    h.chunk_unloaded(cp(-1, 0, -1));
    assert_eq!(h.get(-1, -1), None);
    assert_eq!(h.get(-S, -S), None);
    assert_eq!(h.get(0, 0), Some(4), "pruned the neighbouring column");
    assert_eq!(h.len(), (S * S) as usize);
}

#[test]
fn an_unmatched_unload_is_ignored() {
    let mut h = ColumnHeights::new();
    h.chunk_unloaded(cp(9, 0, 9));
    load_column(&mut h, cp(9, 0, 9), 1);
    h.chunk_unloaded(cp(9, 0, 9));
    h.chunk_unloaded(cp(9, 0, 9));
    assert_eq!(h.resident_columns(), 0);
    assert!(h.is_empty());
}
