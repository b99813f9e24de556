//! Coarse nodes reduced from real heights.

use voxterra::{downsample_node_from_heights, Chunk, LocalPos, WorldPos, CHUNK_SIZE};

/// Topmost solid cell in a coarse column, as a world Y.
fn coarse_top(chunk: &Chunk, cx: u8, cz: u8, origin_y: i64, v: i64) -> Option<i64> {
    (0..CHUNK_SIZE as u8)
        .rev()
        .find(|&cy| !chunk.get(LocalPos::new(cx, cy, cz)).is_air())
        .map(|cy| origin_y + cy as i64 * v + v - 1)
}

/// An unknown column anywhere in the footprint aborts, so the caller can
/// fall back to seed generation rather than punch a hole in the world.
#[test]
fn missing_height_returns_none() {
    let node = downsample_node_from_heights(WorldPos::new(0, -128, 0), 4, 8, |x, _z| {
        if x == 40 { None } else { Some(10) }
    });
    assert!(node.is_none());
}

/// THE criterion-4 contract: the coarse surface matches the real surface,
/// never above it, never more than one cell below.
#[test]
fn surface_matches_the_real_world() {
    let (v, origin_y) = (8i64, -128i64);
    // A tilted plane, so every coarse column sees a different height.
    let real = |x: i64, z: i64| 20 + (x / 7) - (z / 11);
    let node = downsample_node_from_heights(WorldPos::new(0, origin_y, 0), 4, v, |x, z| {
        Some(real(x, z))
    })
    .unwrap();
    for cz in 0..CHUNK_SIZE as u8 {
        for cx in 0..CHUNK_SIZE as u8 {
            let top = coarse_top(&node, cx, cz, origin_y, v).expect("solid column");
            // Against every REAL column under this cell.
            for dz in 0..4 {
                for dx in 0..4 {
                    let h = real(cx as i64 * 4 + dx, cz as i64 * 4 + dz);
                    assert!(top <= h, "coarse {top} above real {h}");
                    assert!(h - top < v + 4, "coarse {top} far below real {h}");
                }
            }
        }
    }
}

/// Edits are reflected — the whole reason the near ring reduces real data
/// instead of re-deriving terrain from the seed.
#[test]
fn reflects_edits() {
    let (v, origin_y) = (8i64, -128i64);
    let flat = 40i64;
    // A dug pit in one coarse cell's footprint.
    let with_pit = |x: i64, z: i64| {
        if (0..4).contains(&x) && (0..4).contains(&z) {
            8
        } else {
            flat
        }
    };
    let node = downsample_node_from_heights(WorldPos::new(0, origin_y, 0), 4, v, |x, z| {
        Some(with_pit(x, z))
    })
    .unwrap();
    let pit = coarse_top(&node, 0, 0, origin_y, v).unwrap();
    let plain = coarse_top(&node, 5, 5, origin_y, v).unwrap();
    assert!(
        pit < plain,
        "edit not reflected: pit {pit} vs plain {plain}"
    );
}

/// Air cells carry full skylight, so a downsampled node lights itself the
/// same way a seed-generated one does (no separate lighting path).
#[test]
fn air_cells_get_full_skylight() {
    let node =
        downsample_node_from_heights(WorldPos::new(0, 0, 0), 2, 4, |_, _| Some(-1000)).unwrap();
    for p in LocalPos::iter() {
        assert!(node.get(p).is_air());
        assert_eq!(node.sky_light(p), 15);
    }
}

/// Terrain far above the node fills it solid, and the node is canonical
/// state rather than a user edit.
#[test]
fn fully_buried_node_is_solid_and_unmodified() {
    let node = downsample_node_from_heights(WorldPos::new(0, 0, 0), 2, 4, |_, _| Some(100_000))
        .unwrap();
    assert!(LocalPos::iter().into_iter().all(|p| !node.get(p).is_air()));
    assert!(!node.is_modified());
}

#[test]
fn a_node_may_reach_the_end_of_the_coordinates() {
    let origin = WorldPos::new(i64::MAX - 31, i64::MAX - 32, i64::MAX - 31);
    let air = downsample_node_from_heights(origin, 1, 1, |_, _| Some(0)).unwrap();
    assert!(air.is_all_air());
    let buried = downsample_node_from_heights(origin, 1, 1, |x, z| {
        assert!(x >= i64::MAX - 31 && z >= i64::MAX - 31);
        Some(i64::MAX)
    })
    .unwrap();
    assert!(LocalPos::iter().into_iter().all(|p| !buried.get(p).is_air()));
}
