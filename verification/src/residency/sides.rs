//! Chunks and their neighbours.

use crate::coords::ChunkPos;
use vstd::prelude::*;

verus! {

/// The chunk across a face (`0:+X 1:-X 2:+Y 3:-Y 4:+Z 5:-Z`).
pub open spec fn across(p: ChunkPos, face: int) -> ChunkPos {
    if face == 0 {
        ChunkPos { x: (p.x + 1) as i64, ..p }
    } else if face == 1 {
        ChunkPos { x: (p.x - 1) as i64, ..p }
    } else if face == 2 {
        ChunkPos { y: (p.y + 1) as i64, ..p }
    } else if face == 3 {
        ChunkPos { y: (p.y - 1) as i64, ..p }
    } else if face == 4 {
        ChunkPos { z: (p.z + 1) as i64, ..p }
    } else {
        ChunkPos { z: (p.z - 1) as i64, ..p }
    }
}

/// There is a chunk position on every side.
pub open spec fn has_sides(p: ChunkPos) -> bool {
    &&& i64::MIN < p.x < i64::MAX
    &&& i64::MIN < p.y < i64::MAX
    &&& i64::MIN < p.z < i64::MAX
}

/// The chunk across a face.
pub fn neighbor(p: ChunkPos, face: usize) -> (r: ChunkPos)
    requires
        has_sides(p),
        face < 6,
    ensures
        r == across(p, face as int),
{
    match face {
        0 => ChunkPos::new(p.x + 1, p.y, p.z),
        1 => ChunkPos::new(p.x - 1, p.y, p.z),
        2 => ChunkPos::new(p.x, p.y + 1, p.z),
        3 => ChunkPos::new(p.x, p.y - 1, p.z),
        4 => ChunkPos::new(p.x, p.y, p.z + 1),
        _ => ChunkPos::new(p.x, p.y, p.z - 1),
    }
}

/// The face on the other side.
pub open spec fn opposite(face: int) -> int {
    if face % 2 == 0 {
        face + 1
    } else {
        face - 1
    }
}

/// A chunk and the six across its faces.
pub open spec fn with_sides(c: ChunkPos) -> Set<ChunkPos> {
    Set::new(|p: ChunkPos| p == c || exists|f: int| 0 <= f < 6 && p == #[trigger] across(c, f))
}

} // verus!
