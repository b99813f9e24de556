//! Chunk to quad mesh conversion.
//!
//! Two meshers live here: [`quads::mesh_chunk_naive`], one quad per visible
//! block face, simple and obviously correct, and [`quads::mesh_chunk`], greedy
//! meshing, which merges coplanar equal faces into rectangles. Both cover the
//! same visible surface, each face of it once. [`surface`] tells what is drawn in
//! the chunk's own coordinates, and [`lists`] makes vertices and triangles of it.

pub mod input;
pub mod lists;
pub mod quads;
pub mod surface;
