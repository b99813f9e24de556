//! A voxel world: blocks, chunks, light, meshes, and the streaming of terrain
//! around a camera, with what each part does stated as a contract and proved.
//!
//! - Storage: [`coords`], [`block`], [`packed`], [`chunk`], [`world`],
//!   [`registry`], and the files a world is kept in, [`storage`].
//! - Light: [`light`] states what light is, and floods, removes and
//!   recomputes it.
//! - Meshes: [`mesh`] turns a chunk and its neighbours into quads.
//! - The planet: [`planet`] wraps the world around, [`time`] is its clock.
//! - Streaming: [`streaming`] and [`heightmap`] for full-resolution terrain,
//!   [`lod`], [`edited`], [`overlay`] and [`downsample`] for coarse terrain, and
//!   [`handover`] for what its levels cover between them; [`residency`],
//!   [`coarse`], [`coverage`] and [`horizon`] keep track of what is loaded and
//!   of the work that is owed.
//! - The player: [`raycast`], [`probe`], [`controls`], [`settings`].

pub mod block;
pub mod chunk;
pub mod coarse;
pub mod controls;
pub mod coords;
pub mod coverage;
pub mod downsample;
pub mod edited;
pub mod handover;
pub mod heightmap;
pub mod horizon;
pub mod light;
pub mod lod;
pub mod mesh;
pub mod order;
pub mod overlay;
pub mod packed;
pub mod planet;
pub mod posset;
pub mod probe;
pub mod raycast;
pub mod registry;
pub mod residency;
pub mod settings;
pub mod sorted;
pub mod storage;
pub mod streaming;
pub mod text;
pub mod time;
pub mod world;

mod arith;
mod seqs;

pub use block::BlockId;
pub use chunk::{Chunk, ChunkDecodeError, CHUNK_FORMAT_VERSION};
pub use coords::{ChunkPos, LocalPos, WorldPos, CHUNK_BITS, CHUNK_SIZE, CHUNK_VOLUME};
pub use downsample::downsample_node_from_heights;
pub use edited::EditedColumns;
pub use heightmap::ColumnHeights;
pub use light::chunk_light::{
    apply_chunk_light, chunk_column_heights, chunk_column_occludes, chunk_light_plane,
    chunk_sky_plane, column_index, compute_chunk_light, compute_chunk_light_2ch, open_sky_top,
    packed_border_changed_faces, relight_chunk, relight_chunk_2ch, ColumnMap,
};
pub use light::flood::{propagate_block_light, propagate_sky_light, LightVolume};
pub use light::model::MAX_LIGHT;
pub use light::padded::{NeighborLight, NeighborSky};
pub use light::removal::remove_block_light;
pub use lod::{LodLevel, LodNodeId, LodRing, LodUpdate};
pub use mesh::input::{ChunkNeighbors, MeshInput};
pub use mesh::quads::{mesh_chunk, mesh_chunk_naive, MeshData, Quad};
pub use overlay::EditOverlay;
pub use planet::{find_spawn, WorldShape, WorldShapeError};
pub use raycast::RayHit;
pub use registry::{BlockRegistry, BlockType};
pub use settings::ViewSettings;
pub use storage::{StoreError, WorldMeta, WorldStore, WORLD_META_VERSION};
pub use streaming::{nearest_first, ColumnWindow, StreamUpdate, Streamer};
pub use time::WorldTime;
pub use world::World;
