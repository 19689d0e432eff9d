//! Core of a procedurally generated 2D tile world: coordinate conversion,
//! deterministic chunk generation, greedy meshing, region caching with
//! time-based eviction, and binary persistence with graceful fallback.
//!
//! All time-dependent behaviour takes the current time, in milliseconds, as
//! an explicit argument, so callers inject their own clock.

pub mod blocks;
pub mod chunks;
pub mod codec;
pub mod conversion;
pub mod gen;
pub mod mesh;
pub mod world;
pub mod world_manager;

pub use blocks::Block;
pub use chunks::Chunk;
pub use codec::decode_region;
pub use codec::REGION_FILE_LEN;
pub use conversion::get_chunk_world_cords;
pub use conversion::get_local_chunk_cords;
pub use conversion::get_region_chunk_cords;
pub use conversion::get_region_cords;
pub use gen::terrain_block;
pub use gen::FlatWorldGenerator;
pub use gen::Generator;
pub use mesh::ChunkMesh;
pub use mesh::MeshType;
pub use mesh::Rect;
pub use world::Region;
pub use world_manager::WorldManager;
pub use world_manager::EVICTION_THRESHOLD_MS;
