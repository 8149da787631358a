//! Chunked tile-map storage for Bevy: a layered grid of tiles, the set of chunks whose tiles
//! changed, per-chunk snapshots of the grid, tile-sheet packing and the data handed to the
//! renderer. Every function is verified against the contract written on it.

pub mod chunk;
pub mod hash;
pub mod interaction;
pub mod math;
pub mod render;
pub mod tile_map;

pub use chunk::{
    generate_or_update_chunks, ChunkCoord, ChunkData, ChunkEntities, ChunkRecord, ChunkUpdate,
};
pub use hash::{HandleSet, TileKindMap};
pub use interaction::{queue_interaction_events, ChunkHit, TileMapInteractionEvent};
pub use math::{U64Vec2, U64Vec3, UVec2, UVec3};
pub use render::tile_sheet::{AtlasLayout, PixelFormat, PrepareAssetError, SourceImage, TileSheet};
pub use tile_map::{sync_as_tiles, AsTiles, Color, Tile, TileKind, TileMap, TileTransform};
