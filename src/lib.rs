//! Level-of-detail streaming for a voxel world: per-owner demand
//! aggregation, the load/unload plan for one chunk, the distance-ordered
//! scan of an observer's surroundings and the bounded update cycle.

pub mod lod;
pub mod lod_map;
pub mod in_progress_terrain;
pub mod streamer;
pub mod terrain_game_loader;
pub mod update_cycle;
pub mod surroundings;
