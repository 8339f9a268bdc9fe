//! Verified core logic of the Stagcrest voxel client: light propagation and
//! vertex light packing, resource-pack settings, remesh scheduling, greedy
//! face merging and assorted client bookkeeping.

pub mod light;
pub mod settings;
pub mod text;
pub mod chunk_map;
pub mod scheduler;
pub mod greedy;
pub mod installer;
pub mod connect;
pub mod graphics;
pub mod chat;
pub mod worlds;
pub mod hotbar;
pub mod minimap;
pub mod pack_manager;
pub mod loading;
pub mod streaming;
pub mod net;
pub mod mesh_cache;
