//! Spatial query and pathfinding library for a tile-based, multi-layered
//! game world: a block-addressed static base (land and static tiles), a
//! mutable overlay of dynamic objects, a 3D walkability oracle, and a
//! weighted A* pathfinder built on top of it.

pub mod api;
pub mod colordata;
pub mod geometry;
pub mod mapdata;
pub mod mulreader;
pub mod multidata;
pub mod staticdata;
pub mod surveyor;
pub mod tiledata;
pub mod tiles;
pub mod uop;
pub mod world;
pub mod world_model;
