//! Authoritative state of a tile-based multiplayer game world: a fixed grid of
//! cells partitioned into square chunks, each cell holding one block kind, plus
//! bookkeeping of which connected clients currently have which chunks loaded.

pub mod block;
pub mod chunk;
pub mod world;
