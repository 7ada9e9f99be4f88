//! A sparse virtual-texture cache.
//!
//! A logical texture far larger than GPU memory is cut into square tiles
//! on several levels of detail. Only the tiles that a view needs are
//! rasterized, kept in the slots of one cache texture, and found again
//! through a directory that a shader can read as well.
//!
//! * [`tile`]: the 32-bit tile key and its hash.
//! * [`hash_table`]: the directory, a cuckoo hash table that grows.
//! * [`texture`]: the slot table, the order of use and the life of a tile.
//! * [`manager2d`]: the levels of detail and the tiles of a flat view.
//! * [`renderer_advanced`]: the tiles that a feedback pass saw, and the
//!   directory as the texels of a metadata texture.
//! * [`renderer_simple`]: the quads that draw the cached tiles one by one.
//! * [`stack`]: the blocking stack that hands requests to the workers.
//! * [`svg`]: what a worker computes around the rasterizer, and the
//!   delivery of its tiles.
//! * [`geometry`]: integer points and rectangles.
//!
//! The functions here are verified against their contracts and do not
//! panic. The calls into `rand`, `arrayvec` and `std::sync` are stated
//! without proof where they are declared. The GPU device, the rasterizer,
//! floating point and the threads themselves are the caller's part.

pub mod geometry;
pub mod tile;
pub mod hash_table;
pub mod texture;
pub mod manager2d;
pub mod renderer_advanced;
pub mod renderer_simple;
pub mod stack;
pub mod svg;
