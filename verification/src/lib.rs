//! World-data core of a block-grid environment: the chunk index, the block
//! accessors that read and edit blocks and light across chunk boundaries, and
//! the flood fill that repairs light after an edit.
//!
//! * `coords`: block and chunk coordinates, the layout of a chunk, neighbours.
//! * `block`, `light`, `chunk`: the values that the world holds.
//! * `chunk_map`, `storage`, `remesh`: the chunk index, the cells of the
//!   resident chunks, and the set of chunks to remesh.
//! * `world`: the model of the world over which the contracts are stated.
//! * `accessor`, `variants`: the accessor traits and the three kinds of
//!   accessor.
//! * `propagation`, `shaft`: the light flood as a state machine, and what
//!   holds of it.

pub mod accessor;
pub mod block;
pub mod chunk;
pub mod chunk_map;
pub mod coords;
pub mod light;
pub mod propagation;
pub mod remesh;
pub mod shaft;
pub mod storage;
pub mod variants;
pub mod world;

pub use accessor::{BlockAccessor, BlockAccessorInternal};
pub use block::{Block, BlockId};
pub use chunk::Chunk;
pub use chunk_map::{ChunkMap, ChunkMeta, ChunkTask, Entity};
pub use coords::{DD, DDD};
pub use light::LightLevel;
pub use remesh::RemeshSet;
pub use storage::ChunkStorage;
pub use variants::{BlockAccessorReadOnly, BlockAccessorSpawner, BlockAccessorStatic};
