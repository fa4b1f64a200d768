//! A tracing, block-granular garbage collector.
//!
//! Memory is handed out by bump allocation inside fixed-capacity blocks.  A
//! collection cycle keeps or recycles whole blocks: a block survives when at
//! least one marked address lies inside it, and is reset for reuse otherwise.
//!
//! Addresses are plain integers drawn from the collector's own address space,
//! so ownership and bounds of every block are explicit and every operation is
//! verified against a mathematical model of the arena.
//!
//! The collector finds no roots by itself.  A cycle is `begin_collect`, one
//! `trace` or `trace_ptr` for everything still reachable, then `end_collect`.

/// Blocks: bump allocation, reset, and the bytes a block stores.
pub mod block;
/// The collector and its operations.
pub mod gc;
/// Handles into the arena and the tracing capability.
pub mod handle;
/// Properties of the arena that hold of every state.
pub mod laws;
/// Block capacities and request sizes.
pub mod layout;
/// The mathematical model that the collector's contracts are stated over.
pub mod model;
/// Address order of marks and blocks.
pub mod order;
/// The merge that parts candidates into kept and recycled blocks.
pub mod sweep;

pub use block::Block;
pub use gc::{AllocFlags, GarbageCollector, GcError};
pub use handle::{GcRef, GcRefMut, Trace};
pub use layout::BLOCK_SIZE;
