//! A recyclable bump allocator: memory is carved from chunks in power-of-two
//! blocks, and a deallocated block is kept in a list of its size class, to be
//! handed out again to the next request of that class.
//!
//! Addresses stand for pointers: the allocator decides where each allocation
//! lies, and the caller reads and writes the memory.
pub mod allocator;
pub mod layout;
pub mod math;
pub mod rebump;

pub use allocator::{Allocator, Backing, BackingCall};
pub use layout::Layout;
pub use math::{align_up, align_up_addr, ilog2_ceil};
pub use rebump::{
    Allocation, BlockHeader, ChunkHeader, ReBump, ALIGN, BLOCK_CLASS_SKIP, BLOCK_HEADER_SIZE, CLASS_COUNT,
    MAX_SIZE,
};
