//! Boundary-tag (dlmalloc-style) heap allocator over a flat implicit free list.
//!
//! Chunk layout, at 16-byte aligned address `c`:
//!
//! ```text
//!   [c + 0] prev_size : u64   (footer of the preceding chunk while it is free)
//!   [c + 8] size|flags : u64  (bit0 IN_USE, bit1 PREV_IN_USE)
//!   [c +16] payload ...
//! ```
//!
//! Every segment is fenced by a permanent prologue and epilogue chunk that are
//! always in use; allocation is first-fit with splitting and freeing coalesces
//! with both neighbours. The address space the allocator manages is a
//! [`Memory`] value: a flat, byte-addressed space starting at address 0, stored
//! as 64-bit words.
pub mod memory;
pub mod layout;
pub mod state;
pub mod check;
pub mod carve;
pub mod coalesce;
pub mod release;
pub mod laws;

pub use memory::Memory;
pub use layout::{
    align_up, align_up_checked, flags_of, prev_size_of, size_of, ChunkV, Segment, CHUNK_ALIGN,
    EPILOGUE_SIZE, HEADER_SIZE, IN_USE, MAX_SEGMENTS, MIN_CHUNK, PREV_IN_USE, PROLOGUE_SIZE,
    SIZE_MASK,
};
pub use state::HeapCore;
