//! A heap allocator built around an address-ordered free list with
//! first-fit allocation and immediate coalescing, verified with Verus.
//!
//! `blocklist` holds the free list and what is proved of it; `allocators`
//! holds the allocator over it, the page providers it draws memory from,
//! and the lazily made allocator for process-wide use.

pub mod allocators;
pub mod blocklist;
pub mod relation;
