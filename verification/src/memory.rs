//! Dynamic memory management: the free-list allocator that backs all
//! dynamic allocation, and a simpler bump allocator.

pub mod bump_alloc;
pub mod freelist_alloc;
