//! A small slab allocator: pages are cut into fixed-size slots, slots are
//! handed out from a free list, and size classes route requests to caches.

pub mod allocator;
pub mod cache;
pub mod page;
pub mod slab;
mod sync;
