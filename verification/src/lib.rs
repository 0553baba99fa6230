//! A first-fit free-list allocator over one fixed arena.
//!
//! The allocator serves requests for sizes and alignments with addresses of an
//! arena `[start, start + size)` that it is given once. The free regions of the
//! arena form a singly linked list, and the list lives in the arena: the first
//! sixteen bytes of every free region hold its size and the address of the free
//! region that follows it. Nothing is recorded of a region that has been handed
//! out; it comes back with the size and alignment that it was asked with.
//!
//! The policies of the allocator:
//! - The first region of the list that fits a request serves it, at its first
//!   suitably aligned address. What lies before that address is given up; what
//!   lies behind the allocation goes back to the list if it can host a header.
//! - A region that is handed back becomes the first entry of the list. Then
//!   all free regions that adjoin are merged, whatever their order in the list.
//! - An arena that cannot host a header is accepted; no request is served from
//!   it.
//! - `init` is to be called once; `is_initialized` tells whether it was.
//!
//! The modules:
//! - [`align`]: rounding up to a power of two.
//! - [`block`]: the descriptor of a free region.
//! - [`arena`]: the bytes of the arena, and headers as bytes.
//! - [`free_list`]: the model of the free list, and of serving a request.
//! - [`coalesce`]: the model of merging.
//! - [`allocator`]: the allocator itself.
//! - [`laws`]: what holds over whole histories of requests.

pub mod align;
pub mod allocator;
pub mod arena;
pub mod block;
pub mod coalesce;
pub mod free_list;
pub mod laws;

pub use crate::allocator::FreeListAllocator;
pub use crate::arena::Arena;
pub use crate::block::{Block, BLOCK_ALIGN, BLOCK_SIZE};
