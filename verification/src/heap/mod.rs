//! Dynamic memory allocation over an array of fixed-size-class pools.
//!
//! A heap is a sequence of [`Pool`]s, sorted ascending by block size and by
//! address, over one byte [`Memory`]. A request is dispatched to the pool with
//! the smallest block size that fits it by [`binary_search`]; a pointer is
//! returned to its pool by the same search over the pools' address ranges.
//!
//! - [`layout`]: the size and alignment of a request.
//! - [`memory`]: the bytes that the blocks lie in.
//! - [`pool`]: one pool, and the predicate that the search goes by.
//! - [`allocator`]: the heap and its operations.
//! - [`trace`]: the words that describe an operation on a diagnostic port.
//! - [`model`]: what a pool and a heap are as mathematical values, what the
//!   operations make of them, and the laws of both.

pub mod allocator;
pub mod layout;
pub mod memory;
pub mod model;
pub mod pool;
pub mod trace;

pub use self::allocator::{
    allocate, allocate_zeroed, allocated_size, binary_search, deallocate, grow, grow_zeroed,
    is_pristine, is_sorted, shrink, AllocError, Allocator, Block, Heap,
};
pub use self::layout::{Layout, LayoutError};
pub use self::memory::{Memory, MemoryView, WORD_SIZE};
pub use self::model::heap::HeapView;
pub use self::model::pool::PoolView;
pub use self::pool::{Fits, Pool, Statistics};
pub use self::trace::HEAPTRACE_KEY;
