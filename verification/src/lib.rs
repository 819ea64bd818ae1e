//! The verified heap of Drone, an embedded operating system.
//!
//! The heap is an array of memory pools, each of which hands out blocks of one
//! size from one address range. An allocation goes to the pool with the
//! smallest blocks that are large enough, found by binary search; a
//! deallocation goes back to the pool whose range holds the address, found by
//! the same search.
//!
//! Every function of this crate is verified with Verus. What the heap is at
//! one moment is a mathematical value, its [`heap::HeapView`]; each operation
//! is first defined as a function on such values, the executable code is
//! proved to compute that function, and the laws of the heap are proved of the
//! definitions. The heap is used by one owner at a time: every operation that
//! changes it takes it by unique reference.
//!
//! A heap is made of pools and a memory, and is ready for use once
//! [`heap::is_pristine`] has returned `true` for it.

pub mod heap;
