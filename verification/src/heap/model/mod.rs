//! The mathematical model of the heap: what a pool and a heap are at one
//! moment, what each operation makes of them, and the laws that follow.

pub mod heap;
pub mod pool;
