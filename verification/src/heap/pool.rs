//! A pool of equally sized blocks, and the predicate that tells which pool a
//! request or a pointer belongs to.
//!
//! A [`Pool`] hands out the blocks of one address range. A block that was never
//! handed out lies beyond the cursor `uninit`; one that was handed out and came
//! back stands in the free list, which is threaded through the freed blocks
//! themselves: the first word of each holds the address of the next. The
//! methods that change a pool take it by unique reference, so that no two of
//! them interleave.

use super::layout::Layout;
use super::memory::{Memory, WORD_SIZE};
use super::model::pool::PoolView;
use vstd::prelude::*;

verus! {

/// Allocation statistics of one pool.
#[derive(Copy, Clone, Debug, PartialEq, Eq, Structural)]
pub struct Statistics {
    /// Size of a block in bytes.
    pub block_size: usize,
    /// Number of blocks in the pool.
    pub capacity: usize,
    /// Number of blocks that are not handed out.
    pub remain: usize,
}

impl Default for Statistics {
    fn default() -> (statistics: Statistics)
        ensures
            statistics == (Statistics { block_size: 0, capacity: 0, remain: 0 }),
    {
        Statistics { block_size: 0, capacity: 0, remain: 0 }
    }
}

/// A pool of memory blocks of one size.
///
/// The blocks lie one after the other in one address range. The blocks that
/// came back are connected in a list through their own first words.
pub struct Pool {
    /// Number of blocks.
    capacity: usize,
    /// Number of blocks that are not handed out.
    remain: usize,
    /// Size of a block.
    block_size: usize,
    /// Address of the byte past the last block.
    edge: usize,
    /// Head of the list of the blocks that came back; zero for an empty list.
    free: usize,
    /// Cursor that moves from the first block's address up to `edge`.
    uninit: usize,
    /// The list that starts at `free`.
    free_list: Ghost<Seq<usize>>,
    /// The blocks that are handed out.
    allocated: Ghost<Set<usize>>,
}

impl View for Pool {
    type V = PoolView;

    closed spec fn view(&self) -> PoolView {
        PoolView {
            block_size: self.block_size,
            capacity: self.capacity,
            edge: self.edge,
            uninit: self.uninit,
            head: self.free,
            free: self.free_list@,
            allocated: self.allocated@,
            remain: self.remain,
        }
    }
}

impl Pool {
    /// A pool is consistent at any moment, whatever was done with it.
    #[verifier::type_invariant]
    spec fn inv(self) -> bool {
        self@.consistent()
    }

    /// Creates a pool of `capacity` blocks of `block_size` bytes, the first of
    /// them at `address`.
    pub fn new(address: usize, block_size: usize, capacity: usize) -> (pool: Pool)
        requires
            address + block_size * capacity <= usize::MAX,
        ensures
            pool@ == PoolView::fresh(address, block_size, capacity),
    {
        proof {
            PoolView::lemma_fresh_consistent(address, block_size, capacity);
        }
        Pool {
            capacity,
            remain: capacity,
            block_size,
            edge: address + block_size * capacity,
            free: 0,
            uninit: address,
            free_list: Ghost(Seq::empty()),
            allocated: Ghost(Set::empty()),
        }
    }

    /// The pool is well formed and its free list is laid down in `memory`.
    pub open spec fn wf(&self, memory: &Memory) -> bool {
        self@.wf() && self@.linked(memory@)
    }

    /// Returns the number of blocks.
    pub fn capacity(&self) -> (capacity: usize)
        ensures
            capacity == self@.capacity,
    {
        self.capacity
    }

    /// Returns the size of a block.
    pub fn block_size(&self) -> (block_size: usize)
        ensures
            block_size == self@.block_size,
    {
        self.block_size
    }

    /// Returns the address of the first block.
    pub fn base(&self) -> (base: usize)
        ensures
            base == self@.base(),
            self@.consistent(),
    {
        proof {
            use_type_invariant(self);
            assert(0 <= self.block_size * self.capacity) by (nonlinear_arith);
        }
        self.edge - self.block_size * self.capacity
    }

    /// Returns the address of the byte past the last block.
    pub fn edge(&self) -> (edge: usize)
        ensures
            edge == self@.edge,
    {
        self.edge
    }

    /// Tells whether the pool is as it was created: no block of it was ever
    /// handed out.
    pub fn is_fresh(&self) -> (fresh: bool)
        ensures
            fresh == (self@ == PoolView::fresh(
                self@.base() as usize,
                self@.block_size,
                self@.capacity,
            )),
            self@.consistent(),
    {
        let base = self.base();
        proof {
            if self.free == 0 && self.remain == self.capacity && self.uninit == base {
                self@.lemma_untouched();
            }
        }
        self.free == 0 && self.remain == self.capacity && self.uninit == base
    }

    /// Tells whether a block starts at `ptr` that this pool handed out and that
    /// did not come back since. The free list is walked to its end.
    pub fn is_allocated(&self, memory: &Memory, ptr: usize) -> (allocated: bool)
        requires
            self.wf(memory),
        ensures
            allocated == self@.is_allocated(ptr),
    {
        let base = self.base();
        if self.block_size == 0 || ptr < base || ptr >= self.uninit || (ptr - base)
            % self.block_size != 0 {
            return false;
        }
        let mut curr = self.free;
        let ghost mut passed: int = 0;
        while curr != 0
            invariant
                self.wf(memory),
                0 <= passed <= self@.free.len(),
                curr == (if passed < self@.free.len() {
                    self@.free[passed]
                } else {
                    0
                }),
                forall|k: int| 0 <= k < passed ==> self@.free[k] != ptr,
            decreases self@.free.len() - passed,
        {
            if curr == ptr {
                return false;
            }
            let next = memory.read_word(curr);
            curr = next as usize;
            proof {
                passed = passed + 1;
            }
        }
        proof {
            if passed < self@.free.len() {
                self@.lemma_block_end(self@.free[passed] as int);
            }
            assert(self@.is_block(ptr as int));
        }
        true
    }

    /// Returns the pool's allocation statistics.
    pub fn statistics(&self) -> (statistics: Statistics)
        ensures
            statistics == (Statistics {
                block_size: self@.block_size,
                capacity: self@.capacity,
                remain: self@.remain,
            }),
    {
        Statistics { block_size: self.block_size, capacity: self.capacity, remain: self.remain }
    }

    /// Allocates one block.
    ///
    /// Returns the address of the block, which is not null, or `None` when
    /// the pool is exhausted. The block that was freed last is taken first;
    /// where no freed block is left, the next one that was never handed out.
    pub fn allocate(&mut self, memory: &Memory) -> (block: Option<usize>)
        requires
            old(self).wf(memory),
        ensures
            final(self).wf(memory),
            final(self)@ == old(self)@.allocate().0,
            block == old(self)@.allocate().1,
    {
        proof {
            self@.lemma_allocate();
        }
        match self.alloc_free(memory) {
            Some(addr) => Some(addr),
            None => self.alloc_uninit(),
        }
    }

    /// Deallocates the block at `ptr`: it becomes the head of the free list,
    /// and its first word takes the address of the head before it.
    ///
    /// `ptr` is the address of a block that this pool handed out and that did
    /// not come back since; the block is large enough for a link.
    pub fn deallocate(&mut self, memory: &mut Memory, ptr: usize)
        requires
            old(self).wf(old(memory)),
            old(self)@.is_allocated(ptr),
            old(self)@.block_size >= WORD_SIZE,
            old(memory)@.contains(ptr as int, WORD_SIZE as int),
        ensures
            final(self)@ == old(self)@.deallocate(ptr),
            final(memory)@ == old(memory)@.store_word(ptr as int, old(self)@.head as u64),
            final(self).wf(final(memory)),
    {
        proof {
            self@.lemma_deallocate(memory@, ptr);
        }
        let curr = self.free;
        memory.write_word(ptr, curr as u64);
        *self = Pool {
            capacity: self.capacity,
            remain: self.remain + 1,
            block_size: self.block_size,
            edge: self.edge,
            free: ptr,
            uninit: self.uninit,
            free_list: Ghost(seq![ptr] + self.free_list@),
            allocated: Ghost(self.allocated@.remove(ptr)),
        };
    }

    /// Takes the head of the free list, if there is one.
    fn alloc_free(&mut self, memory: &Memory) -> (block: Option<usize>)
        requires
            old(self).wf(memory),
        ensures
            old(self)@.free.len() == 0 ==> block is None && final(self)@ == old(self)@,
            old(self)@.free.len() > 0 ==> block == old(self)@.allocate().1 && final(self)@ == old(
                self,
            )@.allocate().0,
    {
        let curr = self.free;
        if curr == 0 {
            proof {
                if self@.free.len() > 0 {
                    self@.lemma_block_end(self@.free[0] as int);
                }
            }
            return None;
        }
        proof {
            self@.lemma_allocate();
            assert(self@.free.len() > 0);
            assert(memory@.word(self@.free[0] as int) == self@.link(0));
        }
        let next = memory.read_word(curr);
        *self = Pool {
            capacity: self.capacity,
            remain: self.remain - 1,
            block_size: self.block_size,
            edge: self.edge,
            free: next as usize,
            uninit: self.uninit,
            free_list: Ghost(self.free_list@.drop_first()),
            allocated: Ghost(self.allocated@.insert(curr)),
        };
        Some(curr)
    }

    /// Moves the cursor past the next block that was never handed out, if
    /// there is one.
    fn alloc_uninit(&mut self) -> (block: Option<usize>)
        requires
            old(self)@.wf(),
            old(self)@.free.len() == 0,
        ensures
            block == old(self)@.allocate().1,
            final(self)@ == old(self)@.allocate().0,
    {
        let curr = self.uninit;
        if curr == self.edge {
            return None;
        }
        proof {
            self@.lemma_cursor_step();
            self@.lemma_allocate();
        }
        *self = Pool {
            capacity: self.capacity,
            remain: self.remain - 1,
            block_size: self.block_size,
            edge: self.edge,
            free: self.free,
            uninit: curr + self.block_size,
            free_list: self.free_list,
            allocated: Ghost(self.allocated@.insert(curr)),
        };
        Some(curr)
    }
}

/// What decides whether a pool is a candidate for a value: a requested layout
/// by the pool's block size, an address by the pool's edge.
///
/// Over pools sorted ascending by block size and by address, a value that
/// fits one pool fits every pool after it. The search for the first
/// candidate rests on that.
pub trait Fits: Copy {
    /// Whether the pool is a candidate for the value.
    spec fn fits_spec(self, pool: PoolView) -> bool;

    /// A value that fits a pool fits every pool whose blocks are no smaller
    /// and whose edge is no lower.
    proof fn lemma_fits_monotonic(self, pool: PoolView, next: PoolView)
        requires
            pool.block_size <= next.block_size,
            pool.edge <= next.edge,
        ensures
            self.fits_spec(pool) ==> self.fits_spec(next),
    ;

    /// Tells whether the pool is a candidate for the value.
    fn fits(self, pool: &Pool) -> (fits: bool)
        ensures
            fits == self.fits_spec(pool@),
    ;
}

/// A layout fits the pools whose blocks are at least as large as it asks for.
impl<'a> Fits for &'a Layout {
    open spec fn fits_spec(self, pool: PoolView) -> bool {
        self.size() <= pool.block_size
    }

    proof fn lemma_fits_monotonic(self, pool: PoolView, next: PoolView) {
    }

    fn fits(self, pool: &Pool) -> (fits: bool) {
        self.size() <= pool.block_size
    }
}

/// An address fits the pools whose edge lies above it.
impl Fits for usize {
    open spec fn fits_spec(self, pool: PoolView) -> bool {
        self < pool.edge
    }

    proof fn lemma_fits_monotonic(self, pool: PoolView, next: PoolView) {
    }

    fn fits(self, pool: &Pool) -> (fits: bool) {
        self < pool.edge
    }
}

} // verus!
