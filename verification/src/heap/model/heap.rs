//! What a heap is and does, as mathematics.
//!
//! A [`HeapView`] is the value of a heap at one moment: its pools and its
//! memory. The operations of a heap are defined here as functions from one such
//! value to the next, and the laws of a heap are proved of these functions.

use super::pool::PoolView;
use crate::heap::allocator::{AllocError, Block};
use crate::heap::layout::Layout;
use crate::heap::memory::{MemoryView, WORD_SIZE};
use crate::heap::pool::Fits;
use vstd::arithmetic::div_mod::lemma_mod_self_0;
use vstd::bytes::{lemma_auto_spec_u64_to_from_le_bytes, spec_u64_to_le_bytes};
use vstd::prelude::*;

verus! {

/// Index of the first pool at or after `from` that `value` fits; the number of
/// pools where there is none.
pub open spec fn first_fit_from<T: Fits>(pools: Seq<PoolView>, value: T, from: int) -> int
    decreases pools.len() - from,
{
    if from >= pools.len() {
        pools.len() as int
    } else if value.fits_spec(pools[from]) {
        from
    } else {
        first_fit_from(pools, value, from + 1)
    }
}

/// Index of the first pool at or after `from` that has a block left; the
/// number of pools where there is none.
pub open spec fn first_available_from(pools: Seq<PoolView>, from: int) -> int
    decreases pools.len() - from,
{
    if from >= pools.len() {
        pools.len() as int
    } else if !pools[from].exhausted() {
        from
    } else {
        first_available_from(pools, from + 1)
    }
}

/// `first_fit_from` returns the first index that fits, and nothing else does.
pub proof fn lemma_first_fit_from<T: Fits>(pools: Seq<PoolView>, value: T, from: int, index: int)
    requires
        0 <= from <= pools.len(),
    ensures
        from <= first_fit_from(pools, value, from) <= pools.len(),
        first_fit_from(pools, value, from) == index <==> {
            &&& from <= index <= pools.len()
            &&& forall|i: int| from <= i < index ==> !value.fits_spec(#[trigger] pools[i])
            &&& index < pools.len() ==> value.fits_spec(pools[index])
        },
    decreases pools.len() - from,
{
    if from < pools.len() && !value.fits_spec(pools[from]) {
        lemma_first_fit_from(pools, value, from + 1, index);
        if from <= index <= pools.len() && (forall|i: int|
            from <= i < index ==> !value.fits_spec(#[trigger] pools[i])) && (index < pools.len()
            ==> value.fits_spec(pools[index])) {
            assert(index != from);
        }
    } else if from < pools.len() {
        if from < index <= pools.len() && (forall|i: int|
            from <= i < index ==> !value.fits_spec(#[trigger] pools[i])) {
            assert(!value.fits_spec(pools[from]));
        }
    }
}

/// `first_available_from` returns the first index with a block left, and
/// nothing else does.
pub proof fn lemma_first_available_from(pools: Seq<PoolView>, from: int, index: int)
    requires
        0 <= from <= pools.len(),
    ensures
        from <= first_available_from(pools, from) <= pools.len(),
        first_available_from(pools, from) == index <==> {
            &&& from <= index <= pools.len()
            &&& forall|i: int| from <= i < index ==> (#[trigger] pools[i]).exhausted()
            &&& index < pools.len() ==> !pools[index].exhausted()
        },
    decreases pools.len() - from,
{
    if from < pools.len() && pools[from].exhausted() {
        lemma_first_available_from(pools, from + 1, index);
        if from <= index <= pools.len() && (forall|i: int|
            from <= i < index ==> (#[trigger] pools[i]).exhausted()) && (index < pools.len()
            ==> !pools[index].exhausted()) {
            assert(index != from);
        }
    } else if from < pools.len() {
        if from < index <= pools.len() && (forall|i: int|
            from <= i < index ==> (#[trigger] pools[i]).exhausted()) {
            assert(pools[from].exhausted());
        }
    }
}

/// What a heap is, as a mathematical value: its pools in their order, and the
/// memory that their blocks lie in.
pub struct HeapView {
    /// The pools, the one with the smallest blocks first.
    pub pools: Seq<PoolView>,
    /// The memory.
    pub memory: MemoryView,
}

impl HeapView {
    /// The pools stand in ascending order of block size and of address. The
    /// search for a pool rests on both.
    pub open spec fn sorted(self) -> bool {
        forall|i: int, j: int|
            0 <= i <= j < self.pools.len() ==> (#[trigger] self.pools[i]).block_size <= (
            #[trigger] self.pools[j]).block_size && self.pools[i].edge <= self.pools[j].edge
    }

    /// The address ranges of the pools follow one another without meeting.
    pub open spec fn apart(self) -> bool {
        forall|i: int, j: int|
            0 <= i < j < self.pools.len() ==> (#[trigger] self.pools[i]).edge <= (
            #[trigger] self.pools[j]).base()
    }

    /// The heap's invariant: the pools are sorted, each of them is well formed
    /// with its blocks in memory and its free list laid down there, and the
    /// address ranges of two pools do not meet.
    pub open spec fn wf(self) -> bool {
        &&& self.sorted()
        &&& self.apart()
        &&& self.memory.wf()
        &&& forall|i: int|
            0 <= i < self.pools.len() ==> (#[trigger] self.pools[i]).wf() && self.pools[i].linked(
                self.memory,
            ) && self.pools[i].backed(self.memory)
    }

    /// `other` has as many pools as `self`, and each of them has the block
    /// size, the capacity and the edge of the pool of `self` at its index.
    pub open spec fn placed_like(self, other: HeapView) -> bool {
        &&& self.pools.len() == other.pools.len()
        &&& forall|i: int|
            0 <= i < self.pools.len() ==> {
                &&& (#[trigger] self.pools[i]).block_size == other.pools[i].block_size
                &&& self.pools[i].capacity == other.pools[i].capacity
                &&& self.pools[i].edge == other.pools[i].edge
            }
    }

    /// Index of the first pool that `value` fits; the number of pools where
    /// there is none.
    pub open spec fn first_fit<T: Fits>(self, value: T) -> int {
        first_fit_from(self.pools, value, 0)
    }

    /// Index of the first pool at or after `from` that has a block left; the
    /// number of pools where there is none.
    pub open spec fn first_available(self, from: int) -> int {
        first_available_from(self.pools, from)
    }

    /// Index of the pool whose range is the first to end above `ptr`: the pool
    /// that a block at `ptr` is from.
    pub open spec fn owner(self, ptr: usize) -> int {
        self.first_fit(ptr)
    }

    /// A block starts at `ptr` that the heap handed out and that did not come
    /// back since.
    pub open spec fn is_allocated(self, ptr: usize) -> bool {
        self.owner(ptr) < self.pools.len() && self.pools[self.owner(ptr)].is_allocated(ptr)
    }

    /// Size of the blocks of the pool that a block at `ptr` is from.
    pub open spec fn block_size_of(self, ptr: usize) -> usize {
        self.pools[self.owner(ptr)].block_size
    }

    /// The block at `ptr` can come back: it is handed out, and it is large
    /// enough for the link of a free list.
    pub open spec fn can_free(self, ptr: usize) -> bool {
        self.is_allocated(ptr) && self.block_size_of(ptr) >= WORD_SIZE
    }

    /// `ptr` is what a request for `layout` was answered with and has not
    /// come back: nothing is asked of it where the layout has no bytes;
    /// otherwise the block at `ptr` can come back and holds the layout.
    pub open spec fn holds(self, ptr: usize, layout: Layout) -> bool {
        layout.size() != 0 ==> self.can_free(ptr) && layout.size() <= self.block_size_of(ptr)
    }

    /// The heap is well formed and untouched: every pool is as it was created.
    pub open spec fn pristine(self) -> bool {
        &&& self.wf()
        &&& forall|i: int|
            0 <= i < self.pools.len() ==> #[trigger] self.pools[i] == PoolView::fresh(
                self.pools[i].base() as usize,
                self.pools[i].block_size,
                self.pools[i].capacity,
            )
    }

    /// What `allocate` does: the heap after the call, and the call's result.
    /// A request for no bytes touches no pool. Any other is answered from the
    /// first pool that has a block left, among those that fit it.
    pub open spec fn allocate(self, layout: Layout) -> (HeapView, Result<Block, AllocError>) {
        if layout.size() == 0 {
            (self, Ok(Block { addr: layout.align(), len: 0 }))
        } else {
            let index = self.first_available(self.first_fit(&layout));
            if index < self.pools.len() {
                let (pool, block) = self.pools[index].allocate();
                match block {
                    Some(addr) => (
                        HeapView { pools: self.pools.update(index, pool), memory: self.memory },
                        Ok(Block { addr, len: pool.block_size }),
                    ),
                    None => (self, Err(AllocError)),
                }
            } else {
                (self, Err(AllocError))
            }
        }
    }

    /// The heap with `len` bytes set to zero from `addr` on. Nothing changes
    /// where `len` is zero.
    pub open spec fn zeroed(self, addr: usize, len: usize) -> HeapView {
        if len == 0 {
            self
        } else {
            HeapView { pools: self.pools, memory: self.memory.fill(addr as int, 0, len as int) }
        }
    }

    /// The heap with `len` bytes copied from `src` to `dst`. Nothing changes
    /// where `len` is zero.
    pub open spec fn copied(self, src: usize, dst: usize, len: usize) -> HeapView {
        if len == 0 {
            self
        } else {
            HeapView {
                pools: self.pools,
                memory: self.memory.copy(src as int, dst as int, len as int),
            }
        }
    }

    /// What `allocate_zeroed` does: `allocate`, and then every byte of the new
    /// block is zero.
    pub open spec fn allocate_zeroed(self, layout: Layout) -> (
        HeapView,
        Result<Block, AllocError>,
    ) {
        match self.allocate(layout).1 {
            Ok(block) => (self.allocate(layout).0.zeroed(block.addr, block.len), Ok(block)),
            Err(error) => (self, Err(error)),
        }
    }

    /// What `deallocate` does to the heap. A layout of no bytes changes
    /// nothing. Otherwise the block goes back to the pool that it is from:
    /// its first word takes the head of that pool's free list, and the block
    /// becomes the head.
    pub open spec fn deallocate(self, ptr: usize, layout: Layout) -> HeapView {
        if layout.size() == 0 {
            self
        } else {
            let index = self.owner(ptr);
            HeapView {
                pools: self.pools.update(index, self.pools[index].deallocate(ptr)),
                memory: self.memory.store_word(ptr as int, self.pools[index].head as u64),
            }
        }
    }

    /// What `grow` does: a block for the new layout is allocated, the bytes of
    /// the old layout are copied into it, and the old block is deallocated.
    /// Where the allocation fails, nothing changes.
    pub open spec fn grow(self, ptr: usize, old_layout: Layout, new_layout: Layout) -> (
        HeapView,
        Result<Block, AllocError>,
    ) {
        match self.allocate(new_layout).1 {
            Ok(block) => (
                self.allocate(new_layout).0.copied(ptr, block.addr, old_layout.size()).deallocate(
                    ptr,
                    old_layout,
                ),
                Ok(block),
            ),
            Err(error) => (self, Err(error)),
        }
    }

    /// What `grow_zeroed` does: as `grow`, with every byte of the new block
    /// set to zero before the old bytes are copied into it.
    pub open spec fn grow_zeroed(self, ptr: usize, old_layout: Layout, new_layout: Layout) -> (
        HeapView,
        Result<Block, AllocError>,
    ) {
        match self.allocate_zeroed(new_layout).1 {
            Ok(block) => (
                self.allocate_zeroed(new_layout).0.copied(
                    ptr,
                    block.addr,
                    old_layout.size(),
                ).deallocate(ptr, old_layout),
                Ok(block),
            ),
            Err(error) => (self, Err(error)),
        }
    }

    /// What `shrink` does: a block for the new layout is allocated, as many
    /// bytes as the new layout has are copied into it from the old block, and
    /// the old block is deallocated. Where the allocation fails, nothing
    /// changes.
    pub open spec fn shrink(self, ptr: usize, old_layout: Layout, new_layout: Layout) -> (
        HeapView,
        Result<Block, AllocError>,
    ) {
        match self.allocate(new_layout).1 {
            Ok(block) => (
                self.allocate(new_layout).0.copied(ptr, block.addr, new_layout.size()).deallocate(
                    ptr,
                    old_layout,
                ),
                Ok(block),
            ),
            Err(error) => (self, Err(error)),
        }
    }

    /// The search returns an index of a pool, or the number of pools.
    pub proof fn lemma_first_fit_range<T: Fits>(self, value: T)
        ensures
            0 <= self.first_fit(value) <= self.pools.len(),
    {
        lemma_first_fit_from(self.pools, value, 0, 0);
    }

    /// The pool that a block is from is found by the block's address.
    pub proof fn lemma_owner(self, index: int, ptr: usize)
        requires
            self.wf(),
            0 <= index < self.pools.len(),
            self.pools[index].is_block(ptr as int),
        ensures
            self.owner(ptr) == index,
    {
        self.pools[index].lemma_block_end(ptr as int);
        assert forall|i: int| 0 <= i < index implies !ptr.fits_spec(#[trigger] self.pools[i]) by {
            assert(self.pools[i].edge <= self.pools[index].base());
        }
        lemma_first_fit_from(self.pools, ptr, 0, index);
    }

    /// A block that is handed out lies in memory, not at the null address,
    /// and in the range of the pool that it is from.
    pub proof fn lemma_block_range(self, ptr: usize)
        requires
            self.wf(),
            self.is_allocated(ptr),
        ensures
            ptr != 0,
            0 < self.block_size_of(ptr),
            self.memory.contains(ptr as int, self.block_size_of(ptr) as int),
            self.pools[self.owner(ptr)].is_block(ptr as int),
            self.pools[self.owner(ptr)].base() <= ptr,
            ptr + self.block_size_of(ptr) <= self.pools[self.owner(ptr)].uninit,
    {
        self.lemma_first_fit_range(ptr);
        let pool = self.pools[self.owner(ptr)];
        assert(pool.wf() && pool.backed(self.memory));
        assert(pool.is_block(ptr as int));
        pool.lemma_block_end(ptr as int);
    }

    /// Two blocks that are handed out do not overlap.
    pub proof fn lemma_blocks_apart(self, first: usize, second: usize)
        requires
            self.wf(),
            self.is_allocated(first),
            self.is_allocated(second),
            first != second,
        ensures
            first + self.block_size_of(first) <= second || second + self.block_size_of(second)
                <= first,
    {
        let i = self.owner(first);
        let j = self.owner(second);
        self.lemma_first_fit_range(first);
        self.lemma_first_fit_range(second);
        self.lemma_block_range(first);
        self.lemma_block_range(second);
        if i == j {
            self.pools[i].lemma_blocks_apart(first as int, second as int);
        } else if i < j {
            assert(self.pools[i].edge <= self.pools[j].base());
        } else {
            assert(self.pools[j].edge <= self.pools[i].base());
        }
    }

    /// Writing into a block that is handed out leaves the heap well formed:
    /// no free list runs through such a block.
    pub proof fn lemma_write_allocated(self, memory: MemoryView, ptr: usize, addr: int, len: int)
        requires
            self.wf(),
            self.is_allocated(ptr),
            ptr <= addr,
            addr + len <= ptr + self.block_size_of(ptr),
            self.memory.same_outside(memory, addr, len),
        ensures
            (HeapView { pools: self.pools, memory }).wf(),
    {
        let after = HeapView { pools: self.pools, memory };
        let owner = self.owner(ptr);
        self.lemma_first_fit_range(ptr);
        self.lemma_block_range(ptr);
        assert forall|i: int| 0 <= i < after.pools.len() implies (#[trigger] after.pools[i]).linked(
            memory,
        ) by {
            let pool = self.pools[i];
            assert(pool.wf() && pool.linked(self.memory));
            assert forall|k: int| 0 <= k < pool.free.len() implies memory.contains(
                #[trigger] pool.free[k] as int,
                WORD_SIZE as int,
            ) && memory.word(pool.free[k] as int) == pool.link(k) by {
                let link = pool.free[k];
                assert(pool.is_block(link as int));
                pool.lemma_block_end(link as int);
                if i == owner {
                    pool.lemma_blocks_apart(link as int, ptr as int);
                } else if i < owner {
                    assert(self.pools[i].edge <= self.pools[owner].base());
                } else {
                    assert(self.pools[owner].edge <= self.pools[i].base());
                }
                self.memory.lemma_same_outside_range(
                    memory,
                    addr,
                    len,
                    link as int,
                    WORD_SIZE as int,
                );
            }
        }
    }

    /// The heap stays well formed when a block is allocated. The block is
    /// handed out from then on and was not before; it is at least as large as
    /// was asked for; it is from the first pool that fits the request and has
    /// a block left; memory is as it was, and so is every other block.
    pub proof fn lemma_allocate(self, layout: Layout)
        requires
            self.wf(),
        ensures
            self.allocate(layout).0.wf(),
            self.allocate(layout).0.memory == self.memory,
            self.allocate(layout).0.pools.len() == self.pools.len(),
            self.allocate(layout).1 is Err ==> self.allocate(layout).0 == self,
            layout.size() != 0 ==> (self.allocate(layout).1 is Err <==> forall|i: int|
                self.first_fit(&layout) <= i < self.pools.len() ==> (
                #[trigger] self.pools[i]).exhausted()),
            layout.size() != 0 ==> (self.allocate(layout).1 matches Ok(block) ==> {
                &&& block.addr != 0
                &&& layout.size() <= block.len
                &&& !self.is_allocated(block.addr)
                &&& self.allocate(layout).0.is_allocated(block.addr)
                &&& self.allocate(layout).0.block_size_of(block.addr) == block.len
                &&& self.allocate(layout).0.owner(block.addr) == self.first_available(
                    self.first_fit(&layout),
                )
            }),
            forall|ptr: usize|
                self.is_allocated(ptr) ==> #[trigger] self.allocate(layout).0.is_allocated(ptr)
                    && self.allocate(layout).0.block_size_of(ptr) == self.block_size_of(ptr),
    {
        let after = self.allocate(layout).0;
        let fit = self.first_fit(&layout);
        lemma_first_fit_from(self.pools, &layout, 0, fit);
        let index = self.first_available(fit);
        lemma_first_available_from(self.pools, fit, index);
        self.lemma_placed_like(after);
        if layout.size() != 0 && index < self.pools.len() {
            let pool = self.pools[index];
            let taken = pool.allocate().0;
            pool.lemma_allocate();
            let addr = pool.allocate().1->0;
            assert(after.pools[index] == taken);
            assert forall|i: int| 0 <= i < after.pools.len() implies (#[trigger] after.pools[i]).wf()
                && after.pools[i].linked(after.memory) && after.pools[i].backed(after.memory) by {
                if i == index {
                    assert(pool.linked(self.memory));
                    assert forall|k: int| 0 <= k < taken.free.len() implies self.memory.contains(
                        #[trigger] taken.free[k] as int,
                        WORD_SIZE as int,
                    ) && self.memory.word(taken.free[k] as int) == taken.link(k) by {
                        assert(taken.free[k] == pool.free[k + 1]);
                    }
                } else {
                    assert(after.pools[i] == self.pools[i]);
                }
            }
            assert(after.wf());
            after.lemma_owner(index, addr);
            assert(fit <= index);
            assert(layout.size() <= pool.block_size) by {
                if fit < index {
                    assert(self.pools[fit].block_size <= self.pools[index].block_size);
                }
            }
            if self.is_allocated(addr) {
                self.lemma_block_range(addr);
                self.lemma_owner(self.owner(addr), addr);
                assert(after.pools[self.owner(addr)].is_block(addr as int));
                after.lemma_owner(self.owner(addr), addr);
            }
            assert forall|ptr: usize| self.is_allocated(ptr) implies #[trigger] after.is_allocated(
                ptr,
            ) && after.block_size_of(ptr) == self.block_size_of(ptr) by {
                let owner = self.owner(ptr);
                self.lemma_first_fit_range(ptr);
                assert(after.owner(ptr) == owner);
                if owner == index {
                    assert(after.pools[owner] == taken);
                } else {
                    assert(after.pools[owner] == self.pools[owner]);
                }
            }
        }
    }

    /// The heap stays well formed when a block comes back. The block is no
    /// longer handed out; every other block is as it was, and memory changes
    /// in the first word of the block only.
    pub proof fn lemma_deallocate(self, ptr: usize, layout: Layout)
        requires
            self.wf(),
            layout.size() != 0 ==> self.can_free(ptr),
        ensures
            self.deallocate(ptr, layout).wf(),
            self.deallocate(ptr, layout).pools.len() == self.pools.len(),
            layout.size() != 0 ==> !self.deallocate(ptr, layout).is_allocated(ptr),
            layout.size() != 0 ==> self.memory.same_outside(
                self.deallocate(ptr, layout).memory,
                ptr as int,
                WORD_SIZE as int,
            ),
            forall|other: usize|
                self.is_allocated(other) && other != ptr ==> #[trigger] self.deallocate(
                    ptr,
                    layout,
                ).is_allocated(other) && self.deallocate(ptr, layout).block_size_of(other)
                    == self.block_size_of(other),
    {
        let after = self.deallocate(ptr, layout);
        if layout.size() != 0 {
            let index = self.owner(ptr);
            let pool = self.pools[index];
            let freed = pool.deallocate(ptr);
            let word = spec_u64_to_le_bytes(pool.head as u64);
            self.lemma_first_fit_range(ptr);
            self.lemma_block_range(ptr);
            pool.lemma_deallocate(self.memory, ptr);
            lemma_auto_spec_u64_to_from_le_bytes();
            self.memory.lemma_store_range_outside(ptr as int, word);
            self.lemma_placed_like(after);
            assert(after.pools[index] == freed);
            assert forall|i: int| 0 <= i < after.pools.len() implies (#[trigger] after.pools[i]).wf()
                && after.pools[i].linked(after.memory) && after.pools[i].backed(after.memory) by {
                if i != index {
                    let other = self.pools[i];
                    assert(after.pools[i] == other);
                    assert(other.wf() && other.linked(self.memory));
                    assert forall|k: int| 0 <= k < other.free.len() implies after.memory.contains(
                        #[trigger] other.free[k] as int,
                        WORD_SIZE as int,
                    ) && after.memory.word(other.free[k] as int) == other.link(k) by {
                        let link = other.free[k];
                        assert(other.is_block(link as int));
                        other.lemma_block_end(link as int);
                        if i < index {
                            assert(self.pools[i].edge <= self.pools[index].base());
                        } else {
                            assert(self.pools[index].edge <= self.pools[i].base());
                        }
                        self.memory.lemma_same_outside_range(
                            after.memory,
                            ptr as int,
                            WORD_SIZE as int,
                            link as int,
                            WORD_SIZE as int,
                        );
                    }
                }
            }
            assert forall|other: usize|
                self.is_allocated(other) && other != ptr implies #[trigger] after.is_allocated(
                other,
            ) && after.block_size_of(other) == self.block_size_of(other) by {
                let owner = self.owner(other);
                self.lemma_first_fit_range(other);
                assert(after.owner(other) == owner);
                if owner == index {
                    assert(after.pools[owner] == freed);
                } else {
                    assert(after.pools[owner] == self.pools[owner]);
                }
            }
        }
    }

    /// Over sorted pools, the search by size finds the pool with the smallest
    /// blocks that are large enough: every pool before it has smaller blocks
    /// than were asked for, and every pool from it on has blocks that are
    /// large enough. Where no pool has such blocks, it finds the number of
    /// pools.
    pub proof fn lemma_search_by_size(self, layout: Layout)
        requires
            self.sorted(),
        ensures
            0 <= self.first_fit(&layout) <= self.pools.len(),
            forall|i: int|
                0 <= i < self.first_fit(&layout) ==> (#[trigger] self.pools[i]).block_size
                    < layout.size(),
            forall|i: int|
                self.first_fit(&layout) <= i < self.pools.len() ==> (
                #[trigger] self.pools[i]).block_size >= layout.size(),
    {
        let index = self.first_fit(&layout);
        lemma_first_fit_from(self.pools, &layout, 0, index);
        assert forall|i: int| index <= i < self.pools.len() implies (
        #[trigger] self.pools[i]).block_size >= layout.size() by {
            assert(self.pools[index].block_size <= self.pools[i].block_size);
        }
    }

    /// Over sorted pools, the search by address finds the pool whose range is
    /// the first to end above the address: every pool before it ends at or
    /// below the address, and every pool from it on ends above it. Where no
    /// pool ends above the address, it finds the number of pools.
    pub proof fn lemma_search_by_address(self, addr: usize)
        requires
            self.sorted(),
        ensures
            0 <= self.first_fit(addr) <= self.pools.len(),
            forall|i: int| 0 <= i < self.first_fit(addr) ==> (#[trigger] self.pools[i]).edge <= addr,
            forall|i: int|
                self.first_fit(addr) <= i < self.pools.len() ==> (#[trigger] self.pools[i]).edge
                    > addr,
    {
        let index = self.first_fit(addr);
        lemma_first_fit_from(self.pools, addr, 0, index);
        assert forall|i: int| index <= i < self.pools.len() implies (#[trigger] self.pools[i]).edge
            > addr by {
            assert(self.pools[index].edge <= self.pools[i].edge);
        }
    }

    /// A layout of no bytes touches no pool: its allocation is answered with
    /// the layout's alignment as the address and no usable byte, and neither
    /// that nor its deallocation changes the heap.
    pub proof fn lemma_zero_size(self, ptr: usize, layout: Layout)
        requires
            layout.size() == 0,
        ensures
            self.allocate(layout) == (
                self,
                Ok::<Block, AllocError>(Block { addr: layout.align(), len: 0 }),
            ),
            self.deallocate(ptr, layout) == self,
    {
    }

    /// Where the pool with the smallest blocks that are large enough is
    /// exhausted and a pool after it has a block left, the allocation
    /// succeeds from the first such pool, and the block has the size of that
    /// pool's blocks, which is no less than the exhausted pool's.
    pub proof fn lemma_upgrade(self, layout: Layout, larger: int)
        requires
            self.wf(),
            layout.size() != 0,
            self.first_fit(&layout) < larger < self.pools.len(),
            self.pools[self.first_fit(&layout)].exhausted(),
            !self.pools[larger].exhausted(),
        ensures
            self.first_fit(&layout) < self.first_available(self.first_fit(&layout)) <= larger,
            self.allocate(layout).1 matches Ok(block) && {
                &&& self.allocate(layout).0.owner(block.addr) == self.first_available(
                    self.first_fit(&layout),
                )
                &&& block.len == self.pools[self.first_available(
                    self.first_fit(&layout),
                )].block_size
                &&& block.len >= self.pools[self.first_fit(&layout)].block_size
                &&& block.len >= layout.size()
            },
    {
        let fit = self.first_fit(&layout);
        self.lemma_first_fit_range(&layout);
        let index = self.first_available(fit);
        lemma_first_available_from(self.pools, fit, index);
        assert(index <= larger) by {
            if larger < index {
                assert(self.pools[larger].exhausted());
            }
        }
        self.lemma_allocate(layout);
        self.pools[index].lemma_allocate();
        assert(self.pools[fit].block_size <= self.pools[index].block_size);
    }

    /// The heap does not look at the alignment that a layout asks for. What
    /// it gives is this: where the pool that answers a request has its first
    /// block and its block size at multiples of the alignment, the block is
    /// aligned; and a request for no bytes is answered with the alignment
    /// itself.
    pub proof fn lemma_allocate_aligned(self, layout: Layout)
        requires
            self.wf(),
            0 < layout.align(),
            layout.size() != 0 ==> {
                let index = self.first_available(self.first_fit(&layout));
                index < self.pools.len() ==> self.pools[index].base() % (layout.align() as int)
                    == 0 && self.pools[index].block_size as int % (layout.align() as int) == 0
            },
        ensures
            self.allocate(layout).1 matches Ok(block) ==> block.addr as int % (
            layout.align() as int) == 0,
    {
        let align = layout.align() as int;
        if layout.size() == 0 {
            lemma_mod_self_0(align);
        } else {
            let fit = self.first_fit(&layout);
            self.lemma_first_fit_range(&layout);
            let index = self.first_available(fit);
            lemma_first_available_from(self.pools, fit, index);
            if index < self.pools.len() {
                let pool = self.pools[index];
                pool.lemma_allocate();
                if let Some(addr) = pool.allocate().1 {
                    pool.allocate().0.lemma_block_aligned(addr as int, align);
                }
            }
        }
    }

    /// What `grow` and `shrink` keep of the old block: the bytes that they
    /// copy stand in the new block as they stood in the old one. The old
    /// block is no longer handed out, the new one is, and every other block
    /// is handed out as before, with its bytes as they were.
    pub proof fn lemma_move(
        self,
        ptr: usize,
        old_layout: Layout,
        new_layout: Layout,
        other: usize,
    )
        requires
            self.wf(),
            self.holds(ptr, old_layout),
        ensures
            old_layout.size() <= new_layout.size() ==> (self.grow(
                ptr,
                old_layout,
                new_layout,
            ).1 matches Ok(block) ==> self.moved(
                self.grow(ptr, old_layout, new_layout).0,
                ptr,
                old_layout,
                new_layout,
                block,
                old_layout.size(),
                other,
            )),
            new_layout.size() <= old_layout.size() ==> (self.shrink(
                ptr,
                old_layout,
                new_layout,
            ).1 matches Ok(block) ==> self.moved(
                self.shrink(ptr, old_layout, new_layout).0,
                ptr,
                old_layout,
                new_layout,
                block,
                new_layout.size(),
                other,
            )),
    {
        if old_layout.size() <= new_layout.size() {
            self.lemma_moved(ptr, old_layout, new_layout, old_layout.size(), other);
        }
        if new_layout.size() <= old_layout.size() {
            self.lemma_moved(ptr, old_layout, new_layout, new_layout.size(), other);
        }
    }

    /// `after` is the heap that the block at `ptr` was moved in, with `len`
    /// of its bytes, into `block`.
    pub open spec fn moved(
        self,
        after: HeapView,
        ptr: usize,
        old_layout: Layout,
        new_layout: Layout,
        block: Block,
        len: usize,
        other: usize,
    ) -> bool {
        &&& after.wf()
        &&& new_layout.size() <= block.len
        &&& len != 0 ==> after.memory.range(block.addr as int, len as int) == self.memory.range(
            ptr as int,
            len as int,
        )
        &&& old_layout.size() != 0 ==> !after.is_allocated(ptr)
        &&& new_layout.size() != 0 ==> after.is_allocated(block.addr) && !self.is_allocated(
            block.addr,
        ) && after.block_size_of(block.addr) == block.len
        &&& self.is_allocated(other) && other != ptr ==> {
            &&& after.is_allocated(other)
            &&& after.block_size_of(other) == self.block_size_of(other)
            &&& after.memory.range(other as int, self.block_size_of(other) as int)
                == self.memory.range(other as int, self.block_size_of(other) as int)
        }
    }

    /// The heap after a block was allocated for `new_layout`, `len` bytes of
    /// the block at `ptr` were copied into it, and the block at `ptr` was
    /// deallocated, is the heap that the block was moved in.
    proof fn lemma_moved(
        self,
        ptr: usize,
        old_layout: Layout,
        new_layout: Layout,
        len: usize,
        other: usize,
    )
        requires
            self.wf(),
            self.holds(ptr, old_layout),
            len <= old_layout.size(),
            len <= new_layout.size(),
        ensures
            self.allocate(new_layout).1 matches Ok(block) ==> self.moved(
                self.allocate(new_layout).0.copied(ptr, block.addr, len).deallocate(
                    ptr,
                    old_layout,
                ),
                ptr,
                old_layout,
                new_layout,
                block,
                len,
                other,
            ),
    {
        self.lemma_allocate(new_layout);
        if let Ok(block) = self.allocate(new_layout).1 {
            let allocated = self.allocate(new_layout).0;
            let copied = allocated.copied(ptr, block.addr, len);
            let after = copied.deallocate(ptr, old_layout);
            assert(copied.pools == allocated.pools);
            if old_layout.size() != 0 {
                assert(self.is_allocated(ptr));
                assert(allocated.is_allocated(ptr));
                assert(allocated.block_size_of(ptr) == self.block_size_of(ptr));
                assert(copied.owner(ptr) == allocated.owner(ptr));
                assert(copied.can_free(ptr));
            }
            if new_layout.size() != 0 {
                assert(allocated.is_allocated(block.addr));
                assert(copied.owner(block.addr) == allocated.owner(block.addr));
            }
            if len != 0 {
                allocated.lemma_block_range(ptr);
                allocated.lemma_block_range(block.addr);
                allocated.lemma_blocks_apart(ptr, block.addr);
                let data = allocated.memory.range(ptr as int, len as int);
                allocated.memory.lemma_store_range_outside(block.addr as int, data);
                allocated.memory.lemma_store_range_inside(block.addr as int, data);
                allocated.lemma_write_allocated(
                    copied.memory,
                    block.addr,
                    block.addr as int,
                    len as int,
                );
            }
            assert(copied.wf());
            copied.lemma_deallocate(ptr, old_layout);
            if len != 0 {
                copied.lemma_block_range(block.addr);
                copied.lemma_block_range(ptr);
                copied.lemma_blocks_apart(ptr, block.addr);
                copied.memory.lemma_same_outside_range(
                    after.memory,
                    ptr as int,
                    WORD_SIZE as int,
                    block.addr as int,
                    len as int,
                );
            }
            if self.is_allocated(other) && other != ptr {
                let size = self.block_size_of(other);
                self.lemma_block_range(other);
                assert(allocated.is_allocated(other));
                assert(allocated.block_size_of(other) == size);
                assert(copied.owner(other) == allocated.owner(other));
                assert(copied.is_allocated(other));
                if new_layout.size() != 0 {
                    allocated.lemma_block_range(block.addr);
                    allocated.lemma_block_range(other);
                    allocated.lemma_blocks_apart(other, block.addr);
                }
                if len != 0 {
                    allocated.memory.lemma_same_outside_range(
                        copied.memory,
                        block.addr as int,
                        len as int,
                        other as int,
                        size as int,
                    );
                }
                if old_layout.size() != 0 {
                    copied.lemma_block_range(other);
                    copied.lemma_block_range(ptr);
                    copied.lemma_blocks_apart(other, ptr);
                    copied.memory.lemma_same_outside_range(
                        after.memory,
                        ptr as int,
                        WORD_SIZE as int,
                        other as int,
                        size as int,
                    );
                }
            }
            assert(new_layout.size() != 0 ==> after.is_allocated(block.addr));
            assert(self.is_allocated(other) && other != ptr ==> after.is_allocated(other));
        }
    }

    /// Where no block can be allocated for the new layout, `grow`,
    /// `grow_zeroed` and `shrink` fail and leave the heap as it was: the old
    /// block is still handed out, and no byte of memory has changed.
    pub proof fn lemma_move_failure(self, ptr: usize, old_layout: Layout, new_layout: Layout)
        requires
            self.allocate(new_layout).1 is Err,
        ensures
            self.grow(ptr, old_layout, new_layout) == (self, Err::<Block, AllocError>(AllocError)),
            self.grow_zeroed(ptr, old_layout, new_layout) == (
                self,
                Err::<Block, AllocError>(AllocError),
            ),
            self.shrink(ptr, old_layout, new_layout) == (
                self,
                Err::<Block, AllocError>(AllocError),
            ),
    {
    }

    /// What came back is what is handed out next: a block of `layout` that is
    /// deallocated is the block that the next allocation for `layout` returns,
    /// unless a pool with smaller blocks that fits the layout has a block left.
    pub proof fn lemma_reuse(self, ptr: usize, layout: Layout)
        requires
            self.wf(),
            layout.size() != 0,
            self.can_free(ptr),
            self.first_fit(&layout) <= self.owner(ptr),
            forall|i: int|
                self.first_fit(&layout) <= i < self.owner(ptr) ==> (
                #[trigger] self.pools[i]).exhausted(),
        ensures
            self.deallocate(ptr, layout).allocate(layout).1 == Ok::<Block, AllocError>(
                Block { addr: ptr, len: self.block_size_of(ptr) },
            ),
            self.deallocate(ptr, layout).allocate(layout).0.pools == self.pools,
    {
        let freed = self.deallocate(ptr, layout);
        let index = self.owner(ptr);
        let fit = self.first_fit(&layout);
        self.lemma_first_fit_range(ptr);
        self.lemma_first_fit_range(&layout);
        self.lemma_deallocate(ptr, layout);
        self.lemma_placed_like(freed);
        self.pools[index].lemma_reuse(ptr);
        assert(freed.pools[index] == self.pools[index].deallocate(ptr));
        assert forall|i: int| fit <= i < index implies (#[trigger] freed.pools[i]).exhausted() by {
            assert(freed.pools[i] == self.pools[i]);
        }
        lemma_first_available_from(freed.pools, fit, index);
        assert(freed.allocate(layout).0.pools =~= self.pools);
    }

    /// A heap whose pools are placed like those of another one is sorted if
    /// the other is, its ranges are apart if the other's are, and both find
    /// the same pool for every layout and for every address.
    pub proof fn lemma_placed_like(self, other: HeapView)
        requires
            self.placed_like(other),
        ensures
            self.sorted() ==> other.sorted(),
            self.apart() ==> other.apart(),
            forall|ptr: usize| #[trigger] self.owner(ptr) == other.owner(ptr),
            forall|ptr: usize|
                self.owner(ptr) < self.pools.len() ==> #[trigger] self.block_size_of(ptr)
                    == other.block_size_of(ptr),
            forall|layout: Layout| #[trigger] self.first_fit(&layout) == other.first_fit(&layout),
    {
        if self.sorted() {
            assert forall|i: int, j: int| 0 <= i <= j < other.pools.len() implies (
            #[trigger] other.pools[i]).block_size <= (#[trigger] other.pools[j]).block_size
                && other.pools[i].edge <= other.pools[j].edge by {
                assert(self.pools[i].block_size <= self.pools[j].block_size);
            }
        }
        if self.apart() {
            assert forall|i: int, j: int| 0 <= i < j < other.pools.len() implies (
            #[trigger] other.pools[i]).edge <= (#[trigger] other.pools[j]).base() by {
                assert(self.pools[i].edge <= self.pools[j].base());
            }
        }
        assert forall|ptr: usize| #[trigger] self.owner(ptr) == other.owner(ptr) by {
            self.lemma_same_first_fit(other, ptr);
        }
        assert forall|ptr: usize| self.owner(ptr) < self.pools.len() implies #[trigger]
            self.block_size_of(ptr) == other.block_size_of(ptr) by {
            self.lemma_same_first_fit(other, ptr);
            self.lemma_first_fit_range(ptr);
            assert(self.pools[self.owner(ptr)].block_size == other.pools[self.owner(
                ptr,
            )].block_size);
        }
        assert forall|layout: Layout| #[trigger]
            self.first_fit(&layout) == other.first_fit(&layout) by {
            self.lemma_same_first_fit(other, &layout);
        }
    }

    /// Two heaps whose pools are placed alike find the same pool for a value.
    pub proof fn lemma_same_first_fit<T: Fits>(self, other: HeapView, value: T)
        requires
            self.placed_like(other),
        ensures
            self.first_fit(value) == other.first_fit(value),
    {
        let index = self.first_fit(value);
        lemma_first_fit_from(self.pools, value, 0, index);
        assert forall|i: int| 0 <= i < self.pools.len() implies value.fits_spec(self.pools[i])
            == value.fits_spec(#[trigger] other.pools[i]) by {
            assert(self.pools[i].block_size == other.pools[i].block_size);
            value.lemma_fits_monotonic(self.pools[i], other.pools[i]);
            value.lemma_fits_monotonic(other.pools[i], self.pools[i]);
        }
        lemma_first_fit_from(other.pools, value, 0, index);
    }
}

} // verus!
