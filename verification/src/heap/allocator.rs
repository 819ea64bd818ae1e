//! The dispatcher: an array of pools over one memory, and the operations that
//! find the right pool for a request or a pointer.
//!
//! Each operation does to the heap what the function of the same name does
//! to the heap's [`HeapView`].

use super::layout::Layout;
use super::memory::Memory;
use super::model::heap::{lemma_first_available_from, lemma_first_fit_from, HeapView};
use super::model::pool::PoolView;
use super::pool::{Fits, Pool, Statistics};
use vstd::prelude::*;

verus! {

/// The one error of the heap: no pool that fits the request has a block left.
#[derive(Copy, Clone, Debug, PartialEq, Eq, Structural)]
pub struct AllocError;

/// A block of memory as the heap hands it out: where it starts and how many
/// bytes of it may be used.
#[derive(Copy, Clone, Debug, PartialEq, Eq, Structural)]
pub struct Block {
    /// Address of the first byte.
    pub addr: usize,
    /// Number of usable bytes, which is the block size of the pool that the
    /// block is from, and may be more than was asked for.
    pub len: usize,
}

/// A heap: an array of `N` memory pools and the memory that they manage.
///
/// The pools stand in ascending order of block size, and their address ranges
/// in the same order. The functions of this module work on any type that gives
/// access to its pools and its memory in this way.
pub trait Allocator<const N: usize>: Sized {
    /// Logger port for heap tracing. Disabled if `None`.
    const TRACE_PORT: Option<u8>;

    /// The heap as a mathematical value.
    spec fn view(&self) -> HeapView;

    /// A heap of `N` pools has `N` pools.
    proof fn lemma_pool_count(&self)
        ensures
            self@.pools.len() == N,
    ;

    /// Returns a reference to the pool at `index`.
    fn get_pool(&self, index: usize) -> (pool: &Pool)
        requires
            index < N,
        ensures
            pool@ == self@.pools[index as int],
    ;

    /// Returns a reference to the memory.
    fn get_memory(&self) -> (memory: &Memory)
        ensures
            memory@ == self@.memory,
    ;

    /// Returns a mutable reference to the memory.
    fn get_memory_mut(&mut self) -> (memory: &mut Memory)
        ensures
            memory@ == old(self)@.memory,
            final(self)@.pools =~= old(self)@.pools,
            final(self)@.memory == final(memory)@,
    ;

    /// Returns mutable references to the pool at `index` and to the memory.
    fn get_pool_mut(&mut self, index: usize) -> (parts: (&mut Pool, &mut Memory))
        requires
            index < N,
        ensures
            parts.0@ == old(self)@.pools[index as int],
            parts.1@ == old(self)@.memory,
            final(self)@.pools =~= old(self)@.pools.update(index as int, final(parts.0)@),
            final(self)@.memory == final(parts.1)@,
    ;

    /// Returns the allocation statistics of the pools, in their order.
    fn get_statistics(&self) -> (statistics: [Statistics; N])
        ensures
            forall|i: int|
                0 <= i < N ==> #[trigger] statistics[i] == (Statistics {
                    block_size: self@.pools[i].block_size,
                    capacity: self@.pools[i].capacity,
                    remain: self@.pools[i].remain,
                }),
    {
        let mut statistics = [Statistics::default(); N];
        for i in 0..N
            invariant
                forall|k: int|
                    0 <= k < i ==> #[trigger] statistics[k] == (Statistics {
                        block_size: self@.pools[k].block_size,
                        capacity: self@.pools[k].capacity,
                        remain: self@.pools[k].remain,
                    }),
        {
            let pool = self.get_pool(i);
            statistics[i] = pool.statistics();
        }
        statistics
    }
}

/// An array of `N` pools together with the memory that they manage.
///
/// Nothing is asked of the pools and the memory that a heap is made of. A
/// heap is ready for use when it is well formed, which [`is_pristine`] tests for
/// a heap whose pools were not used before.
pub struct Heap<const N: usize> {
    pools: [Pool; N],
    memory: Memory,
}

impl<const N: usize> Heap<N> {
    /// Puts `pools` and `memory` together.
    pub fn new(pools: [Pool; N], memory: Memory) -> (heap: Heap<N>)
        ensures
            heap@.pools.len() == N,
            forall|i: int| 0 <= i < N ==> #[trigger] heap@.pools[i] == pools[i]@,
            heap@.memory == memory@,
    {
        Heap { pools, memory }
    }
}

impl<const N: usize> Allocator<N> for Heap<N> {
    const TRACE_PORT: Option<u8> = None;

    closed spec fn view(&self) -> HeapView {
        HeapView { pools: Seq::new(N as nat, |i: int| self.pools[i]@), memory: self.memory@ }
    }

    proof fn lemma_pool_count(&self) {
    }

    fn get_pool(&self, index: usize) -> (pool: &Pool) {
        &self.pools[index]
    }

    fn get_memory(&self) -> (memory: &Memory) {
        &self.memory
    }

    fn get_memory_mut(&mut self) -> (memory: &mut Memory) {
        &mut self.memory
    }

    fn get_pool_mut(&mut self, index: usize) -> (parts: (&mut Pool, &mut Memory)) {
        (&mut self.pools[index], &mut self.memory)
    }
}

/// Does a binary search for the first pool that `value` fits: for a layout, the
/// pool with the smallest blocks that are large enough; for an address, the
/// pool whose range is the first to end above it. Returns `N` where no pool
/// fits.
pub fn binary_search<A: Allocator<N>, T: Fits, const N: usize>(heap: &A, value: T) -> (index:
    usize)
    requires
        heap@.sorted(),
    ensures
        index == heap@.first_fit(value),
        index <= N,
        forall|i: int| 0 <= i < index ==> !value.fits_spec(#[trigger] heap@.pools[i]),
        forall|i: int| index <= i < N ==> value.fits_spec(#[trigger] heap@.pools[i]),
{
    proof {
        heap.lemma_pool_count();
    }
    let mut left: usize = 0;
    let mut right: usize = N;
    while right > left
        invariant
            left <= right <= N,
            heap@.pools.len() == N,
            heap@.sorted(),
            forall|i: int| 0 <= i < left ==> !value.fits_spec(#[trigger] heap@.pools[i]),
            forall|i: int| right <= i < N ==> value.fits_spec(#[trigger] heap@.pools[i]),
        decreases right - left,
    {
        let width = right - left;
        assert(width >> 1 == width / 2) by (bit_vector);
        let middle = left + (width >> 1);
        let pool = heap.get_pool(middle);
        if value.fits(pool) {
            proof {
                assert forall|i: int| middle <= i < N implies value.fits_spec(
                    #[trigger] heap@.pools[i],
                ) by {
                    value.lemma_fits_monotonic(heap@.pools[middle as int], heap@.pools[i]);
                }
            }
            right = middle;
        } else {
            proof {
                assert forall|i: int| 0 <= i < middle + 1 implies !value.fits_spec(
                    #[trigger] heap@.pools[i],
                ) by {
                    value.lemma_fits_monotonic(heap@.pools[i], heap@.pools[middle as int]);
                }
            }
            left = middle + 1;
        }
    }
    proof {
        lemma_first_fit_from(heap@.pools, value, 0, left as int);
    }
    left
}

/// Allocates a block for `layout`.
///
/// A layout of no bytes is answered with an address that is not null and no
/// usable byte, and no pool is touched. Any other is answered from the pool
/// with the smallest blocks that are large enough; where that pool is
/// exhausted, from the next one, and so on. The block may be larger than was
/// asked for: its length is the block size of the pool that it is from. Where
/// every pool from the first that fits to the last is exhausted, the
/// allocation fails and the heap is as it was.
pub fn allocate<A: Allocator<N>, const N: usize>(heap: &mut A, layout: Layout) -> (result: Result<
    Block,
    AllocError,
>)
    requires
        old(heap)@.wf(),
    ensures
        final(heap)@ == old(heap)@.allocate(layout).0,
        result == old(heap)@.allocate(layout).1,
        final(heap)@.wf(),
        result matches Ok(block) ==> block.addr != 0 && layout.size() <= block.len,
        result is Err ==> final(heap)@ == old(heap)@,
        layout.size() == 0 ==> result is Ok && final(heap)@ == old(heap)@,
{
    proof {
        heap.lemma_pool_count();
        heap@.lemma_allocate(layout);
    }
    if layout.size() == 0 {
        return Ok(Block { addr: layout.dangling(), len: 0 });
    }
    let first = binary_search(heap, &layout);
    let mut pool_idx = first;
    while pool_idx < N
        invariant
            first <= pool_idx <= N,
            first == old(heap)@.first_fit(&layout),
            layout.size() != 0,
            heap@ == old(heap)@,
            heap@.pools.len() == N,
            heap@.wf(),
            forall|i: int| first <= i < pool_idx ==> (#[trigger] heap@.pools[i]).exhausted(),
        decreases N - pool_idx,
    {
        let ghost before = heap@;
        let (pool, memory) = heap.get_pool_mut(pool_idx);
        proof {
            before.pools[pool_idx as int].lemma_allocate();
        }
        let block = pool.allocate(memory);
        let len = pool.block_size();
        match block {
            Some(addr) => {
                proof {
                    before.lemma_allocate(layout);
                    lemma_first_available_from(before.pools, first as int, pool_idx as int);
                    assert(heap@.pools =~= before.pools.update(
                        pool_idx as int,
                        before.pools[pool_idx as int].allocate().0,
                    ));
                }
                return Ok(Block { addr, len });
            },
            None => {
                assert(heap@.pools =~= before.pools);
            },
        }
        pool_idx += 1;
    }
    proof {
        lemma_first_available_from(heap@.pools, first as int, N as int);
    }
    Err(AllocError)
}

/// Allocates a block for `layout`, as `allocate` does, and sets every byte of
/// it to zero.
pub fn allocate_zeroed<A: Allocator<N>, const N: usize>(heap: &mut A, layout: Layout) -> (result:
    Result<Block, AllocError>)
    requires
        old(heap)@.wf(),
    ensures
        final(heap)@ == old(heap)@.allocate_zeroed(layout).0,
        result == old(heap)@.allocate_zeroed(layout).1,
        final(heap)@.wf(),
        result matches Ok(block) ==> block.addr != 0 && layout.size() <= block.len,
        result is Err ==> final(heap)@ == old(heap)@,
{
    proof {
        heap@.lemma_allocate(layout);
    }
    let block = match allocate(heap, layout) {
        Ok(block) => block,
        Err(error) => {
            return Err(error);
        },
    };
    if block.len != 0 {
        let ghost before = heap@;
        proof {
            before.lemma_block_range(block.addr);
            before.memory.lemma_store_range_outside(
                block.addr as int,
                Seq::new(block.len as nat, |i: int| 0u8),
            );
            before.lemma_write_allocated(
                before.memory.fill(block.addr as int, 0, block.len as int),
                block.addr,
                block.addr as int,
                block.len as int,
            );
        }
        let memory = heap.get_memory_mut();
        memory.fill(block.addr, 0, block.len);
    }
    Ok(block)
}

/// Deallocates the block at `ptr`, which was allocated for `layout`.
///
/// A layout of no bytes changes nothing. Any other block goes back to the
/// pool whose range holds its address, and is the first that this pool hands
/// out again. The block is one that the heap handed out and that did not come
/// back since, and it is large enough for the link of a free list;
/// [`allocated_size`] tells both of an address.
pub fn deallocate<A: Allocator<N>, const N: usize>(heap: &mut A, ptr: usize, layout: Layout)
    requires
        old(heap)@.wf(),
        layout.size() != 0 ==> old(heap)@.can_free(ptr),
    ensures
        final(heap)@ == old(heap)@.deallocate(ptr, layout),
        final(heap)@.wf(),
        layout.size() == 0 ==> final(heap)@ == old(heap)@,
{
    if layout.size() == 0 {
        return;
    }
    let index = binary_search(heap, ptr);
    proof {
        heap.lemma_pool_count();
        heap@.lemma_deallocate(ptr, layout);
        heap@.lemma_block_range(ptr);
    }
    let (pool, memory) = heap.get_pool_mut(index);
    pool.deallocate(memory, ptr);
}

/// Copies `len` bytes from the block at `src` into the block at `dst`. Both
/// blocks are handed out and hold `len` bytes.
fn copy_block<A: Allocator<N>, const N: usize>(heap: &mut A, src: usize, dst: usize, len: usize)
    requires
        old(heap)@.wf(),
        len != 0 ==> old(heap)@.is_allocated(src) && old(heap)@.is_allocated(dst) && src != dst
            && len <= old(heap)@.block_size_of(src) && len <= old(heap)@.block_size_of(dst),
    ensures
        final(heap)@ == old(heap)@.copied(src, dst, len),
        final(heap)@.wf(),
{
    if len != 0 {
        let ghost before = heap@;
        proof {
            before.lemma_block_range(src);
            before.lemma_block_range(dst);
            before.lemma_blocks_apart(src, dst);
            before.memory.lemma_store_range_outside(
                dst as int,
                before.memory.range(src as int, len as int),
            );
            before.lemma_write_allocated(
                before.memory.copy(src as int, dst as int, len as int),
                dst,
                dst as int,
                len as int,
            );
        }
        let memory = heap.get_memory_mut();
        memory.copy(src, dst, len);
    }
}

/// Moves the block at `ptr` into a block for `new_layout`, which is no smaller
/// than `old_layout`.
///
/// A new block is allocated, the bytes of the old layout are copied into it,
/// and the old block is deallocated; the block never grows in place. Where no
/// block can be allocated, the call fails, and the old block is still handed
/// out with its bytes as they were. The block at `ptr` is one that was
/// allocated for `old_layout` and did not come back since.
pub fn grow<A: Allocator<N>, const N: usize>(
    heap: &mut A,
    ptr: usize,
    old_layout: Layout,
    new_layout: Layout,
) -> (result: Result<Block, AllocError>)
    requires
        old(heap)@.wf(),
        old(heap)@.holds(ptr, old_layout),
        old_layout.size() <= new_layout.size(),
    ensures
        final(heap)@ == old(heap)@.grow(ptr, old_layout, new_layout).0,
        result == old(heap)@.grow(ptr, old_layout, new_layout).1,
        final(heap)@.wf(),
        result is Err <==> old(heap)@.allocate(new_layout).1 is Err,
        result is Err ==> final(heap)@ == old(heap)@,
{
    proof {
        heap@.lemma_allocate(new_layout);
    }
    let new_block = match allocate(heap, new_layout) {
        Ok(block) => block,
        Err(error) => {
            return Err(error);
        },
    };
    proof {
        if old_layout.size() != 0 {
            assert(heap@.is_allocated(ptr));
        }
    }
    copy_block(heap, ptr, new_block.addr, old_layout.size());
    deallocate(heap, ptr, old_layout);
    Ok(new_block)
}

/// Moves the block at `ptr` into a block for `new_layout`, as `grow` does,
/// with every byte of the new block that is not copied set to zero.
pub fn grow_zeroed<A: Allocator<N>, const N: usize>(
    heap: &mut A,
    ptr: usize,
    old_layout: Layout,
    new_layout: Layout,
) -> (result: Result<Block, AllocError>)
    requires
        old(heap)@.wf(),
        old(heap)@.holds(ptr, old_layout),
        old_layout.size() <= new_layout.size(),
    ensures
        final(heap)@ == old(heap)@.grow_zeroed(ptr, old_layout, new_layout).0,
        result == old(heap)@.grow_zeroed(ptr, old_layout, new_layout).1,
        final(heap)@.wf(),
        result is Err <==> old(heap)@.allocate(new_layout).1 is Err,
        result is Err ==> final(heap)@ == old(heap)@,
{
    proof {
        heap@.lemma_allocate(new_layout);
    }
    let new_block = match allocate_zeroed(heap, new_layout) {
        Ok(block) => block,
        Err(error) => {
            return Err(error);
        },
    };
    proof {
        if old_layout.size() != 0 {
            assert(old(heap)@.allocate(new_layout).0.is_allocated(ptr));
        }
    }
    copy_block(heap, ptr, new_block.addr, old_layout.size());
    deallocate(heap, ptr, old_layout);
    Ok(new_block)
}

/// Moves the block at `ptr` into a block for `new_layout`, which is no larger
/// than `old_layout`.
///
/// A new block is allocated, as many bytes as the new layout has are copied
/// into it, and the old block is deallocated; the block never shrinks in
/// place. Where no block can be allocated, the call fails, and the old block
/// is still handed out with its bytes as they were. The block at `ptr` is one
/// that was allocated for `old_layout` and did not come back since.
pub fn shrink<A: Allocator<N>, const N: usize>(
    heap: &mut A,
    ptr: usize,
    old_layout: Layout,
    new_layout: Layout,
) -> (result: Result<Block, AllocError>)
    requires
        old(heap)@.wf(),
        old(heap)@.holds(ptr, old_layout),
        new_layout.size() <= old_layout.size(),
    ensures
        final(heap)@ == old(heap)@.shrink(ptr, old_layout, new_layout).0,
        result == old(heap)@.shrink(ptr, old_layout, new_layout).1,
        final(heap)@.wf(),
        result is Err <==> old(heap)@.allocate(new_layout).1 is Err,
        result is Err ==> final(heap)@ == old(heap)@,
{
    proof {
        heap@.lemma_allocate(new_layout);
    }
    let new_block = match allocate(heap, new_layout) {
        Ok(block) => block,
        Err(error) => {
            return Err(error);
        },
    };
    proof {
        if new_layout.size() != 0 {
            assert(heap@.is_allocated(ptr));
        }
    }
    copy_block(heap, ptr, new_block.addr, new_layout.size());
    deallocate(heap, ptr, old_layout);
    Ok(new_block)
}

/// Tells whether the pools stand in ascending order of block size and of
/// address, as the search for a pool needs them.
pub fn is_sorted<A: Allocator<N>, const N: usize>(heap: &A) -> (sorted: bool)
    ensures
        sorted == heap@.sorted(),
{
    proof {
        heap.lemma_pool_count();
    }
    let mut i: usize = 1;
    while i < N
        invariant
            1 <= i,
            heap@.pools.len() == N,
            forall|a: int, b: int|
                0 <= a <= b < i && b < N ==> (#[trigger] heap@.pools[a]).block_size <= (
                #[trigger] heap@.pools[b]).block_size && heap@.pools[a].edge <= heap@.pools[b].edge,
        decreases N - i,
    {
        let before = heap.get_pool(i - 1);
        let pool = heap.get_pool(i);
        if before.block_size() > pool.block_size() || before.edge() > pool.edge() {
            return false;
        }
        i += 1;
    }
    true
}

/// Tells whether the heap is ready for its first use: no block of any pool
/// was ever handed out, the pools are sorted, their ranges lie in memory one
/// after the other, and none of them starts at the null address. A heap that
/// passes is well formed.
pub fn is_pristine<A: Allocator<N>, const N: usize>(heap: &A) -> (pristine: bool)
    ensures
        pristine == heap@.pristine(),
{
    proof {
        heap.lemma_pool_count();
    }
    let memory = heap.get_memory();
    if memory.size() > usize::MAX - memory.origin() {
        return false;
    }
    let mut end: usize = 0;
    let mut size: usize = 0;
    let mut i: usize = 0;
    while i < N
        invariant
            i <= N,
            heap@.pools.len() == N,
            memory@ == heap@.memory,
            memory@.wf(),
            i > 0 ==> end == heap@.pools[i - 1].edge && size == heap@.pools[i - 1].block_size,
            forall|k: int|
                0 <= k < i ==> {
                    &&& (#[trigger] heap@.pools[k]).wf()
                    &&& heap@.pools[k].linked(heap@.memory)
                    &&& heap@.pools[k].backed(heap@.memory)
                    &&& heap@.pools[k] == PoolView::fresh(
                        heap@.pools[k].base() as usize,
                        heap@.pools[k].block_size,
                        heap@.pools[k].capacity,
                    )
                },
            forall|a: int, b: int|
                0 <= a <= b < i ==> (#[trigger] heap@.pools[a]).block_size <= (
                #[trigger] heap@.pools[b]).block_size && heap@.pools[a].edge <= heap@.pools[b].edge,
            forall|a: int, b: int|
                0 <= a < b < i ==> (#[trigger] heap@.pools[a]).edge <= (
                #[trigger] heap@.pools[b]).base(),
        decreases N - i,
    {
        let pool = heap.get_pool(i);
        if !pool.is_fresh() {
            return false;
        }
        let base = pool.base();
        let edge = pool.edge();
        proof {
            PoolView::lemma_fresh_consistent(base, pool@.block_size, pool@.capacity);
        }
        if base < edge && (base == 0 || !memory.contains(base, edge - base)) {
            return false;
        }
        if i > 0 && (size > pool.block_size() || end > base) {
            return false;
        }
        end = edge;
        size = pool.block_size();
        i += 1;
    }
    true
}

/// Returns the size of the block that starts at `ptr`, if the heap handed
/// out such a block and it did not come back since, and `None` otherwise.
/// The free list of one pool is walked to its end.
pub fn allocated_size<A: Allocator<N>, const N: usize>(heap: &A, ptr: usize) -> (size: Option<
    usize,
>)
    requires
        heap@.wf(),
    ensures
        size is Some <==> heap@.is_allocated(ptr),
        size matches Some(len) ==> len == heap@.block_size_of(ptr),
{
    proof {
        heap.lemma_pool_count();
    }
    let index = binary_search(heap, ptr);
    if index >= N {
        return None;
    }
    let pool = heap.get_pool(index);
    if pool.is_allocated(heap.get_memory(), ptr) {
        Some(pool.block_size())
    } else {
        None
    }
}

} // verus!
