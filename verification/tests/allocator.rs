use drone_core::heap::{
    allocate, allocate_zeroed, allocated_size, binary_search, deallocate, grow, grow_zeroed,
    is_pristine, is_sorted, shrink, AllocError, Allocator, Block, Heap, Layout, Memory, Pool,
    Statistics,
};

const POOL_COUNT: usize = 10;

type TestHeap = Heap<POOL_COUNT>;

fn search_layout(heap: &TestHeap, size: usize) -> Option<usize> {
    let pool_idx = binary_search(heap, &Layout::from_size_align(size, 4).unwrap());
    if pool_idx < POOL_COUNT {
        Some(heap.get_pool(pool_idx).block_size())
    } else {
        None
    }
}

fn search_ptr(heap: &TestHeap, ptr: usize) -> Option<usize> {
    let pool_idx = binary_search(heap, ptr);
    if pool_idx < POOL_COUNT {
        Some(heap.get_pool(pool_idx).block_size())
    } else {
        None
    }
}

fn byte(heap: &TestHeap, offset: usize) -> u8 {
    heap.get_memory().as_slice()[offset]
}

fn word(heap: &TestHeap, offset: usize) -> usize {
    let mut bytes = [0u8; 8];
    bytes.copy_from_slice(&heap.get_memory().as_slice()[offset..offset + 8]);
    u64::from_le_bytes(bytes) as usize
}

fn allocate_and_set(heap: &mut TestHeap, layout: Layout, value: u8) {
    let block = allocate(heap, layout).unwrap();
    heap.get_memory_mut().write(block.addr, value);
}

fn remains<const N: usize>(heap: &Heap<N>) -> Vec<usize> {
    heap.get_statistics().iter().map(|statistics| statistics.remain).collect()
}

/// Ten pools of ten blocks each, one after the other from `o` on.
fn small_heap(o: usize) -> TestHeap {
    Heap::new(
        [
            Pool::new(o + 0, 2, 10),
            Pool::new(o + 20, 5, 10),
            Pool::new(o + 70, 8, 10),
            Pool::new(o + 150, 12, 10),
            Pool::new(o + 270, 16, 10),
            Pool::new(o + 430, 23, 10),
            Pool::new(o + 660, 38, 10),
            Pool::new(o + 1040, 56, 10),
            Pool::new(o + 1600, 72, 10),
            Pool::new(o + 2320, 91, 10),
        ],
        Memory::new(o, 3230),
    )
}

/// Two pools of two blocks each: sixteen bytes a block from 0x1000 on,
/// thirty-two bytes a block from 0x1020 on.
fn tiny_heap() -> Heap<2> {
    Heap::new([Pool::new(0x1000, 16, 2), Pool::new(0x1020, 32, 2)], Memory::new(0x1000, 96))
}

#[test]
fn test_binary_search() {
    let heap = Heap::new(
        [
            Pool::new(20, 2, 100),
            Pool::new(220, 5, 100),
            Pool::new(720, 8, 100),
            Pool::new(1520, 12, 100),
            Pool::new(2720, 16, 100),
            Pool::new(4320, 23, 100),
            Pool::new(6620, 38, 100),
            Pool::new(10420, 56, 100),
            Pool::new(16020, 72, 100),
            Pool::new(23220, 91, 100),
        ],
        Memory::new(0, 0),
    );
    assert_eq!(search_layout(&heap, 1), Some(2));
    assert_eq!(search_layout(&heap, 2), Some(2));
    assert_eq!(search_layout(&heap, 15), Some(16));
    assert_eq!(search_layout(&heap, 16), Some(16));
    assert_eq!(search_layout(&heap, 17), Some(23));
    assert_eq!(search_layout(&heap, 91), Some(91));
    assert_eq!(search_layout(&heap, 92), None);
    assert_eq!(search_ptr(&heap, 0), Some(2));
    assert_eq!(search_ptr(&heap, 20), Some(2));
    assert_eq!(search_ptr(&heap, 219), Some(2));
    assert_eq!(search_ptr(&heap, 220), Some(5));
    assert_eq!(search_ptr(&heap, 719), Some(5));
    assert_eq!(search_ptr(&heap, 720), Some(8));
    assert_eq!(search_ptr(&heap, 721), Some(8));
    assert_eq!(search_ptr(&heap, 5000), Some(23));
    assert_eq!(search_ptr(&heap, 23220), Some(91));
    assert_eq!(search_ptr(&heap, 32319), Some(91));
    assert_eq!(search_ptr(&heap, 32320), None);
    assert_eq!(search_ptr(&heap, 50000), None);
}

#[test]
fn allocations() {
    let o = 0x2000_0000;
    let mut heap = small_heap(o);
    let layout = Layout::from_size_align(32, 1).unwrap();
    allocate_and_set(&mut heap, layout, 111);
    assert_eq!(byte(&heap, 660), 111);
    allocate_and_set(&mut heap, layout, 222);
    assert_eq!(byte(&heap, 698), 222);
    allocate_and_set(&mut heap, layout, 123);
    assert_eq!(byte(&heap, 736), 123);
    deallocate(&mut heap, o + 660, layout);
    assert_eq!(byte(&heap, 660), 0);
    deallocate(&mut heap, o + 736, layout);
    assert_eq!(word(&heap, 736), o + 660);
    allocate_and_set(&mut heap, layout, 202);
    assert_eq!(byte(&heap, 736), 202);
    deallocate(&mut heap, o + 698, layout);
    assert_eq!(word(&heap, 698), o + 660);
    deallocate(&mut heap, o + 736, layout);
    assert_eq!(word(&heap, 736), o + 698);
}

#[test]
fn search_over_pools_laid_out_from_offset_zero() {
    let sizes = [2, 5, 8, 12, 16, 23, 38, 56, 72, 91];
    let mut address = 0;
    let pools = sizes.map(|size| {
        let pool = Pool::new(address, size, 100);
        address += size * 100;
        pool
    });
    let heap: TestHeap = Heap::new(pools, Memory::new(0, 0));
    assert_eq!(address, 32300);
    assert_eq!(search_layout(&heap, 1), Some(2));
    assert_eq!(search_layout(&heap, 2), Some(2));
    assert_eq!(search_layout(&heap, 17), Some(23));
    assert_eq!(search_layout(&heap, 92), None);
    assert_eq!(binary_search(&heap, &Layout::from_size_align(92, 4).unwrap()), POOL_COUNT);
    assert_eq!(search_ptr(&heap, 199), Some(2));
    assert_eq!(search_ptr(&heap, 220), Some(5));
    assert_eq!(search_ptr(&heap, 719), Some(8));
    assert_eq!(search_ptr(&heap, 32299), Some(91));
    assert_eq!(search_ptr(&heap, 32300), None);
    assert_eq!(search_ptr(&heap, 32320), None);
    assert_eq!(binary_search(&heap, 32320usize), POOL_COUNT);
    assert_eq!(search_ptr(&heap, usize::MAX), None);
}

#[test]
fn search_returns_the_first_index_that_fits() {
    let heap = small_heap(0x1000);
    let sizes = [2usize, 5, 8, 12, 16, 23, 38, 56, 72, 91];
    for size in 0..100usize {
        let expected = sizes.iter().position(|block_size| *block_size >= size).unwrap_or(10);
        assert_eq!(binary_search(&heap, &Layout::from_size_align(size, 1).unwrap()), expected);
    }
    let edges = [20usize, 70, 150, 270, 430, 660, 1040, 1600, 2320, 3230];
    for offset in 0..3300usize {
        let expected = edges.iter().position(|edge| *edge > offset).unwrap_or(10);
        assert_eq!(binary_search(&heap, 0x1000 + offset), expected);
    }
}

#[test]
fn search_in_a_heap_without_pools() {
    let heap: Heap<0> = Heap::new([], Memory::new(0, 0));
    assert_eq!(binary_search(&heap, &Layout::from_size_align(1, 1).unwrap()), 0);
    assert_eq!(binary_search(&heap, 0usize), 0);
    assert_eq!(heap.get_statistics().len(), 0);
}

#[test]
fn zero_size_allocation_touches_no_pool() {
    let mut heap = small_heap(0x1000);
    let layout = Layout::from_size_align(0, 8).unwrap();
    let before = remains(&heap);
    assert_eq!(allocate(&mut heap, layout), Ok(Block { addr: 8, len: 0 }));
    assert_eq!(allocate_zeroed(&mut heap, layout), Ok(Block { addr: 8, len: 0 }));
    assert_eq!(allocate(&mut heap, Layout::from_size_align(0, 1).unwrap()).unwrap().addr, 1);
    assert_eq!(remains(&heap), before);
    assert!(heap.get_memory().as_slice().iter().all(|value| *value == 0));
}

#[test]
fn zero_size_deallocation_changes_nothing() {
    let mut heap = small_heap(0x1000);
    let layout = Layout::from_size_align(32, 1).unwrap();
    let block = allocate(&mut heap, layout).unwrap();
    heap.get_memory_mut().write(block.addr, 7);
    let before = remains(&heap);
    deallocate(&mut heap, block.addr, Layout::from_size_align(0, 1).unwrap());
    deallocate(&mut heap, 8, Layout::from_size_align(0, 8).unwrap());
    assert_eq!(remains(&heap), before);
    assert_eq!(byte(&heap, 660), 7);
    assert_eq!(allocate(&mut heap, layout).unwrap().addr, block.addr + 38);
}

#[test]
fn allocation_reports_the_block_size_of_its_pool() {
    let mut heap = small_heap(0x1000);
    let block = allocate(&mut heap, Layout::from_size_align(17, 1).unwrap()).unwrap();
    assert_eq!(block, Block { addr: 0x1000 + 430, len: 23 });
    let block = allocate(&mut heap, Layout::from_size_align(1, 1).unwrap()).unwrap();
    assert_eq!(block, Block { addr: 0x1000, len: 2 });
    let block = allocate(&mut heap, Layout::from_size_align(91, 1).unwrap()).unwrap();
    assert_eq!(block, Block { addr: 0x1000 + 2320, len: 91 });
    assert_eq!(allocate(&mut heap, Layout::from_size_align(92, 1).unwrap()), Err(AllocError));
}

#[test]
fn allocation_upgrades_when_the_best_pool_is_exhausted() {
    let mut heap = tiny_heap();
    let layout = Layout::from_size_align(10, 2).unwrap();
    assert_eq!(allocate(&mut heap, layout), Ok(Block { addr: 0x1000, len: 16 }));
    assert_eq!(allocate(&mut heap, layout), Ok(Block { addr: 0x1010, len: 16 }));
    assert_eq!(allocate(&mut heap, layout), Ok(Block { addr: 0x1020, len: 32 }));
    assert_eq!(allocate(&mut heap, layout), Ok(Block { addr: 0x1040, len: 32 }));
    assert_eq!(allocate(&mut heap, layout), Err(AllocError));
    let statistics = heap.get_statistics();
    assert_eq!(statistics[0], Statistics { block_size: 16, capacity: 2, remain: 0 });
    assert_eq!(statistics[1], Statistics { block_size: 32, capacity: 2, remain: 0 });
}

#[test]
fn exhausted_heap_recovers_after_one_deallocation() {
    let mut heap = tiny_heap();
    let layout = Layout::from_size_align(20, 4).unwrap();
    assert_eq!(allocate(&mut heap, layout).unwrap().addr, 0x1020);
    assert_eq!(allocate(&mut heap, layout).unwrap().addr, 0x1040);
    assert_eq!(allocate(&mut heap, layout), Err(AllocError));
    deallocate(&mut heap, 0x1020, layout);
    assert_eq!(allocate(&mut heap, layout), Ok(Block { addr: 0x1020, len: 32 }));
    assert_eq!(allocate(&mut heap, layout), Err(AllocError));
}

#[test]
fn deallocation_returns_a_block_to_the_pool_it_is_from() {
    let mut heap = tiny_heap();
    let small = Layout::from_size_align(8, 8).unwrap();
    assert_eq!(allocate(&mut heap, small).unwrap().addr, 0x1000);
    assert_eq!(allocate(&mut heap, small).unwrap().addr, 0x1010);
    assert_eq!(allocate(&mut heap, small).unwrap().addr, 0x1020);
    deallocate(&mut heap, 0x1020, small);
    let statistics = heap.get_statistics();
    assert_eq!(statistics[0].remain, 0);
    assert_eq!(statistics[1].remain, 2);
    deallocate(&mut heap, 0x1010, small);
    assert_eq!(heap.get_statistics()[0].remain, 1);
    assert_eq!(allocate(&mut heap, small), Ok(Block { addr: 0x1010, len: 16 }));
}

#[test]
fn allocate_zeroed_clears_the_whole_block() {
    let mut heap = tiny_heap();
    let layout = Layout::from_size_align(3, 1).unwrap();
    let block = allocate(&mut heap, layout).unwrap();
    for i in 0..16 {
        heap.get_memory_mut().write(block.addr + i, 0xAA);
    }
    deallocate(&mut heap, block.addr, layout);
    assert_eq!(allocate_zeroed(&mut heap, layout), Ok(block));
    assert_eq!(&heap.get_memory().as_slice()[..16], &[0u8; 16]);
    let mut full = tiny_heap();
    let large = Layout::from_size_align(32, 1).unwrap();
    assert!(allocate_zeroed(&mut full, large).is_ok());
    assert!(allocate_zeroed(&mut full, large).is_ok());
    assert_eq!(allocate_zeroed(&mut full, large), Err(AllocError));
}

#[test]
fn grow_moves_the_old_bytes_and_frees_the_old_block() {
    let mut heap = tiny_heap();
    let old_layout = Layout::from_size_align(12, 4).unwrap();
    let new_layout = Layout::from_size_align(24, 4).unwrap();
    let old = allocate(&mut heap, old_layout).unwrap();
    for i in 0..12 {
        heap.get_memory_mut().write(old.addr + i, 0x10 + i as u8);
    }
    let new = grow(&mut heap, old.addr, old_layout, new_layout).unwrap();
    assert_eq!(new, Block { addr: 0x1020, len: 32 });
    let memory = heap.get_memory().as_slice();
    assert_eq!(&memory[0x20..0x2C], &[16, 17, 18, 19, 20, 21, 22, 23, 24, 25, 26, 27]);
    assert_eq!(&memory[0x2C..0x40], &[0u8; 20]);
    assert_eq!(&memory[0..8], &[0u8; 8]);
    assert_eq!(&memory[8..12], &[24, 25, 26, 27]);
    assert_eq!(remains(&heap), vec![2, 1]);
    assert_eq!(allocate(&mut heap, old_layout).unwrap().addr, old.addr);
}

#[test]
fn grow_that_fails_leaves_the_old_block_untouched() {
    let mut heap = tiny_heap();
    let old_layout = Layout::from_size_align(16, 1).unwrap();
    let new_layout = Layout::from_size_align(32, 1).unwrap();
    let old = allocate(&mut heap, old_layout).unwrap();
    for i in 0..16 {
        heap.get_memory_mut().write(old.addr + i, 0x40 + i as u8);
    }
    assert!(allocate(&mut heap, new_layout).is_ok());
    assert!(allocate(&mut heap, new_layout).is_ok());
    let bytes = heap.get_memory().as_slice().to_vec();
    let before = remains(&heap);
    assert_eq!(grow(&mut heap, old.addr, old_layout, new_layout), Err(AllocError));
    assert_eq!(grow_zeroed(&mut heap, old.addr, old_layout, new_layout), Err(AllocError));
    assert_eq!(heap.get_memory().as_slice(), &bytes[..]);
    assert_eq!(remains(&heap), before);
    assert_eq!(allocate(&mut heap, old_layout).unwrap().addr, old.addr + 16);
    deallocate(&mut heap, old.addr, old_layout);
    assert_eq!(allocate(&mut heap, old_layout).unwrap().addr, old.addr);
}

#[test]
fn grow_zeroed_clears_what_it_does_not_copy() {
    let mut heap = tiny_heap();
    let old_layout = Layout::from_size_align(16, 1).unwrap();
    let new_layout = Layout::from_size_align(20, 1).unwrap();
    let stale = allocate(&mut heap, new_layout).unwrap();
    for i in 0..32 {
        heap.get_memory_mut().write(stale.addr + i, 0xEE);
    }
    deallocate(&mut heap, stale.addr, new_layout);
    let old = allocate(&mut heap, old_layout).unwrap();
    for i in 0..16 {
        heap.get_memory_mut().write(old.addr + i, 1 + i as u8);
    }
    let new = grow_zeroed(&mut heap, old.addr, old_layout, new_layout).unwrap();
    assert_eq!(new, stale);
    let memory = heap.get_memory().as_slice();
    let copied: Vec<u8> = (1..=16).collect();
    assert_eq!(&memory[0x20..0x30], &copied[..]);
    assert_eq!(&memory[0x30..0x40], &[0u8; 16]);
}

#[test]
fn shrink_moves_as_many_bytes_as_the_new_layout_has() {
    let mut heap = tiny_heap();
    let old_layout = Layout::from_size_align(30, 2).unwrap();
    let new_layout = Layout::from_size_align(6, 2).unwrap();
    let old = allocate(&mut heap, old_layout).unwrap();
    assert_eq!(old, Block { addr: 0x1020, len: 32 });
    for i in 0..30 {
        heap.get_memory_mut().write(old.addr + i, 0x80 + i as u8);
    }
    let new = shrink(&mut heap, old.addr, old_layout, new_layout).unwrap();
    assert_eq!(new, Block { addr: 0x1000, len: 16 });
    let memory = heap.get_memory().as_slice();
    assert_eq!(&memory[0..6], &[0x80, 0x81, 0x82, 0x83, 0x84, 0x85]);
    assert_eq!(&memory[6..16], &[0u8; 10]);
    assert_eq!(remains(&heap), vec![1, 2]);
    assert_eq!(allocate(&mut heap, old_layout).unwrap().addr, old.addr);
}

#[test]
fn shrink_that_fails_leaves_the_old_block_untouched() {
    let mut heap: Heap<1> = Heap::new([Pool::new(0x1000, 16, 1)], Memory::new(0x1000, 16));
    let old_layout = Layout::from_size_align(16, 1).unwrap();
    let new_layout = Layout::from_size_align(8, 1).unwrap();
    let old = allocate(&mut heap, old_layout).unwrap();
    heap.get_memory_mut().write(old.addr, 9);
    assert_eq!(shrink(&mut heap, old.addr, old_layout, new_layout), Err(AllocError));
    assert_eq!(heap.get_memory().read(old.addr), 9);
    assert_eq!(heap.get_statistics()[0].remain, 0);
}

#[test]
fn moving_to_and_from_layouts_without_bytes() {
    let mut heap = tiny_heap();
    let empty = Layout::from_size_align(0, 4).unwrap();
    let layout = Layout::from_size_align(16, 4).unwrap();
    let block = grow(&mut heap, 4, empty, layout).unwrap();
    assert_eq!(block, Block { addr: 0x1000, len: 16 });
    assert_eq!(remains(&heap), vec![1, 2]);
    assert_eq!(shrink(&mut heap, block.addr, layout, empty), Ok(Block { addr: 4, len: 0 }));
    assert_eq!(remains(&heap), vec![2, 2]);
    assert_eq!(grow(&mut heap, 4, empty, empty), Ok(Block { addr: 4, len: 0 }));
    assert_eq!(remains(&heap), vec![2, 2]);
}

#[test]
fn statistics_follow_the_pools() {
    let mut heap = small_heap(0x1000);
    let layout = Layout::from_size_align(6, 1).unwrap();
    allocate(&mut heap, layout).unwrap();
    allocate(&mut heap, layout).unwrap();
    let statistics = heap.get_statistics();
    assert_eq!(statistics.len(), 10);
    assert_eq!(statistics[1], Statistics { block_size: 5, capacity: 10, remain: 10 });
    assert_eq!(statistics[2], Statistics { block_size: 8, capacity: 10, remain: 8 });
    assert_eq!(statistics[9], Statistics { block_size: 91, capacity: 10, remain: 10 });
    assert_eq!(Statistics::default(), Statistics { block_size: 0, capacity: 0, remain: 0 });
    assert_eq!(<TestHeap as Allocator<POOL_COUNT>>::TRACE_PORT, None);
}

#[test]
fn sortedness_is_told_of_block_sizes_and_edges() {
    assert!(is_sorted(&small_heap(0x1000)));
    assert!(is_sorted(&tiny_heap()));
    assert!(is_sorted(&Heap::new([], Memory::new(0, 0))));
    assert!(is_sorted(&Heap::new([Pool::new(0, 0, 0)], Memory::new(0, 0))));
    assert!(is_sorted(&Heap::new(
        [Pool::new(0, 8, 2), Pool::new(16, 8, 2)],
        Memory::new(0, 0)
    )));
    assert!(!is_sorted(&Heap::new(
        [Pool::new(0x1000, 32, 2), Pool::new(0x1040, 16, 2)],
        Memory::new(0x1000, 96)
    )));
    assert!(!is_sorted(&Heap::new(
        [Pool::new(0x1020, 16, 2), Pool::new(0x1000, 16, 2)],
        Memory::new(0x1000, 64)
    )));
    assert!(!is_sorted(&Heap::new(
        [Pool::new(0x1000, 8, 1), Pool::new(0x1008, 16, 1), Pool::new(0x1000, 17, 1)],
        Memory::new(0x1000, 64)
    )));
    // the edges are in order although the ranges overlap
    assert!(is_sorted(&Heap::new(
        [Pool::new(0x1000, 8, 1), Pool::new(0x1008, 16, 1), Pool::new(0x1000, 24, 1)],
        Memory::new(0x1000, 64)
    )));
}

#[test]
fn pristine_heap_is_told_from_a_misplaced_one() {
    assert!(is_pristine(&small_heap(0x1000)));
    assert!(is_pristine(&tiny_heap()));
    assert!(is_pristine(&Heap::new([], Memory::new(0, 0))));
    assert!(is_pristine(&Heap::new(
        [Pool::new(0x1000, 16, 2), Pool::new(0x1030, 16, 2)],
        Memory::new(0x1000, 0x50)
    )));
    assert!(is_pristine(&Heap::new([Pool::new(0, 16, 0)], Memory::new(0x1000, 16))));
    // the range of a pool starts at the null address
    assert!(!is_pristine(&small_heap(0)));
    // the last pool does not lie in memory
    assert!(!is_pristine(&Heap::new(
        [Pool::new(0x1000, 16, 2), Pool::new(0x1020, 32, 2)],
        Memory::new(0x1000, 95)
    )));
    assert!(!is_pristine(&Heap::new([Pool::new(0x0FFF, 16, 2)], Memory::new(0x1000, 96))));
    // the ranges of the pools overlap
    assert!(!is_pristine(&Heap::new(
        [Pool::new(0x1000, 16, 2), Pool::new(0x1010, 32, 2)],
        Memory::new(0x1000, 96)
    )));
    // the pools are not sorted by block size
    assert!(!is_pristine(&Heap::new(
        [Pool::new(0x1000, 32, 2), Pool::new(0x1040, 16, 2)],
        Memory::new(0x1000, 96)
    )));
    // a block was handed out
    let mut heap = tiny_heap();
    let layout = Layout::from_size_align(16, 1).unwrap();
    let block = allocate(&mut heap, layout).unwrap();
    assert!(!is_pristine(&heap));
    deallocate(&mut heap, block.addr, layout);
    assert!(!is_pristine(&heap));
}

#[test]
fn allocated_blocks_are_told_from_all_other_addresses() {
    let mut heap = tiny_heap();
    let layout = Layout::from_size_align(16, 1).unwrap();
    assert_eq!(allocated_size(&heap, 0x1000), None);
    let first = allocate(&mut heap, layout).unwrap().addr;
    let second = allocate(&mut heap, layout).unwrap().addr;
    let third = allocate(&mut heap, layout).unwrap().addr;
    assert_eq!((first, second, third), (0x1000, 0x1010, 0x1020));
    assert_eq!(allocated_size(&heap, first), Some(16));
    assert_eq!(allocated_size(&heap, second), Some(16));
    assert_eq!(allocated_size(&heap, third), Some(32));
    assert_eq!(allocated_size(&heap, 0x1001), None);
    assert_eq!(allocated_size(&heap, 0x1030), None);
    assert_eq!(allocated_size(&heap, 0x1040), None);
    assert_eq!(allocated_size(&heap, 0x0FFF), None);
    assert_eq!(allocated_size(&heap, 0x1060), None);
    assert_eq!(allocated_size(&heap, 0), None);
    deallocate(&mut heap, first, layout);
    assert_eq!(allocated_size(&heap, first), None);
    assert_eq!(allocated_size(&heap, second), Some(16));
    deallocate(&mut heap, second, layout);
    assert_eq!(allocated_size(&heap, first), None);
    assert_eq!(allocated_size(&heap, second), None);
    assert_eq!(allocated_size(&heap, third), Some(32));
    assert_eq!(allocate(&mut heap, layout).unwrap().addr, second);
    assert_eq!(allocated_size(&heap, second), Some(16));
    assert_eq!(allocated_size(&heap, first), None);
}

#[test]
fn moving_a_block_leaves_the_other_blocks_alone() {
    let mut heap = tiny_heap();
    let small = Layout::from_size_align(16, 1).unwrap();
    let large = Layout::from_size_align(32, 1).unwrap();
    let kept = allocate(&mut heap, small).unwrap();
    let moved = allocate(&mut heap, small).unwrap();
    let far = allocate(&mut heap, large).unwrap();
    for i in 0..16 {
        heap.get_memory_mut().write(kept.addr + i, 0x11);
        heap.get_memory_mut().write(moved.addr + i, 0x22);
    }
    for i in 0..32 {
        heap.get_memory_mut().write(far.addr + i, 0x33);
    }
    let new = grow(&mut heap, moved.addr, small, large).unwrap();
    assert_eq!(new, Block { addr: 0x1040, len: 32 });
    let memory = heap.get_memory().as_slice();
    assert_eq!(&memory[0x00..0x10], &[0x11; 16]);
    assert_eq!(&memory[0x20..0x40], &[0x33; 32]);
    assert_eq!(&memory[0x40..0x50], &[0x22; 16]);
    assert_eq!(allocated_size(&heap, kept.addr), Some(16));
    assert_eq!(allocated_size(&heap, far.addr), Some(32));
    assert_eq!(allocated_size(&heap, new.addr), Some(32));
    assert_eq!(allocated_size(&heap, moved.addr), None);
}

#[test]
fn blocks_are_aligned_where_the_pools_are() {
    let mut heap: Heap<2> = Heap::new(
        [Pool::new(0x1000, 16, 4), Pool::new(0x1040, 24, 4)],
        Memory::new(0x1000, 0xA0),
    );
    assert!(is_pristine(&heap));
    let aligned = Layout::from_size_align(10, 16).unwrap();
    for _ in 0..4 {
        assert_eq!(allocate(&mut heap, aligned).unwrap().addr % 16, 0);
    }
    // the second pool keeps a multiple of eight, not of sixteen
    let eight = Layout::from_size_align(20, 8).unwrap();
    let addresses: Vec<usize> = (0..4).map(|_| allocate(&mut heap, eight).unwrap().addr).collect();
    assert_eq!(addresses, vec![0x1040, 0x1058, 0x1070, 0x1088]);
    assert!(addresses.iter().all(|addr| addr % 8 == 0));
    assert!(addresses.iter().any(|addr| addr % 16 != 0));
}

/// A small generator of numbers that repeats itself from run to run.
fn next(seed: &mut u64) -> usize {
    *seed = seed.wrapping_mul(6364136223846793005).wrapping_add(1442695040888963407);
    (*seed >> 33) as usize
}

#[test]
fn long_run_keeps_the_blocks_apart_and_their_bytes_intact() {
    let o = 0x4000;
    let mut heap = small_heap(o);
    assert!(is_pristine(&heap));
    let mut seed = 7;
    let mut live: Vec<(Block, Layout, u8)> = Vec::new();
    for step in 0..4000 {
        let release = !live.is_empty() && next(&mut seed) % 3 == 0;
        if release {
            let (block, layout, _) = live.swap_remove(next(&mut seed) % live.len());
            assert_eq!(allocated_size(&heap, block.addr), Some(block.len));
            deallocate(&mut heap, block.addr, layout);
            assert_eq!(allocated_size(&heap, block.addr), None);
            // the block is handed out again at once, unless a pool with
            // smaller blocks that fits the layout has a block left
            let first = binary_search(&heap, &layout);
            let owner = binary_search(&heap, block.addr);
            let exhausted = remains(&heap)[first..owner].iter().all(|remain| *remain == 0);
            let again = allocate(&mut heap, layout).unwrap();
            if exhausted {
                assert_eq!(again, block);
            } else {
                assert!(again.len < block.len);
            }
            deallocate(&mut heap, again.addr, layout);
        } else {
            // blocks of fewer than eight bytes cannot come back: ask for more
            let layout = Layout::from_size_align(6 + next(&mut seed) % 90, 1).unwrap();
            match allocate(&mut heap, layout) {
                Ok(block) => {
                    assert!(layout.size() <= block.len);
                    assert!(o <= block.addr && block.addr + block.len <= o + 3230);
                    for (other, _, _) in &live {
                        assert!(
                            other.addr + other.len <= block.addr
                                || block.addr + block.len <= other.addr
                        );
                    }
                    let mark = step as u8;
                    for i in 0..block.len {
                        heap.get_memory_mut().write(block.addr + i, mark);
                    }
                    live.push((block, layout, mark));
                }
                Err(AllocError) => {
                    let first = binary_search(&heap, &layout);
                    assert!(remains(&heap)[first..].iter().all(|remain| *remain == 0));
                }
            }
        }
        let handed_out: usize =
            heap.get_statistics().iter().map(|s| s.capacity - s.remain).sum();
        assert_eq!(handed_out, live.len());
        for (block, _, mark) in &live {
            let bytes = &heap.get_memory().as_slice()[block.addr - o..block.addr - o + block.len];
            assert!(bytes.iter().all(|byte| byte == mark));
        }
    }
    assert!(live.len() > 10);
}
