use lockfree::gc::allocator::{AllocError, GCAllocator, GCAllocatorError};
use lockfree::gc::heap::Heap;
use lockfree::gc::heap_block_header::{BlockFittingError, GCHeapBlockHeader};
use lockfree::gc::heap_scan::{roots_to_reserve, scan_heap, WinHeapEntry, HEAP_ENTRY_BUSY};
use lockfree::gc::layout::{check_power_of_two, pad_to_header_align, round_up_to, DANGLING};
use lockfree::gc::mem_source::{MemorySource, WindowsMemorySource, FIRST_COMMIT_SIZE};
use lockfree::gc::tl_allocator::TLAllocator;

const BASE: usize = 0x10000;
const PAGE: usize = 4096;

#[test]
fn region_hands_out_pages_up_to_what_is_reserved() {
    let mut source = WindowsMemorySource::new(BASE, 3 * PAGE);
    assert_eq!(source.page_size(), PAGE);
    assert_eq!(source.raw_data(), (BASE, 0));
    assert!(!source.contains(BASE));
    assert_eq!(source.grow_by(2), Some((BASE, 2 * PAGE)));
    assert_eq!(source.grow_by(2), None);
    assert_eq!(source.raw_data(), (BASE, 2 * PAGE));
    assert!(source.contains(BASE));
    assert!(source.contains(BASE + 2 * PAGE - 1));
    assert!(!source.contains(BASE + 2 * PAGE));
    assert!(!source.contains(BASE - 1));
    assert_eq!(source.grow_by(1), Some((BASE + 2 * PAGE, PAGE)));
    assert_eq!(source.grow_by(1), None);
    source.shrink_by(1);
    assert_eq!(source.raw_data(), (BASE, 2 * PAGE));
    assert_eq!(source.reserved(), 3 * PAGE);
    assert_eq!(WindowsMemorySource::new(BASE, 4 * FIRST_COMMIT_SIZE).grow_by(0), Some((BASE, 0)));
}

#[test]
fn committed_memory_doubles() {
    let pages = FIRST_COMMIT_SIZE / PAGE;
    let mut source = WindowsMemorySource::new(BASE, 5 * FIRST_COMMIT_SIZE);
    assert_eq!(source.committed(), FIRST_COMMIT_SIZE);
    source.grow_by(pages).unwrap();
    assert_eq!(source.committed(), FIRST_COMMIT_SIZE);
    source.grow_by(1).unwrap();
    assert_eq!(source.committed(), 2 * FIRST_COMMIT_SIZE);
    source.grow_by(2 * pages).unwrap();
    assert_eq!(source.committed(), 4 * FIRST_COMMIT_SIZE);
    // no more is committed than is reserved
    source.grow_by(pages).unwrap();
    assert_eq!(source.committed(), 5 * FIRST_COMMIT_SIZE);
    assert_eq!(WindowsMemorySource::new(BASE, PAGE).committed(), PAGE);
}

/// The headers of the blocks of the heap, as the sizes in the headers lead
/// from one to the next.
fn walk(heap: &Heap) -> Vec<usize> {
    let (base, length) = heap.raw_data();
    let mut blocks = Vec::new();
    let mut block = base;
    while block < base + length {
        blocks.push(block);
        block = heap.header(block).next(block);
    }
    assert_eq!(block, base + length);
    blocks
}

#[test]
fn blocks_tile_the_heap_after_many_splits() {
    let mut gc = GCAllocator::new(BASE, 64 * PAGE);
    let mut data = Vec::new();
    for i in 1..300usize {
        data.push(gc.try_allocate((i % 4) as u64, (i * 37) % 500 + 1, 1 << (i % 5)).unwrap().0);
        if i % 50 == 0 {
            let roots: Vec<usize> = data.iter().copied().filter(|d| d % 3 == 0).collect();
            gc.gc_cycle(&roots);
        }
        let blocks = walk(gc.heap());
        assert!(blocks.windows(2).all(|w| w[0] + 48 <= w[1]));
        assert!(blocks.contains(&(data[i - 1] - 32)));
    }
}

#[test]
fn layout_arithmetic() {
    assert_eq!(pad_to_header_align(0), Some(0));
    assert_eq!(pad_to_header_align(1), Some(16));
    assert_eq!(pad_to_header_align(16), Some(16));
    assert_eq!(pad_to_header_align(17), Some(32));
    assert_eq!(pad_to_header_align(usize::MAX), None);
    assert_eq!(round_up_to(65, 64), Some(128));
    assert_eq!(round_up_to(128, 64), Some(128));
    assert_eq!(round_up_to(usize::MAX, 2), None);
    assert!(check_power_of_two(1) && check_power_of_two(16) && check_power_of_two(1 << 40));
    assert!(!check_power_of_two(0) && !check_power_of_two(3) && !check_power_of_two(48));
}

#[test]
fn header_flags() {
    let mut header = GCHeapBlockHeader { next_free: Some(0x20000), size: 64, flags: 0, drop_thunk: None };
    assert!(!header.is_allocated());
    header.set_allocated();
    assert!(header.is_allocated());
    assert_eq!(header.next_free, None);
    header.drop_thunk = Some(7);
    header.set_free(Some(0x30000));
    assert!(!header.is_allocated());
    assert_eq!(header, GCHeapBlockHeader { next_free: Some(0x30000), size: 64, flags: 0, drop_thunk: None });
    assert_eq!(header.data(0x1000), (0x1020, 64));
    assert_eq!(header.next(0x1000), 0x1060);
}

#[test]
fn shrink_to_fit_splits_behind_the_request() {
    let mut heap = Heap::new(BASE, 16 * PAGE);
    let block = heap.grow(1).unwrap();
    assert_eq!(block, BASE);
    assert_eq!(heap.header(block).size, PAGE - 32);
    // too small
    assert_eq!(heap.shrink_to_fit(block, PAGE, 8), Err(BlockFittingError::BlockTooSmall));
    // aligned, with room for another block: cut behind the padded request
    assert_eq!(heap.shrink_to_fit(block, 20, 4), Ok((block, 32)));
    assert_eq!(heap.header(block).size, 32);
    let rest = block + 32 + 32;
    assert_eq!(heap.header(block).next_free, Some(rest));
    assert_eq!(heap.header(rest).size, PAGE - 32 - 32 - 32);
    assert_eq!(heap.header(rest).next(rest), BASE + PAGE);
    // exactly enough room: handed out whole
    assert_eq!(heap.shrink_to_fit(block, 32, 16), Ok((block, 0)));
    // a remainder that cannot hold a block, and a block behind on the free list
    assert_eq!(heap.shrink_to_fit(block, 16, 16), Err(BlockFittingError::CantFitNextBlock));
    // the same remainder at the end of the free list
    assert_eq!(heap.shrink_to_fit(rest, PAGE - 32 - 32 - 32 - 16, 16), Ok((rest, 0)));
}

#[test]
fn shrink_to_fit_carves_an_aligned_block() {
    let mut heap = Heap::new(BASE, 16 * PAGE);
    let block = heap.grow(1).unwrap();
    // the data at BASE + 32 is not aligned to 64: the new block's data is
    assert_eq!(heap.shrink_to_fit(block, 100, 64), Ok((BASE + 96, 32)));
    let aligned = BASE + 96;
    assert_eq!((aligned + 32) % 64, 0);
    assert_eq!(heap.header(block).size, 64);
    assert_eq!(heap.header(block).next(block), aligned);
    assert_eq!(heap.header(block).next_free, Some(aligned));
    assert_eq!(heap.header(aligned).next(aligned), BASE + PAGE);
    // no aligned place with room enough
    assert_eq!(heap.shrink_to_fit(block, 64, 128), Err(BlockFittingError::NotEnoughAlignedRoom));
}

#[test]
fn thread_allocator_serves_first_fit() {
    let mut heap = Heap::new(BASE, 4 * PAGE);
    let mut a = TLAllocator::try_new(&mut heap).unwrap();
    assert_eq!(a.free_bytes(), PAGE - 32);
    assert!(!a.has_no_memory());
    assert!(matches!(a.raw_allocate(&mut heap, 0, 8), Err(GCAllocatorError::ZeroSized)));
    assert!(matches!(a.raw_allocate(&mut heap, 8, 32), Err(GCAllocatorError::BadAlignment)));
    assert!(matches!(a.raw_allocate(&mut heap, 8, 3), Err(GCAllocatorError::BadAlignment)));
    let (first, data) = a.raw_allocate(&mut heap, 40, 8).unwrap();
    assert_eq!((first, data), (BASE, (BASE + 32, 48)));
    assert_eq!(a.free_bytes(), PAGE - 32 - 48 - 32);
    let (second, _) = a.raw_allocate(&mut heap, 16, 16).unwrap();
    assert_eq!(second, BASE + 80);
    // the first block comes back and is taken again, first of the free list
    a.reclaim_block(&mut heap, first);
    assert_eq!(a.free_bytes(), PAGE - 32 - 48 - 32 - 48 + 48);
    assert_eq!(a.raw_allocate(&mut heap, 48, 1).unwrap().0, first);
    // a value is stored in a block of its own, with its destructor
    let value = a.allocate_for_value(&mut heap, &vec![4, 5, 6], Some(2)).unwrap();
    assert_eq!(heap.read_words(value - 32, 3), vec![4, 5, 6]);
    assert_eq!(heap.header(value - 32).drop_thunk, Some(2));
    assert_eq!(a.allocate_for_value(&mut heap, &Vec::new(), None), Ok(DANGLING));
    // a request for more than is free expands the heap
    let (big, (_, len)) = a.raw_allocate(&mut heap, 2 * PAGE, 16).unwrap();
    assert_eq!(big, BASE + PAGE);
    assert_eq!(len, 2 * PAGE);
    assert_eq!(heap.raw_data(), (BASE, 4 * PAGE));
    assert!(matches!(a.raw_allocate(&mut heap, PAGE, 16), Err(GCAllocatorError::OutOfMemory)));
    let (data, _) = a.raw_allocate_with_drop(&mut heap, 8, 8, Some(5)).unwrap();
    assert_eq!(heap.header(data - 32).drop_thunk, Some(5));
    assert!(heap.header(data - 32).is_allocated());
}

#[test]
fn allocations_lie_apart_and_are_aligned() {
    let mut gc = GCAllocator::new(BASE, 64 * PAGE);
    let mut ranges: Vec<(usize, usize)> = Vec::new();
    for i in 1..200usize {
        let align = 1usize << (i % 5);
        let thread = (i % 3) as u64;
        let (data, len) = gc.try_allocate(thread, i, align).unwrap();
        assert_eq!(data % align, 0);
        assert!(len >= i);
        for &(other, other_len) in &ranges {
            assert!(other + other_len <= data || data + len <= other);
        }
        ranges.push((data, len));
    }
}

#[test]
fn allocation_errors() {
    let mut gc = GCAllocator::new(BASE, 2 * PAGE);
    assert_eq!(gc.try_allocate(1, 0, 8), Err(AllocError));
    assert_eq!(gc.try_allocate(1, 8, 64), Err(AllocError));
    assert_eq!(gc.try_allocate(1, 3 * PAGE, 8), Err(AllocError));
    assert!(matches!(gc.allocate_for_type::<()>(1), Err(GCAllocatorError::ZeroSized)));
    assert!(matches!(gc.allocate_for_type::<[u8; 3 * PAGE]>(1), Err(GCAllocatorError::OutOfMemory)));
    let word = gc.allocate_for_type::<u64>(1).unwrap();
    assert_eq!(word % 8, 0);
    assert!(gc.contains(word));
    assert_eq!(gc.try_allocate_for_value(1, &Vec::new(), None), Ok(DANGLING));
    assert!(!gc.contains(DANGLING));
    // the region is full: a thread without an allocator gets none
    let mut full = GCAllocator::new(BASE, PAGE);
    full.try_allocate(1, 8, 8).unwrap();
    assert_eq!(full.try_allocate(2, 8, 8), Err(AllocError));
    assert!(matches!(full.try_allocate_for_value(2, &vec![1], None), Err(GCAllocatorError::OutOfMemory)));
    assert!(!full.has_room_for(1));
}

#[test]
fn threads_do_not_see_each_other() {
    let mut gc = GCAllocator::new(BASE, 64 * PAGE);
    let mut first = Vec::new();
    let mut second = Vec::new();
    for i in 0..1000usize {
        first.push(gc.try_allocate_for_value(1, &vec![i], None).unwrap());
        second.push(gc.try_allocate_for_value(2, &vec![i + 1000], None).unwrap());
    }
    for i in 0..1000usize {
        assert_eq!(gc.read(first[i]), i);
        assert_eq!(gc.read(second[i]), i + 1000);
    }
    // each thread allocates from pages of its own
    for data in &first {
        assert!(second.iter().all(|other| other / PAGE != data / PAGE));
    }
}

#[test]
fn out_of_memory_waits_for_a_cycle_and_retries_once() {
    let mut gc = GCAllocator::new(BASE, 3 * PAGE);
    let kept = gc.try_allocate_for_value(1, &vec![1; 300], None).unwrap();
    let garbage = gc.try_allocate_for_value(1, &vec![2; 600], None).unwrap();
    assert!(matches!(gc.try_allocate_for_value(1, &vec![3; 500], None), Err(GCAllocatorError::OutOfMemory)));
    // with a cycle in between, the garbage is freed and its block is used again
    let again = gc.allocate_for_value(1, &vec![3; 500], None, &vec![kept]).unwrap();
    assert_eq!(again, garbage);
    assert_eq!(gc.cycle_number(), 1);
    assert_eq!(gc.read(kept), 1);
    assert_eq!(gc.read_words(again - 32, 500), vec![3; 500]);
    // if everything is live, the retry fails just the same
    let all = vec![kept, again];
    assert!(matches!(gc.allocate_for_value(1, &vec![4; 500], None, &all),
        Err(GCAllocatorError::OutOfMemory)));
    assert_eq!(gc.cycle_number(), 2);
}

#[test]
fn deallocated_blocks_are_freed_by_the_next_cycle() {
    let mut gc = GCAllocator::new(BASE, 8 * PAGE);
    let (data, _) = gc.try_allocate(1, 64, 16).unwrap();
    let (other, _) = gc.try_allocate(2, 64, 16).unwrap();
    gc.write(data - 32, data + 8, 99);
    assert_eq!(gc.read(data + 8), 99);
    gc.deallocate(data, 64, 16);
    // even a pointer to the block does not keep it
    let due = gc.gc_cycle(&vec![data, other]);
    assert!(due.is_empty());
    // the block went to the allocator with the fewest free bytes
    assert_eq!(gc.try_allocate(1, 64, 16).unwrap().0, data);
    assert_eq!(gc.read(other), 0);
}

#[test]
fn native_heap_scan_gives_up_when_the_buffer_is_full() {
    let mut gc = GCAllocator::new(BASE, 8 * PAGE);
    let (a, _) = gc.try_allocate(1, 64, 16).unwrap();
    let heap = gc.heap();
    let entry = |data: usize, flags: u16, contents: Vec<usize>| WinHeapEntry { data, flags,
        overhead: 16, contents };
    let entries = vec![
        entry(0x500, HEAP_ENTRY_BUSY, vec![a, 1, a + 8]),
        entry(0x600, 0, vec![a]),
        entry(0x700, HEAP_ENTRY_BUSY, vec![a + 16]),
        entry(0x800, HEAP_ENTRY_BUSY | 0x10, vec![BASE - 8, a + 24]),
    ];
    assert!(entries[0].is_allocated() && !entries[1].is_allocated());
    assert!(entries[3].is_moveable() && !entries[0].is_moveable());
    assert!(!entries[0].is_region() && !entries[0].is_uncommitted_range());
    assert_eq!((entries[0].data(), entries[0].data_size(), entries[0].size()), (0x500, 24, 40));
    let mut roots = vec![7];
    // the buffer itself stands at 0x700, and is skipped
    assert!(scan_heap(heap, &mut roots, 4, &entries, 0x700));
    assert_eq!(roots, vec![7, a, a + 8, a + 24]);
    let mut roots = vec![7];
    assert!(!scan_heap(heap, &mut roots, 3, &entries, 0x700));
    assert_eq!(roots, vec![7]);
    assert_eq!(roots_to_reserve(0, 0), 64);
    assert_eq!(roots_to_reserve(60, 60), 180);
    assert_eq!(roots_to_reserve(64, 64), 192);
    assert_eq!(roots_to_reserve(0, usize::MAX), usize::MAX);
}

#[test]
fn allocate_waits_for_a_cycle_when_out_of_memory() {
    let mut gc = GCAllocator::new(BASE, 2 * PAGE);
    let (kept, _) = gc.allocate(1, 3000, 16, &Vec::new()).unwrap();
    let (garbage, _) = gc.allocate(1, 4000, 16, &vec![kept]).unwrap();
    assert_eq!(gc.cycle_number(), 0);
    assert_eq!(gc.try_allocate(1, 3900, 16), Err(AllocError));
    // the cycle frees the garbage, and the retry takes its block
    assert_eq!(gc.allocate(1, 3900, 16, &vec![kept + 8]).map(|r| r.0), Ok(garbage));
    assert_eq!(gc.cycle_number(), 1);
    // nothing can be freed: the error comes after one cycle more
    assert_eq!(gc.allocate(1, 3900, 16, &vec![kept, garbage]), Err(AllocError));
    assert_eq!(gc.cycle_number(), 2);
    // no cycle is waited for where the heap is not out of memory
    assert_eq!(gc.allocate(1, 0, 16, &Vec::new()), Err(AllocError));
    assert_eq!(gc.allocate(1, 8, 64, &Vec::new()), Err(AllocError));
    assert_eq!(gc.cycle_number(), 2);
    // out of memory for the allocator of a thread: one cycle, then the error
    assert_eq!(gc.allocate(2, 8, 8, &vec![kept, garbage]), Err(AllocError));
    assert_eq!(gc.cycle_number(), 3);
}

#[test]
fn roots_are_sorted_and_counted_once() {
    let mut gc = GCAllocator::new(BASE, 8 * PAGE);
    let (a, _) = gc.try_allocate(1, 64, 16).unwrap();
    let (b, _) = gc.try_allocate(1, 64, 16).unwrap();
    let candidates = vec![b + 8, 3, a, b + 8, BASE + 8 * PAGE, a, b];
    assert_eq!(gc.sorted_roots(&candidates), vec![a, b, b + 8]);
    // roots in descending order hold their blocks all the same
    assert!(gc.gc_cycle(&vec![b, a]).is_empty());
    assert!(gc.heap().header(a - 32).is_allocated());
    assert!(gc.heap().header(b - 32).is_allocated());
}

#[test]
fn a_block_that_cannot_hold_the_next_header_is_passed_over() {
    // The request fills two pages but for a header and sixteen bytes. The block that the heap
    // is expanded by first stands at the head of the free list: it cannot be cut, and is not
    // handed out whole. The heap is expanded once more, and the last block is handed out.
    let mut gc = GCAllocator::new(BASE, 8 * PAGE);
    let (data, len) = gc.try_allocate(1, 2 * PAGE - 48, 8).unwrap();
    assert_eq!(data, BASE + 3 * PAGE + 32);
    assert_eq!(len, 2 * PAGE - 32);
    assert_eq!(gc.heap().raw_data().1, 5 * PAGE);
    // without room for the second expansion the request fails
    let mut small = GCAllocator::new(BASE, 4 * PAGE);
    assert_eq!(small.try_allocate(1, 2 * PAGE - 48, 8), Err(AllocError));
    // a request that leaves room for a header is served by the first expansion
    let mut other = GCAllocator::new(BASE, 4 * PAGE);
    assert_eq!(other.try_allocate(1, 2 * PAGE - 128, 8), Ok((BASE + PAGE + 32, 2 * PAGE - 128)));
    assert_eq!(other.heap().raw_data().1, 3 * PAGE);
}

#[test]
fn a_thread_without_an_allocator_waits_for_a_cycle_too() {
    // the one page of the region belongs to the first thread
    let mut gc = GCAllocator::new(BASE, PAGE);
    let kept = gc.try_allocate_for_value(1, &vec![1], None).unwrap();
    let garbage = gc.try_allocate_for_value(1, &vec![2], Some(7)).unwrap();
    // no allocator can be made for the second thread: the cycle runs, and the error comes out
    assert!(matches!(gc.allocate_for_value(2, &vec![3], None, &vec![kept]),
        Err(GCAllocatorError::OutOfMemory)));
    assert_eq!(gc.cycle_number(), 1);
    assert!(!gc.heap().header(garbage - 32).is_allocated());
    assert!(gc.heap().header(kept - 32).is_allocated());
    assert_eq!(gc.take_destructors().len(), 1);
    assert_eq!(gc.allocate(2, 8, 8, &vec![kept]), Err(AllocError));
    assert_eq!(gc.cycle_number(), 2);
    // a request that can never be served waits for no cycle
    assert_eq!(gc.allocate(2, 0, 8, &vec![kept]), Err(AllocError));
    assert_eq!(gc.allocate(2, 8, 3, &vec![kept]), Err(AllocError));
    assert_eq!(gc.cycle_number(), 2);
}

#[test]
fn allocation_leaves_the_other_threads_alone() {
    let mut gc = GCAllocator::new(BASE, 16 * PAGE);
    gc.try_allocate(1, 64, 8).unwrap();
    gc.try_allocate(2, 64, 8).unwrap();
    let before = gc.free_bytes_of(1);
    assert!(before.is_some());
    assert_eq!(gc.free_bytes_of(3), None);
    for _ in 0..100 {
        gc.try_allocate(2, 512, 8).unwrap();
    }
    assert_eq!(gc.free_bytes_of(1), before);
}

#[test]
fn first_allocation_is_cut_from_the_front_of_the_page() {
    let mut heap = Heap::new(BASE, 4 * PAGE);
    let mut a = TLAllocator::try_new(&mut heap).unwrap();
    assert_eq!(a.free_bytes(), 4064);
    let (block, (data, len)) = a.raw_allocate(&mut heap, 24, 8).unwrap();
    assert_eq!((block, data, len), (BASE, BASE + 32, 32));
    assert_eq!(heap.header(block).size, 32);
    // what is left of the page is the one block of the free list
    assert_eq!(a.free_bytes(), 4000);
    let rest = heap.header(BASE + 64);
    assert_eq!((rest.size, rest.next_free, rest.is_allocated()), (4000, None, false));
    // the region has not grown
    assert_eq!(heap.raw_data(), (BASE, PAGE));
    // the next blocks follow in ascending order
    let (second, _) = a.raw_allocate(&mut heap, 24, 8).unwrap();
    let (third, _) = a.raw_allocate(&mut heap, 24, 8).unwrap();
    assert_eq!((second, third), (BASE + 64, BASE + 128));
}
