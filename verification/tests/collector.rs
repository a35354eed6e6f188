use lockfree::gc::allocator::GCAllocator;
use lockfree::gc::collector::{get_block, get_root_blocks, resolve, sweep_heap};
use lockfree::gc::cycle::{Collector, CollectorState};
use lockfree::gc::scanning::{scan_block, scan_registers, scan_stack};
use lockfree::gc::tracing::get_live_blocks;
use std::collections::HashSet;

const BASE: usize = 0x10000;
const RESERVED: usize = 0x100000;
const HEADER: usize = 32;

#[test]
fn collector_test() {
    let mut gc = GCAllocator::new(BASE, RESERVED);
    let due = gc.gc_cycle(&Vec::new());
    assert!(due.is_empty());
    assert_eq!(gc.cycle_number(), 1);
}

#[test]
fn test_new_empty() {
    let x = Vec::<i32>::new();
    assert!(x.is_empty());
}

/// Three blocks: `a` points to `b`, nothing points to `c`.
fn three_blocks() -> (GCAllocator, usize, usize, usize) {
    let mut gc = GCAllocator::new(BASE, RESERVED);
    let b = gc.try_allocate_for_value(1, &vec![5, 6], Some(9)).unwrap();
    let a = gc.try_allocate_for_value(1, &vec![b + 8, 0], None).unwrap();
    let c = gc.try_allocate_for_value(1, &vec![a, b], Some(4)).unwrap();
    (gc, a, b, c)
}

#[test]
fn roots_resolve_to_allocated_blocks_only() {
    let (gc, a, b, c) = three_blocks();
    let heap = gc.heap();
    assert_eq!(get_block(heap, a), Some(a - HEADER));
    assert_eq!(get_block(heap, a - HEADER), Some(a - HEADER));
    assert_eq!(get_block(heap, BASE - 8), None);
    // a pointer to a header holds nothing, a pointer into the data does
    assert_eq!(resolve(heap, b - HEADER), None);
    assert_eq!(resolve(heap, b + 15), Some(b - HEADER));
    // behind the three blocks the first page is free
    assert_eq!(resolve(heap, c + 64), None);
    assert_eq!(get_block(heap, c + 64), Some(c + 16));
    let roots = vec![a - HEADER, a, a + 8, c + 64];
    assert_eq!(get_root_blocks(heap, &roots), vec![a - HEADER]);
}

#[test]
fn tracing_follows_pointers_in_data() {
    let (gc, a, b, c) = three_blocks();
    let heap = gc.heap();
    assert_eq!(scan_block(heap, a - HEADER), vec![b + 8]);
    let live = get_live_blocks(heap, vec![a - HEADER]);
    let expected: HashSet<usize> = [a - HEADER, b - HEADER].into_iter().collect();
    assert_eq!(live, expected);
    assert_eq!(sweep_heap(heap, &live), vec![c - HEADER]);
}

#[test]
fn cycle_keeps_the_live_and_frees_the_rest() {
    let (mut gc, a, b, c) = three_blocks();
    let due = gc.gc_cycle(&vec![7, a + 4, 0xdead_beef_0000]);
    // the destructor of `c` is due, once, with the data of `c`
    assert_eq!(due.len(), 1);
    assert_eq!(due[0].drop_thunk, 4);
    assert_eq!(due[0].data, c);
    assert_eq!(due[0].contents, vec![a, b]);
    // `a` and `b` are as they were
    assert_eq!(gc.read_words(a - HEADER, 2), vec![b + 8, 0]);
    assert_eq!(gc.read_words(b - HEADER, 2), vec![5, 6]);
    assert_eq!(gc.drop_thunk(b - HEADER), Some(9));
    // the block of `c` is allocatable again, and has lost its destructor
    assert_eq!(gc.drop_thunk(c - HEADER), None);
    let again = gc.try_allocate_for_value(1, &vec![1], None).unwrap();
    assert_eq!(again, c);
    assert!(gc.take_destructors().is_empty());
}

#[test]
fn garbage_is_destructed_once() {
    let (mut gc, _a, b, _c) = three_blocks();
    let first = gc.gc_cycle(&Vec::new());
    let thunks: Vec<usize> = first.iter().map(|d| d.drop_thunk).collect();
    let data: Vec<usize> = first.iter().map(|d| d.data).collect();
    assert_eq!(thunks, vec![9, 4]);
    assert_eq!(data[0], b);
    assert!(gc.gc_cycle(&Vec::new()).is_empty());
    assert_eq!(gc.cycle_number(), 2);
}

#[test]
fn scanning_keeps_the_words_that_point_into_the_heap() {
    let (gc, a, _b, c) = three_blocks();
    let heap = gc.heap();
    let context = vec![0, a, BASE - 1, c + 3000, BASE + 4096, 17];
    assert_eq!(scan_registers(heap, &context), vec![a, c + 3000]);
    // a stack of four words between 0x7000 and 0x7020, in use from 0x7010 on
    let stack = vec![a, a, 3, c];
    assert_eq!(scan_stack(heap, (0x7000, 0x7020), 0x7010, &stack), vec![c]);
}

/// Allocate 500 values of eight `i32`s without keeping a pointer: after one
/// cycle the memory is used again, and the region grows no further.
#[test]
fn test_garbage_leak() {
    const NUM_BLOCKS: usize = 500;
    let mut gc = GCAllocator::new(BASE, RESERVED);
    let first = gc.try_allocate_for_value(1, &vec![0], None).unwrap();
    let mut garbage = Vec::new();
    for i in 1..NUM_BLOCKS {
        garbage.push(gc.try_allocate_for_value(1, &vec![i; 4], None).unwrap());
    }
    let (_, grown) = gc.heap().raw_data();

    // Make sure that the GC has run to free all the stuff we dropped during the loop
    gc.wait_for_gc(&vec![first]);
    let new = gc.try_allocate_for_value(1, &vec![123; 4], None).unwrap();

    // the new data should reuse old memory
    assert!(garbage.contains(&new));
    assert_eq!(gc.heap().raw_data().1, grown);
    assert_eq!(gc.read_words(first - HEADER, 1), vec![0]);
}

#[test]
fn collector_goes_through_its_states() {
    let (mut gc, a, b, c) = three_blocks();
    let mut collector = Collector::new();
    assert_eq!(collector.state(), CollectorState::Idle);
    collector.timer_fired();
    assert_eq!(collector.state(), CollectorState::StoppingWorld);
    collector.world_stopped();
    assert_eq!(collector.state(), CollectorState::ScanningRoots);
    let due = collector.roots_scanned(&mut gc, &vec![a]);
    assert_eq!(collector.state(), CollectorState::Sweeping);
    // the destructor is due while the block is allocated still
    assert_eq!(due.len(), 1);
    assert_eq!(due[0].data, c);
    assert!(gc.heap().header(c - HEADER).is_allocated());
    assert_eq!(gc.cycle_number(), 0);
    collector.destructors_run(&mut gc);
    assert_eq!(collector.state(), CollectorState::Reclaiming);
    assert!(!gc.heap().header(c - HEADER).is_allocated());
    assert!(gc.heap().header(b - HEADER).is_allocated());
    // the cycle is counted when the world runs again
    assert_eq!(gc.cycle_number(), 0);
    collector.world_resumed(&mut gc);
    assert_eq!(collector.state(), CollectorState::Idle);
    assert_eq!(gc.cycle_number(), 1);
    assert_eq!(CollectorState::Tracing.next(), CollectorState::Sweeping);
    assert_eq!(CollectorState::Reclaiming.next(), CollectorState::Idle);
}

#[test]
fn blocks_go_to_the_allocator_with_the_fewest_free_bytes() {
    let mut gc = GCAllocator::new(BASE, RESERVED);
    // the first thread has less free memory than the second
    let first: Vec<usize> = (0..4).map(|i| gc.try_allocate_for_value(1, &vec![i; 30],
        None).unwrap()).collect();
    let second = gc.try_allocate_for_value(2, &vec![9], None).unwrap();
    gc.gc_cycle(&vec![second]);
    // all four blocks went to the first thread: the second allocates none of them
    let next = gc.try_allocate_for_value(2, &vec![8; 30], None).unwrap();
    assert!(!first.contains(&next));
    let again = gc.try_allocate_for_value(1, &vec![7; 30], None).unwrap();
    assert_eq!(again, first[3]);
}

#[test]
fn roots_of_all_keep_every_allocated_block() {
    let (mut gc, a, b, c) = three_blocks();
    gc.deallocate(b, 8, 8);
    let roots = gc.roots_of_all();
    assert_eq!(roots, vec![b, a, c]);
    let due = gc.gc_cycle(&roots);
    // only the block that was given back is freed
    assert!(due.is_empty());
    assert!(gc.heap().header(a - HEADER).is_allocated());
    assert!(!gc.heap().header(b - HEADER).is_allocated());
    assert!(gc.heap().header(c - HEADER).is_allocated());
}
