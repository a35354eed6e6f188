use lockfree::gc::allocator::GCAllocator;
use lockfree::gc::{Gc, GcMut};

const BASE: usize = 0x10000;
const RESERVED: usize = 0x100000;
const HEADER_SIZE: usize = 0x20;

/// The words of four `i32`s.
fn words_of_i32s(values: [i32; 4]) -> Vec<usize> {
    vec![
        (values[0] as u32 as usize) | ((values[1] as u32 as usize) << 32),
        (values[2] as u32 as usize) | ((values[3] as u32 as usize) << 32),
    ]
}

/// Tests multiple allocations through the GcMut interface
#[test]
fn test_multiple_gc_muts() {
    let mut gc = GCAllocator::new(BASE, RESERVED);
    assert!(gc.has_room_for(3));
    let x = GcMut::new(&mut gc, 1, &words_of_i32s([1, 2, 3, 4]), None);
    // a vector of two units: its pointer, its capacity and its length
    let mut y = GcMut::new(&mut gc, 1, &vec![1, 0, 2], None);
    let z = GcMut::new(&mut gc, 1, &vec![0x6969696969696969, 0x6969696969696969], None);

    for _ in 0..5 {
        let mut value = y.get(&gc);
        value[2] += 1;
        y.set(&mut gc, &value);
    }
    assert_eq!(y.get(&gc), vec![1, 0, 7]);
    assert_eq!(x.get(&gc), words_of_i32s([1, 2, 3, 4]));
    assert_eq!(z.get(&gc), vec![0x6969696969696969, 0x6969696969696969]);

    assert!(x.as_ptr() < y.as_ptr() && y.as_ptr() < z.as_ptr());
}

/// Tests to make sure that the destructor is handed out at once when a
/// `GcMut` is released
#[test]
fn test_gc_mut_drop() {
    const WRITES_ON_DROP: usize = 7;
    let mut data: usize = 0;

    let mut gc = GCAllocator::new(BASE, RESERVED);
    let pointer = GcMut::new(&mut gc, 1, &vec![69], Some(WRITES_ON_DROP));
    let value = pointer.get(&gc);
    let block = pointer.as_ptr() - HEADER_SIZE;
    println!("Dropping a new `GcMut(WritesOnDrop(69))`");
    let destructor = pointer.release(&mut gc);
    if destructor == Some(WRITES_ON_DROP) {
        data = value[0];
        println!("Dropping `WritesOnDrop({})`", value[0]);
    }
    println!("Succeeded");
    assert_eq!(data, 69);
    // the collector will not run the destructor again
    assert_eq!(gc.drop_thunk(block), None);
    let due = gc.gc_cycle(&Vec::new());
    assert!(due.is_empty());
}

#[test]
fn test_vec_gc() {
    let mut gc = GCAllocator::new(BASE, RESERVED);
    let vec: Vec<Gc> = (0..20).map(|i| Gc::new(&mut gc, 1, &vec![i], None)).collect();
    println!("{:?}", vec);
    let roots: Vec<usize> = vec.iter().map(|p| p.as_ptr()).collect();
    gc.wait_for_gc(&roots);
    for (i, pointer) in vec.iter().enumerate() {
        assert_eq!(pointer.get(&gc), vec![i]);
    }
    drop(vec);
    gc.wait_for_gc(&Vec::new());
    // all twenty blocks are free again: the next value goes where one of them was
    let next = Gc::new(&mut gc, 1, &vec![20], None);
    assert!(roots.contains(&next.as_ptr()));
    assert_eq!(gc.cycle_number(), 2);
}

/// A value whose destructor stores a pointer to the value itself in a value
/// that lives longer.
#[test]
fn test_evil_drop() {
    const CANT_KILL_ME: usize = 3;
    let mut gc = GCAllocator::new(BASE, RESERVED);

    // `long` holds one word: the pointer that dangles in the end
    let mut long = GcMut::new(&mut gc, 1, &vec![0], None);
    // `cant` holds a pointer to itself and a pointer to `long`
    let mut cant = GcMut::new(&mut gc, 1, &vec![0, long.as_ptr()], Some(CANT_KILL_ME));
    let cant_ptr = cant.as_ptr();
    cant.set(&mut gc, &vec![cant_ptr, long.as_ptr()]);
    let cant = cant.demote();
    assert_eq!(cant.as_ptr(), cant_ptr);

    // the only live pointer is the one to `long`
    let roots = vec![long.as_ptr()];
    let mut dropped = false;
    let mut cycles = 0;
    while cycles < 5 && !dropped {
        for destructor in gc.gc_cycle(&roots) {
            // attach self to `long`
            assert_eq!(destructor.drop_thunk, CANT_KILL_ME);
            assert_eq!(destructor.data, cant_ptr);
            assert_eq!(destructor.contents[..2], [cant_ptr, long.as_ptr()]);
            let self_ref = destructor.contents[0];
            long.set(&mut gc, &vec![self_ref]);
            dropped = true;
        }
        cycles += 1;
    }
    // a pointer of the value to itself keeps nothing alive
    assert!(dropped);
    assert_eq!(cycles, 1);

    // Dangling reference! It points into a free block, and holds nothing:
    // the block stays free, and the destructor is not due again
    assert_eq!(long.get(&gc), vec![cant_ptr]);
    assert!(gc.gc_cycle(&roots).is_empty());
    assert_eq!(gc.drop_thunk(cant_ptr - HEADER_SIZE), None);
    let again = Gc::new(&mut gc, 1, &vec![1, 2], None);
    assert_eq!(again.as_ptr(), cant_ptr);
    assert_eq!(long.get(&gc), vec![cant_ptr]);
}

#[test]
fn round_trip_through_demote() {
    let mut gc = GCAllocator::new(BASE, RESERVED);
    let value = vec![11, 22, 33];
    let exclusive = GcMut::new(&mut gc, 4, &value, None);
    assert_eq!(exclusive.get(&gc), value);
    let address = exclusive.as_ptr();
    let shared = exclusive.demote();
    assert_eq!(shared.as_ptr(), address);
    assert_eq!(shared.as_non_null_ptr(), address);
    assert_eq!(shared.get(&gc), value);
    let copy = shared;
    assert_eq!(copy.get(&gc), shared.get(&gc));
    assert_eq!(copy.promote().get(&gc), value);
}

#[test]
fn value_of_no_words_gets_no_block() {
    let mut gc = GCAllocator::new(BASE, RESERVED);
    let unit = GcMut::new(&mut gc, 1, &Vec::new(), None);
    assert_eq!(unit.len(), 0);
    assert!(!gc.contains(unit.as_ptr()));
    assert_eq!(unit.get(&gc), Vec::<usize>::new());
    assert_eq!(unit.release(&mut gc), None);
}

/// The words of a string slice: where it starts, and its length.
fn words_of_str(s: &str) -> Vec<usize> {
    vec![s.as_ptr() as usize, s.len()]
}

#[test]
#[allow(unused_assignments, unused_variables)]
fn test_covariance() {
    let mut gc = GCAllocator::new(BASE, RESERVED);
    let s = String::from("Hello world!");
    let mut gcmut1 = GcMut::new(&mut gc, 1, &words_of_str(&s), None);
    let gcmut2: GcMut = GcMut::new(&mut gc, 1, &words_of_str("Hello world 2!"), None);
    gcmut1 = gcmut2;
    assert_eq!(gcmut1.get(&gc)[1], "Hello world 2!".len());

    let mut gc1: Gc = Gc::new(&mut gc, 1, &vec![1], None);
    let gc2: Gc = Gc::new(&mut gc, 1, &vec![2], None);
    gc1 = gc2;
    assert_eq!(gc1.get(&gc), vec![2]);
}

/// A node of an immutable linked list in the heap: its data, and the address
/// of the node behind it, or zero.
fn nil(gc: &mut GCAllocator, data: usize) -> Gc {
    Gc::new(gc, 1, &vec![data, 0], None)
}

fn cons(gc: &mut GCAllocator, data: usize, tail: Gc) -> Gc {
    Gc::new(gc, 1, &vec![data, tail.as_ptr()], None)
}

fn from_iter(gc: &mut GCAllocator, values: impl IntoIterator<Item = usize>) -> Gc {
    let mut iter = values.into_iter();
    let first = iter.next().unwrap();
    let current = nil(gc, first);
    append(gc, current, iter)
}

fn append(gc: &mut GCAllocator, list: Gc, values: impl IntoIterator<Item = usize>) -> Gc {
    let mut current = list;
    for value in values {
        current = cons(gc, value, current);
    }
    current
}

/// The node behind `node`, if there is one.
fn next(gc: &GCAllocator, node: Gc) -> Option<Gc> {
    match node.get(gc)[1] {
        0 => None,
        ptr => Some(Gc::from_ptr(ptr, 2)),
    }
}

fn fold<B, F: FnMut(B, usize) -> B>(gc: &GCAllocator, list: Gc, init: B, mut func: F) -> B {
    let mut accum = init;
    let mut curr_node = list;
    loop {
        accum = func(accum, curr_node.get(gc)[0]);
        match next(gc, curr_node) {
            None => return accum,
            Some(node) => curr_node = node,
        }
    }
}

#[test]
fn test_linked_list() {
    let mut gc = GCAllocator::new(BASE, RESERVED);
    println!("{:?}", Gc::new(&mut gc, 1, &vec![3], None));

    let x = from_iter(&mut gc, 0..10);
    let mut current: Gc = append(&mut gc, x, 10..20);
    // the head of the list holds all of it through a collection
    gc.wait_for_gc(&vec![current.as_ptr()]);
    for i in (0..20).rev() {
        assert_eq!(current.get(&gc)[0], i);
        if let Some(node) = next(&gc, current) {
            current = node;
        }
    }

    current = nil(&mut gc, 0);
    gc.wait_for_gc(&vec![current.as_ptr()]);
    assert_eq!(current.get(&gc), vec![0, 0]);
    // the twenty nodes of the list are free again
    assert_eq!(gc.take_destructors().len(), 0);
    let again = from_iter(&mut gc, 0..20);
    assert_eq!(fold(&gc, again, 0, |n, _| n + 1), 20);
    assert_eq!(gc.heap().raw_data().1, 0x1000);
}

#[test]
fn test_ll_fold() {
    let mut gc = GCAllocator::new(BASE, RESERVED);
    let l = from_iter(&mut gc, 0..100);
    assert_eq!(fold(&gc, l, 0, |x, y| x + y), 99 * 50);
}
