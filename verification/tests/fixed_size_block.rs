use rust_os::allocator::fixed_size_block::{block_size, FixedSizeBlockAllocator, BLOCK_SIZE_COUNT};
use rust_os::allocator::Layout;

const HEAP_ADDR: usize = 0x10_0000;

fn heap(size: usize) -> FixedSizeBlockAllocator {
    let mut allocator = FixedSizeBlockAllocator::new();
    allocator.init(HEAP_ADDR, size);
    allocator
}

#[test]
fn block_size_table() {
    let expected = [8, 16, 32, 64, 128, 256, 512, 1024, 2048];
    for (c, want) in expected.iter().enumerate() {
        assert_eq!(block_size(c), *want);
    }
    assert_eq!(BLOCK_SIZE_COUNT, expected.len());
}

#[test]
fn classification_picks_smallest_fitting_class() {
    // required = max(size, align); classes are 8,16,32,...,2048.
    let cases: [(usize, usize, Option<usize>); 10] = [
        (1, 1, Some(0)),
        (8, 8, Some(0)),
        (9, 1, Some(1)),
        (24, 8, Some(2)),
        (33, 8, Some(3)),
        (100, 128, Some(4)),
        (2048, 1, Some(8)),
        (1, 2048, Some(8)),
        (2049, 1, None),
        (5000, 8, None),
    ];
    for (size, align, want) in cases {
        assert_eq!(FixedSizeBlockAllocator::get_list_index(&Layout { size, align }), want);
    }
}

#[test]
fn concrete_heap_scenario() {
    // Heap of 4096 bytes at address A.
    let mut allocator = heap(4096);
    let layout = Layout { size: 24, align: 8 };
    // allocate(24, 8) maps to the 32-byte class (smallest >= max(24,8))
    // and returns an address inside the heap.
    let x = allocator.allocate(layout).unwrap();
    assert!(HEAP_ADDR <= x && x < HEAP_ADDR + 4096);
    // allocate(5000, 8) exceeds both the class range and the heap: fails.
    assert_eq!(allocator.allocate(Layout { size: 5000, align: 8 }), None);
    // Freeing X parks a 32-byte block on its class stack; the next
    // allocation of the same class reuses exactly X.
    allocator.deallocate(x, layout);
    assert_eq!(allocator.allocate(layout), Some(x));
}

#[test]
fn lifo_reuse_order() {
    let mut allocator = heap(4096);
    let layout = Layout { size: 16, align: 8 };
    let b1 = allocator.allocate(layout).unwrap();
    let b2 = allocator.allocate(layout).unwrap();
    assert_ne!(b1, b2);
    // Free B1 then B2; the next two allocations of the class return B2
    // then B1.
    allocator.deallocate(b1, layout);
    allocator.deallocate(b2, layout);
    assert_eq!(allocator.allocate(layout), Some(b2));
    assert_eq!(allocator.allocate(layout), Some(b1));
}

#[test]
fn freed_block_occupies_full_class_size() {
    let mut allocator = heap(4096);
    // A 10-byte request maps to the 16-byte class.
    let small = Layout { size: 10, align: 1 };
    let addr = allocator.allocate(small).unwrap();
    allocator.deallocate(addr, small);
    // The parked block is a full 16-byte block: any request of that
    // class — even a full 16-byte one — reuses it.
    assert_eq!(allocator.allocate(Layout { size: 16, align: 8 }), Some(addr));
}

#[test]
fn different_layouts_same_class_share_blocks() {
    let mut allocator = heap(4096);
    let a = Layout { size: 17, align: 1 };
    let b = Layout { size: 4, align: 32 };
    // Both map to the 32-byte class.
    let addr = allocator.allocate(a).unwrap();
    allocator.deallocate(addr, a);
    assert_eq!(allocator.allocate(b), Some(addr));
}

#[test]
fn oversized_requests_use_fallback_directly() {
    let mut allocator = heap(8192);
    let layout = Layout { size: 4000, align: 8 };
    let addr = allocator.allocate(layout).unwrap();
    assert_eq!(addr, HEAP_ADDR);
    allocator.deallocate(addr, layout);
    // The block went back to the fallback free list, not a class stack,
    // and is found again by first-fit.
    assert_eq!(allocator.allocate(layout), Some(addr));
}

#[test]
fn class_blocks_are_class_aligned() {
    let mut allocator = heap(65536);
    for c in 0..BLOCK_SIZE_COUNT {
        let size = block_size(c);
        let addr = allocator.allocate(Layout { size, align: 1 }).unwrap();
        assert_eq!(addr % size, 0, "class {} block misaligned", c);
    }
}

#[test]
fn class_exhaustion_is_deterministic() {
    // A heap too small for even one 2048-byte class block.
    let mut allocator = heap(64);
    let layout = Layout { size: 2048, align: 8 };
    assert_eq!(allocator.allocate(layout), None);
    // Asking again changes nothing and fails again.
    assert_eq!(allocator.allocate(layout), None);
    // Smaller requests still work until the heap is gone.
    assert_eq!(allocator.allocate(Layout { size: 64, align: 8 }), Some(HEAP_ADDR));
    assert_eq!(allocator.allocate(Layout { size: 8, align: 8 }), None);
}

#[test]
fn freed_class_blocks_stay_in_their_class() {
    // Freed blocks return to their class's stack, never to the fallback:
    // once the fallback is empty, even a heap's worth of freed smaller
    // blocks cannot serve a request of another class (the documented
    // cost of O(1) reuse without coalescing).
    let mut allocator = heap(4096);
    let kilo = Layout { size: 1024, align: 8 };
    let blocks: Vec<usize> = (0..4).map(|_| allocator.allocate(kilo).unwrap()).collect();
    for block in &blocks {
        allocator.deallocate(*block, kilo);
    }
    // All 4096 bytes are free again, but parked in the 1024-byte class.
    assert_eq!(allocator.allocate(Layout { size: 2048, align: 8 }), None);
    // The class itself serves instantly, last freed first.
    assert_eq!(allocator.allocate(kilo), Some(blocks[3]));
}

#[test]
fn repeated_allocate_free_cycles_are_stable() {
    let mut allocator = heap(4096);
    let layout = Layout { size: 8, align: 8 };
    let first = allocator.allocate(layout).unwrap();
    allocator.deallocate(first, layout);
    for _ in 0..100 {
        // Every round reuses the same parked block: no memory is consumed.
        let addr = allocator.allocate(layout).unwrap();
        assert_eq!(addr, first);
        allocator.deallocate(addr, layout);
    }
}
