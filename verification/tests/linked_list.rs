use rust_os::allocator::linked_list::{LinkedListAllocator, ListNode};
use rust_os::allocator::{align_up, power_of_two, Layout, HEADER_ALIGN, HEADER_SIZE};

const HEAP_ADDR: usize = 0x10_0000;

fn heap(size: usize) -> LinkedListAllocator {
    let mut allocator = LinkedListAllocator::new();
    allocator.init(HEAP_ADDR, size);
    allocator
}

#[test]
fn align_up_values() {
    assert_eq!(align_up(0, 8), 0);
    assert_eq!(align_up(5, 8), 8);
    assert_eq!(align_up(8, 8), 8);
    assert_eq!(align_up(9, 8), 16);
    assert_eq!(align_up(100, 1), 100);
    assert_eq!(align_up(31, 32), 32);
}

#[test]
fn power_of_two_values() {
    assert!(power_of_two(1));
    assert!(power_of_two(2));
    assert!(power_of_two(8));
    assert!(power_of_two(1024));
    assert!(!power_of_two(0));
    assert!(!power_of_two(3));
    assert!(!power_of_two(12));
    assert!(!power_of_two(usize::MAX));
}

#[test]
fn layout_construction() {
    let layout = Layout::from_size_align(24, 8).unwrap();
    assert_eq!(layout.size, 24);
    assert_eq!(layout.align, 8);
    assert!(Layout::from_size_align(0, 1).is_some());
    assert!(Layout::from_size_align(16, 0).is_none());
    assert!(Layout::from_size_align(16, 3).is_none());
    assert!(Layout::from_size_align(usize::MAX, 8).is_none());
}

#[test]
fn size_align_adjustments() {
    // Already header-aligned requests keep their size.
    assert_eq!(LinkedListAllocator::size_align(Layout { size: 24, align: 8 }), (24, 8));
    // Tiny requests are widened to hold a free-list node header.
    assert_eq!(
        LinkedListAllocator::size_align(Layout { size: 5, align: 1 }),
        (HEADER_SIZE, HEADER_ALIGN)
    );
    // Sizes are padded to a multiple of the adjusted alignment.
    assert_eq!(LinkedListAllocator::size_align(Layout { size: 20, align: 8 }), (24, 8));
    // Large alignments are kept.
    assert_eq!(LinkedListAllocator::size_align(Layout { size: 40, align: 32 }), (64, 32));
}

#[test]
fn allocate_before_init_fails() {
    let mut allocator = LinkedListAllocator::new();
    assert_eq!(allocator.allocate(Layout { size: 8, align: 8 }), None);
}

#[test]
fn first_allocation_at_heap_start() {
    let mut allocator = heap(4096);
    let addr = allocator.allocate(Layout { size: 24, align: 8 });
    assert_eq!(addr, Some(HEAP_ADDR));
    // The split remainder serves the next allocation.
    let next = allocator.allocate(Layout { size: 24, align: 8 });
    assert_eq!(next, Some(HEAP_ADDR + 24));
}

#[test]
fn split_remainder_is_discoverable() {
    let mut allocator = heap(64);
    // Takes 16 bytes, leaving a 48-byte remainder region.
    assert_eq!(allocator.allocate(Layout { size: 16, align: 8 }), Some(HEAP_ADDR));
    // The remainder is found and consumed whole (no leftover).
    assert_eq!(allocator.allocate(Layout { size: 48, align: 8 }), Some(HEAP_ADDR + 16));
    // Nothing is left.
    assert_eq!(allocator.allocate(Layout { size: 8, align: 8 }), None);
}

#[test]
fn sub_header_sliver_is_never_split_off() {
    let mut allocator = heap(64);
    // 56 bytes would leave an unusable 8-byte sliver: the region is
    // rejected outright rather than split.
    assert_eq!(allocator.allocate(Layout { size: 56, align: 8 }), None);
    // Taking the region exactly still works.
    assert_eq!(allocator.allocate(Layout { size: 64, align: 8 }), Some(HEAP_ADDR));
}

#[test]
fn freed_region_is_reused() {
    let mut allocator = heap(4096);
    let layout = Layout { size: 100, align: 8 };
    let addr = allocator.allocate(layout).unwrap();
    allocator.deallocate(addr, layout);
    // The freed region sits at the head of the list and is found first.
    assert_eq!(allocator.allocate(layout), Some(addr));
}

#[test]
fn alignment_is_honored() {
    let mut allocator = heap(4096);
    // Skew the heap head with a small allocation first.
    let small = allocator.allocate(Layout { size: 16, align: 8 }).unwrap();
    assert_eq!(small, HEAP_ADDR);
    let aligned = allocator.allocate(Layout { size: 64, align: 64 }).unwrap();
    assert_eq!(aligned % 64, 0);
    assert!(aligned >= HEAP_ADDR + 16);
}

#[test]
fn exhaustion_is_deterministic() {
    let mut allocator = heap(64);
    assert_eq!(allocator.allocate(Layout { size: 64, align: 8 }), Some(HEAP_ADDR));
    // Every further request deterministically fails, whatever its size.
    assert_eq!(allocator.allocate(Layout { size: 1, align: 1 }), None);
    assert_eq!(allocator.allocate(Layout { size: 1, align: 1 }), None);
    assert_eq!(allocator.allocate(Layout { size: 4096, align: 8 }), None);
}

#[test]
fn fitting_request_sequences_all_succeed() {
    let mut allocator = heap(4096);
    // Worst-case consumption (adjusted size plus alignment slack) of all
    // requests together stays well under the heap size, so every single
    // one succeeds.
    let requests = [(24, 8), (100, 16), (7, 1), (64, 64), (200, 8), (16, 8), (1000, 8)];
    for (size, align) in requests {
        assert!(allocator.allocate(Layout { size, align }).is_some());
    }
}

#[test]
fn usability_check_is_overflow_safe() {
    // A region near the top of the address space with a huge alignment:
    // rounding its start up would overflow, which must read as "does not
    // fit", not wrap around.
    let region = ListNode::new(usize::MAX - 39, 32);
    assert_eq!(region.start_addr(), usize::MAX - 39);
    assert_eq!(region.end_addr(), usize::MAX - 7);
    let result = LinkedListAllocator::is_usable_free_region(&region, 16, 1usize << 63);
    assert_eq!(result, Err(()));
}

#[test]
fn usability_check_values() {
    let region = ListNode::new(HEAP_ADDR, 64);
    // Fits exactly.
    assert_eq!(LinkedListAllocator::is_usable_free_region(&region, 64, 8), Ok(HEAP_ADDR));
    // Fits with a usable remainder.
    assert_eq!(LinkedListAllocator::is_usable_free_region(&region, 48, 8), Ok(HEAP_ADDR));
    // Would leave an 8-byte sliver: rejected.
    assert_eq!(LinkedListAllocator::is_usable_free_region(&region, 56, 8), Err(()));
    // Too big.
    assert_eq!(LinkedListAllocator::is_usable_free_region(&region, 72, 8), Err(()));
}
