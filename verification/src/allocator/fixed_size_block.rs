//! Segregated fixed-size-block allocator: nine power-of-two size classes,
//! each owning a LIFO stack of free blocks of exactly that class's size
//! and alignment. Requests that fit no class, and classes whose stack is
//! empty, fall through to the linked-list allocator.
use vstd::prelude::*;

use crate::allocator::linked_list::{
    adjusted_align, adjusted_size, contained_in_some, first_usable,
    lemma_first_usable_from_props, region_within, spans_disjoint, spec_allocate, spec_deallocate,
    with_free_region, LinkedListAllocator, ListNode,
};
use crate::allocator::{
    align_up_spec, is_power_of_two, lemma_align_up, lemma_mod_transitive, lemma_pow2_divides,
    lemma_pow2_pos, Layout, HEADER_ALIGN, HEADER_SIZE,
};
use vstd::arithmetic::div_mod::lemma_mod_self_0;

verus! {

/// Number of size classes.
pub const BLOCK_SIZE_COUNT: usize = 9;

/// Byte size (and alignment) of the blocks in class `c`: the powers of two
/// from 8 to 2048. No class is smaller than 8 bytes, as a free block must
/// hold a machine-word-sized reference to the next free block.
pub open spec fn block_size_spec(c: int) -> int {
    if c <= 0 {
        8
    } else if c == 1 {
        16
    } else if c == 2 {
        32
    } else if c == 3 {
        64
    } else if c == 4 {
        128
    } else if c == 5 {
        256
    } else if c == 6 {
        512
    } else if c == 7 {
        1024
    } else {
        2048
    }
}

/// Executable table of the class block sizes.
pub fn block_size(c: usize) -> (size: usize)
    requires
        c < BLOCK_SIZE_COUNT,
    ensures
        size as int == block_size_spec(c as int),
{
    match c {
        0 => 8,
        1 => 16,
        2 => 32,
        3 => 64,
        4 => 128,
        5 => 256,
        6 => 512,
        7 => 1024,
        _ => 2048,
    }
}

/// Every class size is a power of two.
pub proof fn lemma_block_sizes_pow2()
    ensures
        forall|c: int| is_power_of_two(#[trigger] block_size_spec(c)),
{
    reveal_with_fuel(is_power_of_two, 12);
    assert forall|c: int| is_power_of_two(#[trigger] block_size_spec(c)) by {
        assert(is_power_of_two(8));
        assert(is_power_of_two(16));
        assert(is_power_of_two(32));
        assert(is_power_of_two(64));
        assert(is_power_of_two(128));
        assert(is_power_of_two(256));
        assert(is_power_of_two(512));
        assert(is_power_of_two(1024));
        assert(is_power_of_two(2048));
    }
}

/// The block size a request needs: a block must be big enough for the
/// requested size and, being aligned to its own size, aligned enough for
/// the requested alignment — so the maximum of the two.
pub open spec fn required_block_size(layout: Layout) -> int {
    if layout.size >= layout.align {
        layout.size as int
    } else {
        layout.align as int
    }
}

/// The class a request falls in: the smallest class whose blocks are big
/// enough, or none if even the largest class (2048 bytes) is too small.
pub open spec fn class_of(layout: Layout) -> Option<int> {
    let required = required_block_size(layout);
    if required <= 8 {
        Some(0)
    } else if required <= 16 {
        Some(1)
    } else if required <= 32 {
        Some(2)
    } else if required <= 64 {
        Some(3)
    } else if required <= 128 {
        Some(4)
    } else if required <= 256 {
        Some(5)
    } else if required <= 512 {
        Some(6)
    } else if required <= 1024 {
        Some(7)
    } else if required <= 2048 {
        Some(8)
    } else {
        None
    }
}

/// Classification is what it claims: the class found holds blocks no
/// smaller than `max(size, align)`, every class below it is too small (so
/// it is the smallest that fits), and a request beyond the largest class
/// gets no class.
pub proof fn lemma_classification_smallest(layout: Layout)
    ensures
        required_block_size(layout) <= 2048 ==> (class_of(layout) matches Some(c)
            && block_size_spec(c) >= required_block_size(layout) && (forall|j: int|
            0 <= j < c ==> block_size_spec(j) < required_block_size(layout))),
        required_block_size(layout) > 2048 ==> class_of(layout) is None,
{
}

/// The layout a fresh block for class `c` is requested with from the
/// fallback tier: the class's full size and alignment, never the
/// caller's smaller request — so every block of a class has one shape and
/// any later request mapped to the class can reuse it.
pub open spec fn block_layout(c: int) -> Layout {
    Layout { size: block_size_spec(c) as usize, align: block_size_spec(c) as usize }
}

/// The block layout of every class is a well-formed request, and widening
/// it never shrinks it below the class size.
pub proof fn lemma_block_layout_wf(c: int)
    requires
        0 <= c < BLOCK_SIZE_COUNT,
    ensures
        block_layout(c).wf(),
        block_size_spec(c) <= adjusted_size(block_layout(c)),
        adjusted_align(block_layout(c)) == block_size_spec(c),
{
    let bs = block_size_spec(c);
    lemma_block_sizes_pow2();
    lemma_mod_self_0(bs);
    lemma_align_up(bs, bs);
    assert(align_up_spec(bs, bs) == bs);
}

/// How many bytes a successful allocation for `layout` takes from the
/// free state: a whole class block when a class applies, the adjusted
/// request otherwise.
pub open spec fn granted_size(layout: Layout) -> int {
    match class_of(layout) {
        Some(c) => block_size_spec(c),
        None => adjusted_size(layout),
    }
}

/// The segregated-storage allocator. `list_heads` holds, per size class,
/// the LIFO stack of free block addresses (on the heap each free block
/// stores the address of the next in its first word); the linked-list
/// allocator underneath serves as fallback and as the mint for new class
/// blocks.
pub struct FixedSizeBlockAllocator {
    list_heads: Vec<Vec<usize>>,
    fallback_allocator: LinkedListAllocator,
}

/// The span of one free class block is sound: inside the heap and
/// aligned to the class's block size.
pub open spec fn block_wf(addr: int, c: int, hs: int, he: int) -> bool {
    &&& hs <= addr
    &&& addr + block_size_spec(c) <= he
    &&& addr % block_size_spec(c) == 0
}

impl FixedSizeBlockAllocator {
    /// The index of the class free list a request is served from, or `None`
    /// for requests that go to the fallback allocator whole.
    pub fn get_list_index(layout: &Layout) -> (r: Option<usize>)
        ensures
            match r {
                Some(c) => c < BLOCK_SIZE_COUNT && class_of(*layout) == Some(c as int),
                None => class_of(*layout) is None,
            },
    {
        // A layout's block size is the maximum of its size and alignment.
        let required = if layout.size >= layout.align {
            layout.size
        } else {
            layout.align
        };
        let mut c: usize = 0;
        while c < BLOCK_SIZE_COUNT
            invariant
                c <= BLOCK_SIZE_COUNT,
                required as int == required_block_size(*layout),
                // The classes are ordered, so passing class c - 1 over means
                // every class below c was too small.
                c == 0 || block_size_spec(c as int - 1) < required,
            decreases BLOCK_SIZE_COUNT - c,
        {
            if block_size(c) >= required {
                return Some(c);
            }
            c = c + 1;
        }
        None
    }

    /// The free stacks, one per class; the last element of a stack is its
    /// head, the next block handed out.
    pub closed spec fn stacks(&self) -> Seq<Seq<usize>> {
        self.list_heads@.map_values(|stack: Vec<usize>| stack@)
    }

    /// The fallback allocator's free regions.
    pub closed spec fn fallback_regions(&self) -> Seq<ListNode> {
        self.fallback_allocator.regions()
    }

    pub closed spec fn heap_start(&self) -> int {
        self.fallback_allocator.heap_start()
    }

    pub closed spec fn heap_end(&self) -> int {
        self.fallback_allocator.heap_end()
    }

    pub closed spec fn fallback_wf(&self) -> bool {
        self.fallback_allocator.wf()
    }

    /// The span `[addr, addr + size)` overlaps nothing the allocator
    /// considers free: no parked class block and no fallback region. This
    /// holds of every span handed out, and conversely is what a caller
    /// owning an allocation guarantees when freeing it.
    pub open spec fn disjoint_from_free(&self, addr: int, size: int) -> bool {
        &&& forall|c: int, k: int|
            0 <= c < BLOCK_SIZE_COUNT && 0 <= k < self.stacks()[c].len() ==> spans_disjoint(
                addr,
                size,
                #[trigger] self.stacks()[c][k] as int,
                block_size_spec(c),
            )
        &&& forall|i: int|
            0 <= i < self.fallback_regions().len() ==> spans_disjoint(
                addr,
                size,
                (#[trigger] self.fallback_regions()[i]).start as int,
                self.fallback_regions()[i].size as int,
            )
    }

    /// The whole two-tier state is sound: the fallback list is sound,
    /// there is one stack per class, every parked block is sound for its
    /// class, and no two free things — blocks or fallback regions —
    /// overlap.
    pub open spec fn wf(&self) -> bool {
        &&& self.fallback_wf()
        &&& self.stacks().len() == BLOCK_SIZE_COUNT
        &&& forall|c: int, k: int|
            0 <= c < BLOCK_SIZE_COUNT && 0 <= k < self.stacks()[c].len() ==> block_wf(
                #[trigger] self.stacks()[c][k] as int,
                c,
                self.heap_start(),
                self.heap_end(),
            )
        &&& forall|c1: int, k1: int, c2: int, k2: int|
            #![trigger self.stacks()[c1][k1], self.stacks()[c2][k2]]
            0 <= c1 < BLOCK_SIZE_COUNT && 0 <= k1 < self.stacks()[c1].len() && 0 <= c2
                < BLOCK_SIZE_COUNT && 0 <= k2 < self.stacks()[c2].len() && (c1 != c2 || k1 != k2)
                ==> spans_disjoint(
                self.stacks()[c1][k1] as int,
                block_size_spec(c1),
                self.stacks()[c2][k2] as int,
                block_size_spec(c2),
            )
        &&& forall|c: int, k: int, i: int|
            #![trigger self.stacks()[c][k], self.fallback_regions()[i]]
            0 <= c < BLOCK_SIZE_COUNT && 0 <= k < self.stacks()[c].len() && 0 <= i
                < self.fallback_regions().len() ==> spans_disjoint(
                self.stacks()[c][k] as int,
                block_size_spec(c),
                self.fallback_regions()[i].start as int,
                self.fallback_regions()[i].size as int,
            )
    }

    /// A fresh allocator: every class stack empty, no heap yet.
    pub fn new() -> (allocator: Self)
        ensures
            allocator.wf(),
            allocator.stacks().len() == BLOCK_SIZE_COUNT,
            forall|c: int|
                0 <= c < BLOCK_SIZE_COUNT ==> (#[trigger] allocator.stacks()[c]).len() == 0,
            allocator.fallback_regions().len() == 0,
            allocator.heap_start() == 0,
            allocator.heap_end() == 0,
    {
        let mut list_heads: Vec<Vec<usize>> = Vec::new();
        let mut c: usize = 0;
        while c < BLOCK_SIZE_COUNT
            invariant
                c == list_heads@.len(),
                c <= BLOCK_SIZE_COUNT,
                forall|i: int| 0 <= i < c ==> (#[trigger] list_heads@[i])@.len() == 0,
            decreases BLOCK_SIZE_COUNT - c,
        {
            list_heads.push(Vec::new());
            c = c + 1;
        }
        let allocator = FixedSizeBlockAllocator {
            list_heads,
            fallback_allocator: LinkedListAllocator::new(),
        };
        proof {
            assert(forall|i: int|
                0 <= i < BLOCK_SIZE_COUNT ==> (#[trigger] allocator.stacks()[i]).len() == 0);
        }
        allocator
    }

    /// Hands the allocator its heap; the whole span goes to the fallback
    /// tier, and class stacks fill up lazily as blocks are freed.
    pub fn init(&mut self, heap_start: usize, heap_size: usize)
        requires
            old(self).wf(),
            forall|c: int|
                0 <= c < BLOCK_SIZE_COUNT ==> (#[trigger] old(self).stacks()[c]).len() == 0,
            old(self).fallback_regions().len() == 0,
            heap_start % HEADER_ALIGN == 0,
            HEADER_SIZE <= heap_size,
            heap_start + heap_size <= usize::MAX,
        ensures
            final(self).wf(),
            final(self).heap_start() == heap_start,
            final(self).heap_end() == heap_start + heap_size,
            final(self).stacks() == old(self).stacks(),
            final(self).fallback_regions() == with_free_region(
                Seq::<ListNode>::empty(),
                heap_start as int,
                heap_size as int,
            ),
    {
        self.fallback_allocator.init(heap_start, heap_size);
    }

    /// Delegates one request to the fallback allocator, preserving the
    /// two-tier invariant: whatever the fallback hands out or keeps free
    /// stays clear of every parked class block.
    fn fallback_alloc(&mut self, layout: Layout) -> (r: Option<usize>)
        requires
            old(self).wf(),
            layout.wf(),
        ensures
            final(self).wf(),
            final(self).heap_start() == old(self).heap_start(),
            final(self).heap_end() == old(self).heap_end(),
            final(self).stacks() == old(self).stacks(),
            final(self).fallback_regions() == spec_allocate(
                old(self).fallback_regions(),
                layout,
            ).1,
            match r {
                Some(addr) => spec_allocate(old(self).fallback_regions(), layout).0 == Some(
                    addr as int,
                ),
                None => spec_allocate(old(self).fallback_regions(), layout).0 is None,
            },
            match r {
                Some(addr) => {
                    &&& addr % layout.align == 0
                    &&& old(self).heap_start() <= addr
                    &&& addr + adjusted_size(layout) <= old(self).heap_end()
                    &&& layout.size <= adjusted_size(layout)
                    &&& final(self).disjoint_from_free(addr as int, adjusted_size(layout))
                },
                None => true,
            },
    {
        let ghost old_fallback = self.fallback_allocator.regions();
        let ghost old_stacks = self.stacks();
        let r = self.fallback_allocator.allocate(layout);
        proof {
            let new_fallback = self.fallback_allocator.regions();
            // Every region the fallback keeps lies inside a region that
            // was free before, so it stays disjoint from all class blocks.
            assert forall|c: int, k: int, i: int|
                #![trigger self.stacks()[c][k], self.fallback_regions()[i]]
                0 <= c < BLOCK_SIZE_COUNT && 0 <= k < self.stacks()[c].len() && 0 <= i
                    < self.fallback_regions().len() implies spans_disjoint(
                self.stacks()[c][k] as int,
                block_size_spec(c),
                self.fallback_regions()[i].start as int,
                self.fallback_regions()[i].size as int,
            ) by {
                assert(contained_in_some(new_fallback[i], old_fallback));
                let m = choose|m: int|
                    0 <= m < old_fallback.len() && region_within(
                        new_fallback[i],
                        #[trigger] old_fallback[m],
                    );
                assert(spans_disjoint(
                    old_stacks[c][k] as int,
                    block_size_spec(c),
                    old_fallback[m].start as int,
                    old_fallback[m].size as int,
                ));
            }
            // The block handed out came from inside a previously free
            // region, so it too is disjoint from every class block.
            if r is Some {
                let addr = r.unwrap() as int;
                let fu = first_usable(old_fallback, adjusted_size(layout), adjusted_align(layout));
                lemma_first_usable_from_props(
                    old_fallback,
                    adjusted_size(layout),
                    adjusted_align(layout),
                    0,
                );
                let j = fu.unwrap();
                assert forall|c: int, k: int|
                    0 <= c < BLOCK_SIZE_COUNT && 0 <= k < self.stacks()[c].len() implies
                    spans_disjoint(
                    addr,
                    adjusted_size(layout),
                    #[trigger] self.stacks()[c][k] as int,
                    block_size_spec(c),
                ) by {
                    assert(spans_disjoint(
                        old_stacks[c][k] as int,
                        block_size_spec(c),
                        old_fallback[j].start as int,
                        old_fallback[j].size as int,
                    ));
                }
            }
        }
        r
    }

    /// Serves one request: classify it; pop the class's free stack if it
    /// has a block (O(1), no search); otherwise mint a fresh block of the
    /// class's full shape from the fallback tier; and delegate requests
    /// beyond every class to the fallback with their original layout.
    /// `None` is the out-of-memory signal, never retried internally.
    pub fn allocate(&mut self, layout: Layout) -> (r: Option<usize>)
        requires
            old(self).wf(),
            layout.wf(),
        ensures
            final(self).wf(),
            final(self).heap_start() == old(self).heap_start(),
            final(self).heap_end() == old(self).heap_end(),
            match class_of(layout) {
                Some(c) => if old(self).stacks()[c].len() > 0 {
                    &&& r == Some(old(self).stacks()[c].last())
                    &&& final(self).stacks() == old(self).stacks().update(
                        c,
                        old(self).stacks()[c].drop_last(),
                    )
                    &&& final(self).fallback_regions() == old(self).fallback_regions()
                } else {
                    &&& (match r {
                        Some(addr) => spec_allocate(
                            old(self).fallback_regions(),
                            block_layout(c),
                        ).0 == Some(addr as int),
                        None => spec_allocate(
                            old(self).fallback_regions(),
                            block_layout(c),
                        ).0 is None,
                    })
                    &&& final(self).fallback_regions() == spec_allocate(
                        old(self).fallback_regions(),
                        block_layout(c),
                    ).1
                    &&& final(self).stacks() == old(self).stacks()
                },
                None => {
                    &&& (match r {
                        Some(addr) => spec_allocate(old(self).fallback_regions(), layout).0
                            == Some(addr as int),
                        None => spec_allocate(old(self).fallback_regions(), layout).0 is None,
                    })
                    &&& final(self).fallback_regions() == spec_allocate(
                        old(self).fallback_regions(),
                        layout,
                    ).1
                    &&& final(self).stacks() == old(self).stacks()
                },
            },
            match r {
                Some(addr) => {
                    &&& old(self).heap_start() <= addr
                    &&& addr + granted_size(layout) <= old(self).heap_end()
                    &&& addr % layout.align == 0
                    &&& layout.size <= granted_size(layout)
                    &&& final(self).disjoint_from_free(addr as int, granted_size(layout))
                },
                None => true,
            },
    {
        match Self::get_list_index(&layout) {
            Some(index) => {
                let ghost old_stacks = self.stacks();
                let ghost c = index as int;
                proof {
                    assert(self.list_heads@.len() == BLOCK_SIZE_COUNT);
                    lemma_block_sizes_pow2();
                    lemma_pow2_pos(layout.align as int);
                    lemma_pow2_divides(layout.align as int, block_size_spec(c));
                }
                let stack_len = self.list_heads[index].len();
                if stack_len > 0 {
                    // A block is parked in this class: reuse it directly.
                    let mut stack: Vec<usize> = Vec::new();
                    self.list_heads.set_and_swap(index, &mut stack);
                    let addr = stack.pop().unwrap();
                    self.list_heads.set(index, stack);
                    proof {
                        let new_stacks = self.stacks();
                        assert(new_stacks =~= old_stacks.update(c, old_stacks[c].drop_last()));
                        // Every block still parked was parked before, at
                        // the same place.
                        assert forall|c1: int, k1: int|
                            0 <= c1 < BLOCK_SIZE_COUNT && 0 <= k1 < new_stacks[c1].len() implies
                            #[trigger] new_stacks[c1][k1] == old_stacks[c1][k1] && k1
                            < old_stacks[c1].len() && (c1 != c || k1 < old_stacks[c].len()
                            - 1) by {}
                        lemma_mod_transitive(addr as int, block_size_spec(c), layout.align as int);
                    }
                    Some(addr)
                } else {
                    // The stack is empty: mint a block of the class's full
                    // size and alignment from the fallback allocator.
                    let class_size = block_size(index);
                    let class_block_layout = Layout { size: class_size, align: class_size };
                    proof {
                        lemma_block_layout_wf(c);
                        assert(class_block_layout == block_layout(c));
                    }
                    let r = self.fallback_alloc(class_block_layout);
                    proof {
                        if r is Some {
                            let addr = r.unwrap() as int;
                            lemma_mod_transitive(addr, block_size_spec(c), layout.align as int);
                            assert forall|c1: int, k1: int|
                                0 <= c1 < BLOCK_SIZE_COUNT && 0 <= k1
                                    < self.stacks()[c1].len() implies spans_disjoint(
                                addr,
                                granted_size(layout),
                                #[trigger] self.stacks()[c1][k1] as int,
                                block_size_spec(c1),
                            ) by {
                                assert(spans_disjoint(
                                    addr,
                                    adjusted_size(block_layout(c)),
                                    self.stacks()[c1][k1] as int,
                                    block_size_spec(c1),
                                ));
                            }
                            assert forall|i: int|
                                0 <= i < self.fallback_regions().len() implies spans_disjoint(
                                addr,
                                granted_size(layout),
                                (#[trigger] self.fallback_regions()[i]).start as int,
                                self.fallback_regions()[i].size as int,
                            ) by {
                                assert(spans_disjoint(
                                    addr,
                                    adjusted_size(block_layout(c)),
                                    self.fallback_regions()[i].start as int,
                                    self.fallback_regions()[i].size as int,
                                ));
                            }
                        }
                    }
                    r
                }
            },
            None => self.fallback_alloc(layout),
        }
    }

    /// Returns one block. The same classification as at allocation time
    /// (the class is a pure function of the layout) decides where it
    /// goes: onto its class's free stack — where it occupies the class's
    /// full byte size, whatever smaller size it was requested with — or
    /// back to the fallback allocator. The caller must hand back the
    /// layout of a matching, still-live allocation; that is what the
    /// span-disjointness preconditions state.
    pub fn deallocate(&mut self, ptr: usize, layout: Layout)
        requires
            old(self).wf(),
            layout.wf(),
            match class_of(layout) {
                Some(c) => {
                    &&& old(self).heap_start() <= ptr
                    &&& ptr + block_size_spec(c) <= old(self).heap_end()
                    &&& ptr as int % block_size_spec(c) == 0
                    &&& old(self).disjoint_from_free(ptr as int, block_size_spec(c))
                },
                None => {
                    &&& ptr % HEADER_ALIGN == 0
                    &&& old(self).heap_start() <= ptr
                    &&& ptr + adjusted_size(layout) <= old(self).heap_end()
                    &&& old(self).disjoint_from_free(ptr as int, adjusted_size(layout))
                },
            },
        ensures
            final(self).wf(),
            final(self).heap_start() == old(self).heap_start(),
            final(self).heap_end() == old(self).heap_end(),
            match class_of(layout) {
                Some(c) => final(self).stacks() == old(self).stacks().update(
                    c,
                    old(self).stacks()[c].push(ptr),
                ) && final(self).fallback_regions() == old(self).fallback_regions(),
                None => final(self).fallback_regions() == spec_deallocate(
                    old(self).fallback_regions(),
                    ptr as int,
                    layout,
                ) && final(self).stacks() == old(self).stacks(),
            },
    {
        match Self::get_list_index(&layout) {
            Some(index) => {
                let ghost old_stacks = self.stacks();
                let ghost c = index as int;
                proof {
                    assert(self.list_heads@.len() == BLOCK_SIZE_COUNT);
                }
                // Push the block onto its class's stack (on the heap:
                // write the old stack head into the block's first word).
                let mut stack: Vec<usize> = Vec::new();
                self.list_heads.set_and_swap(index, &mut stack);
                stack.push(ptr);
                self.list_heads.set(index, stack);
                proof {
                    let new_stacks = self.stacks();
                    assert(new_stacks =~= old_stacks.update(c, old_stacks[c].push(ptr)));
                    assert forall|c1: int, k1: int|
                        0 <= c1 < BLOCK_SIZE_COUNT && 0 <= k1 < new_stacks[c1].len() && (c1 != c
                            || k1 < old_stacks[c].len()) implies #[trigger] new_stacks[c1][k1]
                        == old_stacks[c1][k1] by {}
                    assert(new_stacks[c][old_stacks[c].len() as int] == ptr);
                }
            },
            None => {
                proof {
                    assert forall|i: int|
                        0 <= i < self.fallback_allocator.regions().len() implies spans_disjoint(
                        ptr as int,
                        adjusted_size(layout),
                        (#[trigger] self.fallback_allocator.regions()[i]).start as int,
                        self.fallback_allocator.regions()[i].size as int,
                    ) by {
                        assert(spans_disjoint(
                            ptr as int,
                            adjusted_size(layout),
                            (old(self).fallback_regions()[i]).start as int,
                            old(self).fallback_regions()[i].size as int,
                        ));
                    }
                }
                self.fallback_allocator.deallocate(ptr, layout);
                proof {
                    let new_fallback = self.fallback_regions();
                    let old_fallback = old(self).fallback_regions();
                    assert forall|c1: int, k1: int, i: int|
                        #![trigger self.stacks()[c1][k1], self.fallback_regions()[i]]
                        0 <= c1 < BLOCK_SIZE_COUNT && 0 <= k1 < self.stacks()[c1].len() && 0 <= i
                            < new_fallback.len() implies spans_disjoint(
                        self.stacks()[c1][k1] as int,
                        block_size_spec(c1),
                        new_fallback[i].start as int,
                        new_fallback[i].size as int,
                    ) by {
                        if i > 0 {
                            assert(new_fallback[i] == old_fallback[i - 1]);
                        } else {
                            assert(new_fallback[0].start == ptr && new_fallback[0].size
                                == adjusted_size(layout));
                        }
                    }
                }
            },
        }
    }
}

/// LIFO reuse, over the stack transitions `deallocate` and `allocate`
/// perform on one class: freeing block `b1` and then block `b2` into
/// class `c`, the next two allocations served from that class return
/// `b2` first and `b1` second, and leave every stack exactly as it was.
pub proof fn lemma_lifo_reuse(stacks: Seq<Seq<usize>>, c: int, b1: usize, b2: usize)
    requires
        0 <= c < stacks.len(),
    ensures
        ({
            let after_frees = stacks.update(c, stacks[c].push(b1).push(b2));
            let after_first = after_frees.update(c, after_frees[c].drop_last());
            let after_second = after_first.update(c, after_first[c].drop_last());
            &&& after_frees[c].len() >= 2
            &&& after_frees[c].last() == b2
            &&& after_first[c].len() >= 1
            &&& after_first[c].last() == b1
            &&& after_second == stacks
        }),
{
    let after_frees = stacks.update(c, stacks[c].push(b1).push(b2));
    let after_first = after_frees.update(c, after_frees[c].drop_last());
    let after_second = after_first.update(c, after_first[c].drop_last());
    assert(stacks[c].push(b1).push(b2).drop_last() =~= stacks[c].push(b1));
    assert(stacks[c].push(b1).drop_last() =~= stacks[c]);
    assert(after_second =~= stacks);
}

/// Fragmentation bound: every block parked in a size class occupies
/// exactly that class's byte size on the heap — a span of
/// `block_size(c)` bytes inside the heap, aligned to the class size —
/// regardless of the smaller size it may originally have been requested
/// with.
pub proof fn lemma_class_block_footprint(allocator: &FixedSizeBlockAllocator, c: int, k: int)
    requires
        allocator.wf(),
        0 <= c < BLOCK_SIZE_COUNT,
        0 <= k < allocator.stacks()[c].len(),
    ensures
        allocator.heap_start() <= allocator.stacks()[c][k],
        allocator.stacks()[c][k] + block_size_spec(c) <= allocator.heap_end(),
        allocator.stacks()[c][k] as int % block_size_spec(c) == 0,
{
}

} // verus!
