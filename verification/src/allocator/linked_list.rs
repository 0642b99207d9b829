//! General-purpose fallback allocator: free memory forms a list of
//! regions, served by first-fit search with region splitting. On the heap
//! each free region starts with a node header written into the free memory
//! itself; the allocator tracks those regions as plain (start, size)
//! values, which is exactly the information the embedded headers carry.
use vstd::arithmetic::div_mod::{lemma_add_mod_noop, lemma_mod_self_0, lemma_small_mod};
use vstd::prelude::*;

use crate::allocator::{
    align_up, align_up_spec, is_power_of_two, lemma_align_up, lemma_mod_transitive,
    lemma_pow2_divides, lemma_pow2_pos, Layout, HEADER_ALIGN, HEADER_SIZE,
};

verus! {

/// One free region `[start, start + size)`, as recorded by the node header
/// at its start.
#[derive(Debug, Clone, Copy, PartialEq, Eq, Structural)]
pub struct ListNode {
    pub size: usize,
    pub start: usize,
}

impl ListNode {
    pub fn new(start: usize, size: usize) -> (node: ListNode)
        ensures
            node.start == start,
            node.size == size,
    {
        ListNode { size, start }
    }

    pub fn start_addr(&self) -> (addr: usize)
        ensures
            addr == self.start,
    {
        self.start
    }

    pub fn end_addr(&self) -> (addr: usize)
        requires
            self.start + self.size <= usize::MAX,
        ensures
            addr == self.start + self.size,
    {
        self.start + self.size
    }
}

/// Two byte spans do not overlap.
pub open spec fn spans_disjoint(a1: int, s1: int, a2: int, s2: int) -> bool {
    a1 + s1 <= a2 || a2 + s2 <= a1
}

/// Two free regions do not overlap.
pub open spec fn regions_disjoint(a: ListNode, b: ListNode) -> bool {
    spans_disjoint(a.start as int, a.size as int, b.start as int, b.size as int)
}

/// A single region is sound on its own: big enough to host its node
/// header, aligned for it, and not wrapping around the address space.
pub open spec fn region_wf(r: ListNode) -> bool {
    &&& HEADER_SIZE <= r.size
    &&& r.start % HEADER_ALIGN == 0
    &&& r.start + r.size <= usize::MAX
}

/// `r` lies inside the heap span `[hs, he)`.
pub open spec fn region_in_heap(r: ListNode, hs: int, he: int) -> bool {
    hs <= r.start && r.start + r.size <= he
}

/// The free list as a whole is sound: every region is sound, inside the
/// heap, and no two regions overlap.
pub open spec fn regions_wf(regions: Seq<ListNode>, hs: int, he: int) -> bool {
    &&& 0 <= hs <= he <= usize::MAX
    &&& forall|i: int|
        0 <= i < regions.len() ==> region_wf(#[trigger] regions[i]) && region_in_heap(
            regions[i],
            hs,
            he,
        )
    &&& forall|i: int, j: int|
        0 <= i < j < regions.len() ==> regions_disjoint(
            #[trigger] regions[i],
            #[trigger] regions[j],
        )
}

/// Where an allocation would start inside region `r`: the region's start,
/// rounded up to the requested alignment.
pub open spec fn usable_alloc_start(r: ListNode, align: int) -> int {
    align_up_spec(r.start as int, align)
}

/// Whether region `r` can serve an (adjusted) request: the aligned
/// allocation fits, and the leftover tail is either empty or big enough to
/// host a node header of its own — a sub-header sliver would be
/// unreachable memory, so such a region is passed over entirely.
pub open spec fn region_usable(r: ListNode, size: int, align: int) -> bool {
    let alloc_end = usable_alloc_start(r, align) + size;
    let region_end = r.start + r.size;
    &&& alloc_end <= region_end
    &&& (region_end - alloc_end == 0 || region_end - alloc_end >= HEADER_SIZE)
}

/// Index of the first usable region at or after position `i`, if any.
pub open spec fn first_usable_from(regions: Seq<ListNode>, size: int, align: int, i: int) -> Option<
    int,
>
    decreases regions.len() - i,
{
    if i < 0 || i >= regions.len() {
        None
    } else if region_usable(regions[i], size, align) {
        Some(i)
    } else {
        first_usable_from(regions, size, align, i + 1)
    }
}

/// Index of the region a first-fit search selects, if any region is
/// usable.
pub open spec fn first_usable(regions: Seq<ListNode>, size: int, align: int) -> Option<int> {
    first_usable_from(regions, size, align, 0)
}

/// The free list after a region `[addr, addr + size)` is handed back: its
/// node is written at `addr` and pushed onto the head of the list.
pub open spec fn with_free_region(regions: Seq<ListNode>, addr: int, size: int) -> Seq<ListNode> {
    seq![(ListNode { size: size as usize, start: addr as usize })] + regions
}

/// How the request a caller hands in is widened before the free list is
/// searched: alignment raised to at least the node header's, so a freed
/// block can host a header.
pub open spec fn adjusted_align(layout: Layout) -> int {
    if layout.align >= HEADER_ALIGN {
        layout.align as int
    } else {
        HEADER_ALIGN as int
    }
}

/// The widened size: padded to a multiple of the adjusted alignment (so a
/// neighboring allocation stays aligned) and at least one node header (so
/// the block can rejoin the free list later).
pub open spec fn adjusted_size(layout: Layout) -> int {
    let padded = align_up_spec(layout.size as int, adjusted_align(layout));
    if padded >= HEADER_SIZE {
        padded
    } else {
        HEADER_SIZE as int
    }
}

/// Outcome of one allocation over the free list: the returned address (or
/// none) and the free list left behind. First-fit: the first usable region
/// is unlinked; a non-empty leftover tail is pushed back as a new region.
pub open spec fn spec_allocate(regions: Seq<ListNode>, layout: Layout) -> (Option<int>, Seq<
    ListNode,
>) {
    let size = adjusted_size(layout);
    let align = adjusted_align(layout);
    match first_usable(regions, size, align) {
        None => (None, regions),
        Some(j) => {
            let alloc_start = usable_alloc_start(regions[j], align);
            let alloc_end = alloc_start + size;
            let excess = regions[j].start + regions[j].size - alloc_end;
            let rest = regions.remove(j);
            if excess > 0 {
                (Some(alloc_start), with_free_region(rest, alloc_end, excess))
            } else {
                (Some(alloc_start), rest)
            }
        },
    }
}

/// What a first-fit search from position `i` finds: the index it returns
/// is in range, the region there is usable, and every region it passed
/// over is not — and when it finds nothing, no region from `i` on is
/// usable.
pub proof fn lemma_first_usable_from_props(regions: Seq<ListNode>, size: int, align: int, i: int)
    requires
        0 <= i,
    ensures
        match first_usable_from(regions, size, align, i) {
            Some(j) => i <= j < regions.len() && region_usable(regions[j], size, align) && (forall|
                k: int,
            | i <= k < j ==> !region_usable(#[trigger] regions[k], size, align)),
            None => forall|k: int|
                i <= k < regions.len() ==> !region_usable(#[trigger] regions[k], size, align),
        },
    decreases regions.len() - i,
{
    if i < regions.len() {
        if !region_usable(regions[i], size, align) {
            lemma_first_usable_from_props(regions, size, align, i + 1);
        }
    }
}

/// `a` lies entirely inside `b`.
pub open spec fn region_within(a: ListNode, b: ListNode) -> bool {
    b.start <= a.start && a.start + a.size <= b.start + b.size
}

/// `r` lies entirely inside one of the regions of `regions`.
pub open spec fn contained_in_some(r: ListNode, regions: Seq<ListNode>) -> bool {
    exists|m: int| 0 <= m < regions.len() && region_within(r, #[trigger] regions[m])
}

/// In a well-formed free list any two distinct regions are disjoint,
/// whichever order they are picked in.
pub proof fn lemma_wf_disjoint(regions: Seq<ListNode>, hs: int, he: int, x: int, y: int)
    requires
        regions_wf(regions, hs, he),
        0 <= x < regions.len(),
        0 <= y < regions.len(),
        x != y,
    ensures
        regions_disjoint(regions[x], regions[y]),
{
    if x < y {
        assert(regions_disjoint(regions[x], regions[y]));
    } else {
        assert(regions_disjoint(regions[y], regions[x]));
    }
}

/// What widening a well-formed request guarantees: the adjusted alignment
/// is a power of two, at least the header's, and a multiple of both the
/// header's and the requested alignment; the adjusted size covers the
/// request, can host a header, and is a multiple of the header alignment.
pub proof fn lemma_adjusted_layout(layout: Layout)
    requires
        layout.wf(),
    ensures
        1 <= layout.align,
        HEADER_ALIGN <= adjusted_align(layout),
        is_power_of_two(adjusted_align(layout)),
        adjusted_align(layout) % (HEADER_ALIGN as int) == 0,
        adjusted_align(layout) % (layout.align as int) == 0,
        HEADER_SIZE <= adjusted_size(layout),
        layout.size <= adjusted_size(layout),
        adjusted_size(layout) % (HEADER_ALIGN as int) == 0,
        adjusted_size(layout) <= usize::MAX,
{
    let aa = adjusted_align(layout);
    let la = layout.align as int;
    assert(is_power_of_two(8)) by {
        reveal_with_fuel(is_power_of_two, 5);
    }
    lemma_pow2_pos(la);
    lemma_align_up(layout.size as int, aa);
    lemma_align_up(layout.size as int, la);
    if layout.align >= HEADER_ALIGN {
        lemma_pow2_divides(8, aa);
        lemma_mod_self_0(aa);
    } else {
        lemma_pow2_divides(la, 8);
        lemma_mod_self_0(8);
    }
    let padded = align_up_spec(layout.size as int, aa);
    if padded >= HEADER_SIZE {
        lemma_mod_transitive(padded, aa, 8);
    }
}

/// Outcome of one deallocation: the freed block, widened exactly as its
/// allocation was, goes back onto the head of the free list.
pub open spec fn spec_deallocate(regions: Seq<ListNode>, ptr: int, layout: Layout) -> Seq<
    ListNode,
> {
    with_free_region(regions, ptr, adjusted_size(layout))
}

/// Exhaustion is deterministic: once no free region can serve the
/// (adjusted) request, allocation returns failure and leaves the free
/// list untouched — never a wrongly-sized or incorrect pointer.
pub proof fn lemma_exhaustion_deterministic(regions: Seq<ListNode>, layout: Layout)
    requires
        forall|i: int|
            0 <= i < regions.len() ==> !region_usable(
                #[trigger] regions[i],
                adjusted_size(layout),
                adjusted_align(layout),
            ),
    ensures
        spec_allocate(regions, layout).0 is None,
        spec_allocate(regions, layout).1 == regions,
{
    lemma_first_usable_from_props(regions, adjusted_size(layout), adjusted_align(layout), 0);
}

/// Conversely, as long as some free region can serve the request,
/// allocation succeeds.
pub proof fn lemma_usable_region_means_success(regions: Seq<ListNode>, layout: Layout, i: int)
    requires
        0 <= i < regions.len(),
        region_usable(regions[i], adjusted_size(layout), adjusted_align(layout)),
    ensures
        spec_allocate(regions, layout).0 is Some,
{
    lemma_first_usable_from_props(regions, adjusted_size(layout), adjusted_align(layout), 0);
}

/// Split correctness: when the chosen region is larger than the adjusted
/// request, the remainder — exactly the unused bytes, never fewer than one
/// header — reappears at the head of the free list, discoverable by a
/// later allocation; when the leftover is zero the whole region is
/// consumed. (A region whose leftover would be a sub-header sliver is
/// never chosen at all: see `region_usable`.)
pub proof fn lemma_split_correctness(regions: Seq<ListNode>, hs: int, he: int, layout: Layout)
    requires
        regions_wf(regions, hs, he),
        layout.wf(),
        first_usable(regions, adjusted_size(layout), adjusted_align(layout)) is Some,
    ensures
        ({
            let j = first_usable(regions, adjusted_size(layout), adjusted_align(layout)).unwrap();
            let alloc_end = usable_alloc_start(regions[j], adjusted_align(layout)) + adjusted_size(
                layout,
            );
            let excess = regions[j].start + regions[j].size - alloc_end;
            &&& excess == 0 ==> spec_allocate(regions, layout).1 == regions.remove(j)
                && spec_allocate(regions, layout).1.len() == regions.len() - 1
            &&& excess > 0 ==> HEADER_SIZE <= excess && spec_allocate(regions, layout).1
                == with_free_region(regions.remove(j), alloc_end, excess) && spec_allocate(
                regions,
                layout,
            ).1[0].start == alloc_end && spec_allocate(regions, layout).1[0].size == excess
                && spec_allocate(regions, layout).1.len() == regions.len()
        }),
{
    let size = adjusted_size(layout);
    let align = adjusted_align(layout);
    lemma_adjusted_layout(layout);
    lemma_first_usable_from_props(regions, size, align, 0);
    let j = first_usable(regions, size, align).unwrap();
    lemma_align_up(regions[j].start as int, align);
    regions.remove_ensures(j);
    let alloc_end = usable_alloc_start(regions[j], align) + size;
    let excess = regions[j].start + regions[j].size - alloc_end;
    if excess > 0 {
        assert(spec_allocate(regions, layout).1[0] == (ListNode {
            size: excess as usize,
            start: alloc_end as usize,
        }));
    }
}

/// The free list left behind by a sequence of allocations, first to
/// last.
pub open spec fn spec_allocate_all(regions: Seq<ListNode>, layouts: Seq<Layout>) -> Seq<ListNode>
    decreases layouts.len(),
{
    if layouts.len() == 0 {
        regions
    } else {
        spec_allocate_all(spec_allocate(regions, layouts[0]).1, layouts.drop_first())
    }
}

/// Worst-case bytes one allocation consumes from a free region: the
/// adjusted size plus alignment slack.
pub open spec fn consumed_bound(layout: Layout) -> int {
    adjusted_size(layout) + adjusted_align(layout)
}

/// Worst-case bytes a sequence of allocations consumes.
pub open spec fn consumed_bound_all(layouts: Seq<Layout>) -> int
    decreases layouts.len(),
{
    if layouts.len() == 0 {
        0
    } else {
        consumed_bound(layouts[0]) + consumed_bound_all(layouts.drop_first())
    }
}

pub open spec fn all_wf(layouts: Seq<Layout>) -> bool {
    forall|i: int| 0 <= i < layouts.len() ==> (#[trigger] layouts[i]).wf()
}

pub proof fn lemma_consumed_bound_all_nonneg(layouts: Seq<Layout>)
    requires
        all_wf(layouts),
    ensures
        consumed_bound_all(layouts) >= 0,
    decreases layouts.len(),
{
    if layouts.len() > 0 {
        lemma_adjusted_layout(layouts[0]);
        assert(all_wf(layouts.drop_first())) by {
            assert(forall|i: int|
                0 <= i < layouts.drop_first().len() ==> #[trigger] layouts.drop_first()[i]
                    == layouts[i + 1]);
        }
        lemma_consumed_bound_all_nonneg(layouts.drop_first());
    }
}

/// One allocation from a single free region with room to spare: it
/// succeeds, splits, and leaves a single smaller region that ends where
/// the old one ended and loses at most `consumed_bound` bytes.
proof fn lemma_single_region_step(s: int, n: int, layout: Layout)
    requires
        layout.wf(),
        0 <= s,
        s + n <= usize::MAX,
        consumed_bound(layout) + HEADER_SIZE <= n,
    ensures
        ({
            let regions = with_free_region(Seq::<ListNode>::empty(), s, n);
            let (result, rest) = spec_allocate(regions, layout);
            let next_start = usable_alloc_start(regions[0], adjusted_align(layout))
                + adjusted_size(layout);
            &&& result is Some
            &&& rest == with_free_region(Seq::<ListNode>::empty(), next_start, s + n - next_start)
            &&& s <= next_start < s + consumed_bound(layout)
            &&& HEADER_SIZE <= s + n - next_start
        }),
{
    let regions = with_free_region(Seq::<ListNode>::empty(), s, n);
    let size = adjusted_size(layout);
    let align = adjusted_align(layout);
    lemma_adjusted_layout(layout);
    assert(regions.len() == 1);
    assert(regions[0] == (ListNode { size: n as usize, start: s as usize }));
    lemma_align_up(s, align);
    assert(region_usable(regions[0], size, align));
    let alloc_start = usable_alloc_start(regions[0], align);
    let next_start = alloc_start + size;
    let excess = s + n - next_start;
    assert(HEADER_SIZE <= excess);
    assert(regions.remove(0) =~= Seq::<ListNode>::empty());
    assert(spec_allocate(regions, layout).1 == with_free_region(
        Seq::<ListNode>::empty(),
        next_start,
        excess,
    ));
}

/// Liveness over whole runs of requests: starting from a fresh heap — a
/// single free region spanning it — every allocation in any finite
/// sequence of well-formed requests succeeds, as long as the sequence's
/// worst-case consumption (each request's adjusted size plus alignment
/// slack) plus one node header fits in the heap. (With deallocations in
/// between this need not hold: freed regions are not coalesced, so a
/// large request can fail even when enough total memory is free.)
pub proof fn lemma_fitting_request_sequence_succeeds(s: int, n: int, layouts: Seq<Layout>)
    requires
        0 <= s,
        s + n <= usize::MAX,
        HEADER_SIZE <= n,
        all_wf(layouts),
        consumed_bound_all(layouts) + HEADER_SIZE <= n,
    ensures
        forall|k: int|
            0 <= k < layouts.len() ==> spec_allocate(
                spec_allocate_all(with_free_region(Seq::<ListNode>::empty(), s, n), layouts.take(k)),
                #[trigger] layouts[k],
            ).0 is Some,
    decreases layouts.len(),
{
    if layouts.len() > 0 {
        let regions = with_free_region(Seq::<ListNode>::empty(), s, n);
        let rest = layouts.drop_first();
        assert(all_wf(rest)) by {
            assert(forall|i: int|
                0 <= i < rest.len() ==> #[trigger] rest[i] == layouts[i + 1]);
        }
        lemma_adjusted_layout(layouts[0]);
        lemma_consumed_bound_all_nonneg(rest);
        lemma_single_region_step(s, n, layouts[0]);
        let next_start = usable_alloc_start(regions[0], adjusted_align(layouts[0]))
            + adjusted_size(layouts[0]);
        let next_size = s + n - next_start;
        lemma_fitting_request_sequence_succeeds(next_start, next_size, rest);
        let next_regions = with_free_region(Seq::<ListNode>::empty(), next_start, next_size);
        assert forall|k: int| 0 <= k < layouts.len() implies spec_allocate(
            spec_allocate_all(regions, layouts.take(k)),
            #[trigger] layouts[k],
        ).0 is Some by {
            if k == 0 {
                assert(layouts.take(0) =~= Seq::<Layout>::empty());
                assert(spec_allocate_all(regions, layouts.take(0)) == regions);
            } else {
                let prefix = layouts.take(k);
                assert(prefix.len() == k && prefix[0] == layouts[0]);
                assert(prefix.drop_first() =~= rest.take(k - 1));
                assert(spec_allocate_all(regions, prefix) == spec_allocate_all(
                    next_regions,
                    rest.take(k - 1),
                ));
                assert(spec_allocate(
                    spec_allocate_all(next_regions, rest.take(k - 1)),
                    rest[k - 1],
                ).0 is Some);
                assert(rest[k - 1] == layouts[k]);
            }
        }
    }
}

/// On a fresh heap every allocation succeeds while there is room to
/// spare: a single free region spanning the whole heap serves any
/// well-formed request whose adjusted size, worst-case alignment slack
/// and one node header fit into the region.
pub proof fn lemma_fresh_heap_allocation_succeeds(heap_start: int, heap_size: int, layout: Layout)
    requires
        layout.wf(),
        0 <= heap_start,
        heap_start + heap_size <= usize::MAX,
        adjusted_size(layout) + adjusted_align(layout) + HEADER_SIZE <= heap_size,
    ensures
        spec_allocate(
            with_free_region(Seq::<ListNode>::empty(), heap_start, heap_size),
            layout,
        ).0 is Some,
{
    let regions = with_free_region(Seq::<ListNode>::empty(), heap_start, heap_size);
    lemma_adjusted_layout(layout);
    assert(regions.len() == 1);
    assert(regions[0] == (ListNode { size: heap_size as usize, start: heap_start as usize }));
    lemma_align_up(heap_start, adjusted_align(layout));
    assert(region_usable(regions[0], adjusted_size(layout), adjusted_align(layout)));
    lemma_usable_region_means_success(regions, layout, 0);
}

/// The general-purpose fallback allocator. `free_list` records the free
/// regions head-first; `heap_start`/`heap_end` delimit the one span of
/// memory handed over at initialization.
pub struct LinkedListAllocator {
    free_list: Vec<ListNode>,
    heap_start: usize,
    heap_end: usize,
}

impl LinkedListAllocator {
    /// The free regions, head of the list first.
    pub closed spec fn regions(&self) -> Seq<ListNode> {
        self.free_list@
    }

    pub closed spec fn heap_start(&self) -> int {
        self.heap_start as int
    }

    pub closed spec fn heap_end(&self) -> int {
        self.heap_end as int
    }

    pub open spec fn wf(&self) -> bool {
        regions_wf(self.regions(), self.heap_start(), self.heap_end())
    }

    /// An empty allocator managing no memory yet.
    pub fn new() -> (allocator: Self)
        ensures
            allocator.wf(),
            allocator.regions() == Seq::<ListNode>::empty(),
            allocator.heap_start() == 0,
            allocator.heap_end() == 0,
    {
        let allocator = LinkedListAllocator { free_list: Vec::new(), heap_start: 0, heap_end: 0 };
        proof {
            assert(allocator.regions() =~= Seq::<ListNode>::empty());
        }
        allocator
    }

    /// Hands the allocator its heap: the whole span `[heap_start,
    /// heap_start + heap_size)` becomes one free region. The caller
    /// guarantees exclusive ownership of a mapped, writable span; the
    /// arithmetic side of that contract is what the preconditions state.
    pub fn init(&mut self, heap_start: usize, heap_size: usize)
        requires
            old(self).regions().len() == 0,
            heap_start % HEADER_ALIGN == 0,
            HEADER_SIZE <= heap_size,
            heap_start + heap_size <= usize::MAX,
        ensures
            final(self).wf(),
            final(self).heap_start() == heap_start,
            final(self).heap_end() == heap_start + heap_size,
            final(self).regions() == with_free_region(
                Seq::<ListNode>::empty(),
                heap_start as int,
                heap_size as int,
            ),
    {
        self.heap_start = heap_start;
        self.heap_end = heap_start + heap_size;
        proof {
            assert(self.regions() =~= Seq::<ListNode>::empty());
        }
        self.return_free_region(heap_start, heap_size);
    }

    /// Pushes the free region `[address, address + size)` onto the head of
    /// the free list (on the heap: writes a node header at `address`).
    /// The region must be sound, lie inside the heap and overlap no region
    /// already free — freeing anything else corrupts the list, so those
    /// are preconditions.
    pub fn return_free_region(&mut self, address: usize, size: usize)
        requires
            old(self).wf(),
            address % HEADER_ALIGN == 0,
            HEADER_SIZE <= size,
            old(self).heap_start() <= address,
            address + size <= old(self).heap_end(),
            forall|i: int|
                0 <= i < old(self).regions().len() ==> spans_disjoint(
                    address as int,
                    size as int,
                    #[trigger] old(self).regions()[i].start as int,
                    old(self).regions()[i].size as int,
                ),
        ensures
            final(self).wf(),
            final(self).heap_start() == old(self).heap_start(),
            final(self).heap_end() == old(self).heap_end(),
            final(self).regions() == with_free_region(
                old(self).regions(),
                address as int,
                size as int,
            ),
    {
        let node = ListNode::new(address, size);
        self.free_list.insert(0, node);
        proof {
            let new_regions = self.regions();
            let old_regions = old(self).regions();
            assert(new_regions =~= with_free_region(old_regions, address as int, size as int));
            assert forall|i: int| 0 <= i < new_regions.len() implies region_wf(
                #[trigger] new_regions[i],
            ) && region_in_heap(new_regions[i], self.heap_start(), self.heap_end()) by {
                if i > 0 {
                    assert(new_regions[i] == old_regions[i - 1]);
                }
            }
            assert forall|i: int, j: int| 0 <= i < j < new_regions.len() implies regions_disjoint(
                #[trigger] new_regions[i],
                #[trigger] new_regions[j],
            ) by {
                if i == 0 {
                    assert(new_regions[j] == old_regions[j - 1]);
                } else {
                    assert(new_regions[i] == old_regions[i - 1]);
                    assert(new_regions[j] == old_regions[j - 1]);
                }
            }
        }
    }

    /// Whether the free region `region` can serve an adjusted request, and
    /// from which address. All address arithmetic is overflow-checked; a
    /// computation that would wrap means the region does not fit.
    pub fn is_usable_free_region(region: &ListNode, size: usize, align: usize) -> (r: Result<
        usize,
        (),
    >)
        requires
            1 <= align,
            region.start + region.size <= usize::MAX,
        ensures
            match r {
                Ok(alloc_start) => region_usable(*region, size as int, align as int)
                    && alloc_start as int == usable_alloc_start(*region, align as int),
                Err(_) => !region_usable(*region, size as int, align as int),
            },
    {
        proof {
            lemma_align_up(region.start as int, align as int);
        }
        // Start address for the allocation inside this region.
        let rem = region.start % align;
        let alloc_start = if rem == 0 {
            region.start
        } else {
            proof {
                lemma_small_mod((align - rem) as nat, align as nat);
            }
            match region.start.checked_add(align - rem) {
                Some(s) => s,
                None => {
                    return Err(());
                },
            }
        };
        // End address of the allocation (overflow-checked).
        let alloc_end = match alloc_start.checked_add(size) {
            Some(e) => e,
            None => {
                return Err(());
            },
        };
        // Does the allocation stay within the region?
        if alloc_end > region.end_addr() {
            return Err(());
        }
        // Unused tail of the region, were this allocation taken.
        let excess_size = region.end_addr() - alloc_end;
        // A tail too small to host a node header would be lost memory:
        // reject the region and let the search look further.
        if excess_size > 0 && excess_size < HEADER_SIZE {
            return Err(());
        }
        Ok(alloc_start)
    }

    /// First-fit search: walks the list head to tail and unlinks the first
    /// region that can serve the request, returning it together with the
    /// aligned allocation start inside it.
    pub fn take_free_region(&mut self, size: usize, align: usize) -> (r: Option<(ListNode, usize)>)
        requires
            old(self).wf(),
            1 <= align,
        ensures
            final(self).heap_start() == old(self).heap_start(),
            final(self).heap_end() == old(self).heap_end(),
            final(self).wf(),
            match r {
                Some(taken) => first_usable(old(self).regions(), size as int, align as int)
                    matches Some(j) && taken.0 == old(self).regions()[j] && taken.1 as int
                    == usable_alloc_start(taken.0, align as int) && final(self).regions() == old(
                    self,
                ).regions().remove(j),
                None => first_usable(old(self).regions(), size as int, align as int) is None
                    && final(self).regions() == old(self).regions(),
            },
    {
        let mut idx: usize = 0;
        while idx < self.free_list.len()
            invariant
                *self == *old(self),
                old(self).wf(),
                1 <= align,
                idx <= self.free_list.len(),
                first_usable(self.regions(), size as int, align as int) == first_usable_from(
                    self.regions(),
                    size as int,
                    align as int,
                    idx as int,
                ),
            decreases self.free_list.len() - idx,
        {
            let region = self.free_list[idx];
            match Self::is_usable_free_region(&region, size, align) {
                Ok(alloc_start) => {
                    let removed = self.free_list.remove(idx);
                    proof {
                        old(self).regions().remove_ensures(idx as int);
                        assert forall|i: int| 0 <= i < self.regions().len() implies region_wf(
                            #[trigger] self.regions()[i],
                        ) && region_in_heap(
                            self.regions()[i],
                            self.heap_start(),
                            self.heap_end(),
                        ) by {
                            if i < idx {
                                assert(self.regions()[i] == old(self).regions()[i]);
                            } else {
                                assert(self.regions()[i] == old(self).regions()[i + 1]);
                            }
                        }
                        assert forall|i: int, j: int|
                            0 <= i < j < self.regions().len() implies regions_disjoint(
                            #[trigger] self.regions()[i],
                            #[trigger] self.regions()[j],
                        ) by {
                            let oi = if i < idx {
                                i
                            } else {
                                i + 1
                            };
                            let oj = if j < idx {
                                j
                            } else {
                                j + 1
                            };
                            assert(self.regions()[i] == old(self).regions()[oi]);
                            assert(self.regions()[j] == old(self).regions()[oj]);
                        }
                    }
                    return Some((removed, alloc_start));
                },
                Err(_) => {
                    idx = idx + 1;
                },
            }
        }
        None
    }

    /// Widens a request as `adjusted_size`/`adjusted_align` describe, so
    /// that whatever is handed out can later rejoin the free list as a
    /// sound region.
    pub fn size_align(layout: Layout) -> (r: (usize, usize))
        requires
            layout.wf(),
        ensures
            r.0 as int == adjusted_size(layout),
            r.1 as int == adjusted_align(layout),
    {
        proof {
            lemma_adjusted_layout(layout);
        }
        let align = if layout.align >= HEADER_ALIGN {
            layout.align
        } else {
            HEADER_ALIGN
        };
        let padded = align_up(layout.size, align);
        let size = if padded >= HEADER_SIZE {
            padded
        } else {
            HEADER_SIZE
        };
        (size, align)
    }

    /// Serves one request from the free list: first-fit search, then — if
    /// the chosen region is larger than needed — a split that returns the
    /// tail to the list. Returns the aligned start address of the
    /// allocation, or `None` when no region can serve the request, the
    /// allocator's only out-of-memory signal.
    pub fn allocate(&mut self, layout: Layout) -> (r: Option<usize>)
        requires
            old(self).wf(),
            layout.wf(),
        ensures
            final(self).wf(),
            final(self).heap_start() == old(self).heap_start(),
            final(self).heap_end() == old(self).heap_end(),
            final(self).regions() == spec_allocate(old(self).regions(), layout).1,
            match r {
                Some(addr) => spec_allocate(old(self).regions(), layout).0 == Some(addr as int),
                None => spec_allocate(old(self).regions(), layout).0 is None,
            },
            match r {
                Some(addr) => {
                    &&& addr % layout.align == 0
                    &&& old(self).heap_start() <= addr
                    &&& addr + adjusted_size(layout) <= old(self).heap_end()
                    &&& layout.size <= adjusted_size(layout)
                    &&& forall|i: int|
                        0 <= i < final(self).regions().len() ==> spans_disjoint(
                            addr as int,
                            adjusted_size(layout),
                            (#[trigger] final(self).regions()[i]).start as int,
                            final(self).regions()[i].size as int,
                        )
                },
                None => true,
            },
            match r {
                Some(addr) => first_usable(
                    old(self).regions(),
                    adjusted_size(layout),
                    adjusted_align(layout),
                ) matches Some(j) && old(self).regions()[j].start <= addr && addr + adjusted_size(
                    layout,
                ) <= old(self).regions()[j].start + old(self).regions()[j].size,
                None => true,
            },
            forall|k: int|
                0 <= k < final(self).regions().len() ==> contained_in_some(
                    #[trigger] final(self).regions()[k],
                    old(self).regions(),
                ),
    {
        proof {
            lemma_adjusted_layout(layout);
        }
        let (size, align) = Self::size_align(layout);
        let ghost old_regions = self.regions();
        match self.take_free_region(size, align) {
            Some((region, alloc_start)) => {
                let ghost j = first_usable(old_regions, size as int, align as int).unwrap();
                proof {
                    lemma_first_usable_from_props(old_regions, size as int, align as int, 0);
                    assert(region_wf(region) && region_in_heap(
                        region,
                        self.heap_start(),
                        self.heap_end(),
                    ));
                    lemma_align_up(region.start as int, align as int);
                    old_regions.remove_ensures(j);
                }
                let alloc_end = alloc_start + size;
                let excess_size = region.end_addr() - alloc_end;
                proof {
                    // The allocation start (a multiple of the adjusted
                    // alignment) plus the adjusted size (a multiple of the
                    // header alignment) keeps the split point aligned.
                    lemma_mod_transitive(alloc_start as int, align as int, HEADER_ALIGN as int);
                    lemma_add_mod_noop(alloc_start as int, size as int, HEADER_ALIGN as int);
                    // The split-off tail lies inside the taken region, so
                    // it is disjoint from every remaining free region.
                    assert forall|i: int| 0 <= i < self.regions().len() implies spans_disjoint(
                        alloc_end as int,
                        excess_size as int,
                        (#[trigger] self.regions()[i]).start as int,
                        self.regions()[i].size as int,
                    ) by {
                        let oi = if i < j {
                            i
                        } else {
                            i + 1
                        };
                        assert(self.regions()[i] == old_regions[oi]);
                        lemma_wf_disjoint(
                            old_regions,
                            old(self).heap_start(),
                            old(self).heap_end(),
                            j,
                            oi,
                        );
                    }
                }
                if excess_size > 0 {
                    self.return_free_region(alloc_end, excess_size);
                }
                proof {
                    assert(self.regions() == spec_allocate(old_regions, layout).1);
                    // The returned block is aligned for the caller.
                    lemma_pow2_pos(layout.align as int);
                    lemma_mod_transitive(alloc_start as int, align as int, layout.align as int);
                    // The returned block overlaps no free region left
                    // behind, and every remaining region lies inside one
                    // of the regions that were free before.
                    assert forall|i: int| 0 <= i < self.regions().len() implies spans_disjoint(
                        alloc_start as int,
                        adjusted_size(layout),
                        (#[trigger] self.regions()[i]).start as int,
                        self.regions()[i].size as int,
                    ) by {
                        if excess_size > 0 && i == 0 {
                            assert(self.regions()[0].start == alloc_end);
                        } else {
                            let js = if excess_size > 0 {
                                i - 1
                            } else {
                                i
                            };
                            let oi = if js < j {
                                js
                            } else {
                                js + 1
                            };
                            assert(self.regions()[i] == old_regions[oi]);
                            lemma_wf_disjoint(
                                old_regions,
                                old(self).heap_start(),
                                old(self).heap_end(),
                                j,
                                oi,
                            );
                        }
                    }
                    assert forall|k: int| 0 <= k < self.regions().len() implies contained_in_some(
                        #[trigger] self.regions()[k],
                        old_regions,
                    ) by {
                        if excess_size > 0 && k == 0 {
                            assert(region_within(self.regions()[0], old_regions[j]));
                        } else {
                            let ks = if excess_size > 0 {
                                k - 1
                            } else {
                                k
                            };
                            let ok = if ks < j {
                                ks
                            } else {
                                ks + 1
                            };
                            assert(self.regions()[k] == old_regions[ok]);
                            assert(region_within(self.regions()[k], old_regions[ok]));
                        }
                    }
                }
                Some(alloc_start)
            },
            None => {
                proof {
                    assert forall|k: int| 0 <= k < self.regions().len() implies contained_in_some(
                        #[trigger] self.regions()[k],
                        old_regions,
                    ) by {
                        assert(region_within(self.regions()[k], old_regions[k]));
                    }
                }
                None
            },
        }
    }

    /// Returns one block to the free list. The caller must hand back the
    /// layout its allocation was made with; the freed span — widened
    /// exactly as at allocation time — must lie in the heap and overlap
    /// nothing that is already free, which is what a matching, not yet
    /// freed allocation guarantees.
    pub fn deallocate(&mut self, ptr: usize, layout: Layout)
        requires
            old(self).wf(),
            layout.wf(),
            ptr % HEADER_ALIGN == 0,
            old(self).heap_start() <= ptr,
            ptr + adjusted_size(layout) <= old(self).heap_end(),
            forall|i: int|
                0 <= i < old(self).regions().len() ==> spans_disjoint(
                    ptr as int,
                    adjusted_size(layout),
                    (#[trigger] old(self).regions()[i]).start as int,
                    old(self).regions()[i].size as int,
                ),
        ensures
            final(self).wf(),
            final(self).heap_start() == old(self).heap_start(),
            final(self).heap_end() == old(self).heap_end(),
            final(self).regions() == spec_deallocate(old(self).regions(), ptr as int, layout),
    {
        proof {
            lemma_adjusted_layout(layout);
        }
        let (size, _align) = Self::size_align(layout);
        self.return_free_region(ptr, size);
    }
}

} // verus!
