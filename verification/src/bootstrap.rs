//! Pure decisions of the boot orchestrator: the fixed virtual-memory layout
//! and the page/frame pairing plan for the initial kernel heap.
//!
//! The architecture-level work — reading the page-table root, discarding the
//! pre-kernel identity mappings, mapping each planned page, flushing the
//! translation cache, and initializing the heap allocator over the mapped
//! range — is performed by the surrounding boot code, which executes this
//! plan one entry at a time. Any failure there is fatal: boot cannot
//! continue without a heap.

use vstd::arithmetic::div_mod::lemma_div_by_multiple;
use vstd::arithmetic::div_mod::lemma_div_is_ordered;
use vstd::prelude::*;

use crate::frame_allocator::BootInfoFrameAllocator;
use crate::frame_allocator::usable_frame_count;
use crate::frame_allocator::usable_frame_seq;

verus! {

/// Start of the kernel image in virtual memory: a canonical higher-half
/// address, bit 47 sign-extended through the upper bits.
pub const KERNEL_IMAGE_START: u64 = 0xFFFF_8000_0000_0000;

/// Start of the kernel stack mapping (canonical, sign-extended).
pub const KERNEL_STACK_START: u64 = 0xFFFF_9000_0000_0000;

/// Start of the kernel heap mapping (canonical, sign-extended).
pub const KERNEL_HEAP_START: u64 = 0xFFFF_A000_0000_0000;

/// Start of the linear mapping of all physical memory (canonical,
/// sign-extended).
pub const PHYSICAL_MAP_START: u64 = 0xFFFF_B000_0000_0000;

/// Size in bytes of the initial kernel heap.
pub const INITIAL_HEAP_SIZE: u64 = 100 * 1024;

/// First level-4 page-table index that belongs to the kernel half of the
/// address space. Entries below it are bootloader identity mappings that
/// the boot code zeroes out before the heap is mapped.
pub const KERNEL_L4_START_INDEX: usize = 0o400;

/// Base address of the page holding `addr`.
pub open spec fn page_base(addr: u64) -> int {
    4096 * (addr as int / 4096)
}

/// Number of pages the initial heap mapping covers: exactly the pages
/// touched by the half-open byte range `[heap_start, heap_start +
/// heap_size)`.
pub open spec fn heap_page_count(heap_start: u64, heap_size: u64) -> int {
    if heap_size == 0 {
        0
    } else {
        (heap_start + heap_size - 1) / 4096 - heap_start as int / 4096 + 1
    }
}

/// Plan the page-table mappings for the initial kernel heap: pair each page
/// of the heap range, in ascending order, with a freshly issued physical
/// frame.
///
/// Returns the pairs of page base address and frame base address when the
/// allocator holds enough frames, advancing its cursor by one per page;
/// returns the out-of-memory condition and leaves the allocator untouched
/// when it does not.
#[verifier::rlimit(50)]
pub fn plan_heap_mappings(
    allocator: &mut BootInfoFrameAllocator,
    heap_start: u64,
    heap_size: u64,
) -> (plan: Option<Vec<(u64, u64)>>)
    requires
        old(allocator).wf(),
        heap_start + heap_size <= u64::MAX,
    ensures
        final(allocator).catalog() == old(allocator).catalog(),
        final(allocator).wf(),
        (plan is Some) <==> old(allocator).cursor() + heap_page_count(heap_start, heap_size)
            <= usable_frame_count(old(allocator).catalog()),
        plan is None ==> *final(allocator) == *old(allocator),
        plan matches Some(v) ==> {
            &&& final(allocator).cursor() == old(allocator).cursor() + heap_page_count(
                heap_start,
                heap_size,
            )
            &&& v@.len() == heap_page_count(heap_start, heap_size)
            &&& forall|t: int|
                0 <= t < v@.len() ==> (#[trigger] v@[t]).0 == page_base(heap_start) + 4096 * t
                    && v@[t].1 == usable_frame_seq(old(allocator).catalog())[old(
                    allocator,
                ).cursor() + t]
        },
{
    let start_page = heap_start / 4096 * 4096;
    let n_pages: u64 = if heap_size == 0 {
        0
    } else {
        let last_page = (heap_start + heap_size - 1) / 4096 * 4096;
        proof {
            lemma_div_is_ordered(heap_start as int, heap_start + heap_size - 1, 4096);
            assert(last_page - start_page == 4096 * ((heap_start + heap_size - 1) / 4096
                - heap_start as int / 4096)) by (nonlinear_arith)
                requires
                    start_page == 4096 * (heap_start as int / 4096),
                    last_page == 4096 * ((heap_start + heap_size - 1) as int / 4096),
            ;
            lemma_div_by_multiple(
                (heap_start + heap_size - 1) / 4096 - heap_start as int / 4096,
                4096,
            );
        }
        (last_page - start_page) / 4096 + 1
    };
    proof {
        assert(n_pages == heap_page_count(heap_start, heap_size));
        assert(n_pages > 0 ==> start_page + 4096 * (n_pages - 1) <= u64::MAX);
    }
    let k = allocator.frames_issued();
    let total = allocator.usable_frames().len() as u64;
    if n_pages > total || k > total - n_pages {
        return None;
    }
    let ghost cat = allocator.catalog();
    let mut plan: Vec<(u64, u64)> = Vec::new();
    let mut page = start_page;
    let mut t: u64 = 0;
    while t < n_pages
        invariant
            allocator.wf(),
            allocator.catalog() == cat,
            allocator.cursor() == k + t,
            t <= n_pages,
            k + n_pages <= usable_frame_count(cat),
            usable_frame_count(cat) <= u64::MAX,
            start_page == page_base(heap_start),
            n_pages == heap_page_count(heap_start, heap_size),
            n_pages > 0 ==> start_page + 4096 * (n_pages - 1) <= u64::MAX,
            t < n_pages ==> page == start_page + 4096 * t,
            plan@.len() == t,
            forall|m: int|
                0 <= m < t ==> (#[trigger] plan@[m]).0 == start_page + 4096 * m && plan@[m].1
                    == usable_frame_seq(cat)[k + m],
        decreases n_pages - t,
    {
        let frame = match allocator.allocate_frame() {
            Some(frame) => frame,
            None => {
                return vstd::pervasive::unreached();
            },
        };
        plan.push((page, frame));
        t = t + 1;
        if t < n_pages {
            page = page + 4096;
        }
    }
    Some(plan)
}

} // verus!
