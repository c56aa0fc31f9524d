use slab_heap::early_heap::{contains_ptr, EarlyHeapAlloc, EarlyHeapPages, NR_EARLY_HEAP_PAGES};
use slab_heap::heap::{determine_slot_size, inject_slab_allocators, AllocResult, CurrentBackend, DeallocResult, HeapAlloc, SlabAllocators};
use slab_heap::slab_v3::LocklessSlabCache;

const REGION: usize = 0x100000;
const SLAB_PAGES: usize = 0x1000_0000;

fn lockless_caches(nr_cpus: usize) -> SlabAllocators<LocklessSlabCache> {
    let mut caches = Vec::new();
    for k in 0..8usize {
        let mut c = LocklessSlabCache::new(16 << k);
        let mut pages = Vec::new();
        for cpu in 0..nr_cpus {
            pages.push(SLAB_PAGES + (k * nr_cpus + cpu) * 4096);
        }
        c.init(pages);
        caches.push(c);
    }
    SlabAllocators::new(caches, nr_cpus)
}

#[test]
fn early_region_bounds() {
    let pages = EarlyHeapPages::new(REGION);
    assert!(contains_ptr(&pages, REGION));
    assert!(contains_ptr(&pages, REGION + NR_EARLY_HEAP_PAGES * 4096 - 1));
    assert!(!contains_ptr(&pages, REGION + NR_EARLY_HEAP_PAGES * 4096));
    assert!(!contains_ptr(&pages, REGION - 1));
}

#[test]
fn early_heap_carves_pages_per_class() {
    let mut early = EarlyHeapAlloc::new(EarlyHeapPages::new(REGION));
    assert_eq!(early.alloc_slot(32), Some(REGION));
    assert_eq!(early.nr_used_pages(), 1);
    assert_eq!(early.free_count(32), 127);
    assert_eq!(early.alloc_slot(32), Some(REGION + 32));
    assert_eq!(early.alloc_slot(64), Some(REGION + 4096));
    assert_eq!(early.nr_used_pages(), 2);
    early.dealloc(REGION, 32);
    assert_eq!(early.free_count(32), 127);
    assert_eq!(early.alloc_slot(32), Some(REGION));
}

#[test]
fn early_heap_exhaustion_fails() {
    let mut heap: HeapAlloc<LocklessSlabCache> = HeapAlloc::new(EarlyHeapPages::new(REGION));
    for _ in 0..512 {
        assert!(matches!(heap.allocate(2048, 8, 0), AllocResult::Allocated(_)));
    }
    assert_eq!(heap.allocate(2048, 8, 0), AllocResult::Failed);
    assert_eq!(heap.allocate(1500, 1, 0), AllocResult::Failed);
    assert_eq!(heap.early_heap().nr_used_pages(), 256);
}

#[test]
fn oversized_requests_go_to_page_allocator() {
    let mut heap: HeapAlloc<LocklessSlabCache> = HeapAlloc::new(EarlyHeapPages::new(REGION));
    assert_eq!(heap.allocate(2049, 8, 0), AllocResult::UsePageAllocator);
    assert_eq!(heap.deallocate(0x5000_0000, 8192, 8, 0), DeallocResult::UsePageAllocator);
    assert_eq!(heap.early_heap().nr_used_pages(), 0);
}

#[test]
fn bootstrap_then_injection() {
    let mut heap: HeapAlloc<LocklessSlabCache> = HeapAlloc::new(EarlyHeapPages::new(REGION));
    assert_eq!(heap.current_backend(), CurrentBackend::EarlyHeap);
    assert!(!heap.is_injected());
    let early = heap.allocate(24, 8, 0);
    assert_eq!(early, AllocResult::Allocated(REGION));
    assert_eq!(heap.allocate(10, 16, 0), AllocResult::Allocated(REGION + 4096));

    inject_slab_allocators(&mut heap, lockless_caches(2));
    assert!(heap.is_injected());
    assert_eq!(heap.current_backend(), CurrentBackend::SlabCaches);

    // new allocations come from the strategy of size class 32 on CPU 0
    let b = heap.allocate(24, 8, 0);
    assert_eq!(b, AllocResult::Allocated(SLAB_PAGES + 2 * 4096));
    assert!(!contains_ptr(heap.early_region(), SLAB_PAGES + 2 * 4096));

    // the pointer from before injection goes back to the early heap
    let before = heap.early_heap().free_count(32);
    assert_eq!(heap.deallocate(REGION, 24, 8, 1), DeallocResult::Done);
    assert_eq!(heap.early_heap().free_count(32), before + 1);

    // the slab pointer goes back to its strategy, and comes out again
    assert_eq!(heap.deallocate(SLAB_PAGES + 2 * 4096, 24, 8, 0), DeallocResult::Done);
    assert_eq!(heap.allocate(30, 2, 0), AllocResult::Allocated(SLAB_PAGES + 2 * 4096));
    assert_eq!(heap.early_heap().free_count(32), before + 1);
}

#[test]
fn injected_heap_per_cpu_and_exhaustion() {
    let mut heap: HeapAlloc<LocklessSlabCache> = HeapAlloc::new(EarlyHeapPages::new(REGION));
    heap.inject_slab_allocators(lockless_caches(2));
    // size class 2048 has two slots per CPU
    let k = 7usize;
    let cpu1_page = SLAB_PAGES + (k * 2 + 1) * 4096;
    assert_eq!(heap.allocate(2000, 8, 1), AllocResult::Allocated(cpu1_page));
    assert_eq!(heap.allocate(2000, 8, 1), AllocResult::Allocated(cpu1_page + 2048));
    assert_eq!(heap.allocate(2000, 8, 1), AllocResult::Failed);
    assert_eq!(heap.deallocate(cpu1_page, 2000, 8, 0), DeallocResult::Done);
    assert_eq!(heap.allocate(2000, 8, 1), AllocResult::Allocated(cpu1_page));
    assert_eq!(heap.early_heap().nr_used_pages(), 0);
}

#[test]
fn allocations_are_aligned_and_distinct() {
    let mut heap: HeapAlloc<LocklessSlabCache> = HeapAlloc::new(EarlyHeapPages::new(REGION));
    let mut seen = Vec::new();
    for size in [1usize, 17, 48, 100, 300, 600, 1500, 2048, 48, 17] {
        match heap.allocate(size, 16, 0) {
            AllocResult::Allocated(a) => {
                assert_eq!(a % 16, 0);
                let c = determine_slot_size(size);
                assert!(seen.iter().all(|&(x, cx): &(usize, usize)| x + cx <= a || a + c <= x));
                seen.push((a, c));
            }
            other => panic!("unexpected {:?}", other),
        }
    }
    assert_eq!(heap.nr_cpus(), 0);
    inject_slab_allocators(&mut heap, lockless_caches(1));
    assert_eq!(heap.nr_cpus(), 1);
    for size in [1usize, 17, 48, 100, 300, 600, 1500, 2048] {
        match heap.allocate(size, 8, 0) {
            AllocResult::Allocated(a) => {
                let c = determine_slot_size(size);
                assert_eq!(a % c, 0);
                assert!(seen.iter().all(|&(x, cx)| x + cx <= a || a + c <= x));
                seen.push((a, c));
            }
            other => panic!("unexpected {:?}", other),
        }
    }
}
