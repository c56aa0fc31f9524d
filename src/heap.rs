//! Size classes and the heap dispatcher.
use vstd::prelude::*;

use crate::early_heap::{contains_ptr, EarlyHeapAlloc, EarlyHeapPages};
use crate::early_heap::NR_EARLY_HEAP_PAGES;
use crate::slab::{lemma_aligned_gap, lemma_multiple_of_multiple, FreeSlabSlot};
use crate::{MAX_SLAB_SLOT_SIZE, MIN_SLAB_SLOT_SIZE, NR_SIZE_CLASSES};

verus! {

/// Whether `c` is one of the supported size classes, 16 through 2048.
pub open spec fn is_slot_size(c: int) -> bool {
    c == 16 || c == 32 || c == 64 || c == 128 || c == 256 || c == 512 || c == 1024 || c == 2048
}

/// The size class of an object of `n` bytes: the smallest supported class that
/// is at least `max(n, 16)`. Meaningful for `n <= 2048`.
pub open spec fn classify(n: int) -> int {
    if n <= 16 {
        16
    } else if n <= 32 {
        32
    } else if n <= 64 {
        64
    } else if n <= 128 {
        128
    } else if n <= 256 {
        256
    } else if n <= 512 {
        512
    } else if n <= 1024 {
        1024
    } else {
        2048
    }
}

/// The index of size class `c` (16 has index 0, 2048 has index 7).
pub open spec fn class_index(c: int) -> int {
    if c == 16 {
        0
    } else if c == 32 {
        1
    } else if c == 64 {
        2
    } else if c == 128 {
        3
    } else if c == 256 {
        4
    } else if c == 512 {
        5
    } else if c == 1024 {
        6
    } else {
        7
    }
}

/// The size class with index `k`.
pub open spec fn class_of_index(k: int) -> int {
    if k == 0 {
        16
    } else if k == 1 {
        32
    } else if k == 2 {
        64
    } else if k == 3 {
        128
    } else if k == 4 {
        256
    } else if k == 5 {
        512
    } else if k == 6 {
        1024
    } else {
        2048
    }
}

/// The index of the size class `slot_size`.
pub fn slot_size_index(slot_size: usize) -> (r: usize)
    requires
        is_slot_size(slot_size as int),
    ensures
        r == class_index(slot_size as int),
        r < 8,
        class_of_index(r as int) == slot_size,
{
    if slot_size == 16 {
        0
    } else if slot_size == 32 {
        1
    } else if slot_size == 64 {
        2
    } else if slot_size == 128 {
        3
    } else if slot_size == 256 {
        4
    } else if slot_size == 512 {
        5
    } else if slot_size == 1024 {
        6
    } else {
        7
    }
}

/// `classify(n)` is the smallest supported class that is at least `max(n, 16)`.
pub proof fn lemma_classify_is_smallest_class(n: int)
    requires
        0 <= n <= MAX_SLAB_SLOT_SIZE,
    ensures
        is_slot_size(classify(n)),
        classify(n) >= n,
        classify(n) >= MIN_SLAB_SLOT_SIZE,
        forall|c: int| is_slot_size(c) && c >= n ==> classify(n) <= c,
{
}

/// Determines the slot size (size class) that matches an object of `obj_size` bytes.
pub fn determine_slot_size(obj_size: usize) -> (r: usize)
    requires
        obj_size <= MAX_SLAB_SLOT_SIZE,
    ensures
        r == classify(obj_size as int),
{
    let mut slot_size: usize = MIN_SLAB_SLOT_SIZE;
    while slot_size < obj_size
        invariant
            obj_size <= MAX_SLAB_SLOT_SIZE,
            is_slot_size(slot_size as int),
            slot_size == MIN_SLAB_SLOT_SIZE || slot_size / 2 < obj_size,
        decreases MAX_SLAB_SLOT_SIZE - slot_size,
    {
        slot_size = slot_size * 2;
    }
    slot_size
}

/// Whether a slot of `real_slot_size` bytes is the one that serves objects of
/// `obj_size` bytes.
pub fn does_slot_size_match_obj_size(real_slot_size: usize, obj_size: usize) -> (r: bool)
    requires
        obj_size <= MAX_SLAB_SLOT_SIZE,
    ensures
        r == (real_slot_size == classify(obj_size as int)),
{
    real_slot_size == determine_slot_size(obj_size)
}

/// A slot-allocation strategy for one size class: it hands out free slots on
/// behalf of a CPU and takes back slots that were in use.
pub trait SlabSlotAlloc: Sized {
    /// The strategy's invariant.
    spec fn inv(&self) -> bool;

    /// The size of the slots it serves, in bytes.
    spec fn slot_bytes(&self) -> int;

    /// The number of CPUs it serves; CPU identifiers are below it.
    spec fn cpu_count(&self) -> int;

    /// The addresses of all the slots it manages.
    spec fn slots(&self) -> Set<int>;

    /// The addresses of the slots it can hand out.
    spec fn available(&self) -> Set<int>;

    /// The addresses of the slots it hands out first to `cpu`: while one is
    /// left, an allocation on behalf of `cpu` succeeds.
    spec fn available_to(&self, cpu: int) -> Set<int>;

    /// Hands out an available slot on behalf of `cpu`, or none.
    fn alloc_slot(&mut self, cpu: usize) -> (r: Option<FreeSlabSlot>)
        requires
            old(self).inv(),
            cpu < old(self).cpu_count(),
        ensures
            final(self).inv(),
            final(self).slot_bytes() == old(self).slot_bytes(),
            final(self).cpu_count() == old(self).cpu_count(),
            final(self).slots() == old(self).slots(),
            final(self).available().subset_of(final(self).slots()),
            r matches Some(slot) ==> {
                &&& old(self).available().contains(slot.addr())
                &&& final(self).available() == old(self).available().remove(slot.addr())
                &&& slot.slot_size() == old(self).slot_bytes()
            },
            r is None ==> final(self).available() == old(self).available(),
            !old(self).available_to(cpu as int).is_empty() ==> r is Some,
    ;

    /// The available slots are slots of the strategy, and every slot is
    /// aligned to the slot size.
    proof fn lemma_available_within_slots(&self)
        requires
            self.inv(),
        ensures
            self.available().subset_of(self.slots()),
            forall|a: int| #[trigger] self.slots().contains(a) ==> a % self.slot_bytes() == 0 && a > 0,
            forall|cpu: int| 0 <= cpu < self.cpu_count() ==> #[trigger] self.available_to(cpu).subset_of(self.available()),
    ;

    /// Takes back, on `cpu`, a slot of this strategy that is in use.
    fn recycle(&mut self, slot: FreeSlabSlot, cpu: usize)
        requires
            old(self).inv(),
            cpu < old(self).cpu_count(),
            old(self).slots().contains(slot.addr()),
            !old(self).available().contains(slot.addr()),
            slot.slot_size() == old(self).slot_bytes(),
            slot.is_unlinked(),
        ensures
            final(self).inv(),
            final(self).slot_bytes() == old(self).slot_bytes(),
            final(self).cpu_count() == old(self).cpu_count(),
            final(self).slots() == old(self).slots(),
            final(self).available().subset_of(final(self).slots()),
            final(self).available() == old(self).available().insert(slot.addr()),
    ;
}

/// One slot-allocation strategy per size class, for a number of CPUs.
pub struct SlabAllocators<A> {
    caches: Vec<A>,
    nr_cpus: usize,
}

impl<A: SlabSlotAlloc> SlabAllocators<A> {
    /// The strategies, by size class index.
    pub closed spec fn caches(&self) -> Seq<A> {
        self.caches@
    }

    /// The number of CPUs served.
    pub closed spec fn cpus(&self) -> int {
        self.nr_cpus as int
    }

    /// The invariant: strategy `k` serves size class `k` on every CPU.
    pub open spec fn wf(&self) -> bool {
        &&& self.caches().len() == NR_SIZE_CLASSES
        &&& forall|k: int|
            #![trigger self.caches()[k]]
            0 <= k < NR_SIZE_CLASSES ==> {
                &&& self.caches()[k].inv()
                &&& self.caches()[k].slot_bytes() == class_of_index(k)
                &&& self.cpus() <= self.caches()[k].cpu_count()
            }
    }

    /// Gathers the strategies of the size classes 16 through 2048, in this
    /// order, each serving `nr_cpus` CPUs.
    pub fn new(caches: Vec<A>, nr_cpus: usize) -> (r: Self)
        requires
            caches@.len() == NR_SIZE_CLASSES,
            forall|k: int|
                #![trigger caches@[k]]
                0 <= k < NR_SIZE_CLASSES ==> caches@[k].inv() && caches@[k].slot_bytes() == class_of_index(k)
                    && nr_cpus <= caches@[k].cpu_count(),
        ensures
            r.wf(),
            r.caches() == caches@,
            r.cpus() == nr_cpus,
    {
        SlabAllocators { caches, nr_cpus }
    }

    /// The number of CPUs served.
    pub fn nr_cpus(&self) -> (r: usize)
        ensures
            r == self.cpus(),
    {
        self.nr_cpus
    }
}

/// Which allocator serves requests at present.
#[derive(PartialEq, Eq, Structural, Clone, Copy, Debug)]
pub enum CurrentBackend {
    EarlyHeap,
    SlabCaches,
}

/// What an allocation request came to.
#[derive(PartialEq, Eq, Structural, Clone, Copy, Debug)]
pub enum AllocResult {
    /// The address of the memory handed out.
    Allocated(usize),
    /// No memory was available.
    Failed,
    /// The request is above the largest size class: the page allocator serves it.
    UsePageAllocator,
}

/// What a deallocation request came to.
#[derive(PartialEq, Eq, Structural, Clone, Copy, Debug)]
pub enum DeallocResult {
    /// The memory went back to the allocator that handed it out.
    Done,
    /// The request is above the largest size class: the page allocator takes it.
    UsePageAllocator,
}

/// The heap: the early heap while bootstrapping, then, once slab strategies
/// are injected, those strategies for new allocations.
pub struct HeapAlloc<A> {
    have_injected_slabs: bool,
    early_heap: EarlyHeapAlloc,
    slab_allocators: Option<SlabAllocators<A>>,
}

impl<A: SlabSlotAlloc> HeapAlloc<A> {
    /// Whether the slab strategies were injected.
    pub closed spec fn injected(&self) -> bool {
        self.have_injected_slabs
    }

    /// The early heap.
    pub closed spec fn early(&self) -> EarlyHeapAlloc {
        self.early_heap
    }

    /// The injected strategies.
    pub closed spec fn slabs(&self) -> SlabAllocators<A> {
        self.slab_allocators->0
    }

    /// The strategy of size class index `k`.
    pub open spec fn cache(&self, k: int) -> A {
        self.slabs().caches()[k]
    }

    /// The invariant: the strategies, once injected, are well-formed and none
    /// of their slots lies in the early heap's region.
    pub closed spec fn wf(&self) -> bool {
        &&& self.early_heap.wf()
        &&& self.have_injected_slabs == self.slab_allocators is Some
        &&& self.have_injected_slabs ==> {
            &&& self.slabs().wf()
            &&& slabs_outside_region(self.slabs(), self.early_heap.region())
            &&& slabs_disjoint(self.slabs())
        }
    }

    /// Whether the pair (`ptr`, `size`) was handed out by `allocate` and not freed
    /// since: a live slot of the early heap, or a slot of the strategy of its
    /// size class that the strategy does not hold as available.
    pub open spec fn can_free(&self, ptr: int, size: int) -> bool {
        let k = class_index(classify(size));
        &&& 0 <= size <= MAX_SLAB_SLOT_SIZE
        &&& if self.early().region().holds(ptr) {
            self.early().is_live(k, ptr)
        } else {
            &&& self.injected()
            &&& self.cache(k).slots().contains(ptr)
            &&& !self.cache(k).available().contains(ptr)
        }
    }

    /// Makes the heap over the early heap's `region`, bootstrapping.
    pub fn new(region: EarlyHeapPages) -> (r: Self)
        requires
            region.wf(),
        ensures
            r.wf(),
            !r.injected(),
            r.early().region() == region,
            r.early().used_pages() == 0,
            forall|k: int| 0 <= k < NR_SIZE_CLASSES ==> #[trigger] r.early().free(k).len() == 0,
    {
        HeapAlloc { have_injected_slabs: false, early_heap: EarlyHeapAlloc::new(region), slab_allocators: None }
    }

    /// Whether the slab strategies were injected.
    pub fn is_injected(&self) -> (r: bool)
        ensures
            r == self.injected(),
    {
        self.have_injected_slabs
    }

    /// The early heap.
    pub fn early_heap(&self) -> (r: &EarlyHeapAlloc)
        ensures
            *r == self.early(),
    {
        &self.early_heap
    }

    /// The number of CPUs the injected strategies serve; zero before injection.
    pub fn nr_cpus(&self) -> (r: usize)
        requires
            self.wf(),
        ensures
            self.injected() ==> r == self.slabs().cpus(),
            !self.injected() ==> r == 0,
    {
        match &self.slab_allocators {
            Some(s) => s.nr_cpus(),
            None => 0,
        }
    }

    /// The early heap's region.
    pub fn early_region(&self) -> (r: &EarlyHeapPages)
        ensures
            *r == self.early().region(),
    {
        self.early_heap.region_ref()
    }

    /// Installs the slab strategies; from then on they serve new allocations.
    /// Allowed once.
    pub fn inject_slab_allocators(&mut self, slab_allocators: SlabAllocators<A>)
        requires
            old(self).wf(),
            !old(self).injected(),
            slab_allocators.wf(),
            slabs_outside_region(slab_allocators, old(self).early().region()),
            slabs_disjoint(slab_allocators),
        ensures
            final(self).wf(),
            final(self).injected(),
            final(self).early() == old(self).early(),
            final(self).slabs() == slab_allocators,
    {
        self.slab_allocators = Some(slab_allocators);
        self.have_injected_slabs = true;
    }

    /// Which allocator serves new allocations.
    pub fn current_backend(&self) -> (r: CurrentBackend)
        ensures
            r == (if self.injected() {
                CurrentBackend::SlabCaches
            } else {
                CurrentBackend::EarlyHeap
            }),
    {
        if self.have_injected_slabs {
            CurrentBackend::SlabCaches
        } else {
            CurrentBackend::EarlyHeap
        }
    }
}

impl<A: SlabSlotAlloc> HeapAlloc<A> {
    fn take_cache(&mut self, k: usize) -> (r: A)
        requires
            old(self).wf(),
            old(self).injected(),
            k < NR_SIZE_CLASSES,
        ensures
            r == old(self).cache(k as int),
            final(self).slabs().caches() == old(self).slabs().caches().remove(k as int),
            final(self).slabs().cpus() == old(self).slabs().cpus(),
            final(self).early() == old(self).early(),
            final(self).injected(),
            final(self).slab_allocators is Some,
    {
        let mut slabs = self.slab_allocators.take().unwrap();
        let c = slabs.caches.remove(k);
        self.slab_allocators = Some(slabs);
        c
    }

    fn put_cache(&mut self, k: usize, c: A)
        requires
            old(self).slab_allocators is Some,
            k <= old(self).slabs().caches().len(),
        ensures
            final(self).slabs().caches() == old(self).slabs().caches().insert(k as int, c),
            final(self).slabs().cpus() == old(self).slabs().cpus(),
            final(self).early() == old(self).early(),
            final(self).injected() == old(self).injected(),
            final(self).slab_allocators is Some,
    {
        let mut slabs = self.slab_allocators.take().unwrap();
        slabs.caches.insert(k, c);
        self.slab_allocators = Some(slabs);
    }

    /// Allocates `size` bytes aligned to `align` on behalf of `cpu`, the CPU
    /// that the caller is pinned to with interrupts masked. Requests above the
    /// largest size class go to the page allocator. Otherwise the request is
    /// served from its size class: by the early heap while bootstrapping, by
    /// that class's strategy once injected.
    pub fn allocate(&mut self, size: usize, align: usize, cpu: usize) -> (r: AllocResult)
        requires
            old(self).wf(),
            align > 0,
            size <= MAX_SLAB_SLOT_SIZE ==> classify(size as int) % align as int == 0,
            old(self).injected() ==> cpu < old(self).slabs().cpus(),
        ensures
            final(self).wf(),
            final(self).injected() == old(self).injected(),
            forall|x: int, sz: int| #[trigger] old(self).can_free(x, sz) ==> final(self).can_free(x, sz),
            size > MAX_SLAB_SLOT_SIZE ==> r == AllocResult::UsePageAllocator && *final(self) == *old(self),
            r matches AllocResult::Allocated(a) ==> {
                &&& final(self).can_free(a as int, size as int)
                &&& !old(self).can_free(a as int, size as int)
                &&& a as int % align as int == 0
                &&& forall|x: int, sz: int| #[trigger] old(self).can_free(x, sz) ==> x + classify(sz) <= a
                    || a + classify(size as int) <= x
            },
            ({
                let k = class_index(classify(size as int));
                &&& size <= MAX_SLAB_SLOT_SIZE && !old(self).injected() ==> {
                    &&& r is UsePageAllocator ==> false
                    &&& r matches AllocResult::Allocated(a) ==> old(self).early().region().holds(a as int)
                    &&& r is Failed <==> old(self).early().free(k).len() == 0 && old(self).early().used_pages()
                        == crate::early_heap::NR_EARLY_HEAP_PAGES
                }
                &&& size <= MAX_SLAB_SLOT_SIZE && old(self).injected() ==> {
                    &&& r is UsePageAllocator ==> false
                    &&& final(self).early() == old(self).early()
                    &&& forall|j: int| 0 <= j < NR_SIZE_CLASSES && j != k ==> #[trigger] final(self).cache(j) == old(self).cache(j)
                    &&& final(self).cache(k).slots() == old(self).cache(k).slots()
                    &&& r matches AllocResult::Allocated(a) ==> {
                        &&& !old(self).early().region().holds(a as int)
                        &&& old(self).cache(k).available().contains(a as int)
                        &&& final(self).cache(k).available() == old(self).cache(k).available().remove(a as int)
                    }
                    &&& r is Failed ==> final(self).cache(k).available() == old(self).cache(k).available()
                }
            }),
    {
        if size > MAX_SLAB_SLOT_SIZE {
            return AllocResult::UsePageAllocator;
        }
        let slot_size = determine_slot_size(size);
        proof {
            lemma_classify_is_smallest_class(size as int);
        }
        let ghost k = class_index(slot_size as int);
        proof {
            self.early_heap.lemma_wf();
        }
        match self.current_backend() {
            CurrentBackend::EarlyHeap => {
                let r = self.early_heap.alloc_slot(slot_size);
                proof {
                    assert forall|x: int, sz: int| #[trigger] old(self).can_free(x, sz) implies self.can_free(x, sz) by {
                        let j = class_index(classify(sz));
                        lemma_classify_is_smallest_class(sz);
                        assert(old(self).early().is_live(j, x));
                    }
                    if r is Some {
                        let a = r->0 as int;
                        self.early_heap.lemma_carved_in_region(k, a);
                        lemma_multiple_of_multiple(a, slot_size as int, align as int);
                        assert forall|x: int, sz: int| #[trigger] old(self).can_free(x, sz) implies x + classify(sz) <= a
                            || a + classify(size as int) <= x by {
                            lemma_classify_is_smallest_class(sz);
                            assert(self.can_free(x, sz));
                            if x == a && class_index(classify(sz)) == class_index(classify(size as int)) {
                                assert(old(self).can_free(a, size as int));
                            }
                            self.lemma_live_blocks_disjoint(x, sz, a, size as int);
                        }
                    }
                }
                match r {
                    Some(a) => AllocResult::Allocated(a),
                    None => AllocResult::Failed,
                }
            },
            CurrentBackend::SlabCaches => {
                let ki = slot_size_index(slot_size);
                let mut c = self.take_cache(ki);
                proof {
                    assert(old(self).slabs().caches()[k] == c);
                }
                proof {
                    c.lemma_available_within_slots();
                }
                let r = c.alloc_slot(cpu);
                self.put_cache(ki, c);
                proof {
                    let before = old(self).slabs().caches();
                    assert(self.slabs().caches() =~= before.update(k, c));
                    assert forall|j: int, a: int|
                        0 <= j < NR_SIZE_CLASSES && #[trigger] self.slabs().caches()[j].slots().contains(a) implies !self.early().region().holds(a) by {
                        assert(before[j].slots().contains(a));
                    }
                    assert forall|x: int, sz: int| #[trigger] old(self).can_free(x, sz) implies self.can_free(x, sz) by {
                        lemma_classify_is_smallest_class(sz);
                    }
                    if r is Some {
                        let a = r->0.addr();
                        assert(before[k].slots().contains(a));
                        lemma_multiple_of_multiple(a, slot_size as int, align as int);
                        assert forall|x: int, sz: int| #[trigger] old(self).can_free(x, sz) implies x + classify(sz) <= a
                            || a + classify(size as int) <= x by {
                            lemma_classify_is_smallest_class(sz);
                            assert(self.can_free(x, sz));
                            if x == a && class_index(classify(sz)) == class_index(classify(size as int)) {
                                assert(old(self).can_free(a, size as int));
                            }
                            self.lemma_live_blocks_disjoint(x, sz, a, size as int);
                        }
                    }
                }
                match r {
                    Some(slot) => AllocResult::Allocated(slot.into_raw()),
                    None => AllocResult::Failed,
                }
            },
        }
    }

    /// Frees `ptr`, handed out by `allocate` for `size` bytes and not freed since,
    /// on behalf of `cpu`, the CPU that the caller is pinned to with interrupts
    /// masked. Requests above the largest size class go to the page allocator.
    /// A pointer in the early heap's region goes back to the early heap, before
    /// or after injection; any other goes back to the strategy of its size
    /// class, which follows its own policy for it.
    pub fn deallocate(&mut self, ptr: usize, size: usize, align: usize, cpu: usize) -> (r: DeallocResult)
        requires
            old(self).wf(),
            size <= MAX_SLAB_SLOT_SIZE ==> old(self).can_free(ptr as int, size as int),
            old(self).injected() ==> cpu < old(self).slabs().cpus(),
        ensures
            final(self).wf(),
            final(self).injected() == old(self).injected(),
            forall|x: int, sz: int| #[trigger] old(self).can_free(x, sz) && x != ptr ==> final(self).can_free(x, sz),
            size > MAX_SLAB_SLOT_SIZE ==> r == DeallocResult::UsePageAllocator && *final(self) == *old(self),
            size <= MAX_SLAB_SLOT_SIZE ==> r == DeallocResult::Done && !final(self).can_free(ptr as int, size as int),
            ({
                let k = class_index(classify(size as int));
                &&& size <= MAX_SLAB_SLOT_SIZE && old(self).early().region().holds(ptr as int) ==> {
                    &&& final(self).early().free(k) == old(self).early().free(k).push(ptr)
                    &&& final(self).slabs() == old(self).slabs()
                }
                &&& size <= MAX_SLAB_SLOT_SIZE && !old(self).early().region().holds(ptr as int) ==> {
                    &&& final(self).early() == old(self).early()
                    &&& forall|j: int| 0 <= j < NR_SIZE_CLASSES && j != k ==> #[trigger] final(self).cache(j) == old(self).cache(j)
                    &&& final(self).cache(k).slots() == old(self).cache(k).slots()
                    &&& final(self).cache(k).available() == old(self).cache(k).available().insert(ptr as int)
                }
            }),
    {
        if size > MAX_SLAB_SLOT_SIZE {
            return DeallocResult::UsePageAllocator;
        }
        let slot_size = determine_slot_size(size);
        proof {
            lemma_classify_is_smallest_class(size as int);
        }
        let ghost k = class_index(slot_size as int);
        proof {
            self.early_heap.lemma_wf();
        }
        if contains_ptr(self.early_heap.region_ref(), ptr) {
            self.early_heap.dealloc(ptr, slot_size);
            proof {
                assert forall|x: int, sz: int| #[trigger] old(self).can_free(x, sz) && x != ptr implies self.can_free(x, sz) by {
                    lemma_classify_is_smallest_class(sz);
                    let j = class_index(classify(sz));
                    assert(0 <= j < NR_SIZE_CLASSES);
                    if old(self).early().region().holds(x) {
                        old(self).early().lemma_carved_in_region(j, x);
                        old(self).early().lemma_wf();
                        assert(0 <= x <= usize::MAX);
                        assert(x as usize != ptr);
                        assert(self.early().carved(j) == old(self).early().carved(j));
                        let fj = old(self).early().free(j);
                        let nj = self.early().free(j);
                        assert(!fj.contains(x as usize));
                        if j == k {
                            assert(nj == fj.push(ptr));
                            if nj.contains(x as usize) {
                                let m = choose|m: int| 0 <= m < nj.len() && nj[m] == x as usize;
                                if m < fj.len() {
                                    assert(fj[m] == x as usize);
                                }
                            }
                        } else {
                            assert(nj == fj);
                        }
                        assert(self.early().is_live(j, x));
                    } else {
                        assert(self.slabs() == old(self).slabs());
                    }
                }
                let fk = self.early().free(k);
                assert(fk[fk.len() - 1] == ptr);
            }
            return DeallocResult::Done;
        }
        let ki = slot_size_index(slot_size);
        proof {
            self.cache(k).lemma_available_within_slots();
        }
        let slot = FreeSlabSlot::new(ptr, slot_size);
        let mut c = self.take_cache(ki);
        proof {
            assert(old(self).slabs().caches()[k] == c);
        }
        c.recycle(slot, cpu);
        self.put_cache(ki, c);
        proof {
            let before = old(self).slabs().caches();
            assert(self.slabs().caches() =~= before.update(k, c));
            assert forall|j: int, a: int|
                0 <= j < NR_SIZE_CLASSES && #[trigger] self.slabs().caches()[j].slots().contains(a) implies !self.early().region().holds(a) by {
                assert(before[j].slots().contains(a));
            }
            assert forall|x: int, sz: int| #[trigger] old(self).can_free(x, sz) && x != ptr implies self.can_free(x, sz) by {
                lemma_classify_is_smallest_class(sz);
            }
        }
        DeallocResult::Done
    }
}

/// Injects the slab strategies of every size class into `heap`. Allowed once.
pub fn inject_slab_allocators<A: SlabSlotAlloc>(heap: &mut HeapAlloc<A>, slab_alloc_array: SlabAllocators<A>)
    requires
        old(heap).wf(),
        !old(heap).injected(),
        slab_alloc_array.wf(),
        slabs_outside_region(slab_alloc_array, old(heap).early().region()),
        slabs_disjoint(slab_alloc_array),
    ensures
        final(heap).wf(),
        final(heap).injected(),
        final(heap).early() == old(heap).early(),
        final(heap).slabs() == slab_alloc_array,
{
    heap.inject_slab_allocators(slab_alloc_array);
}

impl<A: SlabSlotAlloc> HeapAlloc<A> {
    /// Two blocks that are live at once, and not one and the same block, do
    /// not overlap: each occupies its address up to its size class.
    pub proof fn lemma_live_blocks_disjoint(&self, x: int, sx: int, y: int, sy: int)
        requires
            self.wf(),
            self.can_free(x, sx),
            self.can_free(y, sy),
            x != y || class_index(classify(sx)) != class_index(classify(sy)),
        ensures
            x + classify(sx) <= y || y + classify(sy) <= x,
    {
        lemma_classify_is_smallest_class(sx);
        lemma_classify_is_smallest_class(sy);
        let jx = class_index(classify(sx));
        let jy = class_index(classify(sy));
        let cx = classify(sx);
        let cy = classify(sy);
        assert(class_of_index(jx) == cx && class_of_index(jy) == cy);
        let early = self.early();
        early.lemma_wf();
        let start = early.region().start();
        let end = start + NR_EARLY_HEAP_PAGES * 4096;
        let rx = early.region().holds(x);
        let ry = early.region().holds(y);
        if rx && ry {
            early.lemma_carved_disjoint(jx, jy, x, y);
        } else if rx || ry {
            let (e, je, ce, o, jo, co) = if rx {
                (x, jx, cx, y, jy, cy)
            } else {
                (y, jy, cy, x, jx, cx)
            };
            early.lemma_carved_in_region(je, e);
            self.cache(jo).lemma_available_within_slots();
            assert(self.cache(jo).slots().contains(o));
            assert(!early.region().holds(o));
            if o < start {
                assert(4096int % co == 0) by (nonlinear_arith)
                    requires
                        is_slot_size(co),
                ;
                lemma_multiple_of_multiple(start, 4096, co);
                lemma_aligned_gap(o, start, co);
            }
        } else {
            if jx == jy {
                self.cache(jx).lemma_available_within_slots();
                assert(self.cache(jx).slots().contains(x));
                assert(self.cache(jx).slots().contains(y));
                if x < y {
                    lemma_aligned_gap(x, y, cx);
                } else {
                    lemma_aligned_gap(y, x, cx);
                }
            } else {
                assert(self.slabs().caches()[jx].slots().contains(x));
                assert(self.slabs().caches()[jy].slots().contains(y));
            }
        }
    }
}

/// A pointer handed out while bootstrapping lies in the early heap's region and
/// stays freeable when the strategies are injected, which leave the early heap
/// as it was; `deallocate` then returns it to the early heap.
pub proof fn lemma_early_pointer_survives_injection<A: SlabSlotAlloc>(
    before: HeapAlloc<A>,
    after: HeapAlloc<A>,
    ptr: int,
    size: int,
)
    requires
        before.wf(),
        !before.injected(),
        before.can_free(ptr, size),
        after.early() == before.early(),
    ensures
        before.early().region().holds(ptr),
        after.can_free(ptr, size),
{
}

/// Whether the slots of strategies of different size classes never overlap.
pub open spec fn slabs_disjoint<A: SlabSlotAlloc>(s: SlabAllocators<A>) -> bool {
    forall|j: int, k: int, a: int, b: int|
        0 <= j < NR_SIZE_CLASSES && 0 <= k < NR_SIZE_CLASSES && j != k && #[trigger] s.caches()[j].slots().contains(a)
            && #[trigger] s.caches()[k].slots().contains(b) ==> a + class_of_index(j) <= b || b + class_of_index(k) <= a
}

/// Whether no slot of any of the strategies lies in the early heap's region.
pub open spec fn slabs_outside_region<A: SlabSlotAlloc>(s: SlabAllocators<A>, region: EarlyHeapPages) -> bool {
    forall|k: int, a: int|
        0 <= k < NR_SIZE_CLASSES && #[trigger] s.caches()[k].slots().contains(a) ==> !region.holds(a)
}

} // verus!
